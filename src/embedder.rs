//! Embedders map a passage to a sparse term-weight vector. Weights are exact
//! rationals: each entry holds a numerator and the vector one denominator.
use vstd::prelude::*;
use unicode_segmentation::UnicodeSegmentation;
use crate::config::EmbedderKind;
use crate::text::{lex_less, lex_lt, lower_of, to_lowercase, views};

verus! {

/// Fixed-point scale of the weights of a trained token table: a weight `w`
/// of the table stands for `w / WEIGHT_SCALE`.
pub const WEIGHT_SCALE: u64 = 1_000_000;

/// The words of `s` under Unicode word segmentation (UAX #29).
pub uninterp spec fn words_of(s: Seq<char>) -> Seq<Seq<char>>;

/// Relies on `UnicodeSegmentation::unicode_words` of `unicode_segmentation`:
/// the words of `s`, in order, which depend on `s` alone.
#[verifier::external_body]
fn unicode_words(s: &str) -> (r: Vec<String>)
    ensures
        views(r@) == words_of(s@),
{
    s.unicode_words().map(|w| w.to_string()).collect()
}

/// The tokens of a text: its words, lowercased.
pub open spec fn tokens_of(s: Seq<char>) -> Seq<Seq<char>> {
    words_of(s).map_values(|w: Seq<char>| lower_of(w))
}

/// Number of occurrences of `t` in `toks`.
pub open spec fn count_in(toks: Seq<Seq<char>>, t: Seq<char>) -> nat
    decreases toks.len(),
{
    if toks.len() == 0 {
        0
    } else {
        count_in(toks.drop_last(), t) + if toks.last() == t {
            1nat
        } else {
            0nat
        }
    }
}

#[derive(Clone, Debug)]
pub struct TermWeight {
    pub token: String,
    pub weight: u64,
}

/// A sparse vector: the weight of `entries[k].token` is
/// `entries[k].weight / denominator`; a token without an entry weighs 0.
#[derive(Clone, Debug)]
pub struct SparseVector {
    pub entries: Vec<TermWeight>,
    pub denominator: u64,
}

impl SparseVector {
    /// A sparse vector holds each token once.
    pub open spec fn wf(&self) -> bool {
        unique_keys(self.entries@)
    }

    /// Whether each token is held once.
    pub fn is_well_formed(&self) -> (r: bool)
        ensures
            r == self.wf(),
    {
        let n = self.entries.len();
        let mut i: usize = 0;
        while i < n
            invariant
                0 <= i <= n,
                n == self.entries@.len(),
                forall|a: int, b: int| 0 <= a < i && a < b < n ==> (#[trigger] self.entries@[a]).token@
                    != (#[trigger] self.entries@[b]).token@,
            decreases n - i,
        {
            let mut j: usize = i + 1;
            while j < n
                invariant
                    i < n,
                    i + 1 <= j <= n,
                    n == self.entries@.len(),
                    forall|a: int, b: int| 0 <= a < i && a < b < n ==> (#[trigger] self.entries@[a]).token@
                        != (#[trigger] self.entries@[b]).token@,
                    forall|b: int| i < b < j ==> self.entries@[i as int].token@ != (#[trigger] self.entries@[b]).token@,
                decreases n - j,
            {
                if self.entries[i].token == self.entries[j].token {
                    return false;
                }
                j = j + 1;
            }
            i = i + 1;
        }
        true
    }
}

pub open spec fn unique_keys(v: Seq<TermWeight>) -> bool {
    forall|i: int, j: int| 0 <= i < j < v.len() ==> (#[trigger] v[i]).token@ != (#[trigger] v[j]).token@
}

pub open spec fn sum_weights(v: Seq<TermWeight>) -> int
    decreases v.len(),
{
    if v.len() == 0 {
        0
    } else {
        sum_weights(v.drop_last()) + v.last().weight
    }
}

/// Weight of the first entry of `table` for `t`.
pub open spec fn table_weight(table: Seq<TermWeight>, t: Seq<char>) -> Option<u64>
    decreases table.len(),
{
    if table.len() == 0 {
        None
    } else if table[0].token@ == t {
        Some(table[0].weight)
    } else {
        table_weight(table.drop_first(), t)
    }
}

/// `v` holds, for each token of `toks` that occurs at least `min` times, its
/// count, and nothing else.
pub open spec fn counts_of(v: Seq<TermWeight>, toks: Seq<Seq<char>>, min: nat) -> bool {
    &&& unique_keys(v)
    &&& forall|k: int| 0 <= k < v.len() ==> (#[trigger] v[k]).weight == count_in(toks, v[k].token@)
        && count_in(toks, v[k].token@) >= min && count_in(toks, v[k].token@) >= 1
    &&& forall|j: int| 0 <= j < toks.len() && count_in(toks, #[trigger] toks[j]) >= min ==> exists|k: int|
        0 <= k < v.len() && (#[trigger] v[k]).token@ == toks[j]
}

/// A term-frequency vector of `s`: counts of the tokens that occur at least
/// `min` times, over their sum.
pub open spec fn is_tf_vector(r: SparseVector, s: Seq<char>, min: nat) -> bool {
    &&& counts_of(r.entries@, tokens_of(s), min)
    &&& r.denominator == sum_weights(r.entries@)
}

proof fn lemma_count_bound(toks: Seq<Seq<char>>, t: Seq<char>)
    ensures
        count_in(toks, t) <= toks.len(),
    decreases toks.len(),
{
    if toks.len() > 0 {
        lemma_count_bound(toks.drop_last(), t);
    }
}

proof fn lemma_count_pos(toks: Seq<Seq<char>>, j: int)
    requires
        0 <= j < toks.len(),
    ensures
        count_in(toks, toks[j]) >= 1,
    decreases toks.len(),
{
    if j < toks.len() - 1 {
        lemma_count_pos(toks.drop_last(), j);
    }
}

pub(crate) proof fn lemma_sum_update(v: Seq<TermWeight>, k: int, e: TermWeight)
    requires
        0 <= k < v.len(),
    ensures
        sum_weights(v.update(k, e)) == sum_weights(v) - v[k].weight + e.weight,
    decreases v.len(),
{
    if k < v.len() - 1 {
        assert(v.update(k, e).drop_last() =~= v.drop_last().update(k, e));
        lemma_sum_update(v.drop_last(), k, e);
    } else {
        assert(v.update(k, e).drop_last() =~= v.drop_last());
    }
}

pub(crate) proof fn lemma_sum_nonneg(v: Seq<TermWeight>)
    ensures
        sum_weights(v) >= 0,
    decreases v.len(),
{
    if v.len() > 0 {
        lemma_sum_nonneg(v.drop_last());
    }
}

proof fn lemma_sum_prefix(v: Seq<TermWeight>, i: int)
    requires
        0 <= i <= v.len(),
    ensures
        sum_weights(v.take(i)) <= sum_weights(v),
    decreases v.len() - i,
{
    if i < v.len() {
        assert(v.take(i + 1).drop_last() =~= v.take(i));
        lemma_sum_prefix(v, i + 1);
    } else {
        assert(v.take(i) =~= v);
    }
}

/// Lowercased Unicode words of `text`.
pub fn tokenize(text: &str) -> (r: Vec<String>)
    ensures
        views(r@) == tokens_of(text@),
{
    let words = unicode_words(text);
    let mut out: Vec<String> = Vec::new();
    let mut i: usize = 0;
    while i < words.len()
        invariant
            0 <= i <= words@.len(),
            views(words@) == words_of(text@),
            views(out@) == words_of(text@).take(i as int).map_values(|w: Seq<char>| lower_of(w)),
        decreases words@.len() - i,
    {
        let w = to_lowercase(words[i].as_str());
        let ghost before = out@;
        out.push(w);
        proof {
            assert(words_of(text@)[i as int] == words@[i as int]@);
            assert(views(out@) =~= views(before).push(w@));
            assert(words_of(text@).take(i + 1).map_values(|w: Seq<char>| lower_of(w)) =~= words_of(
                text@,
            ).take(i as int).map_values(|w: Seq<char>| lower_of(w)).push(lower_of(words@[i as int]@)));
        }
        i = i + 1;
    }
    proof {
        assert(words_of(text@).take(i as int) =~= words_of(text@));
    }
    out
}

/// Counts of each distinct token of `toks`, in order of first occurrence.
fn count_tokens(toks: &Vec<String>) -> (r: Vec<TermWeight>)
    ensures
        counts_of(r@, views(toks@), 1),
        sum_weights(r@) == toks@.len(),
{
    let ghost all = views(toks@);
    let mut counts: Vec<TermWeight> = Vec::new();
    let mut i: usize = 0;
    while i < toks.len()
        invariant
            0 <= i <= toks@.len(),
            all == views(toks@),
            counts_of(counts@, all.take(i as int), 1),
            sum_weights(counts@) == i,
        decreases toks@.len() - i,
    {
        let ghost pre = all.take(i as int);
        let ghost post = all.take(i + 1);
        let ghost t = toks@[i as int]@;
        proof {
            assert(post.drop_last() =~= pre);
            assert(post.last() == t);
        }
        let pos = position_of(&counts, &toks[i]);
        let ghost before = counts@;
        if let Some(k) = pos {
            proof {
                lemma_count_bound(pre, t);
                lemma_sum_update(before, k as int, TermWeight { token: before[k as int].token, weight: (before[k as int].weight + 1) as u64 });
            }
            let w = counts[k].weight + 1;
            let tok = counts[k].token.clone();
            counts.set(k, TermWeight { token: tok, weight: w });
            proof {
                lemma_sum_update(before, k as int, counts@[k as int]);
                assert forall|m: int| 0 <= m < counts@.len() implies (#[trigger] counts@[m]).weight == count_in(
                    post,
                    counts@[m].token@,
                ) && count_in(post, counts@[m].token@) >= 1 by {
                    if m != k {
                        assert(counts@[m] == before[m]);
                    }
                }
                assert forall|j: int| 0 <= j < post.len() && count_in(post, #[trigger] post[j]) >= 1 implies exists|q: int|
                    0 <= q < counts@.len() && (#[trigger] counts@[q]).token@ == post[j] by {
                    if j < i {
                        assert(pre[j] == post[j]);
                        lemma_count_pos(pre, j);
                        let q = choose|q: int| 0 <= q < before.len() && (#[trigger] before[q]).token@ == pre[j];
                        assert(counts@[q].token@ == before[q].token@);
                    } else {
                        assert(counts@[k as int].token@ == post[j]);
                    }
                }
            }
        } else {
            let tok = toks[i].clone();
            counts.push(TermWeight { token: tok, weight: 1 });
            proof {
                assert(counts@.drop_last() =~= before);
                assert forall|m: int| 0 <= m < before.len() implies count_in(pre, (#[trigger] before[m]).token@) == count_in(post, before[m].token@) by {
                    assert(before[m].token@ != t);
                }
                assert forall|j: int| 0 <= j < post.len() && count_in(post, #[trigger] post[j]) >= 1 implies exists|q: int|
                    0 <= q < counts@.len() && (#[trigger] counts@[q]).token@ == post[j] by {
                    if j < i {
                        assert(pre[j] == post[j]);
                        lemma_count_pos(pre, j);
                        let q = choose|q: int| 0 <= q < before.len() && (#[trigger] before[q]).token@ == pre[j];
                        assert(counts@[q] == before[q]);
                    } else {
                        assert(counts@[i as int - i as int + before.len()].token@ == post[j]);
                    }
                }
                assert(count_in(pre, t) == 0) by {
                    if count_in(pre, t) > 0 {
                        lemma_count_occurs(pre, t);
                        let j = choose|j: int| 0 <= j < pre.len() && pre[j] == t;
                        lemma_count_pos(pre, j);
                    }
                }
            }
        }
        i = i + 1;
    }
    proof {
        assert(all.take(i as int) =~= all);
    }
    counts
}

/// Index of the entry of `v` for token `t`.
pub fn position_of(v: &Vec<TermWeight>, t: &String) -> (r: Option<usize>)
    ensures
        match r {
            Some(k) => k < v@.len() && v@[k as int].token@ == t@,
            None => forall|m: int| 0 <= m < v@.len() ==> (#[trigger] v@[m]).token@ != t@,
        },
{
    let mut k: usize = 0;
    while k < v.len()
        invariant
            0 <= k <= v@.len(),
            forall|m: int| 0 <= m < k ==> (#[trigger] v@[m]).token@ != t@,
        decreases v@.len() - k,
    {
        if v[k].token == *t {
            return Some(k);
        }
        k = k + 1;
    }
    None
}

proof fn lemma_count_occurs(toks: Seq<Seq<char>>, t: Seq<char>)
    requires
        count_in(toks, t) > 0,
    ensures
        exists|j: int| 0 <= j < toks.len() && toks[j] == t,
    decreases toks.len(),
{
    if toks.last() == t {
        assert(toks[toks.len() - 1] == t);
    } else {
        lemma_count_occurs(toks.drop_last(), t);
        let j = choose|j: int| 0 <= j < toks.drop_last().len() && toks.drop_last()[j] == t;
        assert(toks[j] == t);
    }
}


/// The entries of `v` of weight at least `min`, in order.
pub open spec fn at_least(v: Seq<TermWeight>, min: int) -> Seq<TermWeight>
    decreases v.len(),
{
    if v.len() == 0 {
        Seq::empty()
    } else if v.last().weight >= min {
        at_least(v.drop_last(), min).push(v.last())
    } else {
        at_least(v.drop_last(), min)
    }
}

proof fn lemma_at_least_sum(v: Seq<TermWeight>, min: int)
    ensures
        0 <= sum_weights(at_least(v, min)) <= sum_weights(v),
    decreases v.len(),
{
    if v.len() > 0 {
        lemma_at_least_sum(v.drop_last(), min);
        if v.last().weight >= min {
            assert(at_least(v, min).drop_last() =~= at_least(v.drop_last(), min));
        }
    }
}

proof fn lemma_at_least_sound(v: Seq<TermWeight>, min: int, m: int)
    requires
        0 <= m < at_least(v, min).len(),
    ensures
        exists|q: int| 0 <= q < v.len() && at_least(v, min)[m] == v[q] && v[q].weight >= min,
    decreases v.len(),
{
    let p = v.drop_last();
    let a = at_least(p, min);
    if v.last().weight >= min && m == a.len() {
        assert(at_least(v, min)[m] == v[v.len() - 1]);
    } else {
        lemma_at_least_sound(p, min, m);
        let q = choose|q: int| 0 <= q < p.len() && a[m] == p[q] && p[q].weight >= min;
        assert(at_least(v, min)[m] == v[q]);
    }
}

proof fn lemma_at_least_complete(v: Seq<TermWeight>, min: int, q: int)
    requires
        0 <= q < v.len(),
        v[q].weight >= min,
    ensures
        exists|m: int| 0 <= m < at_least(v, min).len() && at_least(v, min)[m] == v[q],
    decreases v.len(),
{
    let p = v.drop_last();
    let a = at_least(p, min);
    if q == v.len() - 1 {
        assert(at_least(v, min)[a.len() as int] == v[q]);
    } else {
        assert(p[q] == v[q]);
        lemma_at_least_complete(p, min, q);
        let m = choose|m: int| 0 <= m < a.len() && a[m] == p[q];
        if v.last().weight >= min {
            assert(at_least(v, min)[m] == a[m]);
        } else {
            assert(at_least(v, min) == a);
        }
    }
}

proof fn lemma_at_least_unique(v: Seq<TermWeight>, min: int)
    requires
        unique_keys(v),
    ensures
        unique_keys(at_least(v, min)),
    decreases v.len(),
{
    if v.len() > 0 {
        let p = v.drop_last();
        let a = at_least(p, min);
        assert(unique_keys(p)) by {
            assert forall|i: int, j: int| 0 <= i < j < p.len() implies (#[trigger] p[i]).token@ != (#[trigger] p[j]).token@ by {
                assert(p[i] == v[i] && p[j] == v[j]);
            }
        }
        lemma_at_least_unique(p, min);
        if v.last().weight >= min {
            let r = at_least(v, min);
            assert forall|i: int, j: int| 0 <= i < j < r.len() implies (#[trigger] r[i]).token@ != (#[trigger] r[j]).token@ by {
                assert(r[i] == a[i]);
                if j == a.len() {
                    lemma_at_least_sound(p, min, i);
                    let q = choose|q: int| 0 <= q < p.len() && a[i] == p[q] && p[q].weight >= min;
                    assert(v[q] == p[q]);
                    assert(r[j] == v[v.len() - 1]);
                } else {
                    assert(r[j] == a[j]);
                }
            }
        }
    }
}

/// Keeps the counts of at least `min`, over their sum.
fn normalize_counts(counts: Vec<TermWeight>, min: u64, n: usize, Ghost(toks): Ghost<Seq<Seq<char>>>) -> (r: SparseVector)
    requires
        counts_of(counts@, toks, 1),
        sum_weights(counts@) == n,
    ensures
        counts_of(r.entries@, toks, min as nat),
        r.denominator == sum_weights(r.entries@),
{
    let mut kept: Vec<TermWeight> = Vec::new();
    let mut total: u64 = 0;
    let mut j: usize = 0;
    proof {
        assert(counts@.take(0) =~= Seq::<TermWeight>::empty());
    }
    while j < counts.len()
        invariant
            0 <= j <= counts@.len(),
            unique_keys(counts@),
            sum_weights(counts@) == n,
            total == sum_weights(kept@),
            kept@ == at_least(counts@.take(j as int), min as int),
        decreases counts@.len() - j,
    {
        proof {
            assert(counts@.take(j + 1).drop_last() =~= counts@.take(j as int));
            lemma_sum_prefix(counts@, j + 1);
            assert forall|q: int, w: int| 0 <= q < w < j + 1 implies (#[trigger] counts@.take(j + 1)[q]).token@ != (#[trigger] counts@.take(j + 1)[w]).token@ by {
                assert(counts@.take(j + 1)[q] == counts@[q]);
                assert(counts@.take(j + 1)[w] == counts@[w]);
            }
            lemma_at_least_sum(counts@.take(j + 1), min as int);
        }
        if counts[j].weight >= min {
            proof {
                assert(at_least(counts@.take(j + 1), min as int) == kept@.push(counts@[j as int]));
                assert(at_least(counts@.take(j + 1), min as int).drop_last() =~= kept@);
                assert(n <= u64::MAX);
            }
            let tok = counts[j].token.clone();
            kept.push(TermWeight { token: tok, weight: counts[j].weight });
            total = total + counts[j].weight;
            proof {
                assert(kept@.drop_last() =~= at_least(counts@.take(j as int), min as int));
            }
        }
        j = j + 1;
    }
    proof {
        assert(counts@.take(j as int) =~= counts@);
        lemma_at_least_unique(counts@, min as int);
        let r = kept@;
        assert forall|k: int| 0 <= k < r.len() implies (#[trigger] r[k]).weight == count_in(toks, r[k].token@)
            && count_in(toks, r[k].token@) >= min && count_in(toks, r[k].token@) >= 1 by {
            lemma_at_least_sound(counts@, min as int, k);
            let q = choose|q: int| 0 <= q < counts@.len() && r[k] == counts@[q] && counts@[q].weight >= min;
        }
        assert forall|i: int| 0 <= i < toks.len() && count_in(toks, #[trigger] toks[i]) >= min implies exists|k: int|
            0 <= k < r.len() && (#[trigger] r[k]).token@ == toks[i] by {
            lemma_count_pos(toks, i);
            let q = choose|q: int| 0 <= q < counts@.len() && (#[trigger] counts@[q]).token@ == toks[i];
            lemma_at_least_complete(counts@, min as int, q);
            let m = choose|m: int| 0 <= m < r.len() && r[m] == counts@[q];
        }
    }
    SparseVector { entries: kept, denominator: total }
}


/// Term-frequency vector of `text`, keeping tokens seen at least `min` times.
fn embed_counts(text: &str, min: u64) -> (r: SparseVector)
    ensures
        is_tf_vector(r, text@, min as nat),
{
    let toks = tokenize(text);
    let counts = count_tokens(&toks);
    normalize_counts(counts, min, toks.len(), Ghost(views(toks@)))
}

/// Bag of words: every token with its count, over the number of tokens.
#[derive(Clone, Copy, Debug, Default)]
pub struct BagOfWordsEmbedder;

impl BagOfWordsEmbedder {
    pub fn embed(&self, text: &str) -> (r: SparseVector)
        ensures
            is_tf_vector(r, text@, 1),
    {
        embed_counts(text, 1)
    }

    pub fn token_count(&self, text: &str) -> (r: usize)
        ensures
            r == words_of(text@).len(),
    {
        unicode_words(text).len()
    }
}

/// Term frequency: tokens seen at least `min_freq` times, with their counts
/// over the sum of the kept counts.
#[derive(Clone, Copy, Debug)]
pub struct TfEmbedder {
    pub min_freq: usize,
}

impl TfEmbedder {
    pub fn new(min_freq: usize) -> (r: TfEmbedder)
        ensures
            r.min_freq == if min_freq >= 1 { min_freq } else { 1 },
    {
        TfEmbedder { min_freq: if min_freq >= 1 { min_freq } else { 1 } }
    }

    pub fn token_count(text: &str) -> (r: usize)
        ensures
            r == words_of(text@).len(),
    {
        unicode_words(text).len()
    }

    pub fn embed(&self, text: &str) -> (r: SparseVector)
        ensures
            is_tf_vector(r, text@, self.min_freq as nat),
    {
        embed_counts(text, self.min_freq as u64)
    }
}

/// A trained token table: each token of the text that the table holds
/// keeps the table's weight, over `WEIGHT_SCALE`.
#[derive(Clone, Debug)]
pub struct CustomEmbedder {
    pub weights: Vec<TermWeight>,
    pub name: String,
    pub version: String,
}

/// `r` holds the tokens of `s` that `table` holds, with the table's weights.
pub open spec fn is_table_vector(r: SparseVector, table: Seq<TermWeight>, s: Seq<char>) -> bool {
    let toks = tokens_of(s);
    &&& unique_keys(r.entries@)
    &&& r.denominator == WEIGHT_SCALE
    &&& forall|k: int| 0 <= k < r.entries@.len() ==> table_weight(table, (#[trigger] r.entries@[k]).token@)
        == Some(r.entries@[k].weight) && exists|j: int| 0 <= j < toks.len() && toks[j] == r.entries@[k].token@
    &&& forall|j: int| 0 <= j < toks.len() && (table_weight(table, #[trigger] toks[j]) is Some) ==> exists|k: int|
        0 <= k < r.entries@.len() && (#[trigger] r.entries@[k]).token@ == toks[j]
}

/// Weight of the first entry of `table` for `t`.
fn table_lookup(table: &Vec<TermWeight>, t: &String) -> (r: Option<u64>)
    ensures
        r == table_weight(table@, t@),
{
    let mut k: usize = 0;
    proof {
        assert(table@.skip(0) =~= table@);
    }
    while k < table.len()
        invariant
            0 <= k <= table@.len(),
            table_weight(table@, t@) == table_weight(table@.skip(k as int), t@),
        decreases table@.len() - k,
    {
        proof {
            assert(table@.skip(k as int).drop_first() =~= table@.skip(k + 1));
        }
        if table[k].token == *t {
            return Some(table[k].weight);
        }
        k = k + 1;
    }
    None
}

impl CustomEmbedder {
    pub fn from_table(name: String, version: String, weights: Vec<TermWeight>) -> (r: CustomEmbedder)
        ensures
            r.name@ == name@,
            r.version@ == version@,
            r.weights@ == weights@,
    {
        CustomEmbedder { weights, name, version }
    }

    pub fn embed(&self, text: &str) -> (r: SparseVector)
        ensures
            is_table_vector(r, self.weights@, text@),
    {
        let toks = tokenize(text);
        let ghost tv = tokens_of(text@);
        let mut out: Vec<TermWeight> = Vec::new();
        let mut i: usize = 0;
        while i < toks.len()
            invariant
                0 <= i <= toks@.len(),
                views(toks@) == tv,
                unique_keys(out@),
                forall|k: int| 0 <= k < out@.len() ==> table_weight(self.weights@, (#[trigger] out@[k]).token@)
                    == Some(out@[k].weight) && exists|j: int| 0 <= j < tv.len() && tv[j] == out@[k].token@,
                forall|j: int| 0 <= j < i && (table_weight(self.weights@, #[trigger] tv[j]) is Some) ==> exists|k: int|
                    0 <= k < out@.len() && (#[trigger] out@[k]).token@ == tv[j],
            decreases toks@.len() - i,
        {
            let ghost before = out@;
            proof {
                assert(tv[i as int] == toks@[i as int]@);
            }
            match table_lookup(&self.weights, &toks[i]) {
                Some(w) => {
                    match position_of(&out, &toks[i]) {
                        Some(_) => {},
                        None => {
                            let tok = toks[i].clone();
                            out.push(TermWeight { token: tok, weight: w });
                            proof {
                                assert forall|k: int| 0 <= k < out@.len() implies table_weight(self.weights@, (#[trigger] out@[k]).token@)
                                    == Some(out@[k].weight) && exists|j: int| 0 <= j < tv.len() && tv[j] == out@[k].token@ by {
                                    if k < before.len() {
                                        assert(out@[k] == before[k]);
                                    } else {
                                        assert(tv[i as int] == out@[k].token@);
                                    }
                                }
                                assert forall|j: int| 0 <= j < i + 1 && (table_weight(self.weights@, #[trigger] tv[j]) is Some) implies exists|k: int|
                                    0 <= k < out@.len() && (#[trigger] out@[k]).token@ == tv[j] by {
                                    if j < i {
                                        let k = choose|k: int| 0 <= k < before.len() && (#[trigger] before[k]).token@ == tv[j];
                                        assert(out@[k] == before[k]);
                                    } else {
                                        assert(out@[before.len() as int].token@ == tv[j]);
                                    }
                                }
                            }
                        },
                    }
                },
                None => {},
            }
            i = i + 1;
        }
        SparseVector { entries: out, denominator: WEIGHT_SCALE }
    }

    pub fn token_count(&self, text: &str) -> (r: usize)
        ensures
            r == words_of(text@).len(),
    {
        unicode_words(text).len()
    }
}

/// The embedder variants, chosen once at configuration time.
pub enum Embedder {
    Tf(TfEmbedder),
    BagOfWords(BagOfWordsEmbedder),
    Custom(CustomEmbedder),
}

/// What `Embedder::embed` returns for `s`.
pub open spec fn embeds(e: &Embedder, r: SparseVector, s: Seq<char>) -> bool {
    match e {
        Embedder::Tf(t) => is_tf_vector(r, s, t.min_freq as nat),
        Embedder::BagOfWords(_) => is_tf_vector(r, s, 1),
        Embedder::Custom(c) => is_table_vector(r, c.weights@, s),
    }
}

impl Embedder {
    /// The identifier of the embedder: `tf`, `bag-of-words` or
    /// `custom:<name>:<version>`.
    pub fn name(&self) -> (r: String)
        ensures
            r@ == match self {
                Embedder::Tf(_) => "tf"@,
                Embedder::BagOfWords(_) => "bag-of-words"@,
                Embedder::Custom(c) => "custom:"@ + c.name@ + ":"@ + c.version@,
            },
    {
        match self {
            Embedder::Tf(_) => String::from_str("tf"),
            Embedder::BagOfWords(_) => String::from_str("bag-of-words"),
            Embedder::Custom(c) => {
                let mut r = String::from_str("custom:");
                r.append(c.name.as_str());
                r.append(":");
                r.append(c.version.as_str());
                r
            },
        }
    }

    pub fn embed(&self, text: &str) -> (r: SparseVector)
        ensures
            embeds(self, r, text@),
            r.wf(),
    {
        match self {
            Embedder::Tf(t) => t.embed(text),
            Embedder::BagOfWords(b) => b.embed(text),
            Embedder::Custom(c) => c.embed(text),
        }
    }

    pub fn token_count(&self, text: &str) -> (r: usize)
        ensures
            r == words_of(text@).len(),
    {
        unicode_words(text).len()
    }
}


/// The embedder of `kind`: TF with `min_freq`, bag of words, or the custom
/// table `loaded`, which the caller reads from the model store; `None` for a
/// custom kind when no table was loaded.
pub fn build_embedder(kind: &EmbedderKind, min_freq: usize, loaded: Option<CustomEmbedder>) -> (r: Option<Embedder>)
    ensures
        match kind {
            EmbedderKind::Tf => r matches Some(Embedder::Tf(t)) && t.min_freq == if min_freq >= 1 { min_freq } else { 1 },
            EmbedderKind::BagOfWords => r matches Some(Embedder::BagOfWords(_)),
            EmbedderKind::Custom { .. } => match loaded {
                Some(c) => r == Some(Embedder::Custom(c)),
                None => r is None,
            },
        },
{
    match kind {
        EmbedderKind::Tf => Some(Embedder::Tf(TfEmbedder::new(min_freq))),
        EmbedderKind::BagOfWords => Some(Embedder::BagOfWords(BagOfWordsEmbedder)),
        EmbedderKind::Custom { .. } => match loaded {
            Some(c) => Some(Embedder::Custom(c)),
            None => None,
        },
    }
}


/// Position of the latest model version: the name that sorts last
/// (the first such, were two equal); `None` when there is none.
pub fn latest_version(names: &Vec<String>) -> (r: Option<usize>)
    ensures
        names@.len() == 0 <==> r is None,
        r matches Some(i) ==> i < names@.len() && forall|j: int| 0 <= j < names@.len() ==> !lex_lt(names@[i as int]@, #[trigger] names@[j]@),
{
    if names.len() == 0 {
        return None;
    }
    let mut best: usize = 0;
    let mut k: usize = 1;
    proof {
        crate::text::lemma_lex_irrefl(names@[0]@);
    }
    while k < names.len()
        invariant
            1 <= k <= names@.len(),
            best < k,
            forall|j: int| 0 <= j < k ==> !lex_lt(names@[best as int]@, #[trigger] names@[j]@),
        decreases names@.len() - k,
    {
        if lex_less(&names[best], &names[k]) {
            proof {
                assert forall|j: int| 0 <= j < k + 1 implies !lex_lt(names@[k as int]@, #[trigger] names@[j]@) by {
                    if j < k {
                        if lex_lt(names@[k as int]@, names@[j]@) {
                            crate::text::lemma_lex_trans(names@[best as int]@, names@[k as int]@, names@[j]@);
                        }
                    } else {
                        crate::text::lemma_lex_irrefl(names@[k as int]@);
                    }
                }
            }
            best = k;
        }
        k = k + 1;
    }
    Some(best)
}

} // verus!
