//! Training of a custom token table: token counts over a corpus of chunk
//! texts, from which each token's weight is its count over the total.
use vstd::prelude::*;
use crate::embedder::{
    count_in, lemma_sum_nonneg, lemma_sum_update, position_of, sum_weights, tokenize, tokens_of, unique_keys,
    TermWeight,
};
use crate::index::{lemma_lookup_absent, lookup};
use crate::text::string_of;
use crate::text::{chars_of, lemma_lex_asym, lemma_lex_trans, lex_less, lex_lt, lower_of, lowercase_each, trim_bounds, views};

verus! {

/// Token counts of the texts seen so far, their total, and the number of
/// texts kept as training examples.
pub struct TrainingTally {
    pub counts: Vec<TermWeight>,
    pub total: u64,
    pub examples: usize,
}

impl TrainingTally {
    pub open spec fn wf(&self) -> bool {
        &&& unique_keys(self.counts@)
        &&& self.total == sum_weights(self.counts@)
    }

    pub fn new() -> (r: TrainingTally)
        ensures
            r.wf(),
            r.counts@.len() == 0,
            r.total == 0,
            r.examples == 0,
    {
        TrainingTally { counts: Vec::new(), total: 0, examples: 0 }
    }

    /// Counts `toks`. Refuses, changing nothing, when the total would overflow.
    pub fn add_tokens(&mut self, toks: &Vec<String>) -> (r: bool)
        requires
            old(self).wf(),
        ensures
            final(self).wf(),
            final(self).examples == old(self).examples,
            r == (old(self).total + toks@.len() <= u64::MAX),
            r ==> final(self).total == old(self).total + toks@.len(),
            r ==> forall|t: Seq<char>| #[trigger] lookup(final(self).counts@, t) == lookup(old(self).counts@, t)
                + count_in(views(toks@), t),
            !r ==> final(self).counts@ == old(self).counts@ && final(self).total == old(self).total,
    {
        proof {
            assert(views(toks@).len() == toks@.len());
        }
        if toks.len() as u64 > u64::MAX - self.total {
            return false;
        }
        let ghost c0 = self.counts@;
        let ghost tv = views(toks@);
        let mut i: usize = 0;
        proof {
            assert(tv.take(0) =~= Seq::<Seq<char>>::empty());
        }
        while i < toks.len()
            invariant
                0 <= i <= toks@.len(),
                tv == views(toks@),
                old(self).total + toks@.len() <= u64::MAX,
                unique_keys(self.counts@),
                self.total == sum_weights(self.counts@),
                self.total == old(self).total + i,
                self.examples == old(self).examples,
                forall|t: Seq<char>| #[trigger] lookup(self.counts@, t) == lookup(c0, t) + count_in(tv.take(i as int), t),
            decreases toks@.len() - i,
        {
            let ghost before = self.counts@;
            proof {
                assert(tv.take(i + 1).drop_last() =~= tv.take(i as int));
                assert(tv.take(i + 1).last() == toks@[i as int]@);
            }
            match position_of(&self.counts, &toks[i]) {
                Some(k) => {
                    proof {
                        lemma_weight_le_sum(before, k as int);
                    }
                    let w = self.counts[k].weight + 1;
                    let tok = self.counts[k].token.clone();
                    self.counts.set(k, TermWeight { token: tok, weight: w });
                    proof {
                        lemma_sum_update(before, k as int, self.counts@[k as int]);
                        lemma_lookup_update(before, k as int, self.counts@[k as int]);
                        lemma_lookup_at(before, k as int);
                        lemma_unique_update(before, k as int, self.counts@[k as int]);
                    }
                },
                None => {
                    let tok = toks[i].clone();
                    self.counts.push(TermWeight { token: tok, weight: 1 });
                    proof {
                        assert(self.counts@.drop_last() =~= before);
                        assert forall|a: int, b: int| 0 <= a < b < self.counts@.len() implies (#[trigger] self.counts@[a]).token@
                            != (#[trigger] self.counts@[b]).token@ by {
                            if b < before.len() {
                                assert(self.counts@[a] == before[a] && self.counts@[b] == before[b]);
                            } else {
                                assert(self.counts@[a] == before[a]);
                            }
                        }
                        assert forall|t: Seq<char>| t != toks@[i as int]@ implies #[trigger] lookup(before, t) == lookup(self.counts@, t) by {}
                        lemma_lookup_absent(before, toks@[i as int]@);
                    }
                },
            }
            proof {
                let tok = toks@[i as int]@;
                assert(forall|t: Seq<char>| #[trigger] lookup(self.counts@, t) == lookup(before, t) + if t == tok { 1int } else { 0int });
                assert forall|t: Seq<char>| #[trigger] lookup(self.counts@, t) == lookup(c0, t) + count_in(tv.take(i + 1), t) by {
                    assert(count_in(tv.take(i + 1), t) == count_in(tv.take(i as int), t) + if tv.take(i + 1).last() == t { 1nat } else { 0nat });
                    assert(lookup(before, t) == lookup(c0, t) + count_in(tv.take(i as int), t));
                }
            }
            self.total = self.total + 1;
            i = i + 1;
        }
        proof {
            assert(tv.take(i as int) =~= tv);
        }
        true
    }

    /// Whether the next text is kept as a training example: yes while fewer
    /// than `limit` are.
    pub fn take_example(&mut self, limit: usize) -> (r: bool)
        ensures
            r == (old(self).examples < limit),
            final(self).examples == if r { old(self).examples + 1 } else { old(self).examples as int },
            final(self).counts@ == old(self).counts@,
            final(self).total == old(self).total,
    {
        if self.examples < limit {
            self.examples = self.examples + 1;
            true
        } else {
            false
        }
    }
}

/// Whether a model name is usable: something is left once it is trimmed.
pub fn model_name_ok(name: &str) -> (r: bool)
    ensures
        r == (crate::text::trim_spec(name@).len() > 0),
{
    let cs = chars_of(name);
    let (lo, hi) = trim_bounds(&cs, 0, cs.len());
    proof {
        assert(cs@.subrange(0, cs@.len() as int) =~= cs@);
    }
    lo < hi
}

proof fn lemma_weight_le_sum(v: Seq<TermWeight>, k: int)
    requires
        0 <= k < v.len(),
    ensures
        v[k].weight <= sum_weights(v),
    decreases v.len(),
{
    lemma_sum_nonneg(v.drop_last());
    if k < v.len() - 1 {
        lemma_weight_le_sum(v.drop_last(), k);
    }
}

proof fn lemma_unique_update(v: Seq<TermWeight>, k: int, e: TermWeight)
    requires
        unique_keys(v),
        0 <= k < v.len(),
        e.token@ == v[k].token@,
    ensures
        unique_keys(v.update(k, e)),
{
    let u = v.update(k, e);
    assert forall|a: int, b: int| 0 <= a < b < u.len() implies (#[trigger] u[a]).token@ != (#[trigger] u[b]).token@ by {
        assert(u[a].token@ == v[a].token@);
        assert(u[b].token@ == v[b].token@);
    }
}

/// Replacing an entry by one of the same token changes its weight alone.
proof fn lemma_lookup_update(v: Seq<TermWeight>, k: int, e: TermWeight)
    requires
        unique_keys(v),
        0 <= k < v.len(),
        e.token@ == v[k].token@,
    ensures
        forall|t: Seq<char>| #[trigger] lookup(v.update(k, e), t) == if t == e.token@ {
            e.weight as int
        } else {
            lookup(v, t)
        },
    decreases v.len(),
{
    let u = v.update(k, e);
    let d = v.drop_last();
    if k < v.len() - 1 {
        assert(unique_keys(d)) by {
            assert forall|a: int, b: int| 0 <= a < b < d.len() implies (#[trigger] d[a]).token@ != (#[trigger] d[b]).token@ by {
                assert(d[a] == v[a] && d[b] == v[b]);
            }
        }
        assert(d[k] == v[k]);
        lemma_lookup_update(d, k, e);
        assert(u.drop_last() =~= d.update(k, e));
        assert(v.last() == v[v.len() - 1]);
        assert(v.last().token@ != v[k].token@);
    } else {
        assert(u.drop_last() =~= d);
        assert(v.last() == v[k]);
    }
    assert(u.last() == if k == v.len() - 1 { e } else { v.last() });
    assert forall|t: Seq<char>| #[trigger] lookup(u, t) == if t == e.token@ {
        e.weight as int
    } else {
        lookup(v, t)
    } by {
        if k < v.len() - 1 {
            assert(lookup(d.update(k, e), t) == if t == e.token@ {
                e.weight as int
            } else {
                lookup(d, t)
            });
        }
    }
}

/// With unique tokens, the weight looked up for an entry's token is its own.
proof fn lemma_lookup_at(v: Seq<TermWeight>, k: int)
    requires
        unique_keys(v),
        0 <= k < v.len(),
    ensures
        lookup(v, v[k].token@) == v[k].weight,
    decreases v.len(),
{
    let d = v.drop_last();
    assert(v.last() == v[v.len() - 1]);
    if k < v.len() - 1 {
        assert(unique_keys(d)) by {
            assert forall|a: int, b: int| 0 <= a < b < d.len() implies (#[trigger] d[a]).token@ != (#[trigger] d[b]).token@ by {
                assert(d[a] == v[a] && d[b] == v[b]);
            }
        }
        assert(d[k] == v[k]);
        lemma_lookup_at(d, k);
    }
}


/// Whether `c` is alphabetic or numeric in Unicode.
pub uninterp spec fn alnum(c: char) -> bool;

/// Relies on `char::is_alphanumeric`: the Unicode `Alphabetic` or
/// `Numeric` property of `c`.
#[verifier::external_body]
fn is_alphanumeric(c: char) -> (r: bool)
    ensures
        r == alnum(c),
{
    c.is_alphanumeric()
}

/// Scan state over the first `i` characters: finished words and the word
/// in progress.
pub open spec fn word_scan(s: Seq<char>, i: int) -> (Seq<Seq<char>>, Seq<char>)
    decreases i,
{
    if i <= 0 {
        (Seq::empty(), Seq::empty())
    } else {
        let (ws, cur) = word_scan(s, i - 1);
        if alnum(s[i - 1]) {
            (ws, cur.push(s[i - 1]))
        } else if cur.len() > 0 {
            (ws.push(cur), Seq::empty())
        } else {
            (ws, cur)
        }
    }
}

/// The maximal runs of alphanumeric characters of `s`.
pub open spec fn alnum_words_spec(s: Seq<char>) -> Seq<Seq<char>> {
    let (ws, cur) = word_scan(s, s.len() as int);
    if cur.len() > 0 {
        ws.push(cur)
    } else {
        ws
    }
}

/// The maximal runs of alphanumeric characters of `text`.
pub fn alnum_words(text: &str) -> (r: Vec<String>)
    ensures
        views(r@) == alnum_words_spec(text@),
{
    let cs = chars_of(text);
    let mut words: Vec<String> = Vec::new();
    let mut cur: Vec<char> = Vec::new();
    let mut i: usize = 0;
    proof {
        assert(views(words@) =~= Seq::<Seq<char>>::empty());
    }
    while i < cs.len()
        invariant
            0 <= i <= cs@.len(),
            cs@ == text@,
            word_scan(cs@, i as int) == (views(words@), cur@),
        decreases cs@.len() - i,
    {
        let c = cs[i];
        let ghost before = words@;
        if is_alphanumeric(c) {
            cur.push(c);
        } else if cur.len() > 0 {
            let w = string_of(cur.as_slice());
            words.push(w);
            cur = Vec::new();
            proof {
                assert(views(words@) =~= views(before).push(w@));
            }
        }
        i = i + 1;
    }
    if cur.len() > 0 {
        let ghost before = words@;
        let w = string_of(cur.as_slice());
        words.push(w);
        proof {
            assert(views(words@) =~= views(before).push(w@));
        }
    }
    words
}

/// `a` comes before `b` in a tally listing: higher count first, then by token.
pub open spec fn listed_before(a: TermWeight, b: TermWeight) -> bool {
    a.weight > b.weight || (a.weight == b.weight && lex_lt(a.token@, b.token@))
}

/// Sorted for a listing: no entry comes before an earlier one.
pub open spec fn listing_sorted(v: Seq<TermWeight>) -> bool {
    forall|i: int, j: int| 0 <= i < j < v.len() ==> !listed_before(#[trigger] v[j], #[trigger] v[i])
}

proof fn lemma_listed_trans(a: TermWeight, b: TermWeight, c: TermWeight)
    requires
        listed_before(a, b),
        listed_before(b, c),
    ensures
        listed_before(a, c),
{
    if a.weight == b.weight && b.weight == c.weight {
        lemma_lex_trans(a.token@, b.token@, c.token@);
    }
}

proof fn lemma_listed_asym(a: TermWeight, b: TermWeight)
    requires
        listed_before(a, b),
    ensures
        !listed_before(b, a),
{
    if a.weight == b.weight {
        lemma_lex_asym(a.token@, b.token@);
    }
}

/// `x` is one of the entries of `v`.
pub open spec fn is_entry_of(x: TermWeight, v: Seq<TermWeight>) -> bool {
    exists|j: int| 0 <= j < v.len() && v[j] == x
}

impl TrainingTally {
    /// The counts, highest first, ties by token.
    pub fn ranked_counts(&self) -> (r: Vec<TermWeight>)
        ensures
            r@.len() == self.counts@.len(),
            listing_sorted(r@),
            forall|i: int| 0 <= i < r@.len() ==> is_entry_of(#[trigger] r@[i], self.counts@),
            forall|j: int| 0 <= j < self.counts@.len() ==> is_entry_of(#[trigger] self.counts@[j], r@),
    {
        let mut out: Vec<TermWeight> = Vec::new();
        let mut k: usize = 0;
        while k < self.counts.len()
            invariant
                0 <= k <= self.counts@.len(),
                out@.len() == k,
                listing_sorted(out@),
                forall|i: int| 0 <= i < out@.len() ==> is_entry_of(#[trigger] out@[i], self.counts@),
                forall|j: int| 0 <= j < k ==> is_entry_of(#[trigger] self.counts@[j], out@),
            decreases self.counts@.len() - k,
        {
            let item = TermWeight { token: self.counts[k].token.clone(), weight: self.counts[k].weight };
            let mut pos: usize = 0;
            while pos < out.len() && !(item.weight > out[pos].weight || (item.weight == out[pos].weight && lex_less(&item.token, &out[pos].token)))
                invariant
                    0 <= pos <= out@.len(),
                    forall|m: int| 0 <= m < pos ==> !listed_before(item, #[trigger] out@[m]),
                decreases out@.len() - pos,
            {
                pos = pos + 1;
            }
            let ghost before = out@;
            out.insert(pos, item);
            proof {
                let s = out@;
                assert forall|i: int, j: int| 0 <= i < j < s.len() implies !listed_before(#[trigger] s[j], #[trigger] s[i]) by {
                    if j < pos {
                        assert(s[i] == before[i] && s[j] == before[j]);
                    } else if j == pos {
                        assert(s[i] == before[i]);
                    } else if i < pos {
                        assert(s[i] == before[i] && s[j] == before[j - 1]);
                    } else if i == pos {
                        assert(s[j] == before[j - 1]);
                        assert(s[i] == item);
                        assert(listed_before(item, before[pos as int]));
                        if listed_before(before[j - 1], item) {
                            lemma_listed_trans(before[j - 1], item, before[pos as int]);
                            if j - 1 > pos {
                                assert(!listed_before(before[j - 1], before[pos as int]));
                            } else {
                                lemma_listed_asym(item, before[pos as int]);
                            }
                        }
                    } else {
                        assert(s[i] == before[i - 1] && s[j] == before[j - 1]);
                    }
                }
                assert forall|i: int| 0 <= i < s.len() implies is_entry_of(#[trigger] s[i], self.counts@) by {
                    if i < pos {
                        assert(s[i] == before[i]);
                    } else if i > pos {
                        assert(s[i] == before[i - 1]);
                    } else {
                        assert(s[i] == self.counts@[k as int]);
                        assert(is_entry_of(s[i], self.counts@));
                    }
                }
                assert forall|j: int| 0 <= j < k + 1 implies is_entry_of(#[trigger] self.counts@[j], s) by {
                    if j < k {
                        let m = choose|m: int| 0 <= m < before.len() && before[m] == self.counts@[j];
                        if m < pos {
                            assert(s[m] == before[m]);
                        } else {
                            assert(s[m + 1] == before[m]);
                        }
                    } else {
                        assert(s[pos as int] == item);
                        assert(item == self.counts@[k as int]);
                    }
                }
            }
            k = k + 1;
        }
        out
    }
}


/// Counts the tokens of `text` into `counts`. Refuses, changing nothing,
/// when the total would overflow.
pub fn accumulate_counts(text: &str, counts: &mut TrainingTally) -> (r: bool)
    requires
        old(counts).wf(),
    ensures
        final(counts).wf(),
        final(counts).examples == old(counts).examples,
        r == (old(counts).total + tokens_of(text@).len() <= u64::MAX),
        r ==> final(counts).total == old(counts).total + tokens_of(text@).len(),
        r ==> forall|t: Seq<char>| #[trigger] lookup(final(counts).counts@, t) == lookup(old(counts).counts@, t)
            + count_in(tokens_of(text@), t),
        !r ==> final(counts).counts@ == old(counts).counts@ && final(counts).total == old(counts).total,
{
    let toks = tokenize(text);
    counts.add_tokens(&toks)
}

/// Counts the lowercased alphanumeric words of `text` into `counts`.
/// Refuses, changing nothing, when the total would overflow.
pub fn accumulate_word_counts(counts: &mut TrainingTally, text: &str) -> (r: bool)
    requires
        old(counts).wf(),
    ensures
        final(counts).wf(),
        final(counts).examples == old(counts).examples,
        r == (old(counts).total + alnum_words_spec(text@).len() <= u64::MAX),
        r ==> forall|t: Seq<char>| #[trigger] lookup(final(counts).counts@, t) == lookup(old(counts).counts@, t)
            + count_in(alnum_words_spec(text@).map_values(|w: Seq<char>| lower_of(w)), t),
        !r ==> final(counts).counts@ == old(counts).counts@ && final(counts).total == old(counts).total,
{
    let words = alnum_words(text);
    let lowered = lowercase_each(&words);
    proof {
        assert(views(words@).len() == words@.len());
    }
    counts.add_tokens(&lowered)
}

} // verus!
