//! The vector index: stored chunk vectors ranked against a query by cosine
//! similarity. A score is fixed-point: `s` stands for `s / SCORE_SCALE`, the
//! floor of the cosine scaled. Cosine does not change when a vector is
//! scaled, so it is computed on the numerators of the weights alone.
use vstd::prelude::*;
use crate::embedder::{SparseVector, TermWeight, unique_keys};
use crate::natural::{from_u128, le, lemma_valp_bound, mul_small, plus, times, val};

verus! {

/// A score `s` stands for the similarity `s / SCORE_SCALE`.
pub const SCORE_SCALE: u64 = 1_000_000;

/// Numerator of the weight of `t` in `v` (its last entry), 0 when absent.
pub open spec fn lookup(v: Seq<TermWeight>, t: Seq<char>) -> int
    decreases v.len(),
{
    if v.len() == 0 {
        0
    } else if v.last().token@ == t {
        v.last().weight as int
    } else {
        lookup(v.drop_last(), t)
    }
}

/// Sparse dot product: only matching tokens contribute.
pub open spec fn dot_spec(a: Seq<TermWeight>, b: Seq<TermWeight>) -> int
    decreases a.len(),
{
    if a.len() == 0 {
        0
    } else {
        dot_spec(a.drop_last(), b) + a.last().weight * lookup(b, a.last().token@)
    }
}

/// Sum of the squared weights.
pub open spec fn norm_spec(a: Seq<TermWeight>) -> int
    decreases a.len(),
{
    if a.len() == 0 {
        0
    } else {
        norm_spec(a.drop_last()) + a.last().weight * a.last().weight
    }
}

/// `s / SCORE_SCALE` is at most `dot / sqrt(np)`.
pub open spec fn fits(s: int, dot: int, np: int) -> bool {
    s * s * np <= SCORE_SCALE * SCORE_SCALE * (dot * dot)
}

/// Largest `s <= k` that fits, or 0.
pub open spec fn largest_fit(k: int, dot: int, np: int) -> int
    decreases k,
{
    if k <= 0 {
        0
    } else if fits(k, dot, np) {
        k
    } else {
        largest_fit(k - 1, dot, np)
    }
}

/// Fixed-point cosine similarity: the largest `s <= SCORE_SCALE` with
/// `s / SCORE_SCALE <= dot(a, b) / (|a| |b|)`, and 0 when either norm is 0.
pub open spec fn cosine_score(a: Seq<TermWeight>, b: Seq<TermWeight>) -> int {
    if norm_spec(a) == 0 || norm_spec(b) == 0 {
        0
    } else {
        largest_fit(SCORE_SCALE as int, dot_spec(a, b), norm_spec(a) * norm_spec(b))
    }
}

/// The score the index gives to vector `v` for query `q`.
pub open spec fn index_score(q: SparseVector, v: SparseVector) -> int {
    cosine_score(q.entries@, v.entries@)
}

#[derive(Clone, Debug)]
pub struct IndexEntry {
    pub chunk_id: String,
    pub doc_id: String,
    pub vector: SparseVector,
}

pub struct VectorIndex {
    pub entries: Vec<IndexEntry>,
}

/// Scores in non-increasing order.
pub open spec fn ranked(s: Seq<(usize, u64)>) -> bool {
    forall|i: int, j: int| 0 <= i < j < s.len() ==> (#[trigger] s[i]).1 >= (#[trigger] s[j]).1
}

/// `r` is an answer to `search` over `es` for `query` and `top_k`: at most
/// `top_k` distinct entries of positive score, best first, and no entry left
/// out scores higher than one listed, nor is left out while there is room.
pub open spec fn search_result(es: Seq<IndexEntry>, query: SparseVector, top_k: usize, r: Seq<(usize, u64)>) -> bool {
    &&& query.entries@.len() == 0 ==> r.len() == 0
    &&& r.len() <= top_k
    &&& ranked(r)
    &&& forall|i: int| 0 <= i < r.len() ==> {
        &&& (#[trigger] r[i]).0 < es.len()
        &&& r[i].1 == index_score(query, es[r[i].0 as int].vector)
        &&& similar(query, es[r[i].0 as int].vector)
    }
    &&& forall|i: int, j: int| 0 <= i < j < r.len() ==> (#[trigger] r[i]).0 != (#[trigger] r[j]).0
    &&& forall|e: int| 0 <= e < es.len() && similar(query, es[e].vector) && !listed(r, e) ==> r.len() == top_k
    &&& forall|e: int, i: int| 0 <= e < es.len() && 0 <= i < r.len() && !listed(r, e)
        ==> (#[trigger] r[i]).1 >= index_score(query, #[trigger] es[e].vector)
}

/// The real cosine of `q` and `v` is positive: their sparse dot product is.
pub open spec fn similar(q: SparseVector, v: SparseVector) -> bool {
    dot_spec(q.entries@, v.entries@) > 0
}

/// Entry `e` has a place in `s`.
pub open spec fn listed(s: Seq<(usize, u64)>, e: int) -> bool {
    exists|i: int| 0 <= i < s.len() && (#[trigger] s[i]).0 == e
}

proof fn lemma_largest_fit(k: int, m: int, dot: int, np: int)
    requires
        0 <= m <= k,
        fits(m, dot, np),
        forall|j: int| m < j <= k ==> !fits(j, dot, np),
    ensures
        largest_fit(k, dot, np) == m,
    decreases k,
{
    if k > m {
        lemma_largest_fit(k - 1, m, dot, np);
    }
}

proof fn lemma_fits_mono(a: int, b: int, dot: int, np: int)
    requires
        0 <= a <= b,
        np >= 0,
        !fits(a, dot, np),
    ensures
        !fits(b, dot, np),
{
    assert(a * a * np <= b * b * np) by (nonlinear_arith)
        requires
            0 <= a <= b,
            np >= 0,
    ;
}

/// Numerator of the weight of `t` in `v`.
fn lookup_weight(v: &Vec<TermWeight>, t: &String) -> (r: u64)
    ensures
        r == lookup(v@, t@),
{
    let mut i = v.len();
    proof {
        assert(v@.take(i as int) =~= v@);
    }
    while i > 0
        invariant
            i <= v@.len(),
            lookup(v@, t@) == lookup(v@.take(i as int), t@),
        decreases i,
    {
        proof {
            assert(v@.take(i as int).drop_last() =~= v@.take(i - 1));
        }
        if v[i - 1].token == *t {
            return v[i - 1].weight;
        }
        i = i - 1;
    }
    0
}

/// Sum of squared weights.
fn norm(v: &Vec<TermWeight>) -> (r: Vec<u64>)
    ensures
        val(r@) == norm_spec(v@),
{
    let mut acc: Vec<u64> = Vec::new();
    let mut i: usize = 0;
    while i < v.len()
        invariant
            0 <= i <= v@.len(),
            val(acc@) == norm_spec(v@.take(i as int)),
        decreases v@.len() - i,
    {
        proof {
            assert(v@.take(i + 1).drop_last() =~= v@.take(i as int));
        }
        let w = v[i].weight as u128;
        assert(w * w <= 0xFFFF_FFFF_FFFF_FFFE_0000_0000_0000_0001) by (nonlinear_arith)
            requires
                w <= 0xFFFF_FFFF_FFFF_FFFF,
        ;
        acc = plus(&acc, &from_u128(w * w));
        i = i + 1;
    }
    proof {
        assert(v@.take(i as int) =~= v@);
    }
    acc
}

/// Sparse dot product.
fn dot(a: &Vec<TermWeight>, b: &Vec<TermWeight>) -> (r: Vec<u64>)
    ensures
        val(r@) == dot_spec(a@, b@),
{
    let mut acc: Vec<u64> = Vec::new();
    let mut i: usize = 0;
    while i < a.len()
        invariant
            0 <= i <= a@.len(),
            val(acc@) == dot_spec(a@.take(i as int), b@),
        decreases a@.len() - i,
    {
        proof {
            assert(a@.take(i + 1).drop_last() =~= a@.take(i as int));
        }
        let w = a[i].weight as u128;
        let x = lookup_weight(b, &a[i].token) as u128;
        assert(w * x <= 0xFFFF_FFFF_FFFF_FFFE_0000_0000_0000_0001) by (nonlinear_arith)
            requires
                w <= 0xFFFF_FFFF_FFFF_FFFF,
                x <= 0xFFFF_FFFF_FFFF_FFFF,
        ;
        acc = plus(&acc, &from_u128(w * x));
        i = i + 1;
    }
    proof {
        assert(a@.take(i as int) =~= a@);
    }
    acc
}

/// Fixed-point cosine similarity, exact for vectors of any size.
pub fn cosine_similarity(a: &SparseVector, b: &SparseVector) -> (r: u64)
    requires
        a.wf(),
        b.wf(),
    ensures
        r == cosine_score(a.entries@, b.entries@),
        r <= SCORE_SCALE,
{
    similarity(a, b).0
}

/// The fixed-point cosine of `a` and `b`, and whether their real cosine is
/// positive (some shared token weighs more than 0 in both).
fn similarity(a: &SparseVector, b: &SparseVector) -> (r: (u64, bool))
    ensures
        r.0 == cosine_score(a.entries@, b.entries@),
        r.0 <= SCORE_SCALE,
        r.1 == similar(*a, *b),
{
    let na = norm(&a.entries);
    let nb = norm(&b.entries);
    let d = dot(&a.entries, &b.entries);
    let zero: Vec<u64> = Vec::new();
    proof {
        assert(val(zero@) == 0);
        lemma_valp_bound(na@, na@.len());
        lemma_valp_bound(nb@, nb@.len());
    }
    let positive = !le(&d, &zero);
    if le(&na, &zero) || le(&nb, &zero) {
        return (0, positive);
    }
    let np = times(&na, &nb);
    let d2 = times(&d, &d);
    let rhs = mul_small(&mul_small(&d2, SCORE_SCALE), SCORE_SCALE);
    let ghost gd = val(d@);
    let ghost gnp = val(np@);
    proof {
        lemma_valp_bound(na@, na@.len());
        lemma_valp_bound(nb@, nb@.len());
        let x = val(na@);
        let y = val(nb@);
        assert(x * y >= 0) by (nonlinear_arith)
            requires
                x >= 0,
                y >= 0,
        ;
        let dd = val(d2@);
        assert(dd * SCORE_SCALE * SCORE_SCALE == SCORE_SCALE * SCORE_SCALE * (gd * gd)) by (nonlinear_arith)
            requires
                dd == gd * gd,
        ;
        assert(fits(0, gd, gnp)) by (nonlinear_arith)
            requires
                gnp >= 0,
        ;
    }
    let mut lo: u64 = 0;
    let mut hi: u64 = SCORE_SCALE;
    while lo < hi
        invariant
            lo <= hi <= SCORE_SCALE,
            fits(lo as int, gd, gnp),
            forall|j: int| hi < j <= SCORE_SCALE ==> !fits(j, gd, gnp),
            val(rhs@) == SCORE_SCALE * SCORE_SCALE * (gd * gd),
            gnp == val(np@),
            gnp >= 0,
        decreases hi - lo,
    {
        let mid: u64 = lo + (hi - lo + 1) / 2;
        let lhs = mul_small(&mul_small(&np, mid), mid);
        proof {
            let m = mid as int;
            assert(gnp * m * m == m * m * gnp) by (nonlinear_arith);
        }
        if le(&lhs, &rhs) {
            lo = mid;
        } else {
            proof {
                assert forall|j: int| mid <= j <= SCORE_SCALE implies !fits(j, gd, gnp) by {
                    lemma_fits_mono(mid as int, j, gd, gnp);
                }
            }
            hi = mid - 1;
        }
    }
    proof {
        lemma_largest_fit(SCORE_SCALE as int, lo as int, gd, gnp);
    }
    (lo, positive)
}

/// Inserts `item` after every entry of at least its score.
fn insert_ranked(all: &mut Vec<(usize, u64)>, item: (usize, u64)) -> (pos: usize)
    requires
        ranked(old(all)@),
    ensures
        pos <= old(all)@.len(),
        final(all)@ == old(all)@.insert(pos as int, item),
        ranked(final(all)@),
{
    let mut pos: usize = 0;
    while pos < all.len() && all[pos].1 >= item.1
        invariant
            0 <= pos <= all@.len(),
            all@ == old(all)@,
            forall|k: int| 0 <= k < pos ==> (#[trigger] all@[k]).1 >= item.1,
        decreases all@.len() - pos,
    {
        pos = pos + 1;
    }
    let ghost before = all@;
    all.insert(pos, item);
    proof {
        let s = all@;
        assert forall|i: int, j: int| 0 <= i < j < s.len() implies (#[trigger] s[i]).1 >= (#[trigger] s[j]).1 by {
            if j < pos {
                assert(s[i] == before[i] && s[j] == before[j]);
            } else if j == pos {
                assert(s[i] == before[i]);
            } else if i < pos {
                assert(s[i] == before[i] && s[j] == before[j - 1]);
            } else if i == pos {
                assert(s[j] == before[j - 1]);
                assert(before[pos as int].1 < item.1);
            } else {
                assert(s[i] == before[i - 1] && s[j] == before[j - 1]);
            }
        }
    }
    pos
}

impl VectorIndex {
    /// Every stored vector holds each token once.
    pub open spec fn wf(&self) -> bool {
        forall|i: int| 0 <= i < self.entries@.len() ==> (#[trigger] self.entries@[i]).vector.wf()
    }

    pub fn from_entries(entries: Vec<IndexEntry>) -> (r: VectorIndex)
        requires
            forall|i: int| 0 <= i < entries@.len() ==> (#[trigger] entries@[i]).vector.wf(),
        ensures
            r.entries@ == entries@,
            r.wf(),
    {
        VectorIndex { entries }
    }

    pub fn add_chunk(&mut self, chunk_id: String, doc_id: String, vector: SparseVector)
        requires
            old(self).wf(),
            vector.wf(),
        ensures
            final(self).wf(),
            final(self).entries@ == old(self).entries@.push(IndexEntry { chunk_id, doc_id, vector }),
    {
        self.entries.push(IndexEntry { chunk_id, doc_id, vector });
    }

    pub fn entries(&self) -> (r: &Vec<IndexEntry>)
        ensures
            r@ == self.entries@,
    {
        &self.entries
    }

    /// The `top_k` entries of highest positive score for `query`, as pairs
    /// of entry position and score, best first; an entry that is left out
    /// scores no higher than any that is listed.
    pub fn search(&self, query: &SparseVector, top_k: usize) -> (r: Vec<(usize, u64)>)
        requires
            self.wf(),
            query.wf(),
        ensures
            search_result(self.entries@, *query, top_k, r@),
    {
        let mut all: Vec<(usize, u64)> = Vec::new();
        if query.entries.len() == 0 {
            return all;
        }
        let mut i: usize = 0;
        while i < self.entries.len()
            invariant
                0 <= i <= self.entries@.len(),
                ranked(all@),
                forall|m: int| 0 <= m < all@.len() ==> {
                    &&& (#[trigger] all@[m]).0 < i
                    &&& all@[m].1 == index_score(*query, self.entries@[all@[m].0 as int].vector)
                    &&& similar(*query, self.entries@[all@[m].0 as int].vector)
                },
                forall|m: int, n: int| 0 <= m < n < all@.len() ==> (#[trigger] all@[m]).0 != (#[trigger] all@[n]).0,
                forall|e: int| 0 <= e < i && similar(*query, #[trigger] self.entries@[e].vector) ==> listed(all@, e),
            decreases self.entries@.len() - i,
        {
            let v = &self.entries[i].vector;
            let (score, positive) = similarity(query, v);
            if positive {
                let ghost before = all@;
                let pos = insert_ranked(&mut all, (i, score));
                proof {
                    let s = all@;
                    assert forall|m: int| 0 <= m < s.len() implies (#[trigger] s[m]).0 < i + 1 && s[m].1 == index_score(*query, self.entries@[s[m].0 as int].vector) && similar(*query, self.entries@[s[m].0 as int].vector) by {
                        if m < pos {
                            assert(s[m] == before[m]);
                        } else if m > pos {
                            assert(s[m] == before[m - 1]);
                        }
                    }
                    assert forall|m: int, n: int| 0 <= m < n < s.len() implies (#[trigger] s[m]).0 != (#[trigger] s[n]).0 by {
                        if m < pos {
                            assert(s[m] == before[m]);
                        } else if m > pos {
                            assert(s[m] == before[m - 1]);
                        }
                        if n < pos {
                            assert(s[n] == before[n]);
                        } else if n > pos {
                            assert(s[n] == before[n - 1]);
                        }
                    }
                    assert forall|e: int| 0 <= e < i + 1 && similar(*query, #[trigger] self.entries@[e].vector) implies listed(s, e) by {
                        if e < i {
                            let k = choose|k: int| 0 <= k < before.len() && (#[trigger] before[k]).0 == e;
                            if k < pos {
                                assert(s[k] == before[k]);
                            } else {
                                assert(s[k + 1] == before[k]);
                            }
                        } else {
                            assert(s[pos as int].0 == e);
                        }
                    }
                }
            }
            i = i + 1;
        }
        let ghost full = all@;
        all.truncate(top_k);
        proof {
            let r = all@;
            assert forall|e: int| 0 <= e < self.entries@.len() && similar(*query, self.entries@[e].vector)
                && !listed(r, e) implies r.len() == top_k by {
                let k = choose|k: int| 0 <= k < full.len() && (#[trigger] full[k]).0 == e;
                if k < r.len() {
                    assert(r[k] == full[k]);
                }
            }
            assert forall|e: int, i: int| 0 <= e < self.entries@.len() && 0 <= i < r.len() && !listed(r, e)
                implies (#[trigger] r[i]).1 >= index_score(*query, #[trigger] self.entries@[e].vector) by {
                lemma_score_zero_unless_similar(*query, self.entries@[e].vector);
                if similar(*query, self.entries@[e].vector) {
                    let k = choose|k: int| 0 <= k < full.len() && (#[trigger] full[k]).0 == e;
                    if k < r.len() {
                        assert(r[k] == full[k]);
                    }
                    assert(r[i] == full[i]);
                }
            }
        }
        all
    }
}


pub(crate) proof fn lemma_lookup_absent(v: Seq<TermWeight>, t: Seq<char>)
    requires
        forall|k: int| 0 <= k < v.len() ==> (#[trigger] v[k]).token@ != t,
    ensures
        lookup(v, t) == 0,
    decreases v.len(),
{
    if v.len() > 0 {
        assert(v.last() == v[v.len() - 1]);
        assert forall|k: int| 0 <= k < v.drop_last().len() implies (#[trigger] v.drop_last()[k]).token@ != t by {
            assert(v.drop_last()[k] == v[k]);
        }
        lemma_lookup_absent(v.drop_last(), t);
    }
}

proof fn lemma_unique_drop_last(v: Seq<TermWeight>)
    requires
        unique_keys(v),
        v.len() > 0,
    ensures
        unique_keys(v.drop_last()),
        forall|k: int| 0 <= k < v.len() - 1 ==> (#[trigger] v.drop_last()[k]).token@ != v.last().token@,
{
    let d = v.drop_last();
    assert forall|i: int, j: int| 0 <= i < j < d.len() implies (#[trigger] d[i]).token@ != (#[trigger] d[j]).token@ by {
        assert(d[i] == v[i] && d[j] == v[j]);
    }
    assert forall|k: int| 0 <= k < v.len() - 1 implies (#[trigger] d[k]).token@ != v.last().token@ by {
        assert(d[k] == v[k]);
        assert(v.last() == v[v.len() - 1]);
    }
}

/// Appending an entry for a new token to `a` adds its share to `b . a`.
proof fn lemma_dot_push(b: Seq<TermWeight>, a: Seq<TermWeight>, e: TermWeight)
    requires
        unique_keys(b),
        forall|k: int| 0 <= k < a.len() ==> (#[trigger] a[k]).token@ != e.token@,
    ensures
        dot_spec(b, a.push(e)) == dot_spec(b, a) + e.weight * lookup(b, e.token@),
    decreases b.len(),
{
    if b.len() > 0 {
        let bd = b.drop_last();
        let bl = b.last();
        lemma_unique_drop_last(b);
        lemma_dot_push(bd, a, e);
        assert(a.push(e).drop_last() =~= a);
        if bl.token@ == e.token@ {
            lemma_lookup_absent(a, bl.token@);
            lemma_lookup_absent(bd, e.token@);
            assert(bl.weight * e.weight == e.weight * bl.weight) by (nonlinear_arith);
        }
    }
}

proof fn lemma_dot_symmetric(a: Seq<TermWeight>, b: Seq<TermWeight>)
    requires
        unique_keys(a),
        unique_keys(b),
    ensures
        dot_spec(a, b) == dot_spec(b, a),
    decreases a.len(),
{
    if a.len() > 0 {
        let ad = a.drop_last();
        lemma_unique_drop_last(a);
        lemma_dot_symmetric(ad, b);
        lemma_dot_push(b, ad, a.last());
        assert(ad.push(a.last()) =~= a);
    } else {
        lemma_dot_empty(b, a);
    }
}

proof fn lemma_dot_empty(b: Seq<TermWeight>, a: Seq<TermWeight>)
    requires
        a.len() == 0,
    ensures
        dot_spec(b, a) == 0,
    decreases b.len(),
{
    if b.len() > 0 {
        lemma_dot_empty(b.drop_last(), a);
    }
}

/// Cosine similarity is symmetric: the score of `b` against `a` is that of
/// `a` against `b`.
pub proof fn cosine_symmetric(a: SparseVector, b: SparseVector)
    requires
        a.wf(),
        b.wf(),
    ensures
        cosine_score(a.entries@, b.entries@) == cosine_score(b.entries@, a.entries@),
        index_score(a, b) == index_score(b, a),
{
    lemma_dot_symmetric(a.entries@, b.entries@);
    assert(norm_spec(a.entries@) * norm_spec(b.entries@) == norm_spec(b.entries@) * norm_spec(a.entries@)) by (nonlinear_arith);
}

/// Search answers hold at most `top_k` results, an empty query none, and the
/// scores never rise; they strictly fall when no entry of positive cosine
/// shares its score with another entry.
pub proof fn search_results_descend(es: Seq<IndexEntry>, query: SparseVector, top_k: usize, r: Seq<(usize, u64)>)
    requires
        search_result(es, query, top_k, r),
        forall|a: int, b: int| 0 <= a < b < es.len() && similar(query, #[trigger] es[a].vector)
            ==> index_score(query, es[a].vector) != index_score(query, #[trigger] es[b].vector),
    ensures
        r.len() <= top_k,
        query.entries@.len() == 0 ==> r.len() == 0,
        forall|i: int, j: int| 0 <= i < j < r.len() ==> (#[trigger] r[i]).1 > (#[trigger] r[j]).1,
{
    assert forall|i: int, j: int| 0 <= i < j < r.len() implies (#[trigger] r[i]).1 > (#[trigger] r[j]).1 by {
        let a = r[i].0 as int;
        let b = r[j].0 as int;
        assert(r[i].0 != r[j].0);
        if a < b {
            assert(index_score(query, es[a].vector) != index_score(query, es[b].vector));
        } else {
            assert(index_score(query, es[b].vector) != index_score(query, es[a].vector));
        }
    }
}


proof fn lemma_lookup_nonneg(v: Seq<TermWeight>, t: Seq<char>)
    ensures
        lookup(v, t) >= 0,
    decreases v.len(),
{
    if v.len() > 0 {
        lemma_lookup_nonneg(v.drop_last(), t);
    }
}

proof fn lemma_dot_nonneg(a: Seq<TermWeight>, b: Seq<TermWeight>)
    ensures
        dot_spec(a, b) >= 0,
    decreases a.len(),
{
    if a.len() > 0 {
        lemma_dot_nonneg(a.drop_last(), b);
        lemma_lookup_nonneg(b, a.last().token@);
        let w = a.last().weight as int;
        let x = lookup(b, a.last().token@);
        assert(w * x >= 0) by (nonlinear_arith)
            requires
                w >= 0,
                x >= 0,
        ;
    }
}

proof fn lemma_norm_nonneg(a: Seq<TermWeight>)
    ensures
        norm_spec(a) >= 0,
    decreases a.len(),
{
    if a.len() > 0 {
        lemma_norm_nonneg(a.drop_last());
        let w = a.last().weight as int;
        assert(w * w >= 0) by (nonlinear_arith);
    }
}

proof fn lemma_no_fit(k: int, np: int)
    requires
        np > 0,
    ensures
        largest_fit(k, 0, np) == 0,
    decreases k,
{
    if k > 0 {
        assert(k * k * np > 0) by (nonlinear_arith)
            requires
                k > 0,
                np > 0,
        ;
        assert(SCORE_SCALE * SCORE_SCALE * (0int * 0int) == 0) by (nonlinear_arith);
        assert(!fits(k, 0, np));
        lemma_no_fit(k - 1, np);
    }
}

/// Without a positive dot product the score is 0.
proof fn lemma_score_zero_unless_similar(q: SparseVector, v: SparseVector)
    ensures
        !similar(q, v) ==> index_score(q, v) == 0,
{
    lemma_dot_nonneg(q.entries@, v.entries@);
    lemma_norm_nonneg(q.entries@);
    lemma_norm_nonneg(v.entries@);
    let x = norm_spec(q.entries@);
    let y = norm_spec(v.entries@);
    if !similar(q, v) && x != 0 && y != 0 {
        assert(x * y > 0) by (nonlinear_arith)
            requires
                x > 0,
                y > 0,
        ;
        lemma_no_fit(SCORE_SCALE as int, x * y);
    }
}

} // verus!
