//! Reranking: deduplicates hits, rescores them under a strategy, assembles a
//! context block within a character budget and fills a prompt template.
use vstd::prelude::*;
use crate::config::{Stage3RerankMode, Stage3RerankerStrategyConfig};
use crate::index::SCORE_SCALE;
use crate::search::SearchHit;
use crate::text::{lowercase_each, chars_of, contains, contains_spec, lower_of, string_of, to_lowercase, trim_bounds, trim_spec, views};

verus! {

/// A reranked hit: the position of a hit in the deduplicated hits, and its
/// strategy score (fixed-point, over `SCORE_SCALE`).
#[derive(Clone, Copy, Debug)]
pub struct RerankedHit {
    pub hit: usize,
    pub score: u128,
}

/// Hits whose lowercased chunk text an earlier hit has are dropped.
pub open spec fn deduped(hits: Seq<SearchHit>) -> Seq<SearchHit>
    decreases hits.len(),
{
    if hits.len() == 0 {
        Seq::empty()
    } else {
        let prev = deduped(hits.drop_last());
        if exists|k: int| 0 <= k < prev.len() && lower_of((#[trigger] prev[k]).chunk.text@) == lower_of(
            hits.last().chunk.text@,
        ) {
            prev
        } else {
            prev.push(hits.last())
        }
    }
}

/// Keeps the first hit of each case-insensitive chunk text.
pub fn dedupe_hits(hits: Vec<SearchHit>) -> (r: Vec<SearchHit>)
    ensures
        r@ == deduped(hits@),
{
    let mut out: Vec<SearchHit> = Vec::new();
    let mut seen: Vec<String> = Vec::new();
    let mut i: usize = 0;
    proof {
        assert(hits@.take(0) =~= Seq::<SearchHit>::empty());
    }
    while i < hits.len()
        invariant
            0 <= i <= hits@.len(),
            out@ == deduped(hits@.take(i as int)),
            seen@.len() == out@.len(),
            forall|k: int| 0 <= k < seen@.len() ==> (#[trigger] seen@[k])@ == lower_of(out@[k].chunk.text@),
        decreases hits@.len() - i,
    {
        proof {
            assert(hits@.take(i + 1).drop_last() =~= hits@.take(i as int));
            assert(hits@.take(i + 1).last() == hits@[i as int]);
        }
        let fingerprint = to_lowercase(hits[i].chunk.text.as_str());
        let mut k: usize = 0;
        let mut dup = false;
        while k < seen.len()
            invariant
                0 <= k <= seen@.len(),
                !dup ==> forall|m: int| 0 <= m < k ==> (#[trigger] seen@[m])@ != fingerprint@,
                dup ==> exists|m: int| 0 <= m < seen@.len() && (#[trigger] seen@[m])@ == fingerprint@,
            decreases seen@.len() - k,
        {
            if seen[k] == fingerprint {
                dup = true;
            }
            k = k + 1;
        }
        let ghost prev = out@;
        if !dup {
            out.push(hits[i].duplicate());
            seen.push(fingerprint);
            proof {
                assert forall|m: int| 0 <= m < prev.len() implies lower_of((#[trigger] prev[m]).chunk.text@) != lower_of(hits@[i as int].chunk.text@) by {
                    assert(seen@[m]@ == lower_of(prev[m].chunk.text@));
                }
            }
        } else {
            proof {
                let m = choose|m: int| 0 <= m < seen@.len() && (#[trigger] seen@[m])@ == fingerprint@;
                assert(lower_of(prev[m].chunk.text@) == lower_of(hits@[i as int].chunk.text@));
            }
        }
        i = i + 1;
    }
    proof {
        assert(hits@.take(i as int) =~= hits@);
    }
    out
}

/// Number of `terms` that occur in `text`.
pub open spec fn boost_count(text: Seq<char>, terms: Seq<Seq<char>>) -> nat
    decreases terms.len(),
{
    if terms.len() == 0 {
        0
    } else {
        boost_count(text, terms.drop_last()) + if contains_spec(text, terms.last()) {
            1nat
        } else {
            0nat
        }
    }
}

/// Term score of a hit: the boost terms found in its text, both lowercased.
pub open spec fn term_score(h: SearchHit, s: Stage3RerankerStrategyConfig) -> nat {
    boost_count(lower_of(h.chunk.text@), views(s.boost_terms@).map_values(|t: Seq<char>| lower_of(t)))
}

/// Combined score of a hit under strategy `s`, fixed-point.
pub open spec fn combined(h: SearchHit, s: Stage3RerankerStrategyConfig) -> int {
    let base = h.score as int;
    let boost = term_score(h, s) * s.boost_factor;
    match s.mode {
        Stage3RerankMode::BaseOnly => base,
        Stage3RerankMode::TermOverlap => base + boost,
        Stage3RerankMode::Hybrid => (base * (SCORE_SCALE - s.hybrid_weight) + boost * s.hybrid_weight)
            / SCORE_SCALE as int,
    }
}

/// Strategies that fixed-point arithmetic handles: fewer than 2^32 boost
/// terms and, in the hybrid mode, a hybrid weight of at most 1.
pub open spec fn strategy_ok(s: Stage3RerankerStrategyConfig) -> bool {
    &&& s.mode == Stage3RerankMode::Hybrid ==> s.hybrid_weight <= SCORE_SCALE
    &&& s.boost_terms@.len() <= 0xFFFF_FFFF
}

/// Higher score first; among equal scores, earlier hit first.
pub open spec fn rerank_ordered(r: Seq<RerankedHit>) -> bool {
    forall|i: int, j: int| 0 <= i < j < r.len() ==> (#[trigger] r[i]).score > (#[trigger] r[j]).score || (
    r[i].score == r[j].score && r[i].hit < r[j].hit)
}

/// `r` is the reranking of `hits` under `s`: every hit whose combined score
/// reaches the threshold, once, with that score, in order.
pub open spec fn rerank_result(hits: Seq<SearchHit>, s: Stage3RerankerStrategyConfig, r: Seq<RerankedHit>) -> bool {
    &&& forall|i: int| 0 <= i < r.len() ==> {
        &&& (#[trigger] r[i]).hit < hits.len()
        &&& r[i].score == combined(hits[r[i].hit as int], s)
        &&& r[i].score >= s.threshold
    }
    &&& forall|h: int| 0 <= h < hits.len() && combined(#[trigger] hits[h], s) >= s.threshold ==> exists|i: int|
        0 <= i < r.len() && (#[trigger] r[i]).hit == h
    &&& rerank_ordered(r)
}

/// Number of `terms` found in `text`.
fn count_boost_terms(text: &String, terms: &Vec<String>) -> (r: u64)
    requires
        terms@.len() <= 0xFFFF_FFFF,
    ensures
        r == boost_count(text@, views(terms@)),
        r <= terms@.len(),
{
    let mut n: u64 = 0;
    let mut i: usize = 0;
    while i < terms.len()
        invariant
            0 <= i <= terms@.len(),
            terms@.len() <= 0xFFFF_FFFF,
            n == boost_count(text@, views(terms@).take(i as int)),
            n <= i,
        decreases terms@.len() - i,
    {
        proof {
            assert(views(terms@).take(i + 1).drop_last() =~= views(terms@).take(i as int));
            assert(views(terms@).take(i + 1).last() == terms@[i as int]@);
        }
        if contains(text.as_str(), terms[i].as_str()) {
            n = n + 1;
        }
        i = i + 1;
    }
    proof {
        assert(views(terms@).take(i as int) =~= views(terms@));
    }
    n
}

/// Inserts `item` after every entry of at least its score.
fn insert_reranked(all: &mut Vec<RerankedHit>, item: RerankedHit) -> (pos: usize)
    requires
        rerank_ordered(old(all)@),
        forall|k: int| 0 <= k < old(all)@.len() ==> (#[trigger] old(all)@[k]).hit < item.hit,
    ensures
        pos <= old(all)@.len(),
        final(all)@ == old(all)@.insert(pos as int, item),
        rerank_ordered(final(all)@),
{
    let mut pos: usize = 0;
    while pos < all.len() && all[pos].score >= item.score
        invariant
            0 <= pos <= all@.len(),
            all@ == old(all)@,
            forall|k: int| 0 <= k < pos ==> (#[trigger] all@[k]).score >= item.score,
        decreases all@.len() - pos,
    {
        pos = pos + 1;
    }
    let ghost before = all@;
    all.insert(pos, item);
    proof {
        let s = all@;
        assert forall|i: int, j: int| 0 <= i < j < s.len() implies (#[trigger] s[i]).score > (#[trigger] s[j]).score || (
        s[i].score == s[j].score && s[i].hit < s[j].hit) by {
            if j < pos {
                assert(s[i] == before[i] && s[j] == before[j]);
            } else if j == pos {
                assert(s[i] == before[i]);
            } else if i < pos {
                assert(s[i] == before[i] && s[j] == before[j - 1]);
            } else if i == pos {
                assert(s[j] == before[j - 1]);
                assert(before[pos as int].score < item.score);
            } else {
                assert(s[i] == before[i - 1] && s[j] == before[j - 1]);
            }
        }
    }
    pos
}

/// Rescores `hits` under `strategy`, drops those below its threshold and
/// orders the rest by score, best first, earlier hits first among equals.
pub fn rerank_hits(hits: &Vec<SearchHit>, strategy: &Stage3RerankerStrategyConfig) -> (r: Vec<RerankedHit>)
    requires
        strategy_ok(*strategy),
    ensures
        rerank_result(hits@, *strategy, r@),
{
    let lower_boost = lowercase_each(&strategy.boost_terms);
    let mut scored: Vec<RerankedHit> = Vec::new();
    let mut i: usize = 0;
    while i < hits.len()
        invariant
            0 <= i <= hits@.len(),
            strategy_ok(*strategy),
            views(lower_boost@) == views(strategy.boost_terms@).map_values(|t: Seq<char>| lower_of(t)),
            lower_boost@.len() == strategy.boost_terms@.len(),
            rerank_ordered(scored@),
            forall|k: int| 0 <= k < scored@.len() ==> {
                &&& (#[trigger] scored@[k]).hit < i
                &&& scored@[k].score == combined(hits@[scored@[k].hit as int], *strategy)
                &&& scored@[k].score >= strategy.threshold
            },
            forall|h: int| 0 <= h < i && combined(#[trigger] hits@[h], *strategy) >= strategy.threshold ==> exists|k: int|
                0 <= k < scored@.len() && (#[trigger] scored@[k]).hit == h,
        decreases hits@.len() - i,
    {
        let text = to_lowercase(hits[i].chunk.text.as_str());
        let ts = count_boost_terms(&text, &lower_boost) as u128;
        let base = hits[i].score as u128;
        let factor = strategy.boost_factor as u128;
        assert(ts * factor <= 0xFFFF_FFFF * 0xFFFF_FFFF_FFFF_FFFF) by (nonlinear_arith)
            requires
                ts <= 0xFFFF_FFFF,
                factor <= 0xFFFF_FFFF_FFFF_FFFF,
        ;
        let boost = ts * factor;
        let total: u128 = match strategy.mode {
            Stage3RerankMode::BaseOnly => base,
            Stage3RerankMode::TermOverlap => base + boost,
            Stage3RerankMode::Hybrid => {
                let w = strategy.hybrid_weight as u128;
                let scale = SCORE_SCALE as u128;
                assert(base * (scale - w) <= 0xFFFF_FFFF_FFFF_FFFF * 1_000_000) by (nonlinear_arith)
                    requires
                        base <= 0xFFFF_FFFF_FFFF_FFFF,
                        w <= scale,
                        scale == 1_000_000,
                ;
                assert(boost * w <= 0xFFFF_FFFF * 0xFFFF_FFFF_FFFF_FFFF * 1_000_000) by (nonlinear_arith)
                    requires
                        boost <= 0xFFFF_FFFF * 0xFFFF_FFFF_FFFF_FFFF,
                        w <= 1_000_000,
                ;
                (base * (scale - w) + boost * w) / scale
            },
        };
        proof {
            assert(total == combined(hits@[i as int], *strategy));
        }
        if total >= strategy.threshold as u128 {
            let ghost before = scored@;
            let pos = insert_reranked(&mut scored, RerankedHit { hit: i, score: total });
            proof {
                let s = scored@;
                assert forall|k: int| 0 <= k < s.len() implies (#[trigger] s[k]).hit < i + 1 && s[k].score == combined(hits@[s[k].hit as int], *strategy) && s[k].score >= strategy.threshold by {
                    if k < pos {
                        assert(s[k] == before[k]);
                    } else if k > pos {
                        assert(s[k] == before[k - 1]);
                    }
                }
                assert forall|h: int| 0 <= h < i + 1 && combined(#[trigger] hits@[h], *strategy) >= strategy.threshold implies exists|k: int|
                    0 <= k < s.len() && (#[trigger] s[k]).hit == h by {
                    if h < i {
                        let k = choose|k: int| 0 <= k < before.len() && (#[trigger] before[k]).hit == h;
                        if k < pos {
                            assert(s[k] == before[k]);
                        } else {
                            assert(s[k + 1] == before[k]);
                        }
                    } else {
                        assert(s[pos as int].hit == h);
                    }
                }
            }
        }
        i = i + 1;
    }
    scored
}

/// Under the base-only mode, reranking keeps the order of hits that come
/// ordered by similarity: only the threshold removes any.
pub proof fn rerank_base_only_keeps_order(
    hits: Seq<SearchHit>,
    s: Stage3RerankerStrategyConfig,
    r: Seq<RerankedHit>,
)
    requires
        rerank_result(hits, s, r),
        s.mode == Stage3RerankMode::BaseOnly,
        forall|i: int, j: int| 0 <= i < j < hits.len() ==> (#[trigger] hits[i]).score >= (#[trigger] hits[j]).score,
    ensures
        forall|i: int, j: int| 0 <= i < j < r.len() ==> (#[trigger] r[i]).hit < (#[trigger] r[j]).hit,
        forall|i: int| 0 <= i < r.len() ==> (#[trigger] r[i]).score == hits[r[i].hit as int].score,
        forall|h: int| 0 <= h < hits.len() ==> ((#[trigger] hits[h]).score >= s.threshold <==> exists|i: int|
            0 <= i < r.len() && (#[trigger] r[i]).hit == h),
{
    assert forall|i: int, j: int| 0 <= i < j < r.len() implies (#[trigger] r[i]).hit < (#[trigger] r[j]).hit by {
        let a = r[i].hit as int;
        let b = r[j].hit as int;
        if a > b {
            assert(hits[b].score >= hits[a].score);
        }
    }
    assert forall|h: int| 0 <= h < hits.len() implies ((#[trigger] hits[h]).score >= s.threshold <==> exists|i: int|
        0 <= i < r.len() && (#[trigger] r[i]).hit == h) by {
        if exists|i: int| 0 <= i < r.len() && (#[trigger] r[i]).hit == h {
            let i = choose|i: int| 0 <= i < r.len() && (#[trigger] r[i]).hit == h;
        }
        assert(combined(hits[h], s) == hits[h].score);
    }
}

/// Separator between the texts of the context block.
pub open spec fn separator() -> Seq<char> {
    seq!['\n', '-', '-', '-', '\n']
}

/// One step of context assembly: adds `text`, trimmed, unless it is empty
/// or the budget leaves no room for it (after the separator, when the block
/// is not empty); the text is cut to what is left of the budget.
pub open spec fn context_step(ctx: Seq<char>, text: Seq<char>, budget: int) -> Seq<char> {
    let add = trim_spec(text);
    let c2 = if ctx.len() > 0 {
        ctx + separator()
    } else {
        ctx
    };
    if add.len() == 0 || c2.len() >= budget {
        ctx
    } else {
        let room = budget - c2.len();
        c2 + add.take(if room < add.len() { room } else { add.len() as int })
    }
}

/// The context block of `texts` within `budget` characters.
pub open spec fn context_of(texts: Seq<Seq<char>>, budget: int) -> Seq<char>
    decreases texts.len(),
{
    if texts.len() == 0 {
        Seq::empty()
    } else {
        context_step(context_of(texts.drop_last(), budget), texts.last(), budget)
    }
}

/// Chunk texts of the reranked hits, in order.
pub open spec fn reranked_texts(hits: Seq<SearchHit>, r: Seq<RerankedHit>) -> Seq<Seq<char>> {
    r.map_values(|x: RerankedHit| hits[x.hit as int].chunk.text@)
}

/// The first `max` characters of `text`.
pub fn truncate(text: &str, max: usize) -> (r: String)
    ensures
        r@ == text@.take(if max < text@.len() { max as int } else { text@.len() as int }),
{
    if max == 0 {
        proof {
            assert(text@.take(0) =~= Seq::<char>::empty());
        }
        return String::new();
    }
    let cs = chars_of(text);
    let n = if max < cs.len() { max } else { cs.len() };
    let kept = crate::normalization::slice_chars(&cs, 0, n);
    proof {
        assert(cs@.subrange(0, n as int) =~= text@.take(n as int));
    }
    string_of(kept.as_slice())
}

/// Concatenates the trimmed texts of the reranked hits, separated by
/// `"\n---\n"`, until `budget` characters are reached; the text that reaches
/// it is cut to fill it exactly.
pub fn build_context(hits: &Vec<SearchHit>, reranked: &Vec<RerankedHit>, budget: usize) -> (r: String)
    requires
        forall|i: int| 0 <= i < reranked@.len() ==> (#[trigger] reranked@[i]).hit < hits@.len(),
    ensures
        r@ == context_of(reranked_texts(hits@, reranked@), budget as int),
        r@.len() <= budget,
{
    let ghost texts = reranked_texts(hits@, reranked@);
    let mut ctx: Vec<char> = Vec::new();
    let mut i: usize = 0;
    proof {
        assert(texts.take(0) =~= Seq::<Seq<char>>::empty());
    }
    while i < reranked.len()
        invariant
            0 <= i <= reranked@.len(),
            texts == reranked_texts(hits@, reranked@),
            forall|k: int| 0 <= k < reranked@.len() ==> (#[trigger] reranked@[k]).hit < hits@.len(),
            ctx@ == context_of(texts.take(i as int), budget as int),
            ctx@.len() <= budget,
        decreases reranked@.len() - i,
    {
        proof {
            assert(texts.take(i + 1).drop_last() =~= texts.take(i as int));
            assert(texts.take(i + 1).last() == hits@[reranked@[i as int].hit as int].chunk.text@);
        }
        let sep_len: usize = if ctx.len() > 0 { 5 } else { 0 };
        if ctx.len() < budget && budget - ctx.len() > sep_len {
            let tc = chars_of(hits[reranked[i].hit].chunk.text.as_str());
            let (lo, hi) = trim_bounds(&tc, 0, tc.len());
            proof {
                assert(tc@.subrange(0, tc@.len() as int) =~= tc@);
            }
            if lo < hi {
                let ghost c0 = ctx@;
                if ctx.len() > 0 {
                    ctx.push('\n');
                    ctx.push('-');
                    ctx.push('-');
                    ctx.push('-');
                    ctx.push('\n');
                    proof {
                        assert(ctx@ =~= c0 + separator());
                    }
                }
                let ghost c2 = ctx@;
                let room: usize = budget - ctx.len();
                let take = if room < hi - lo { room } else { hi - lo };
                let mut k: usize = 0;
                while k < take
                    invariant
                        0 <= k <= take,
                        lo + take <= hi <= tc@.len(),
                        ctx@ == c2 + tc@.subrange(lo as int, lo + k),
                    decreases take - k,
                {
                    ctx.push(tc[lo + k]);
                    k = k + 1;
                    proof {
                        assert(ctx@ =~= c2 + tc@.subrange(lo as int, lo + k));
                    }
                }
                proof {
                    let add = trim_spec(tc@);
                    assert(add == tc@.subrange(lo as int, hi as int));
                    assert(tc@.subrange(lo as int, lo + take) =~= add.take(take as int));
                }
            }
        } else {
            proof {
                if ctx@.len() > 0 {
                    assert((ctx@ + separator()).len() == ctx@.len() + 5);
                }
            }
        }
        i = i + 1;
    }
    proof {
        assert(texts.take(i as int) =~= texts);
    }
    string_of(ctx.as_slice())
}

/// `s` with every non-overlapping occurrence of non-empty `p`, scanning left
/// to right, replaced by `r`.
pub open spec fn replace_spec(s: Seq<char>, p: Seq<char>, r: Seq<char>) -> Seq<char>
    decreases s.len(),
{
    if s.len() == 0 {
        Seq::empty()
    } else if 0 < p.len() <= s.len() && s.take(p.len() as int) == p {
        r + replace_spec(s.skip(p.len() as int), p, r)
    } else {
        seq![s[0]] + replace_spec(s.skip(1), p, r)
    }
}

/// Replaces each occurrence of non-empty `pat` in `s` by `rep`.
fn replace_all(s: &str, pat: &str, rep: &str) -> (r: String)
    requires
        pat@.len() > 0,
    ensures
        r@ == replace_spec(s@, pat@, rep@),
{
    let sc = chars_of(s);
    let pc = chars_of(pat);
    let rc = chars_of(rep);
    let mut out: Vec<char> = Vec::new();
    let mut i: usize = 0;
    proof {
        assert(sc@.skip(0) =~= sc@);
        assert(out@ + replace_spec(sc@.skip(0), pc@, rc@) =~= replace_spec(sc@, pc@, rc@));
    }
    while i < sc.len()
        invariant
            0 <= i <= sc@.len(),
            sc@ == s@,
            pc@ == pat@,
            rc@ == rep@,
            pc@.len() > 0,
            out@ + replace_spec(sc@.skip(i as int), pc@, rc@) == replace_spec(sc@, pc@, rc@),
        decreases sc@.len() - i,
    {
        let ghost o = out@;
        let ghost rest = sc@.skip(i as int);
        if pc.len() <= sc.len() - i && crate::chunk::matches_at(&sc, &pc, i) {
            proof {
                assert(rest.take(pc@.len() as int) =~= sc@.subrange(i as int, i + pc@.len()));
                assert(rest.skip(pc@.len() as int) =~= sc@.skip(i + pc@.len()));
            }
            let mut k: usize = 0;
            while k < rc.len()
                invariant
                    0 <= k <= rc@.len(),
                    out@ == o + rc@.take(k as int),
                decreases rc@.len() - k,
            {
                out.push(rc[k]);
                k = k + 1;
                proof {
                    assert(out@ =~= o + rc@.take(k as int));
                }
            }
            proof {
                assert(rc@.take(rc@.len() as int) =~= rc@);
                assert(o + (rc@ + replace_spec(sc@.skip(i + pc@.len()), pc@, rc@)) =~= out@ + replace_spec(
                    sc@.skip(i + pc@.len()),
                    pc@,
                    rc@,
                ));
            }
            i = i + pc.len();
        } else {
            proof {
                if pc@.len() <= rest.len() {
                    assert(rest.take(pc@.len() as int) =~= sc@.subrange(i as int, i + pc@.len()));
                }
                assert(rest.skip(1) =~= sc@.skip(i + 1));
                assert(rest[0] == sc@[i as int]);
            }
            out.push(sc[i]);
            proof {
                assert(o + (seq![sc@[i as int]] + replace_spec(sc@.skip(i + 1), pc@, rc@)) =~= out@ + replace_spec(
                    sc@.skip(i + 1),
                    pc@,
                    rc@,
                ));
            }
            i = i + 1;
        }
    }
    proof {
        assert(sc@.skip(i as int) =~= Seq::<char>::empty());
        assert(out@ + Seq::<char>::empty() =~= out@);
    }
    string_of(out.as_slice())
}

/// Fills the `{query}` and then the `{context}` placeholders of `template`.
pub fn format_prompt(template: &str, query: &str, context: &str) -> (r: String)
    ensures
        r@ == replace_spec(replace_spec(template@, "{query}"@, query@), "{context}"@, context@),
{
    proof {
        reveal_strlit("{query}");
        reveal_strlit("{context}");
    }
    let first = replace_all(template, "{query}", query);
    replace_all(first.as_str(), "{context}", context)
}

} // verus!
