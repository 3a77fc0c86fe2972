//! The chunker: splits normalized text into passages, either at separator
//! strings (structured) or as sliding windows of whitespace-delimited tokens
//! (fixed), with trimming, optional deduplication and byte offsets.
use vstd::prelude::*;
use crate::normalization::{normalize, normalize_spec, slice_chars};
use crate::text::{
    byte_offset, chars_of, char_width, is_ascii_white_space, is_ascii_whitespace,
    is_white_space, is_whitespace, lead_ws, lemma_byte_len_strict, lemma_byte_len_bound,
    occurs_at, string_of, trail_ws, trim_bounds, trim_spec,
};

verus! {

#[derive(Clone, Copy, Debug, PartialEq, Eq, Structural)]
pub enum ChunkStrategy {
    Structured,
    Fixed,
}

impl ChunkStrategy {
    /// The lowercase name of the strategy.
    pub fn name(&self) -> (r: String)
        ensures
            r@ == (match self {
                ChunkStrategy::Structured => "structured"@,
                ChunkStrategy::Fixed => "fixed"@,
            }),
    {
        match self {
            ChunkStrategy::Structured => String::from_str("structured"),
            ChunkStrategy::Fixed => String::from_str("fixed"),
        }
    }
}

#[derive(Clone, Debug)]
pub struct Chunk {
    pub id: String,
    pub doc_id: String,
    pub text: String,
    pub start: usize,
    pub end: usize,
    pub strategy: ChunkStrategy,
}

impl Chunk {
    /// A field-by-field copy.
    pub fn duplicate(&self) -> (r: Chunk)
        ensures
            r == *self,
    {
        Chunk {
            id: self.id.clone(),
            doc_id: self.doc_id.clone(),
            text: self.text.clone(),
            start: self.start,
            end: self.end,
            strategy: self.strategy,
        }
    }
}

pub struct Chunker {
    pub strategy: ChunkStrategy,
    pub max_tokens: usize,
    pub overlap: usize,
    pub split_on_double_newline: bool,
    pub dedupe_segments: bool,
    pub chunk_separators: Vec<String>,
}

/// Index of the first occurrence of `t` in `s` at or after `i`.
pub open spec fn first_from(s: Seq<char>, t: Seq<char>, i: int) -> Option<int>
    decreases s.len() - i,
{
    if i < 0 || i >= s.len() || i + t.len() > s.len() {
        None
    } else if occurs_at(s, t, i) {
        Some(i)
    } else {
        first_from(s, t, i + 1)
    }
}

/// Leftmost separator match at or after `from`, over the first `seps.len()`
/// separators: its index and the separator's length. Among matches at the
/// same index the earlier separator wins; empty separators are skipped.
pub open spec fn split_fold(s: Seq<char>, from: int, seps: Seq<String>) -> Option<(int, int)>
    decreases seps.len(),
{
    if seps.len() == 0 {
        None
    } else {
        let best = split_fold(s, from, seps.drop_last());
        let sep = seps.last()@;
        if sep.len() == 0 {
            best
        } else {
            match first_from(s, sep, from) {
                None => best,
                Some(idx) => match best {
                    Some(b) if b.0 <= idx => best,
                    _ => Some((idx, sep.len() as int)),
                },
            }
        }
    }
}

/// Number of ASCII whitespace characters starting at `i`.
pub open spec fn ascii_ws_run(s: Seq<char>, i: int) -> nat
    decreases s.len() - i,
{
    if 0 <= i < s.len() && is_ascii_white_space(s[i]) {
        1 + ascii_ws_run(s, i + 1)
    } else {
        0
    }
}

/// Raw character ranges that the structured strategy cuts from `s[cursor..]`.
pub open spec fn structured_ranges(
    s: Seq<char>,
    cursor: int,
    split: bool,
    seps: Seq<String>,
) -> Seq<(int, int)>
    decreases s.len() - cursor,
{
    if cursor < 0 || cursor >= s.len() {
        Seq::empty()
    } else {
        let found = if split {
            split_fold(s, cursor, seps)
        } else {
            None
        };
        match found {
            Some((idx, len)) if cursor <= idx && 0 < len && idx + len + ascii_ws_run(s, idx + len)
                <= s.len() => {
                let next = idx + len + ascii_ws_run(s, idx + len);
                seq![(cursor, idx)] + structured_ranges(s, next, split, seps)
            },
            _ => seq![(cursor, s.len() as int)],
        }
    }
}

/// Scan state of the token boundary search over the first `i` characters:
/// finished tokens and the start of the token in progress.
pub open spec fn token_scan(s: Seq<char>, i: int) -> (Seq<(int, int)>, Option<int>)
    decreases i,
{
    if i <= 0 {
        (Seq::empty(), None)
    } else {
        let (p, open) = token_scan(s, i - 1);
        if is_white_space(s[i - 1]) {
            match open {
                Some(a) => (p.push((a, i - 1)), None),
                None => (p, None),
            }
        } else {
            match open {
                Some(a) => (p, Some(a)),
                None => (p, Some(i - 1)),
            }
        }
    }
}

/// Character ranges of the maximal whitespace-free runs of `s`.
pub open spec fn tokens_spec(s: Seq<char>) -> Seq<(int, int)> {
    let (p, open) = token_scan(s, s.len() as int);
    match open {
        Some(a) => p.push((a, s.len() as int)),
        None => p,
    }
}

/// Window step of the fixed strategy.
pub open spec fn fixed_step(max_tokens: int, overlap: int) -> int {
    if max_tokens - overlap >= 1 {
        max_tokens - overlap
    } else {
        1
    }
}

/// Raw character ranges of the windows of `max` tokens from token `cursor` on.
pub open spec fn window_ranges(toks: Seq<(int, int)>, cursor: int, max: int, step: int) -> Seq<
    (int, int),
>
    decreases toks.len() - cursor,
{
    if cursor < 0 || cursor >= toks.len() || max <= 0 || step <= 0 {
        Seq::empty()
    } else {
        let end = if cursor + max < toks.len() {
            cursor + max
        } else {
            toks.len() as int
        };
        let w = (toks[cursor].0, toks[end - 1].1);
        if end == toks.len() || cursor + step > toks.len() {
            seq![w]
        } else {
            seq![w] + window_ranges(toks, cursor + step, max, step)
        }
    }
}

/// Raw candidate ranges of `s` under the chunker's configuration.
pub open spec fn candidate_ranges(c: &Chunker, s: Seq<char>) -> Seq<(int, int)> {
    match c.strategy {
        ChunkStrategy::Structured => structured_ranges(
            s,
            0,
            c.split_on_double_newline,
            c.chunk_separators@,
        ),
        ChunkStrategy::Fixed => window_ranges(
            tokens_spec(s),
            0,
            c.max_tokens as int,
            fixed_step(c.max_tokens as int, c.overlap as int),
        ),
    }
}

/// The trimmed range of `s[a..b]`.
pub open spec fn trimmed_range(s: Seq<char>, r: (int, int)) -> (int, int) {
    let seg = s.subrange(r.0, r.1);
    (r.0 + lead_ws(seg), r.1 - trail_ws(seg))
}

/// Ranges kept from `ranges` after trimming, dropping empty segments and,
/// with `dedup`, segments whose trimmed text an earlier kept one has.
pub open spec fn kept_ranges(s: Seq<char>, ranges: Seq<(int, int)>, dedup: bool) -> Seq<(int, int)>
    decreases ranges.len(),
{
    if ranges.len() == 0 {
        Seq::empty()
    } else {
        let prev = kept_ranges(s, ranges.drop_last(), dedup);
        let r = ranges.last();
        let t = trim_spec(s.subrange(r.0, r.1));
        if t.len() == 0 || (dedup && exists|k: int|
            0 <= k < prev.len() && #[trigger] s.subrange(prev[k].0, prev[k].1) == t) {
            prev
        } else {
            prev.push(trimmed_range(s, r))
        }
    }
}

/// Chunk `c` is the chunk of range `r` of `s`.
pub open spec fn chunk_of(c: Chunk, s: Seq<char>, r: (int, int), doc_id: Seq<char>, strategy: ChunkStrategy) -> bool {
    &&& c.start == byte_offset(s, r.0)
    &&& c.end == byte_offset(s, r.1)
    &&& c.text@ == normalize_spec(s.subrange(r.0, r.1))
    &&& c.doc_id@ == doc_id
    &&& c.strategy == strategy
}

pub open spec fn chunks_of(cs: Seq<Chunk>, s: Seq<char>, ks: Seq<(int, int)>, doc_id: Seq<char>, strategy: ChunkStrategy) -> bool {
    &&& cs.len() == ks.len()
    &&& forall|k: int| 0 <= k < cs.len() ==> chunk_of(#[trigger] cs[k], s, ks[k], doc_id, strategy)
}

/// The texts seen so far are those of the kept ranges.
pub open spec fn seen_of(seen: Seq<String>, s: Seq<char>, ks: Seq<(int, int)>) -> bool {
    &&& seen.len() == ks.len()
    &&& forall|k: int| 0 <= k < seen.len() ==> (#[trigger] seen[k])@ == s.subrange(ks[k].0, ks[k].1)
}

pub open spec fn ranges_in(ks: Seq<(int, int)>, n: int) -> bool {
    forall|k: int| 0 <= k < ks.len() ==> 0 <= (#[trigger] ks[k]).0 <= ks[k].1 <= n
}

/// Relies on `uuid::Uuid::new_v4`: a fresh random identifier, as a string.
#[verifier::external_body]
pub(crate) fn fresh_id() -> (r: String) {
    uuid::Uuid::new_v4().to_string()
}

/// `offs[i]` is the byte offset of character `i`, for `i` up to `s.len()`.
pub fn prefix_offsets(s: &Vec<char>) -> (offs: Vec<usize>)
    requires
        4 * s@.len() <= usize::MAX,
    ensures
        offs@.len() == s@.len() + 1,
        forall|i: int| 0 <= i <= s@.len() ==> offs@[i] == byte_offset(s@, i),
        forall|i: int, j: int| 0 <= i < j <= s@.len() ==> offs@[i] < offs@[j],
{
    let mut offs: Vec<usize> = Vec::new();
    offs.push(0);
    let mut i: usize = 0;
    proof {
        assert(s@.take(0) =~= Seq::<char>::empty());
    }
    while i < s.len()
        invariant
            0 <= i <= s@.len(),
            4 * s@.len() <= usize::MAX,
            offs@.len() == i + 1,
            forall|k: int| 0 <= k <= i ==> offs@[k] == byte_offset(s@, k),
        decreases s@.len() - i,
    {
        proof {
            assert(s@.take(i + 1).drop_last() =~= s@.take(i as int));
            lemma_byte_len_bound(s@.take(i + 1));
        }
        let next = offs[i] + char_width(s[i]);
        offs.push(next);
        i = i + 1;
    }
    proof {
        assert forall|a: int, b: int| 0 <= a < b <= s@.len() implies offs@[a] < offs@[b] by {
            lemma_byte_len_strict(s@, a, b);
        }
    }
    offs
}

impl Chunker {
    pub fn with_config(
        strategy: ChunkStrategy,
        max_tokens: usize,
        overlap: usize,
        split_on_double_newline: bool,
        dedupe_segments: bool,
        chunk_separators: Vec<String>,
    ) -> (r: Chunker)
        ensures
            r.strategy == strategy,
            r.max_tokens == max_tokens,
            r.overlap == overlap,
            r.split_on_double_newline == split_on_double_newline,
            r.dedupe_segments == dedupe_segments,
            r.chunk_separators@ == chunk_separators@,
    {
        Chunker {
            strategy,
            max_tokens,
            overlap,
            split_on_double_newline,
            dedupe_segments,
            chunk_separators,
        }
    }

    /// Splits `input` into chunks of document `doc_id`. Each chunk is the
    /// trimmed text of one candidate range, normalized, with the byte
    /// offsets of its trimmed bounds; under the fixed strategy the start
    /// offsets strictly increase.
    pub fn chunk(&self, doc_id: &str, input: &str) -> (r: Vec<Chunk>)
        requires
            4 * input@.len() <= usize::MAX,
            self.strategy == ChunkStrategy::Fixed ==> self.max_tokens > 0,
        ensures
            chunks_of(
                r@,
                input@,
                kept_ranges(input@, candidate_ranges(self, input@), self.dedupe_segments),
                doc_id@,
                self.strategy,
            ),
            self.strategy == ChunkStrategy::Fixed ==> forall|i: int, j: int|
                0 <= i < j < r@.len() ==> r@[i].start < r@[j].start,
    {
        match self.strategy {
            ChunkStrategy::Structured => self.structured(doc_id, input),
            ChunkStrategy::Fixed => self.fixed(doc_id, input),
        }
    }

    /// One post-processing step: trims `s[a..b]`, drops it when empty or
    /// (with deduplication) already seen, else appends its chunk.
    fn segment(
        &self,
        s: &Vec<char>,
        offs: &Vec<usize>,
        a: usize,
        b: usize,
        doc_id: &str,
        strategy: ChunkStrategy,
        seen: &mut Vec<String>,
        results: &mut Vec<Chunk>,
        Ghost(done): Ghost<Seq<(int, int)>>,
    )
        requires
            a <= b <= s@.len(),
            offs@.len() == s@.len() + 1,
            forall|i: int| 0 <= i <= s@.len() ==> offs@[i] == byte_offset(s@, i),
            chunks_of(old(results)@, s@, kept_ranges(s@, done, self.dedupe_segments), doc_id@, strategy),
            seen_of(old(seen)@, s@, kept_ranges(s@, done, self.dedupe_segments)),
            ranges_in(kept_ranges(s@, done, self.dedupe_segments), s@.len() as int),
        ensures
            chunks_of(
                final(results)@,
                s@,
                kept_ranges(s@, done.push((a as int, b as int)), self.dedupe_segments),
                doc_id@,
                strategy,
            ),
            seen_of(final(seen)@, s@, kept_ranges(s@, done.push((a as int, b as int)), self.dedupe_segments)),
            ranges_in(kept_ranges(s@, done.push((a as int, b as int)), self.dedupe_segments), s@.len() as int),
            final(results)@ == old(results)@ || final(results)@ == old(results)@.push(final(results)@.last()),
            final(results)@.len() > old(results)@.len() ==> {
                &&& final(results)@.last().start == offs@[a as int + lead_ws(s@.subrange(a as int, b as int))]
                &&& a < b && !is_white_space(s@[a as int]) ==> final(results)@.last().start == offs@[a as int]
            },
    {
        let ghost all = done.push((a as int, b as int));
        let ghost prev = kept_ranges(s@, done, self.dedupe_segments);
        proof {
            assert(all.drop_last() =~= done);
        }
        let ghost seg = s@.subrange(a as int, b as int);
        let (lo, hi) = trim_bounds(s, a, b);
        if lo == hi {
            return;
        }
        let trimmed = slice_chars(s, lo, hi);
        let text = string_of(trimmed.as_slice());
        if self.dedupe_segments {
            let mut k: usize = 0;
            while k < seen.len()
                invariant
                    0 <= k <= seen@.len(),
                    seen@ == old(seen)@,
                    results@ == old(results)@,
                    prev == kept_ranges(s@, done, self.dedupe_segments),
                    all == done.push((a as int, b as int)),
                    all.drop_last() == done,
                    seg == s@.subrange(a as int, b as int),
                    seen_of(seen@, s@, prev),
                    chunks_of(results@, s@, prev, doc_id@, strategy),
                    ranges_in(prev, s@.len() as int),
                    text@ == trim_spec(seg),
                    self.dedupe_segments,
                    forall|m: int| 0 <= m < k ==> seen@[m]@ != text@,
                decreases seen@.len() - k,
            {
                if seen[k] == text {
                    proof {
                        assert(seen@[k as int]@ == text@);
                        assert(s@.subrange(prev[k as int].0, prev[k as int].1) == trim_spec(seg));
                        assert(all.last() == (a as int, b as int));
                        assert(kept_ranges(s@, all, self.dedupe_segments) == prev);
                    }
                    return;
                }
                k = k + 1;
            }
            proof {
                assert forall|m: int| 0 <= m < prev.len() implies #[trigger] s@.subrange(
                    prev[m].0,
                    prev[m].1,
                ) != trim_spec(s@.subrange(a as int, b as int)) by {
                    assert(seen@[m]@ != text@);
                }
            }
        }
        let ghost tr = trimmed_range(s@, (a as int, b as int));
        proof {
            assert(tr == (lo as int, hi as int));
        }
        let id = fresh_id();
        let normalized = normalize(text.as_str());
        let chunk = Chunk {
            id,
            doc_id: String::from_str(doc_id),
            text: normalized,
            start: offs[lo],
            end: offs[hi],
            strategy,
        };
        results.push(chunk);
        seen.push(text);
        proof {
            let ks = kept_ranges(s@, all, self.dedupe_segments);
            assert(ks == prev.push(tr));
            assert forall|k: int| 0 <= k < results@.len() implies chunk_of(
                #[trigger] results@[k],
                s@,
                ks[k],
                doc_id@,
                strategy,
            ) by {
                if k < results@.len() - 1 {
                    assert(results@[k] == old(results)@[k]);
                }
            }
            assert forall|k: int| 0 <= k < seen@.len() implies (#[trigger] seen@[k])@ == s@.subrange(ks[k].0, ks[k].1) by {
                if k < seen@.len() - 1 {
                    assert(seen@[k] == old(seen)@[k]);
                }
            }
        }
    }
}


impl Chunker {
    fn structured(&self, doc_id: &str, input: &str) -> (r: Vec<Chunk>)
        requires
            4 * input@.len() <= usize::MAX,
            self.strategy == ChunkStrategy::Structured,
        ensures
            chunks_of(
                r@,
                input@,
                kept_ranges(input@, candidate_ranges(self, input@), self.dedupe_segments),
                doc_id@,
                ChunkStrategy::Structured,
            ),
    {
        let s = chars_of(input);
        let offs = prefix_offsets(&s);
        let mut results: Vec<Chunk> = Vec::new();
        let mut seen: Vec<String> = Vec::new();
        let mut cursor: usize = 0;
        let ghost seps = self.chunk_separators@;
        let ghost split = self.split_on_double_newline;
        let ghost mut done: Seq<(int, int)> = Seq::empty();
        proof {
            assert(done + structured_ranges(s@, 0, split, seps) =~= structured_ranges(s@, 0, split, seps));
        }
        while cursor < s.len()
            invariant
                cursor <= s@.len(),
                s@ == input@,
                offs@.len() == s@.len() + 1,
                forall|i: int| 0 <= i <= s@.len() ==> offs@[i] == byte_offset(s@, i),
                split == self.split_on_double_newline,
                seps == self.chunk_separators@,
                structured_ranges(s@, 0, split, seps) == done + structured_ranges(s@, cursor as int, split, seps),
                chunks_of(results@, s@, kept_ranges(s@, done, self.dedupe_segments), doc_id@, ChunkStrategy::Structured),
                seen_of(seen@, s@, kept_ranges(s@, done, self.dedupe_segments)),
                ranges_in(kept_ranges(s@, done, self.dedupe_segments), s@.len() as int),
            decreases s@.len() - cursor,
        {
            let found = if self.split_on_double_newline {
                find_split_length(&s, cursor, &self.chunk_separators)
            } else {
                None
            };
            match found {
                Some((idx, len)) => {
                    self.segment(&s, &offs, cursor, idx, doc_id, ChunkStrategy::Structured, &mut seen, &mut results, Ghost(done));
                    let next = idx + len;
                    let skip = skip_newlines(&s, next);
                    proof {
                        let rest = structured_ranges(s@, (next + skip) as int, split, seps);
                        assert(structured_ranges(s@, cursor as int, split, seps) == seq![(cursor as int, idx as int)] + rest);
                        assert(done + (seq![(cursor as int, idx as int)] + rest) =~= done.push((cursor as int, idx as int)) + rest);
                        done = done.push((cursor as int, idx as int));
                    }
                    cursor = next + skip;
                },
                None => {
                    let n = s.len();
                    self.segment(&s, &offs, cursor, n, doc_id, ChunkStrategy::Structured, &mut seen, &mut results, Ghost(done));
                    proof {
                        assert(structured_ranges(s@, cursor as int, split, seps) == seq![(cursor as int, n as int)]);
                        assert(structured_ranges(s@, n as int, split, seps) =~= Seq::<(int, int)>::empty());
                        assert(done + seq![(cursor as int, n as int)] =~= done.push((cursor as int, n as int)) + Seq::<(int, int)>::empty());
                        done = done.push((cursor as int, n as int));
                    }
                    cursor = n;
                },
            }
        }
        proof {
            assert(structured_ranges(s@, cursor as int, split, seps) =~= Seq::<(int, int)>::empty());
            assert(done + Seq::<(int, int)>::empty() =~= done);
        }
        results
    }

    #[verifier::rlimit(50)]
    fn fixed(&self, doc_id: &str, input: &str) -> (r: Vec<Chunk>)
        requires
            4 * input@.len() <= usize::MAX,
            self.strategy == ChunkStrategy::Fixed,
            self.max_tokens > 0,
        ensures
            chunks_of(
                r@,
                input@,
                kept_ranges(input@, candidate_ranges(self, input@), self.dedupe_segments),
                doc_id@,
                ChunkStrategy::Fixed,
            ),
            forall|i: int, j: int| 0 <= i < j < r@.len() ==> r@[i].start < r@[j].start,
    {
        let s = chars_of(input);
        let offs = prefix_offsets(&s);
        let toks = token_positions(&s);
        let ghost t = tokens_spec(s@);
        let mut results: Vec<Chunk> = Vec::new();
        let mut seen: Vec<String> = Vec::new();
        let ghost max = self.max_tokens as int;
        let step: usize = if self.max_tokens > self.overlap && self.max_tokens - self.overlap >= 1 {
            self.max_tokens - self.overlap
        } else {
            1
        };
        let ghost mut done: Seq<(int, int)> = Seq::empty();
        if toks.len() == 0 {
            return results;
        }
        let mut cursor: usize = 0;
        proof {
            assert(step == fixed_step(max, self.overlap as int));
            assert(done + window_ranges(t, 0, max, step as int) =~= window_ranges(t, 0, max, step as int));
        }
        while cursor < toks.len()
            invariant
                cursor <= toks@.len(),
                toks@.len() == t.len(),
                t == tokens_spec(s@),
                bounds_view(toks@) == t,
                tokens_sorted(t, s@),
                step >= 1,
                step <= max,
                s@ == input@,
                max == self.max_tokens,
                max > 0,
                offs@.len() == s@.len() + 1,
                forall|i: int| 0 <= i <= s@.len() ==> offs@[i] == byte_offset(s@, i),
                forall|i: int, j: int| 0 <= i < j <= s@.len() ==> offs@[i] < offs@[j],
                window_ranges(t, 0, max, step as int) == done + window_ranges(t, cursor as int, max, step as int),
                chunks_of(results@, s@, kept_ranges(s@, done, self.dedupe_segments), doc_id@, ChunkStrategy::Fixed),
                seen_of(seen@, s@, kept_ranges(s@, done, self.dedupe_segments)),
                ranges_in(kept_ranges(s@, done, self.dedupe_segments), s@.len() as int),
                forall|i: int, j: int| 0 <= i < j < results@.len() ==> results@[i].start < results@[j].start,
                cursor < toks@.len() ==> forall|i: int| 0 <= i < results@.len() ==> results@[i].start < offs@[t[cursor as int].0],
            decreases toks@.len() - cursor,
        {
            let end = if self.max_tokens < toks.len() - cursor {
                cursor + self.max_tokens
            } else {
                toks.len()
            };
            let a = toks[cursor].start;
            let b = toks[end - 1].end;
            proof {
                assert(t[cursor as int] == (a as int, toks@[cursor as int].end as int));
                assert(t[end - 1] == (toks@[end - 1].start as int, b as int));
                if end - 1 > cursor {
                    assert(t[cursor as int].1 <= t[end - 1].0);
                }
            }
            let ghost before = results@;
            self.segment(&s, &offs, a, b, doc_id, ChunkStrategy::Fixed, &mut seen, &mut results, Ghost(done));
            proof {
                assert(a < b);
                assert(!is_white_space(s@[a as int]));
                assert forall|i: int, j: int| 0 <= i < j < results@.len() implies results@[i].start
                    < results@[j].start by {
                    assert(results@[i] == before[i]);
                    if j < before.len() {
                        assert(results@[j] == before[j]);
                    }
                }
                assert forall|i: int| 0 <= i < results@.len() implies results@[i].start <= offs@[a as int] by {
                    if i < before.len() {
                        assert(results@[i] == before[i]);
                    }
                }
            }
            let ghost w = (a as int, b as int);
            if end == toks.len() {
                proof {
                    assert(window_ranges(t, cursor as int, max, step as int) == seq![w]);
                    assert(done + seq![w] =~= done.push(w));
                    done = done.push(w);
                    assert(window_ranges(t, toks@.len() as int, max, step as int) =~= Seq::<(int, int)>::empty());
                    assert(done + Seq::<(int, int)>::empty() =~= done);
                }
                cursor = toks.len();
            } else {
                proof {
                    let rest = window_ranges(t, cursor + step, max, step as int);
                    assert(window_ranges(t, cursor as int, max, step as int) == seq![w] + rest);
                    assert(done + (seq![w] + rest) =~= done.push(w) + rest);
                    done = done.push(w);
                    assert(t[cursor as int].1 <= t[cursor + step].0);
                    assert(offs@[t[cursor as int].0] < offs@[t[cursor + step].0]);
                }
                cursor = cursor + step;
            }
        }
        proof {
            assert(window_ranges(t, cursor as int, max, step as int) =~= Seq::<(int, int)>::empty());
            assert(done + Seq::<(int, int)>::empty() =~= done);
        }
        results
    }
}

pub struct TokenBoundary {
    pub start: usize,
    pub end: usize,
}

pub open spec fn bounds_view(v: Seq<TokenBoundary>) -> Seq<(int, int)> {
    v.map_values(|b: TokenBoundary| (b.start as int, b.end as int))
}

/// Token ranges are non-empty, start on a non-whitespace character, and
/// come in order without overlapping.
pub open spec fn tokens_sorted(t: Seq<(int, int)>, s: Seq<char>) -> bool {
    &&& forall|k: int| 0 <= k < t.len() ==> 0 <= (#[trigger] t[k]).0 < t[k].1 <= s.len() && !is_white_space(s[t[k].0])
    &&& forall|k: int, l: int| 0 <= k < l < t.len() ==> (#[trigger] t[k]).1 <= (#[trigger] t[l]).0
}

/// Character ranges of the whitespace-delimited tokens of `s`.
fn token_positions(s: &Vec<char>) -> (r: Vec<TokenBoundary>)
    ensures
        bounds_view(r@) == tokens_spec(s@),
        tokens_sorted(tokens_spec(s@), s@),
{
    let mut positions: Vec<TokenBoundary> = Vec::new();
    let mut open = false;
    let mut start: usize = 0;
    let mut i: usize = 0;
    proof {
        assert(bounds_view(positions@) =~= Seq::<(int, int)>::empty());
    }
    while i < s.len()
        invariant
            0 <= i <= s@.len(),
            token_scan(s@, i as int) == (bounds_view(positions@), if open { Some(start as int) } else { None::<int> }),
            tokens_sorted(bounds_view(positions@), s@),
            forall|k: int| 0 <= k < positions@.len() ==> (#[trigger] positions@[k]).end <= i,
            open ==> start < i && !is_white_space(s@[start as int]),
            open ==> forall|k: int| 0 <= k < positions@.len() ==> (#[trigger] positions@[k]).end <= start,
        decreases s@.len() - i,
    {
        let ch = s[i];
        let ghost old_pos = positions@;
        if is_whitespace(ch) {
            if open {
                positions.push(TokenBoundary { start, end: i });
                open = false;
                proof {
                    assert(bounds_view(positions@) =~= bounds_view(old_pos).push((start as int, i as int)));
                }
            }
        } else if !open {
            open = true;
            start = i;
        }
        i = i + 1;
    }
    if open {
        let ghost old_pos = positions@;
        positions.push(TokenBoundary { start, end: s.len() });
        proof {
            assert(bounds_view(positions@) =~= bounds_view(old_pos).push((start as int, s@.len() as int)));
        }
    }
    positions
}

/// Whether `t` occurs in `s` at index `i`.
pub(crate) fn matches_at(s: &Vec<char>, t: &Vec<char>, i: usize) -> (r: bool)
    requires
        i + t@.len() <= s@.len(),
    ensures
        r == occurs_at(s@, t@, i as int),
{
    let n = s.len();
    let mut j: usize = 0;
    while j < t.len()
        invariant
            0 <= j <= t@.len(),
            n == s@.len(),
            i + t@.len() <= s@.len(),
            forall|m: int| 0 <= m < j ==> s@[i + m] == t@[m],
        decreases t@.len() - j,
    {
        if s[i + j] != t[j] {
            proof {
                assert(s@.subrange(i as int, i + t@.len())[j as int] != t@[j as int]);
            }
            return false;
        }
        j = j + 1;
    }
    assert(s@.subrange(i as int, i + t@.len()) =~= t@);
    true
}

proof fn lemma_first_from(s: Seq<char>, t: Seq<char>, i: int)
    ensures
        first_from(s, t, i) matches Some(j) ==> i <= j && occurs_at(s, t, j) && j + t.len() <= s.len(),
    decreases s.len() - i,
{
    if !(i < 0 || i >= s.len() || i + t.len() > s.len()) && !occurs_at(s, t, i) {
        lemma_first_from(s, t, i + 1);
    }
}

/// Index of the first occurrence of non-empty `t` in `s` at or after `from`.
fn first_occurrence(s: &Vec<char>, from: usize, t: &Vec<char>) -> (r: Option<usize>)
    requires
        t@.len() > 0,
        from <= s@.len(),
    ensures
        match r {
            Some(i) => first_from(s@, t@, from as int) == Some(i as int),
            None => first_from(s@, t@, from as int) is None,
        },
{
    if t.len() > s.len() {
        return None;
    }
    let n = s.len();
    let last = n - t.len();
    let mut i = from;
    while i <= last
        invariant
            from <= i,
            n == s@.len(),
            last < n,
            t@.len() > 0,
            last + t@.len() == s@.len(),
            first_from(s@, t@, from as int) == first_from(s@, t@, i as int),
        decreases last + 1 - i,
    {
        if matches_at(s, t, i) {
            return Some(i);
        }
        i = i + 1;
    }
    None
}

/// The leftmost separator match at or after `from`: its index and the
/// separator's length in characters.
fn find_split_length(s: &Vec<char>, from: usize, separators: &Vec<String>) -> (r: Option<(usize, usize)>)
    requires
        from <= s@.len(),
    ensures
        match r {
            Some((i, l)) => split_fold(s@, from as int, separators@) == Some((i as int, l as int))
                && from <= i && 0 < l && i + l <= s@.len(),
            None => split_fold(s@, from as int, separators@) is None,
        },
{
    let mut best: Option<(usize, usize)> = None;
    let mut k: usize = 0;
    while k < separators.len()
        invariant
            0 <= k <= separators@.len(),
            from <= s@.len(),
            match best {
                Some((i, l)) => split_fold(s@, from as int, separators@.take(k as int)) == Some((i as int, l as int))
                    && from <= i && 0 < l && i + l <= s@.len(),
                None => split_fold(s@, from as int, separators@.take(k as int)) is None,
            },
        decreases separators@.len() - k,
    {
        proof {
            assert(separators@.take(k + 1).drop_last() =~= separators@.take(k as int));
            assert(separators@.take(k + 1).last() == separators@[k as int]);
        }
        let sep = chars_of(separators[k].as_str());
        if sep.len() > 0 {
            match first_occurrence(s, from, &sep) {
                Some(idx) => {
                    proof {
                        lemma_first_from(s@, sep@, from as int);
                    }
                    match best {
                        Some((b, _)) if b <= idx => {},
                        _ => {
                            best = Some((idx, sep.len()));
                        },
                    }
                },
                None => {},
            }
        }
        k = k + 1;
    }
    proof {
        assert(separators@.take(separators@.len() as int) =~= separators@);
    }
    best
}

/// Number of ASCII whitespace characters of `s` starting at `i`.
fn skip_newlines(s: &Vec<char>, i: usize) -> (r: usize)
    requires
        i <= s@.len(),
    ensures
        r == ascii_ws_run(s@, i as int),
        i + r <= s@.len(),
{
    let mut j = i;
    while j < s.len() && is_ascii_whitespace(s[j])
        invariant
            i <= j <= s@.len(),
            ascii_ws_run(s@, i as int) == (j - i) + ascii_ws_run(s@, j as int),
        decreases s@.len() - j,
    {
        j = j + 1;
    }
    j - i
}


/// Chunking is deterministic in its boundaries and texts: two chunkings of
/// the same text under the same configuration agree chunk by chunk, whatever
/// document ids they were given.
pub proof fn rechunk_same_boundaries(
    c: &Chunker,
    s: Seq<char>,
    d1: Seq<char>,
    d2: Seq<char>,
    r1: Seq<Chunk>,
    r2: Seq<Chunk>,
)
    requires
        chunks_of(r1, s, kept_ranges(s, candidate_ranges(c, s), c.dedupe_segments), d1, c.strategy),
        chunks_of(r2, s, kept_ranges(s, candidate_ranges(c, s), c.dedupe_segments), d2, c.strategy),
    ensures
        r1.len() == r2.len(),
        forall|i: int| 0 <= i < r1.len() ==> (#[trigger] r1[i]).start == r2[i].start && r1[i].end == r2[i].end
            && r1[i].text@ == r2[i].text@,
{
    assert forall|i: int| 0 <= i < r1.len() implies (#[trigger] r1[i]).start == r2[i].start && r1[i].end == r2[i].end
        && r1[i].text@ == r2[i].text@ by {
        assert(chunk_of(r1[i], s, kept_ranges(s, candidate_ranges(c, s), c.dedupe_segments)[i], d1, c.strategy));
        assert(chunk_of(r2[i], s, kept_ranges(s, candidate_ranges(c, s), c.dedupe_segments)[i], d2, c.strategy));
    }
}

} // verus!
