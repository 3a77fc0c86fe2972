//! Canonical text: carriage returns dropped, NFKC, whitespace runs collapsed
//! to one space, at most two newlines in a row, and the ends trimmed.
use vstd::prelude::*;
use unicode_normalization::UnicodeNormalization;
use crate::text::{chars_of, is_white_space, is_whitespace, lead_ws, lemma_trail_suffix, string_of, trail_ws, trim_bounds, trim_spec};

verus! {

/// The NFKC normal form of `s`, as the `unicode_normalization` crate computes it.
pub uninterp spec fn nfkc_of(s: Seq<char>) -> Seq<char>;

/// Relies on `UnicodeNormalization::nfkc` of `unicode_normalization`: the
/// characters of the NFKC form of `s`, which depend on `s` alone.
#[verifier::external_body]
fn nfkc_chars(s: &str) -> (r: Vec<char>)
    ensures
        r@ == nfkc_of(s@),
{
    s.nfkc().collect()
}

/// State of the whitespace-collapsing scan: output so far, whether the last
/// emitted character counts as a space, and the newlines emitted since the
/// last character that is not whitespace (at most 2).
pub type CollapseState = (Seq<char>, bool, nat);

pub open spec fn collapse_step(st: CollapseState, c: char) -> CollapseState {
    let (out, last_space, newlines) = st;
    if c == '\r' {
        st
    } else if c == '\n' {
        (
            if newlines < 2 {
                out.push('\n')
            } else {
                out
            },
            true,
            if newlines < 2 {
                newlines + 1
            } else {
                2
            },
        )
    } else if is_white_space(c) {
        (
            if !last_space {
                out.push(' ')
            } else {
                out
            },
            true,
            newlines,
        )
    } else {
        (out.push(c), false, 0)
    }
}

pub open spec fn collapse(s: Seq<char>) -> CollapseState
    decreases s.len(),
{
    if s.len() == 0 {
        (Seq::empty(), false, 0)
    } else {
        collapse_step(collapse(s.drop_last()), s.last())
    }
}

/// What `normalize` returns for `s`.
pub open spec fn normalize_spec(s: Seq<char>) -> Seq<char> {
    trim_spec(collapse(nfkc_of(without_cr(s))).0)
}

/// `s` without its carriage returns.
pub open spec fn without_cr(s: Seq<char>) -> Seq<char>
    decreases s.len(),
{
    if s.len() == 0 {
        Seq::empty()
    } else if s.last() == '\r' {
        without_cr(s.drop_last())
    } else {
        without_cr(s.drop_last()).push(s.last())
    }
}

proof fn lemma_without_cr_none(s: Seq<char>)
    requires
        forall|i: int| 0 <= i < s.len() ==> (#[trigger] s[i]) != '\r',
    ensures
        without_cr(s) == s,
    decreases s.len(),
{
    if s.len() > 0 {
        assert(s.last() == s[s.len() - 1]);
        lemma_without_cr_none(s.drop_last());
        assert(s.drop_last().push(s.last()) =~= s);
    }
}

/// Normalizes raw text: carriage returns dropped, NFKC, then whitespace
/// collapsing, then trimming.
pub fn normalize(input: &str) -> (r: String)
    ensures
        r@ == normalize_spec(input@),
{
    let raw = chars_of(input);
    let mut kept: Vec<char> = Vec::new();
    let mut j: usize = 0;
    proof {
        assert(raw@.take(0) =~= Seq::<char>::empty());
    }
    while j < raw.len()
        invariant
            0 <= j <= raw@.len(),
            raw@ == input@,
            kept@ == without_cr(raw@.take(j as int)),
        decreases raw@.len() - j,
    {
        proof {
            assert(raw@.take(j + 1).drop_last() =~= raw@.take(j as int));
        }
        if raw[j] != '\r' {
            kept.push(raw[j]);
        }
        j = j + 1;
    }
    proof {
        assert(raw@.take(j as int) =~= raw@);
    }
    let text = string_of(kept.as_slice());
    let chars = nfkc_chars(text.as_str());
    let mut out: Vec<char> = Vec::new();
    let mut last_was_space = false;
    let mut newline_count: usize = 0;
    let mut i: usize = 0;
    while i < chars.len()
        invariant
            0 <= i <= chars@.len(),
            newline_count <= 2,
            collapse(chars@.take(i as int)) == (out@, last_was_space, newline_count as nat),
        decreases chars@.len() - i,
    {
        let ch = chars[i];
        proof {
            assert(chars@.take(i + 1).drop_last() =~= chars@.take(i as int));
        }
        if ch == '\r' {
        } else if ch == '\n' {
            if newline_count < 2 {
                out.push('\n');
                newline_count = newline_count + 1;
            }
            last_was_space = true;
        } else if is_whitespace(ch) {
            if !last_was_space {
                out.push(' ');
                last_was_space = true;
            }
        } else {
            newline_count = 0;
            out.push(ch);
            last_was_space = false;
        }
        i = i + 1;
    }
    proof {
        assert(chars@.take(chars@.len() as int) =~= chars@);
    }
    let (lo, hi) = trim_bounds(&out, 0, out.len());
    proof {
        assert(out@.subrange(0, out@.len() as int) =~= out@);
    }
    let kept = slice_chars(&out, lo, hi);
    string_of(kept.as_slice())
}

/// The characters `s[lo..hi]`.
pub fn slice_chars(s: &Vec<char>, lo: usize, hi: usize) -> (r: Vec<char>)
    requires
        lo <= hi <= s@.len(),
    ensures
        r@ == s@.subrange(lo as int, hi as int),
{
    let mut r: Vec<char> = Vec::new();
    let mut i = lo;
    while i < hi
        invariant
            lo <= i <= hi <= s@.len(),
            r@ == s@.subrange(lo as int, i as int),
        decreases hi - i,
    {
        r.push(s[i]);
        i = i + 1;
        assert(r@ =~= s@.subrange(lo as int, i as int));
    }
    r
}


/// The shape the collapsing scan leaves: no carriage return, no whitespace
/// but space and newline, and no space right after a space or a newline.
pub open spec fn collapsed_form(y: Seq<char>) -> bool {
    &&& forall|i: int| 0 <= i < y.len() ==> (#[trigger] y[i]) != '\r'
    &&& forall|i: int| 0 <= i < y.len() && is_white_space(#[trigger] y[i]) ==> y[i] == ' ' || y[i] == '\n'
    &&& forall|i: int| 0 < i < y.len() && (#[trigger] y[i]) == ' ' ==> y[i - 1] != ' ' && y[i - 1] != '\n'
}

/// No three newlines in a row.
pub open spec fn no_triple_newline(y: Seq<char>) -> bool {
    forall|i: int| 0 <= i && i + 2 < y.len() ==> !((#[trigger] y[i]) == '\n' && y[i + 1] == '\n' && y[i + 2] == '\n')
}

/// The scan state after reading a sequence already in collapsed form.
pub open spec fn settled_state(y: Seq<char>) -> CollapseState {
    (
        y,
        y.len() > 0 && is_white_space(y.last()),
        if y.len() > 0 && y.last() == '\n' {
            if y.len() > 1 && y[y.len() - 2] == '\n' {
                2
            } else {
                1
            }
        } else {
            0
        },
    )
}

proof fn lemma_collapse_form(s: Seq<char>)
    ensures
        collapsed_form(collapse(s).0),
        no_triple_newline(collapse(s).0),
        collapse(s).1 == (collapse(s).0.len() > 0 && is_white_space(collapse(s).0.last())),
        collapse(s).2 == settled_state(collapse(s).0).2,
    decreases s.len(),
{
    if s.len() > 0 {
        lemma_collapse_form(s.drop_last());
        let (out, ls, nl) = collapse(s.drop_last());
        let c = s.last();
        let o2 = collapse(s).0;
        if o2.len() > out.len() {
            assert(o2.drop_last() =~= out);
            assert forall|i: int| 0 <= i < o2.len() - 1 implies #[trigger] o2[i] == out[i] by {}
            if out.len() > 0 {
                assert(out.last() == out[out.len() - 1]);
            }
            if out.len() > 1 {
                assert(out[out.len() - 2] == o2[o2.len() - 3]);
            }
            assert forall|i: int| 0 <= i && i + 2 < o2.len() implies !((#[trigger] o2[i]) == '\n' && o2[i + 1] == '\n'
                && o2[i + 2] == '\n') by {
                if i + 2 < out.len() {
                    assert(o2[i + 1] == out[i + 1] && o2[i + 2] == out[i + 2]);
                }
            }
        } else {
            assert(o2 == out);
        }
    }
}

proof fn lemma_collapse_settled(y: Seq<char>)
    requires
        collapsed_form(y),
        no_triple_newline(y),
    ensures
        collapse(y) == settled_state(y),
    decreases y.len(),
{
    if y.len() > 0 {
        let p = y.drop_last();
        assert forall|i: int| 0 <= i < p.len() implies #[trigger] p[i] == y[i] by {}
        assert(collapsed_form(p));
        assert(no_triple_newline(p)) by {
            assert forall|i: int| 0 <= i && i + 2 < p.len() implies !((#[trigger] p[i]) == '\n' && p[i + 1] == '\n' && p[i + 2] == '\n') by {
                assert(p[i] == y[i] && p[i + 1] == y[i + 1] && p[i + 2] == y[i + 2]);
            }
        }
        lemma_collapse_settled(p);
        let c = y.last();
        assert(c == y[y.len() - 1]);
        assert(p.push(c) =~= y);
        if p.len() > 0 {
            assert(p.last() == y[y.len() - 2]);
        }
        if p.len() > 1 {
            assert(p[p.len() - 2] == y[y.len() - 3]);
        }
        if c == '\n' && p.len() > 1 && p.last() == '\n' {
            assert(!(y[y.len() - 3] == '\n' && y[y.len() - 2] == '\n' && y[y.len() - 1] == '\n'));
        }
        if c == ' ' && p.len() > 0 {
            assert(y[y.len() - 2] != ' ' && y[y.len() - 2] != '\n');
        }
    }
}

proof fn lemma_lead_stop(s: Seq<char>)
    requires
        lead_ws(s) < s.len(),
    ensures
        !is_white_space(s[lead_ws(s) as int]),
    decreases s.len(),
{
    if is_white_space(s[0]) {
        lemma_lead_stop(s.drop_first());
    }
}

proof fn lemma_trim_form(s: Seq<char>)
    requires
        collapsed_form(s),
    ensures
        collapsed_form(trim_spec(s)),
        trim_spec(s).len() > 0 ==> !is_white_space(trim_spec(s)[0]) && !is_white_space(trim_spec(s).last()),
{
    let t = trim_spec(s);
    if lead_ws(s) < s.len() {
        let lo = lead_ws(s) as int;
        lemma_lead_stop(s);
        lemma_trail_suffix(s, lo);
        let hi = s.len() - trail_ws(s);
        assert forall|i: int| 0 <= i < t.len() implies #[trigger] t[i] == s[lo + i] by {}
        assert(t[0] == s[lo]);
        crate::text::lemma_trail_ws_bound(s);
        lemma_trail_last(s);
        assert(t.last() == s[hi - 1]);
        assert forall|i: int| 0 < i < t.len() && (#[trigger] t[i]) == ' ' implies t[i - 1] != ' ' && t[i - 1] != '\n' by {
            assert(t[i - 1] == s[lo + i - 1]);
        }
    }
}

proof fn lemma_trim_no_triple(s: Seq<char>)
    requires
        no_triple_newline(s),
    ensures
        no_triple_newline(trim_spec(s)),
{
    let t = trim_spec(s);
    if lead_ws(s) < s.len() {
        let lo = lead_ws(s) as int;
        lemma_lead_stop(s);
        lemma_trail_suffix(s, lo);
        assert forall|i: int| 0 <= i < t.len() implies #[trigger] t[i] == s[lo + i] by {}
        assert forall|i: int| 0 <= i && i + 2 < t.len() implies !((#[trigger] t[i]) == '\n' && t[i + 1] == '\n'
            && t[i + 2] == '\n') by {
            assert(t[i] == s[lo + i] && t[i + 1] == s[lo + i + 1] && t[i + 2] == s[lo + i + 2]);
        }
    }
}

proof fn lemma_trail_last(s: Seq<char>)
    requires
        trail_ws(s) < s.len(),
    ensures
        !is_white_space(s[s.len() - trail_ws(s) - 1]),
    decreases s.len(),
{
    if is_white_space(s.last()) {
        lemma_trail_last(s.drop_last());
    }
}

/// Normalizing normalized text changes nothing, wherever NFKC leaves the
/// normalized text as it is.
pub proof fn normalize_idempotent(x: Seq<char>)
    requires
        nfkc_of(normalize_spec(x)) == normalize_spec(x),
    ensures
        normalize_spec(normalize_spec(x)) == normalize_spec(x),
{
    let y = normalize_spec(x);
    let n = nfkc_of(without_cr(x));
    lemma_collapse_form(n);
    lemma_trim_form(collapse(n).0);
    lemma_trim_no_triple(collapse(n).0);
    lemma_without_cr_none(y);
    lemma_collapse_settled(y);
    if y.len() > 0 {
        assert(lead_ws(y) == 0);
        assert(trail_ws(y) == 0);
        assert(y.subrange(0, y.len() as int) =~= y);
    } else {
        assert(trim_spec(y) =~= y);
    }
}

} // verus!
