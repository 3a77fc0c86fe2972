//! Character-level helpers shared by the chunker, the normalizer and the
//! ranking code: whitespace classes, trimming, UTF-8 widths and substring
//! search, all stated over `Seq<char>`.
use vstd::prelude::*;
use vstd::std_specs::iter::IteratorSpec;

verus! {

/// The Unicode `White_Space` property, as `char::is_whitespace` tests it.
pub open spec fn is_white_space(c: char) -> bool {
    let u = c as u32;
    (0x09 <= u && u <= 0x0D) || u == 0x20 || u == 0x85 || u == 0xA0 || u == 0x1680 || (0x2000 <= u
        && u <= 0x200A) || u == 0x2028 || u == 0x2029 || u == 0x202F || u == 0x205F || u == 0x3000
}

/// ASCII whitespace, as `char::is_ascii_whitespace` tests it.
pub open spec fn is_ascii_white_space(c: char) -> bool {
    let u = c as u32;
    u == 0x20 || u == 0x09 || u == 0x0A || u == 0x0C || u == 0x0D
}

/// Number of bytes of the UTF-8 encoding of `c`.
pub open spec fn utf8_width(c: char) -> nat {
    let u = c as u32;
    if u < 0x80 {
        1
    } else if u < 0x800 {
        2
    } else if u < 0x10000 {
        3
    } else {
        4
    }
}

/// Number of bytes of the UTF-8 encoding of `s`.
pub open spec fn byte_len(s: Seq<char>) -> nat
    decreases s.len(),
{
    if s.len() == 0 {
        0
    } else {
        byte_len(s.drop_last()) + utf8_width(s.last())
    }
}

/// Byte offset of the character at index `i` of `s`.
pub open spec fn byte_offset(s: Seq<char>, i: int) -> nat {
    byte_len(s.take(i))
}

/// Number of leading whitespace characters.
pub open spec fn lead_ws(s: Seq<char>) -> nat
    decreases s.len(),
{
    if s.len() == 0 {
        0
    } else if is_white_space(s[0]) {
        1 + lead_ws(s.drop_first())
    } else {
        0
    }
}

/// Number of trailing whitespace characters.
pub open spec fn trail_ws(s: Seq<char>) -> nat
    decreases s.len(),
{
    if s.len() == 0 {
        0
    } else if is_white_space(s.last()) {
        1 + trail_ws(s.drop_last())
    } else {
        0
    }
}

/// `s` without leading and trailing whitespace, as `str::trim` gives it.
pub open spec fn trim_spec(s: Seq<char>) -> Seq<char> {
    if lead_ws(s) >= s.len() {
        Seq::empty()
    } else {
        s.subrange(lead_ws(s) as int, s.len() - trail_ws(s))
    }
}

/// `t` occurs in `s` at index `i`.
pub open spec fn occurs_at(s: Seq<char>, t: Seq<char>, i: int) -> bool {
    0 <= i && i + t.len() <= s.len() && s.subrange(i, i + t.len()) == t
}

/// `t` occurs somewhere in `s`, as `str::contains` tests it.
pub open spec fn contains_spec(s: Seq<char>, t: Seq<char>) -> bool {
    exists|i: int| occurs_at(s, t, i)
}

pub proof fn lemma_lead_ws_bound(s: Seq<char>)
    ensures
        lead_ws(s) <= s.len(),
    decreases s.len(),
{
    if s.len() > 0 && is_white_space(s[0]) {
        lemma_lead_ws_bound(s.drop_first());
    }
}

pub proof fn lemma_trail_ws_bound(s: Seq<char>)
    ensures
        trail_ws(s) <= s.len(),
    decreases s.len(),
{
    if s.len() > 0 && is_white_space(s.last()) {
        lemma_trail_ws_bound(s.drop_last());
    }
}

/// The byte length of a prefix grows by at least one with each character.
pub proof fn lemma_byte_len_strict(s: Seq<char>, i: int, j: int)
    requires
        0 <= i < j <= s.len(),
    ensures
        byte_len(s.take(i)) + (j - i) <= byte_len(s.take(j)),
    decreases j - i,
{
    assert(s.take(j).drop_last() =~= s.take(j - 1));
    if i < j - 1 {
        lemma_byte_len_strict(s, i, j - 1);
    }
}

/// Byte length is bounded by four bytes a character.
pub proof fn lemma_byte_len_bound(s: Seq<char>)
    ensures
        byte_len(s) <= 4 * s.len(),
    decreases s.len(),
{
    if s.len() > 0 {
        lemma_byte_len_bound(s.drop_last());
    }
}

/// The characters of `s`, in order.
pub fn chars_of(s: &str) -> (r: Vec<char>)
    ensures
        r@ == s@,
{
    broadcast use vstd::string::group_string_axioms;

    let mut it = s.chars();
    let mut out: Vec<char> = Vec::new();
    loop
        invariant
            out@ + it.remaining() == s@,
            it.decrease() is Some,
        decreases it.decrease()->0,
    {
        let ghost before = it.remaining();
        match it.next() {
            Some(c) => {
                out.push(c);
                proof {
                    assert(out@ + it.remaining() =~= s@) by {
                        assert(before =~= seq![c] + it.remaining());
                    }
                }
            },
            None => {
                proof {
                    assert(out@ =~= s@);
                }
                return out;
            },
        }
    }
}

/// Relies on collecting characters into a `String`: the string holds exactly `v`.
#[verifier::external_body]
pub(crate) fn string_of(v: &[char]) -> (r: String)
    ensures
        r@ == v@,
{
    v.iter().collect()
}

pub fn is_whitespace(c: char) -> (r: bool)
    ensures
        r == is_white_space(c),
{
    let u = c as u32;
    (0x09 <= u && u <= 0x0D) || u == 0x20 || u == 0x85 || u == 0xA0 || u == 0x1680 || (0x2000 <= u
        && u <= 0x200A) || u == 0x2028 || u == 0x2029 || u == 0x202F || u == 0x205F || u == 0x3000
}

pub fn is_ascii_whitespace(c: char) -> (r: bool)
    ensures
        r == is_ascii_white_space(c),
{
    let u = c as u32;
    u == 0x20 || u == 0x09 || u == 0x0A || u == 0x0C || u == 0x0D
}

pub fn char_width(c: char) -> (r: usize)
    ensures
        r == utf8_width(c),
{
    let u = c as u32;
    if u < 0x80 {
        1
    } else if u < 0x800 {
        2
    } else if u < 0x10000 {
        3
    } else {
        4
    }
}

/// Index of the first non-whitespace character of `s[lo..hi]`, or `hi`.
pub fn skip_lead_ws(s: &Vec<char>, lo: usize, hi: usize) -> (r: usize)
    requires
        lo <= hi <= s@.len(),
    ensures
        r == lo + lead_ws(s@.subrange(lo as int, hi as int)),
        lo <= r <= hi,
        r < hi ==> !is_white_space(s@[r as int]),
{
    let mut i = lo;
    while i < hi && is_whitespace(s[i])
        invariant
            lo <= i <= hi <= s@.len(),
            lead_ws(s@.subrange(lo as int, hi as int)) == (i - lo) + lead_ws(
                s@.subrange(i as int, hi as int),
            ),
        decreases hi - i,
    {
        assert(s@.subrange(i as int, hi as int).drop_first() =~= s@.subrange(
            i + 1,
            hi as int,
        ));
        i = i + 1;
    }
    i
}

/// Index just past the last non-whitespace character of `s[lo..hi]`,
/// where `s[lo]` is not whitespace.
pub fn skip_trail_ws(s: &Vec<char>, lo: usize, hi: usize) -> (r: usize)
    requires
        lo < hi <= s@.len(),
        !is_white_space(s@[lo as int]),
    ensures
        r == hi - trail_ws(s@.subrange(lo as int, hi as int)),
        lo < r <= hi,
{
    let mut j = hi;
    while j > lo + 1 && is_whitespace(s[j - 1])
        invariant
            lo < j <= hi <= s@.len(),
            trail_ws(s@.subrange(lo as int, hi as int)) == (hi - j) + trail_ws(
                s@.subrange(lo as int, j as int),
            ),
        decreases j,
    {
        assert(s@.subrange(lo as int, j as int).drop_last() =~= s@.subrange(
            lo as int,
            j - 1,
        ));
        j = j - 1;
    }
    let ghost t = s@.subrange(lo as int, j as int);
    if j == lo + 1 {
        assert(t.last() == s@[lo as int]);
    }
    assert(!is_white_space(t.last()));
    j
}

/// Bounds of `s[lo..hi]` once leading and trailing whitespace is removed:
/// `(k, k)` for some `k` when nothing is left.
pub fn trim_bounds(s: &Vec<char>, lo: usize, hi: usize) -> (r: (usize, usize))
    requires
        lo <= hi <= s@.len(),
    ensures
        lo <= r.0 <= r.1 <= hi,
        s@.subrange(r.0 as int, r.1 as int) == trim_spec(s@.subrange(lo as int, hi as int)),
        r.0 < r.1 ==> r.0 == lo + lead_ws(s@.subrange(lo as int, hi as int)),
        r.0 < r.1 ==> r.1 == hi - trail_ws(s@.subrange(lo as int, hi as int)),
        r.0 < r.1 ==> !is_white_space(s@[r.0 as int]) && !is_white_space(s@[r.1 - 1]),
{
    let a = skip_lead_ws(s, lo, hi);
    let ghost seg = s@.subrange(lo as int, hi as int);
    if a == hi {
        assert(s@.subrange(a as int, a as int) =~= trim_spec(seg));
        return (a, a);
    }
    let b = skip_trail_ws(s, a, hi);
    let ghost inner = s@.subrange(a as int, hi as int);
    proof {
        assert(seg.subrange(lead_ws(seg) as int, seg.len() as int) =~= inner);
        lemma_trail_suffix(seg, (a - lo) as int);
        assert(s@.subrange(a as int, b as int) =~= seg.subrange(
            lead_ws(seg) as int,
            seg.len() - trail_ws(seg),
        ));
        if b - 1 > a {
            lemma_trail_zero(s@, a as int, b as int, hi as int);
        }
    }
    (a, b)
}

/// Trailing whitespace of a sequence whose suffix from `k` starts with a
/// non-whitespace character is that of the suffix.
pub proof fn lemma_trail_suffix(s: Seq<char>, k: int)
    requires
        0 <= k < s.len(),
        !is_white_space(s[k]),
    ensures
        trail_ws(s) == trail_ws(s.subrange(k, s.len() as int)),
        trail_ws(s) < s.len() - k,
    decreases s.len(),
{
    let t = s.subrange(k, s.len() as int);
    if k == s.len() - 1 {
        assert(t.last() == s[k]);
    } else if is_white_space(s.last()) {
        assert(t.drop_last() =~= s.drop_last().subrange(k, s.len() - 1));
        lemma_trail_suffix(s.drop_last(), k);
    }
}

/// After trailing whitespace is removed, the last character is not whitespace.
proof fn lemma_trail_zero(s: Seq<char>, a: int, b: int, hi: int)
    requires
        0 <= a < b <= hi <= s.len(),
        b == hi - trail_ws(s.subrange(a, hi)),
    ensures
        !is_white_space(s[b - 1]),
    decreases hi - b,
{
    let t = s.subrange(a, hi);
    if is_white_space(t.last()) {
        assert(t.drop_last() =~= s.subrange(a, hi - 1));
        lemma_trail_zero(s, a, b, hi - 1);
    } else {
        assert(t.last() == s[hi - 1]);
    }
}


/// The views of a sequence of strings.
pub open spec fn views(v: Seq<String>) -> Seq<Seq<char>> {
    v.map_values(|x: String| x@)
}

/// What `str::to_lowercase` returns for `s`.
pub uninterp spec fn lower_of(s: Seq<char>) -> Seq<char>;

/// Relies on `str::to_lowercase`: the lowercase form of `s`, which depends on
/// the characters of `s` alone.
#[verifier::external_body]
pub(crate) fn to_lowercase(s: &str) -> (r: String)
    ensures
        r@ == lower_of(s@),
{
    s.to_lowercase()
}

/// Whether `t` occurs in `s`, as `str::contains` answers it.
pub fn contains(s: &str, t: &str) -> (r: bool)
    ensures
        r == contains_spec(s@, t@),
{
    let sc = chars_of(s);
    let tc = chars_of(t);
    if tc.len() > sc.len() {
        proof {
            assert forall|i: int| !occurs_at(s@, t@, i) by {}
        }
        return false;
    }
    let n = sc.len();
    let last = n - tc.len();
    let mut i: usize = 0;
    while i <= last
        invariant
            n == sc@.len(),
            last + tc@.len() == n,
            sc@ == s@,
            tc@ == t@,
            forall|k: int| 0 <= k < i ==> !occurs_at(s@, t@, k),
        decreases last + 1 - i,
    {
        let mut j: usize = 0;
        let mut ok = true;
        while j < tc.len()
            invariant
                0 <= j <= tc@.len(),
                i <= last,
                n == sc@.len(),
                last + tc@.len() == n,
                sc@ == s@,
                tc@ == t@,
                ok ==> forall|m: int| 0 <= m < j ==> sc@[i + m] == tc@[m],
                !ok ==> !occurs_at(sc@, tc@, i as int),
            decreases tc@.len() - j,
        {
            if ok && sc[i + j] != tc[j] {
                ok = false;
                proof {
                    assert(sc@.subrange(i as int, i + tc@.len())[j as int] != tc@[j as int]);
                }
            }
            j = j + 1;
        }
        if ok {
            proof {
                assert(sc@.subrange(i as int, i + tc@.len()) =~= tc@);
                assert(occurs_at(s@, t@, i as int));
            }
            return true;
        }
        if i == last {
            proof {
                assert forall|k: int| !occurs_at(s@, t@, k) by {
                    if 0 <= k && k + t@.len() <= s@.len() {
                        assert(k <= last);
                    }
                }
            }
            return false;
        }
        i = i + 1;
    }
    false
}


/// Each string of `v`, lowercased.
pub fn lowercase_each(v: &Vec<String>) -> (r: Vec<String>)
    ensures
        views(r@) == views(v@).map_values(|t: Seq<char>| lower_of(t)),
        r@.len() == v@.len(),
{
    let mut out: Vec<String> = Vec::new();
    let mut i: usize = 0;
    while i < v.len()
        invariant
            0 <= i <= v@.len(),
            out@.len() == i,
            views(out@) == views(v@).take(i as int).map_values(|t: Seq<char>| lower_of(t)),
        decreases v@.len() - i,
    {
        let ghost before = out@;
        let t = to_lowercase(v[i].as_str());
        out.push(t);
        proof {
            assert(views(out@) =~= views(before).push(t@));
            assert(views(v@).take(i + 1).map_values(|t: Seq<char>| lower_of(t)) =~= views(v@).take(
                i as int,
            ).map_values(|t: Seq<char>| lower_of(t)).push(lower_of(v@[i as int]@)));
        }
        i = i + 1;
    }
    proof {
        assert(views(v@).take(i as int) =~= views(v@));
    }
    out
}

/// `a` sorts strictly before `b`: code point by code point, a proper
/// prefix first (the order of `str`'s `Ord`).
pub open spec fn lex_lt(a: Seq<char>, b: Seq<char>) -> bool
    decreases a.len(),
{
    if a.len() == 0 {
        b.len() > 0
    } else if b.len() == 0 {
        false
    } else if (a[0] as u32) < (b[0] as u32) {
        true
    } else if (a[0] as u32) == (b[0] as u32) {
        lex_lt(a.drop_first(), b.drop_first())
    } else {
        false
    }
}

pub proof fn lemma_lex_trans(a: Seq<char>, b: Seq<char>, c: Seq<char>)
    requires
        lex_lt(a, b),
        lex_lt(b, c),
    ensures
        lex_lt(a, c),
    decreases a.len(),
{
    if a.len() > 0 && (a[0] as u32) == (b[0] as u32) && (b[0] as u32) == (c[0] as u32) {
        lemma_lex_trans(a.drop_first(), b.drop_first(), c.drop_first());
    }
}

pub proof fn lemma_lex_irrefl(a: Seq<char>)
    ensures
        !lex_lt(a, a),
    decreases a.len(),
{
    if a.len() > 0 {
        lemma_lex_irrefl(a.drop_first());
    }
}

pub proof fn lemma_lex_asym(a: Seq<char>, b: Seq<char>)
    requires
        lex_lt(a, b),
    ensures
        !lex_lt(b, a),
    decreases a.len(),
{
    if a.len() > 0 && (a[0] as u32) == (b[0] as u32) {
        lemma_lex_asym(a.drop_first(), b.drop_first());
    }
}

/// Whether `a` sorts strictly before `b`.
pub fn lex_less(a: &String, b: &String) -> (r: bool)
    ensures
        r == lex_lt(a@, b@),
{
    let ac = chars_of(a.as_str());
    let bc = chars_of(b.as_str());
    let mut i: usize = 0;
    proof {
        assert(ac@.skip(0) =~= ac@);
        assert(bc@.skip(0) =~= bc@);
    }
    while i < ac.len() && i < bc.len() && (ac[i] as u32) == (bc[i] as u32)
        invariant
            0 <= i <= ac@.len(),
            i <= bc@.len(),
            lex_lt(a@, b@) == lex_lt(ac@.skip(i as int), bc@.skip(i as int)),
            ac@ == a@,
            bc@ == b@,
        decreases ac@.len() - i,
    {
        proof {
            assert(ac@.skip(i as int).drop_first() =~= ac@.skip(i + 1));
            assert(bc@.skip(i as int).drop_first() =~= bc@.skip(i + 1));
        }
        i = i + 1;
    }
    if i == ac.len() {
        return i < bc.len();
    }
    if i == bc.len() {
        return false;
    }
    (ac[i] as u32) < (bc[i] as u32)
}

} // verus!
