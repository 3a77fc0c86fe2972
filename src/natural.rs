//! Natural numbers of any size, as little-endian 64-bit limbs, with the few
//! operations exact cosine scoring needs: sum, product and comparison.
use vstd::prelude::*;

verus! {

/// Limb `i` of `v`; limbs past the end are 0.
pub open spec fn limb(v: Seq<u64>, i: int) -> int {
    if 0 <= i < v.len() {
        v[i] as int
    } else {
        0
    }
}

/// `2^(64 k)`.
pub open spec fn pow_b(k: nat) -> int
    decreases k,
{
    if k == 0 {
        1
    } else {
        pow_b((k - 1) as nat) * 0x1_0000_0000_0000_0000
    }
}

/// Value of the lowest `i` limbs of `v`.
pub open spec fn valp(v: Seq<u64>, i: nat) -> int
    decreases i,
{
    if i == 0 {
        0
    } else {
        valp(v, (i - 1) as nat) + limb(v, i - 1) * pow_b((i - 1) as nat)
    }
}

/// Value of `v`.
pub open spec fn val(v: Seq<u64>) -> int {
    valp(v, v.len())
}

pub proof fn lemma_pow_pos(k: nat)
    ensures
        pow_b(k) > 0,
    decreases k,
{
    if k > 0 {
        lemma_pow_pos((k - 1) as nat);
        let p = pow_b((k - 1) as nat);
        assert(p * 0x1_0000_0000_0000_0000 > 0) by (nonlinear_arith)
            requires
                p > 0,
        ;
    }
}

pub proof fn lemma_pow_add(j: nat, m: nat)
    ensures
        pow_b(j + m) == pow_b(j) * pow_b(m),
    decreases m,
{
    if m > 0 {
        lemma_pow_add(j, (m - 1) as nat);
        let a = pow_b(j);
        let b = pow_b((m - 1) as nat);
        assert((a * b) * 0x1_0000_0000_0000_0000 == a * (b * 0x1_0000_0000_0000_0000)) by (nonlinear_arith);
    }
}

pub proof fn lemma_valp_bound(v: Seq<u64>, i: nat)
    ensures
        0 <= valp(v, i) < pow_b(i),
    decreases i,
{
    if i > 0 {
        let k = (i - 1) as nat;
        lemma_valp_bound(v, k);
        lemma_pow_pos(k);
        let p = pow_b(k);
        let x = limb(v, i - 1);
        let w = valp(v, k);
        assert(0 <= x <= 0xFFFF_FFFF_FFFF_FFFF);
        assert(0 <= w + x * p < p * 0x1_0000_0000_0000_0000) by (nonlinear_arith)
            requires
                0 <= w < p,
                0 <= x <= 0xFFFF_FFFF_FFFF_FFFF,
        ;
    }
}

/// Limbs past the end add nothing.
pub proof fn lemma_valp_beyond(v: Seq<u64>, i: nat)
    requires
        i >= v.len(),
    ensures
        valp(v, i) == val(v),
    decreases i,
{
    if i > v.len() {
        lemma_valp_beyond(v, (i - 1) as nat);
    }
}

/// The lowest `i` limbs decide `valp`.
pub proof fn lemma_valp_same(a: Seq<u64>, b: Seq<u64>, i: nat)
    requires
        forall|k: int| 0 <= k < i ==> limb(a, k) == limb(b, k),
    ensures
        valp(a, i) == valp(b, i),
    decreases i,
{
    if i > 0 {
        lemma_valp_same(a, b, (i - 1) as nat);
    }
}

fn limb_at(v: &Vec<u64>, i: usize) -> (r: u64)
    ensures
        r == limb(v@, i as int),
{
    if i < v.len() {
        v[i]
    } else {
        0
    }
}

/// `x` as limbs.
pub fn from_u128(x: u128) -> (r: Vec<u64>)
    ensures
        val(r@) == x,
{
    let lo = (x % 0x1_0000_0000_0000_0000) as u64;
    let hi = (x / 0x1_0000_0000_0000_0000) as u64;
    let r = vec![lo, hi];
    proof {
        assert(limb(r@, 0) == lo);
        assert(limb(r@, 1) == hi);
        assert(pow_b(1) == 0x1_0000_0000_0000_0000) by {
            assert(pow_b(0) == 1);
        }
        assert(x == hi * 0x1_0000_0000_0000_0000 + lo);
        assert(valp(r@, 0) == 0);
        assert(lo * pow_b(0) == lo);
        assert(valp(r@, 1) == lo);
        assert(valp(r@, 2) == lo + hi * pow_b(1));
    }
    r
}

/// `a + b`.
pub fn plus(a: &Vec<u64>, b: &Vec<u64>) -> (r: Vec<u64>)
    ensures
        val(r@) == val(a@) + val(b@),
{
    let n = if a.len() > b.len() { a.len() } else { b.len() };
    let mut r: Vec<u64> = Vec::new();
    let mut carry: u64 = 0;
    let mut i: usize = 0;
    while i < n
        invariant
            0 <= i <= n,
            n >= a@.len(),
            n >= b@.len(),
            r@.len() == i,
            carry <= 1,
            valp(r@, i as nat) + carry * pow_b(i as nat) == valp(a@, i as nat) + valp(b@, i as nat),
        decreases n - i,
    {
        let s: u128 = limb_at(a, i) as u128 + limb_at(b, i) as u128 + carry as u128;
        let lo = (s % 0x1_0000_0000_0000_0000) as u64;
        let c2 = (s / 0x1_0000_0000_0000_0000) as u64;
        let ghost before = r@;
        r.push(lo);
        proof {
            lemma_valp_same(r@, before, i as nat);
            let p = pow_b(i as nat);
            assert(s == c2 * 0x1_0000_0000_0000_0000 + lo);
            assert(lo * p + c2 * (p * 0x1_0000_0000_0000_0000) == s * p) by (nonlinear_arith)
                requires
                    s == c2 * 0x1_0000_0000_0000_0000 + lo,
            ;
            assert(s * p == limb(a@, i as int) * p + limb(b@, i as int) * p + carry * p) by (nonlinear_arith)
                requires
                    s == limb(a@, i as int) + limb(b@, i as int) + carry,
            ;
        }
        carry = c2;
        i = i + 1;
    }
    let ghost before = r@;
    r.push(carry);
    proof {
        lemma_valp_same(r@, before, n as nat);
        lemma_valp_beyond(a@, n as nat);
        lemma_valp_beyond(b@, n as nat);
    }
    r
}

/// `a * k`.
pub fn mul_small(a: &Vec<u64>, k: u64) -> (r: Vec<u64>)
    ensures
        val(r@) == val(a@) * k,
{
    let n = a.len();
    let mut r: Vec<u64> = Vec::new();
    let mut carry: u64 = 0;
    let mut i: usize = 0;
    while i < n
        invariant
            0 <= i <= n,
            n == a@.len(),
            r@.len() == i,
            valp(r@, i as nat) + carry * pow_b(i as nat) == valp(a@, i as nat) * k,
        decreases n - i,
    {
        let x = a[i];
        assert((x as u128) * (k as u128) + (carry as u128) <= 0xFFFF_FFFF_FFFF_FFFF_FFFF_FFFF_FFFF_FFFF) by (nonlinear_arith)
            requires
                x <= 0xFFFF_FFFF_FFFF_FFFF,
                k <= 0xFFFF_FFFF_FFFF_FFFF,
                carry <= 0xFFFF_FFFF_FFFF_FFFF,
        ;
        let t: u128 = (x as u128) * (k as u128) + (carry as u128);
        let lo = (t % 0x1_0000_0000_0000_0000) as u64;
        let c2 = (t / 0x1_0000_0000_0000_0000) as u64;
        let ghost before = r@;
        r.push(lo);
        proof {
            lemma_valp_same(r@, before, i as nat);
            let p = pow_b(i as nat);
            let va = valp(a@, i as nat);
            assert(limb(a@, i as int) == x);
            assert(t == c2 * 0x1_0000_0000_0000_0000 + lo);
            assert(lo * p + c2 * (p * 0x1_0000_0000_0000_0000) == t * p) by (nonlinear_arith)
                requires
                    t == c2 * 0x1_0000_0000_0000_0000 + lo,
            ;
            assert(t * p == x * p * k + carry * p) by (nonlinear_arith)
                requires
                    t == x * k + carry,
            ;
            assert((va + x * p) * k == va * k + x * p * k) by (nonlinear_arith);
        }
        carry = c2;
        i = i + 1;
    }
    let ghost before = r@;
    r.push(carry);
    proof {
        lemma_valp_same(r@, before, n as nat);
    }
    r
}

/// `a * 2^(64 j)`.
pub fn shifted(a: &Vec<u64>, j: usize) -> (r: Vec<u64>)
    ensures
        val(r@) == val(a@) * pow_b(j as nat),
{
    let mut r: Vec<u64> = Vec::new();
    let mut k: usize = 0;
    while k < j
        invariant
            0 <= k <= j,
            r@.len() == k,
            forall|m: int| 0 <= m < k ==> r@[m] == 0,
        decreases j - k,
    {
        r.push(0);
        k = k + 1;
    }
    let mut i: usize = 0;
    while i < a.len()
        invariant
            0 <= i <= a@.len(),
            r@.len() == j + i,
            forall|m: int| 0 <= m < j ==> r@[m] == 0,
            forall|m: int| 0 <= m < i ==> r@[j + m] == a@[m],
        decreases a@.len() - i,
    {
        r.push(a[i]);
        i = i + 1;
    }
    proof {
        lemma_shift_val(r@, a@, j as nat, a@.len());
    }
    r
}

proof fn lemma_shift_val(r: Seq<u64>, a: Seq<u64>, j: nat, m: nat)
    requires
        r.len() == j + a.len(),
        m <= a.len(),
        forall|k: int| 0 <= k < j ==> r[k] == 0,
        forall|k: int| 0 <= k < a.len() ==> r[j + k] == a[k],
    ensures
        valp(r, j + m) == valp(a, m) * pow_b(j),
    decreases m,
{
    if m == 0 {
        lemma_zero_prefix(r, j);
    } else {
        let m1 = (m - 1) as nat;
        lemma_shift_val(r, a, j, m1);
        assert(((j + m) - 1) as nat == j + m1);
        lemma_pow_add(j, m1);
        let x = limb(a, m1 as int);
        assert(limb(r, (j + m1) as int) == x);
        let pj = pow_b(j);
        let pm = pow_b(m1);
        let v = valp(a, m1);
        assert(v * pj + x * (pj * pm) == (v + x * pm) * pj) by (nonlinear_arith);
    }
}

proof fn lemma_zero_prefix(r: Seq<u64>, j: nat)
    requires
        j <= r.len(),
        forall|k: int| 0 <= k < j ==> r[k] == 0,
    ensures
        valp(r, j) == 0,
    decreases j,
{
    if j > 0 {
        lemma_zero_prefix(r, (j - 1) as nat);
    }
}

/// `a * b`.
pub fn times(a: &Vec<u64>, b: &Vec<u64>) -> (r: Vec<u64>)
    ensures
        val(r@) == val(a@) * val(b@),
{
    let mut acc: Vec<u64> = Vec::new();
    let mut j: usize = 0;
    while j < b.len()
        invariant
            0 <= j <= b@.len(),
            val(acc@) == val(a@) * valp(b@, j as nat),
        decreases b@.len() - j,
    {
        let part = mul_small(a, b[j]);
        let moved = shifted(&part, j);
        acc = plus(&acc, &moved);
        proof {
            let va = val(a@);
            let x = b@[j as int] as int;
            let p = pow_b(j as nat);
            let w = valp(b@, j as nat);
            assert(limb(b@, j as int) == x);
            assert(va * w + va * x * p == va * (w + x * p)) by (nonlinear_arith);
        }
        j = j + 1;
    }
    acc
}

/// Whether `a <= b`.
pub fn le(a: &Vec<u64>, b: &Vec<u64>) -> (r: bool)
    ensures
        r == (val(a@) <= val(b@)),
{
    let n = if a.len() > b.len() { a.len() } else { b.len() };
    proof {
        lemma_valp_beyond(a@, n as nat);
        lemma_valp_beyond(b@, n as nat);
    }
    let mut i = n;
    while i > 0
        invariant
            i <= n,
            val(a@) == valp(a@, n as nat),
            val(b@) == valp(b@, n as nat),
            valp(a@, n as nat) - valp(a@, i as nat) == valp(b@, n as nat) - valp(b@, i as nat),
        decreases i,
    {
        let x = limb_at(a, i - 1);
        let y = limb_at(b, i - 1);
        let ghost k = (i - 1) as nat;
        proof {
            assert(valp(a@, i as nat) == valp(a@, k) + x * pow_b(k));
            assert(valp(b@, i as nat) == valp(b@, k) + y * pow_b(k));
            lemma_valp_bound(a@, k);
            lemma_valp_bound(b@, k);
        }
        if x < y {
            proof {
                let p = pow_b(k);
                assert(x * p + p <= y * p) by (nonlinear_arith)
                    requires
                        x + 1 <= y,
                        p > 0,
                ;
            }
            return true;
        }
        if x > y {
            proof {
                let p = pow_b(k);
                assert(y * p + p <= x * p) by (nonlinear_arith)
                    requires
                        y + 1 <= x,
                        p > 0,
                ;
            }
            return false;
        }
        i = i - 1;
    }
    true
}

} // verus!
