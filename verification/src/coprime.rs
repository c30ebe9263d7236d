//! Greatest common divisors and the affine permutation `x -> (a * x + b) mod m`.
use vstd::prelude::*;
use vstd::arithmetic::div_mod::{lemma_fundamental_div_mod, lemma_small_mod};

verus! {

/// Euclid's greatest common divisor.
pub open spec fn gcd_spec(a: nat, b: nat) -> nat
    decreases b,
{
    if b == 0 {
        a
    } else {
        gcd_spec(b, a % b)
    }
}

/// Computes the greatest common divisor of `a` and `b` by Euclid's algorithm.
pub fn gcd(a0: usize, b0: usize) -> (g: usize)
    ensures
        g == gcd_spec(a0 as nat, b0 as nat),
{
    let mut a = a0;
    let mut b = b0;
    while b != 0
        invariant
            gcd_spec(a as nat, b as nat) == gcd_spec(a0 as nat, b0 as nat),
        decreases b,
    {
        let temp = b;
        b = a % b;
        a = temp;
    }
    a
}

/// `gcd_spec(a, b)` is the greatest common divisor of `a` and `b`: unless
/// both are 0 it is positive and divides both, and every positive common
/// divisor `d` of `a` and `b` divides it.
pub proof fn lemma_gcd_is_greatest(a: nat, b: nat, d: nat)
    ensures
        a > 0 || b > 0 ==> gcd_spec(a, b) > 0,
        gcd_spec(a, b) > 0 ==> a % gcd_spec(a, b) == 0 && b % gcd_spec(a, b) == 0,
        d > 0 && a % d == 0 && b % d == 0 ==> gcd_spec(a, b) % d == 0,
    decreases b,
{
    let g = gcd_spec(a, b);
    if b == 0 {
        if a > 0 {
            vstd::arithmetic::div_mod::lemma_mod_self_0(a as int);
            lemma_small_mod(0, a);
        }
    } else {
        lemma_gcd_is_greatest(b, a % b, d);
        assert(g == gcd_spec(b, a % b));
        lemma_fundamental_div_mod(a as int, b as int);
        lemma_fundamental_div_mod(b as int, g as int);
        lemma_fundamental_div_mod((a % b) as int, g as int);
        let q = a / b;
        let kb = b / g;
        let kr = (a % b) / g;
        assert(a == ((q * kb + kr) * g) as int) by (nonlinear_arith)
            requires
                a == b * q + a % b,
                b == g * kb,
                a % b == g * kr,
        ;
        vstd::arithmetic::div_mod::lemma_mod_multiples_basic((q * kb + kr) as int, g as int);
    }
    if d > 0 && a % d == 0 && b % d == 0 {
        let st = lemma_bezout(a, b);
        lemma_fundamental_div_mod(a as int, d as int);
        lemma_fundamental_div_mod(b as int, d as int);
        let ka = a / d;
        let kb = b / d;
        assert(g == (st.0 * ka + st.1 * kb) * d) by (nonlinear_arith)
            requires
                st.0 * a + st.1 * b == g,
                a == d * ka,
                b == d * kb,
        ;
        vstd::arithmetic::div_mod::lemma_mod_multiples_basic(st.0 * ka + st.1 * kb, d as int);
    }
}

/// Bezout's identity: some integer combination of `a` and `b` is their gcd.
pub proof fn lemma_bezout(a: nat, b: nat) -> (st: (int, int))
    ensures
        st.0 * a + st.1 * b == gcd_spec(a, b),
    decreases b,
{
    if b == 0 {
        (1, 0)
    } else {
        let (s, t) = lemma_bezout(b, a % b);
        let q = (a / b) as int;
        let r = (a % b) as int;
        lemma_fundamental_div_mod(a as int, b as int);
        assert(a == b * q + r);
        assert(t * a + (s - t * q) * b == s * b + t * r) by (nonlinear_arith)
            requires
                a == b * q + r,
        ;
        (t, s - t * q)
    }
}

/// A multiple of `m` strictly between `-m` and `m` is zero.
proof fn lemma_small_multiple(m: int, c: int)
    requires
        m > 0,
        -m < m * c < m,
    ensures
        c == 0,
{
    if c >= 1 {
        assert(m * c >= m) by (nonlinear_arith)
            requires
                m > 0,
                c >= 1,
        ;
    } else if c <= -1 {
        assert(m * c <= -m) by (nonlinear_arith)
            requires
                m > 0,
                c <= -1,
        ;
    }
}

/// When `a` is coprime to `m`, `x -> (a * x + b) mod m` is one-to-one on
/// `[0, m)`.
pub proof fn lemma_affine_mod_injective(a: nat, b: nat, m: nat, x: nat, y: nat)
    requires
        m > 0,
        gcd_spec(a, m) == 1,
        x < m,
        y < m,
        ((a * x + b) as int) % (m as int) == ((a * y + b) as int) % (m as int),
    ensures
        x == y,
{
    let (s, t) = lemma_bezout(a, m);
    let u = (a * x + b) as int;
    let v = (a * y + b) as int;
    let mi = m as int;
    lemma_fundamental_div_mod(u, mi);
    lemma_fundamental_div_mod(v, mi);
    let k = u / mi - v / mi;
    assert(a * (x - y) == mi * k) by (nonlinear_arith)
        requires
            u == mi * (u / mi) + u % mi,
            v == mi * (v / mi) + v % mi,
            u % mi == v % mi,
            u == a * x + b,
            v == a * y + b,
            k == u / mi - v / mi,
    ;
    let d = x - y;
    assert(d == mi * (s * k + t * d)) by (nonlinear_arith)
        requires
            s * a + t * mi == 1,
            a * d == mi * k,
    ;
    lemma_small_multiple(mi, s * k + t * d);
}

/// The slot that the affine hash with multiplier `a` and offset `b` gives
/// to `x` in a table of `m` slots, computed with wrap-around in `usize`.
pub open spec fn lcg_slot(a: usize, b: usize, m: usize, x: usize) -> int {
    wrap_usize((a * x) % (usize::MAX as int + 1) + b) % (m as int)
}

/// `v` reduced once by `2^usize::BITS` when it exceeds `usize::MAX`: the
/// value that a wrapping addition of two `usize` numbers leaves.
pub open spec fn wrap_usize(v: int) -> int {
    if v > usize::MAX { v - (usize::MAX as int + 1) } else { v }
}

/// A slot lies within the table.
pub proof fn lemma_lcg_slot_bound(a: usize, b: usize, m: usize, x: usize)
    requires
        m > 0,
    ensures
        0 <= lcg_slot(a, b, m, x) < m,
{
}

/// Without wrap-around, distinct inputs below `m` get distinct slots when
/// `a` is coprime to `m`.
pub proof fn lemma_lcg_slot_injective(a: usize, b: usize, m: usize, x: usize, y: usize)
    requires
        m > 0,
        gcd_spec(a as nat, m as nat) == 1,
        a <= m,
        b < m,
        x < m,
        y < m,
        m * m <= usize::MAX as int + 1,
        lcg_slot(a, b, m, x) == lcg_slot(a, b, m, y),
    ensures
        x == y,
{
    let r = usize::MAX as int + 1;
    assert(a * x + b < r && a * y + b < r) by (nonlinear_arith)
        requires
            a <= m,
            b < m,
            x < m,
            y < m,
            m * m <= r,
    ;
    assert(a * x < r && a * y < r);
    lemma_small_mod((a * x) as nat, r as nat);
    lemma_small_mod((a * y) as nat, r as nat);
    lemma_affine_mod_injective(a as nat, b as nat, m as nat, x as nat, y as nat);
}

/// The multiplier that the search from `start` settles on: the first value
/// from `start` upward below `m` that is coprime to `m`, or 1 when none is.
pub open spec fn coprime_from(start: nat, m: nat) -> nat
    decreases m - start,
{
    if start >= m {
        1
    } else if gcd_spec(start, m) == 1 {
        start
    } else {
        coprime_from(start + 1, m)
    }
}

/// The search never returns a multiplier that shares a factor with `m`.
pub proof fn lemma_coprime_from(start: nat, m: nat)
    requires
        m > 0,
        start >= 1,
    ensures
        gcd_spec(coprime_from(start, m), m) == 1,
        coprime_from(start, m) <= m,
        coprime_from(start, m) >= 1,
    decreases m - start,
{
    if start >= m {
        lemma_gcd_one(m);
    } else if gcd_spec(start, m) != 1 {
        lemma_coprime_from(start + 1, m);
    }
}

/// One is coprime to every positive number.
pub proof fn lemma_gcd_one(m: nat)
    requires
        m > 0,
    ensures
        gcd_spec(1, m) == 1,
{
    if m == 1 {
        assert(1nat % 1nat == 0nat);
        assert(gcd_spec(1, 0) == 1);
    } else {
        lemma_small_mod(1, m);
        assert(gcd_spec(m, 1) == gcd_spec(1, m % 1));
        assert(m % 1 == 0);
    }
}

} // verus!
