//! Mathematical definitions shared by the stepper and the sieve: powers of two
//! and three, and the 2-adic valuation.
use vstd::prelude::*;
use vstd::arithmetic::power2::{pow2, lemma2_to64, lemma_pow2_unfold, lemma_pow2_pos};

verus! {

/// 3 raised to `e`.
pub open spec fn pow3(e: nat) -> nat
    decreases e,
{
    if e == 0 {
        1
    } else {
        3 * pow3((e - 1) as nat)
    }
}

/// The 2-adic valuation of `x`: the number of trailing zero bits (0 for `x == 0`).
pub open spec fn v2(x: nat) -> nat
    decreases x,
{
    if x == 0 || x % 2 == 1 {
        0
    } else {
        1 + v2(x / 2)
    }
}

/// The largest value that a `u128` holds, plus one.
pub open spec fn u128_bound() -> nat {
    u128::MAX as nat + 1
}

pub proof fn lemma_pow3_pos(e: nat)
    ensures
        pow3(e) >= 1,
    decreases e,
{
    if e > 0 {
        lemma_pow3_pos((e - 1) as nat);
    }
}

pub proof fn lemma_pow3_adds(a: nat, b: nat)
    ensures
        pow3(a + b) == pow3(a) * pow3(b),
    decreases a,
{
    if a == 0 {
        assert(a + b == b);
    } else {
        let c = (a - 1) as nat;
        lemma_pow3_adds(c, b);
        assert(a + b == (c + b) + 1);
        assert(pow3(a + b) == 3 * pow3(c + b));
        assert(3 * (pow3((a - 1) as nat) * pow3(b)) == (3 * pow3((a - 1) as nat)) * pow3(b))
            by (nonlinear_arith);
    }
}

/// Powers of three are increasing in the exponent.
pub proof fn lemma_pow3_le(a: nat, b: nat)
    requires
        a <= b,
    ensures
        pow3(a) <= pow3(b),
{
    lemma_pow3_adds(a, (b - a) as nat);
    lemma_pow3_pos((b - a) as nat);
    lemma_pow3_pos(a);
    assert(pow3(a) * pow3((b - a) as nat) >= pow3(a)) by (nonlinear_arith)
        requires
            pow3((b - a) as nat) >= 1,
            pow3(a) >= 1,
    ;
}

/// Every power of three up to the 80th fits in a `u128`.
pub proof fn lemma_pow3_fits(e: nat)
    requires
        e <= 80,
    ensures
        pow3(e) <= 147808829414345923316083210206383297601,
        pow3(e) < u128_bound(),
{
    lemma_pow3_le(e, 80);
    assert(pow3(10) == 59049) by {
        reveal_with_fuel(pow3, 11);
    }
    lemma_pow3_adds(10, 10);
    assert(pow3(20) == 3486784401);
    lemma_pow3_adds(20, 20);
    assert(pow3(40) == 12157665459056928801);
    lemma_pow3_adds(40, 40);
    assert(pow3(80) == 147808829414345923316083210206383297601);
}

/// `x` is `2^v2(x)` times an odd number.
pub proof fn lemma_v2_split(x: nat)
    requires
        x > 0,
    ensures
        x % pow2(v2(x)) == 0,
        (x / pow2(v2(x))) % 2 == 1,
        pow2(v2(x)) <= x,
    decreases x,
{
    if x % 2 == 1 {
        lemma2_to64();
    } else {
        let h = x / 2;
        lemma_v2_split(h);
        let t = v2(h);
        lemma_pow2_unfold(t + 1);
        lemma_pow2_pos(t);
        let p = pow2(t);
        assert(x == 2 * h);
        assert(h == p * (h / p)) by (nonlinear_arith)
            requires
                h % p == 0,
                p > 0,
        ;
        let m = h / p;
        assert(x == (2 * p) * m) by (nonlinear_arith)
            requires
                x == 2 * h,
                h == p * m,
        ;
        vstd::arithmetic::div_mod::lemma_mod_multiples_basic(m as int, 2 * p as int);
        assert((2 * p) * m == m * (2 * p)) by (nonlinear_arith);
        vstd::arithmetic::div_mod::lemma_div_multiples_vanish(m as int, 2 * p as int);
    }
}

/// A value `m * 2^t` with `m` odd has valuation `t`.
pub proof fn lemma_v2_of(m: nat, t: nat)
    requires
        m % 2 == 1,
    ensures
        v2(m * pow2(t)) == t,
    decreases t,
{
    if t == 0 {
        lemma2_to64();
        assert(m * 1 == m);
    } else {
        lemma_pow2_unfold(t);
        lemma_pow2_pos((t - 1) as nat);
        let q = pow2((t - 1) as nat);
        assert(m * pow2(t) == 2 * (m * q)) by (nonlinear_arith)
            requires
                pow2(t) == 2 * q,
        ;
        assert(m * q > 0) by (nonlinear_arith)
            requires
                m > 0,
                q > 0,
        ;
        lemma_v2_of(m, (t - 1) as nat);
    }
}

/// `2^k` as a `u128`.
pub fn pow2_u128(k: u32) -> (r: u128)
    requires
        k < 128,
    ensures
        r == pow2(k as nat),
{
    let mut r: u128 = 1;
    let mut e: u32 = 0;
    proof {
        lemma2_to64();
    }
    while e < k
        invariant
            e <= k < 128,
            r == pow2(e as nat),
        decreases k - e,
    {
        proof {
            lemma_pow2_unfold((e + 1) as nat);
            vstd::arithmetic::power2::lemma_pow2_strictly_increases((e + 1) as nat, 128);
            lemma2_to64();
            vstd::arithmetic::power2::lemma_pow2_adds(64, 64);
        }
        r = r * 2;
        e = e + 1;
    }
    r
}

/// Relies on `u128::trailing_zeros`: the number of trailing zero bits, 128 for zero.
#[verifier::external_body]
pub(crate) fn trailing_zeros(x: u128) -> (r: u32)
    ensures
        x > 0 ==> r == v2(x as nat),
        x == 0 ==> r == 128,
{
    x.trailing_zeros()
}

} // verus!
