//! The two-track shortcut simulation that proves a whole residue class
//! modulo `2^k` convergent.
use vstd::prelude::*;
use vstd::arithmetic::power2::{pow2, lemma2_to64, lemma_pow2_pos, lemma_pow2_adds, lemma_pow2_strictly_increases};
use vstd::arithmetic::div_mod::{lemma_div_multiples_vanish, lemma_div_is_ordered, lemma_fundamental_div_mod};
use vstd::arithmetic::mul::lemma_mul_inequality;
use crate::arith::{pow3, v2, u128_bound, lemma_pow3_pos, lemma_pow3_fits, lemma_pow3_adds, lemma_v2_split, lemma_v2_of, trailing_zeros, pow2_u128};
use crate::power::{PowerTable, MAX_EXPONENT};

verus! {

pub open spec fn min_nat(a: nat, b: nat) -> nat {
    if a <= b { a } else { b }
}

/// One round on the pair (modulus value `n`, residue `r`), which stands for
/// every integer `n * t + r`: first `a = min(v2(n), v2(r + 1))` odd steps
/// taken together, then `b` halvings that both tracks allow.
pub open spec fn track_round(n: nat, r: nat) -> (nat, nat) {
    let a = min_nat(v2(n), v2(r + 1));
    let n1 = (n / pow2(a)) * pow3(a);
    let r1 = ((((r + 1) / pow2(a)) * pow3(a)) - 1) as nat;
    let b = if r1 == 0 { v2(n1) } else { min_nat(v2(n1), v2(r1)) };
    (n1 / pow2(b), r1 / pow2(b))
}

/// Whether the simulation from (`n`, `r`) reaches a modulus value below `m`
/// before the modulus value turns odd, within `fuel + 1` rounds.
pub open spec fn proven_from(m: nat, n: nat, r: nat, fuel: nat) -> bool
    decreases fuel,
{
    let next = track_round(n, r);
    if next.0 < m {
        true
    } else if next.0 % 2 == 1 {
        false
    } else if fuel == 0 {
        false
    } else {
        proven_from(m, next.0, next.1, (fuel - 1) as nat)
    }
}

/// The residue class `r0` modulo `2^k` is proven convergent: the simulation
/// started from (`2^k`, `r0`) drops the modulus value below `2^k`.
pub open spec fn class_proven(k: nat, r0: nat) -> bool {
    proven_from(pow2(k), pow2(k), r0, k)
}

proof fn lemma_pow2_le_pow3(e: nat)
    ensures
        pow2(e) <= pow3(e),
    decreases e,
{
    if e == 0 {
        lemma2_to64();
    } else {
        lemma_pow2_le_pow3((e - 1) as nat);
        vstd::arithmetic::power2::lemma_pow2_unfold(e);
    }
}

proof fn lemma_pow3_odd(e: nat)
    ensures
        pow3(e) % 2 == 1,
    decreases e,
{
    if e > 0 {
        lemma_pow3_odd((e - 1) as nat);
    }
}

proof fn lemma_pow2_128()
    ensures
        pow2(128) == u128_bound(),
{
    lemma2_to64();
    lemma_pow2_adds(64, 64);
}

/// `2^x * c` divided by `2^b`, for `b <= x`.
proof fn lemma_div_pow2_part(x: nat, c: nat, b: nat)
    requires
        b <= x,
    ensures
        (pow2(x) * c) / pow2(b) == pow2((x - b) as nat) * c,
{
    lemma_pow2_adds(b, (x - b) as nat);
    lemma_pow2_pos(b);
    let d = pow2(b);
    let e = pow2((x - b) as nat) * c;
    assert(pow2(x) * c == e * d) by (nonlinear_arith)
        requires
            pow2(x) == d * pow2((x - b) as nat),
            e == pow2((x - b) as nat) * c,
    ;
    lemma_div_multiples_vanish(e as int, d as int);
}

/// `x < y` with `d` dividing `y` gives `x / d < y / d`.
proof fn lemma_div_lt(x: nat, y: nat, d: nat)
    requires
        x < y,
        d > 0,
        y % d == 0,
    ensures
        x / d < y / d,
{
    lemma_fundamental_div_mod(x as int, d as int);
    lemma_fundamental_div_mod(y as int, d as int);
    assert(x / d < y / d) by (nonlinear_arith)
        requires
            x == d * (x / d) + x % d,
            y == d * (y / d),
            x % d >= 0,
            x < y,
            d > 0,
    ;
}

/// Runs the two-track simulation for residue `r0` modulo `2^k`.
pub fn sieve_class(k: u32, r0: u128, lut3: &PowerTable) -> (proven: bool)
    requires
        1 <= k <= MAX_EXPONENT,
        r0 < pow2(k as nat),
        lut3.wf(),
    ensures
        proven == class_proven(k as nat, r0 as nat),
{
    proof {
        lemma_pow2_128();
        lemma_pow2_strictly_increases(k as nat, 128);
    }
    let n0: u128 = pow2_u128(k);
    let mut n: u128 = n0;
    let mut r: u128 = r0;
    let mut fuel: u32 = k;
    let ghost mut j: nat = k as nat;
    let ghost mut i: nat = 0;
    proof {
        lemma2_to64();
        assert(pow3(0) == 1);
        assert(pow2(j) * 1 == pow2(j));
        assert(n == pow2(j) * pow3(i));
    }
    loop
        invariant
            1 <= k <= MAX_EXPONENT,
            lut3.wf(),
            n0 == pow2(k as nat),
            n == pow2(j) * pow3(i),
            j + i <= k,
            j >= 1,
            r < n,
            fuel <= k,
            proven_from(n0 as nat, n as nat, r as nat, fuel as nat) == class_proven(k as nat, r0 as nat),
        decreases fuel,
    {
        proof {
            lemma_pow3_odd(i);
            lemma_v2_of(pow3(i), j);
            assert(pow2(j) * pow3(i) == pow3(i) * pow2(j)) by (nonlinear_arith);
            lemma_pow3_pos(i);
            lemma_pow2_pos(j);
            lemma_pow2_le_pow3(j);
            lemma_pow3_adds(j, i);
            lemma_pow3_fits(j + i);
            assert(pow2(j) * pow3(i) <= pow3(j) * pow3(i)) by (nonlinear_arith)
                requires
                    pow2(j) <= pow3(j),
            ;
        }
        let tn = trailing_zeros(n);
        let tr = trailing_zeros(r + 1);
        let a: u32 = if tn <= tr { tn } else { tr };
        let p = lut3.get(a as usize);
        proof {
            vstd::bits::lemma_u128_shr_is_div(n, a as u128);
            vstd::bits::lemma_u128_shr_is_div((r + 1) as u128, a as u128);
            lemma_div_pow2_part(j, pow3(i), a as nat);
            lemma_pow2_pos(a as nat);
            lemma_pow3_adds(i, a as nat);
            lemma_pow3_pos(a as nat);
            lemma_pow3_fits((i + a) as nat);
            lemma_pow2_le_pow3((j - a) as nat);
            lemma_pow3_adds((j - a) as nat, (i + a) as nat);
            lemma_div_is_ordered((r + 1) as int, n as int, pow2(a as nat) as int);
            lemma_v2_split((r + 1) as nat);
            let hr = (r + 1) as nat / pow2(a as nat);
            let hn = n as nat / pow2(a as nat);
            assert(hn == pow2((j - a) as nat) * pow3(i));
            assert(hn * pow3(a as nat) == pow2((j - a) as nat) * pow3((i + a) as nat))
                by (nonlinear_arith)
                requires
                    hn == pow2((j - a) as nat) * pow3(i),
                    pow3((i + a) as nat) == pow3(i) * pow3(a as nat),
            ;
            assert(pow2((j - a) as nat) * pow3((i + a) as nat) <= pow3((j - a) as nat) * pow3(
                (i + a) as nat,
            )) by (nonlinear_arith)
                requires
                    pow2((j - a) as nat) <= pow3((j - a) as nat),
            ;
            assert(hr * pow3(a as nat) <= hn * pow3(a as nat)) by (nonlinear_arith)
                requires
                    hr <= hn,
            ;
            // the residue track stays at least 1 before its decrement
            assert(hr >= 1) by {
                if a < v2((r + 1) as nat) {
                    lemma_pow2_strictly_increases(a as nat, v2((r + 1) as nat));
                }
                lemma_fundamental_div_mod((r + 1) as int, pow2(a as nat) as int);
                vstd::arithmetic::div_mod::lemma_mod_pos_bound((r + 1) as int, pow2(a as nat) as int);
                if hr == 0 {
                    assert(pow2(a as nat) * 0 == 0);
                }
            }
            assert(hr * pow3(a as nat) >= 1) by (nonlinear_arith)
                requires
                    hr >= 1,
                    pow3(a as nat) >= 1,
            ;
        }
        let n1 = (n >> (a as u128)) * p;
        let r1 = ((r + 1) >> (a as u128)) * p - 1;
        let ghost j1: nat = (j - a) as nat;
        let ghost i1: nat = (i + a) as nat;
        proof {
            assert(n1 == pow2(j1) * pow3(i1));
            lemma_pow3_odd(i1);
            lemma_v2_of(pow3(i1), j1);
            assert(pow2(j1) * pow3(i1) == pow3(i1) * pow2(j1)) by (nonlinear_arith);
            assert(r1 < n1);
        }
        let t1 = trailing_zeros(n1);
        let t2 = trailing_zeros(r1);
        let b: u32 = if t1 <= t2 { t1 } else { t2 };
        proof {
            lemma_pow3_pos(i1);
            lemma_pow2_pos(j1);
            vstd::bits::lemma_u128_shr_is_div(n1, b as u128);
            vstd::bits::lemma_u128_shr_is_div(r1, b as u128);
            lemma_div_pow2_part(j1, pow3(i1), b as nat);
            lemma_pow2_adds(b as nat, (j1 - b) as nat);
            lemma_pow2_pos(b as nat);
            assert(n1 as nat % pow2(b as nat) == 0) by {
                lemma_div_multiples_vanish((pow2((j1 - b) as nat) * pow3(i1)) as int, pow2(b as nat) as int);
                assert(n1 == (pow2((j1 - b) as nat) * pow3(i1)) * pow2(b as nat)) by (nonlinear_arith)
                    requires
                        n1 == pow2(j1) * pow3(i1),
                        pow2(j1) == pow2(b as nat) * pow2((j1 - b) as nat),
                ;
                vstd::arithmetic::div_mod::lemma_mod_multiples_basic((pow2((j1 - b) as nat) * pow3(i1)) as int, pow2(b as nat) as int);
            }
            lemma_div_lt(r1 as nat, n1 as nat, pow2(b as nat));
        }
        n = n1 >> (b as u128);
        r = r1 >> (b as u128);
        proof {
            j = (j1 - b) as nat;
            i = i1;
        }
        if n < n0 {
            return true;
        }
        if n % 2 == 1 {
            return false;
        }
        if fuel == 0 {
            return false;
        }
        proof {
            if j == 0 {
                lemma2_to64();
                lemma_pow3_odd(i);
                assert(pow2(j) == 1);
                assert(1 * pow3(i) == pow3(i));
                assert(n == pow3(i));
            }
        }
        fuel = fuel - 1;
    }
}

} // verus!
