//! The accelerated convergence test: shortcut rounds applied to a working
//! value until it drops below its start.
use vstd::prelude::*;
use vstd::arithmetic::power2::{pow2, lemma2_to64, lemma_pow2_pos};
use crate::arith::{pow3, v2, u128_bound, lemma_pow3_pos, lemma_v2_split, trailing_zeros};
use crate::power::{PowerTable, MAX_EXPONENT};

verus! {

/// How a convergence test ended.
#[derive(Clone, Copy, Debug, PartialEq, Eq, Structural)]
pub enum Verdict {
    /// The working value dropped to `value`, below the start, after `steps`
    /// absorbed steps (`a + b` per round).
    Below { steps: u64, value: u128 },
    /// A round needed a value or a power of three beyond the `u128` range.
    Overflow,
    /// The round budget ran out with the working value still at or above the start.
    Unresolved,
    /// The start is 0 or 1, which lie below every start that needs a test.
    Trivial,
}

/// The odd-step part of a round on `n`: `n + 1` stripped of its `a = v2(n + 1)`
/// factors of two and multiplied by `3^a`.
pub open spec fn rise(n: nat) -> nat {
    ((n + 1) / pow2(v2(n + 1))) * pow3(v2(n + 1))
}

/// A round on `n` stays within `u128` and within the table of powers.
pub open spec fn round_fits(n: nat) -> bool {
    &&& n + 1 < u128_bound()
    &&& v2(n + 1) <= MAX_EXPONENT
    &&& rise(n) < u128_bound()
}

/// One shortcut round: `rise(n) - 1` with its factors of two removed.
pub open spec fn next_value(n: nat) -> nat {
    let m = (rise(n) - 1) as nat;
    m / pow2(v2(m))
}

/// The elementary steps absorbed by one round on `n`: `a + b`.
pub open spec fn round_steps(n: nat) -> nat {
    v2(n + 1) + v2((rise(n) - 1) as nat)
}

/// The outcome of the convergence test from working value `n`, start `n0`,
/// `steps` counted so far and `fuel` rounds left.
pub open spec fn converge_from(n0: nat, n: nat, steps: nat, fuel: nat) -> Verdict
    decreases fuel,
{
    if n < n0 {
        Verdict::Below { steps: steps as u64, value: n as u128 }
    } else if fuel == 0 {
        Verdict::Unresolved
    } else if !round_fits(n) {
        Verdict::Overflow
    } else {
        converge_from(n0, next_value(n), steps + round_steps(n), (fuel - 1) as nat)
    }
}

/// Runs shortcut rounds on `n0` until the working value drops below `n0`.
///
/// At most `max_rounds` rounds are run. The step count adds, for each round,
/// the `a` trailing zeros of `n + 1` and the `b` trailing zeros removed after
/// the multiplication: the number of halvings in the plain trajectory.
pub fn converge(n0: u128, lut3: &PowerTable, max_rounds: u32) -> (v: Verdict)
    requires
        n0 > 1,
        lut3.wf(),
    ensures
        v == converge_from(n0 as nat, n0 as nat, 0, max_rounds as nat),
        v matches Verdict::Below { value, .. } ==> value < n0,
        v != Verdict::Trivial,
{
    let mut i: u64 = 0;
    let mut n: u128 = n0;
    let mut rounds: u32 = 0;
    while n >= n0
        invariant
            rounds <= max_rounds,
            i <= 207 * rounds,
            n >= 1,
            n0 > 1,
            lut3.wf(),
            converge_from(n0 as nat, n as nat, i as nat, (max_rounds - rounds) as nat)
                == converge_from(n0 as nat, n0 as nat, 0, max_rounds as nat),
        decreases max_rounds - rounds,
    {
        if rounds == max_rounds {
            return Verdict::Unresolved;
        }
        if n == u128::MAX {
            return Verdict::Overflow;
        }
        let n1 = n + 1;
        let a = trailing_zeros(n1);
        if a as usize > MAX_EXPONENT {
            return Verdict::Overflow;
        }
        let p = lut3.get(a as usize);
        proof {
            vstd::bits::lemma_u128_shr_is_div(n1, a as u128);
            lemma_v2_split(n1 as nat);
            lemma_pow3_pos(a as nat);
        }
        let q = n1 >> (a as u128);
        let prod = match q.checked_mul(p) {
            Some(x) => x,
            None => {
                return Verdict::Overflow;
            },
        };
        proof {
            lemma2_to64();
            if a == 0 {
                assert(n1 as nat / 1 == n1);
                assert(q == n1);
                assert(pow3(0) == 1);
                assert(p == 1);
                assert(q * p == q) by (nonlinear_arith)
                    requires
                        p == 1,
                ;
            } else {
                assert(p >= 3);
                assert(q >= 1);
                assert(q * p >= 3) by (nonlinear_arith)
                    requires
                        q >= 1,
                        p >= 3,
                ;
            }
        }
        let m = prod - 1;
        let b = trailing_zeros(m);
        proof {
            lemma_v2_split(m as nat);
            assert(b < 128) by {
                if b >= 128 {
                    if b > 128 {
                        vstd::arithmetic::power2::lemma_pow2_strictly_increases(128, b as nat);
                    }
                    vstd::arithmetic::power2::lemma_pow2_adds(64, 64);
                }
            }
            vstd::bits::lemma_u128_shr_is_div(m, b as u128);
            lemma_pow2_pos(b as nat);
        }
        n = m >> (b as u128);
        proof {
            assert(n >= 1) by {
                if n == 0 {
                    assert((m as nat / pow2(b as nat)) % 2 == 1);
                }
            }
        }
        i = i + (a + b) as u64;
        rounds = rounds + 1;
    }
    Verdict::Below { steps: i, value: n }
}

} // verus!
