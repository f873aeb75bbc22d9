//! Sieve construction: passes over exponents `1..=K` that clear every residue
//! class modulo `2^k` that the two-track simulation proves, and the list of
//! residues modulo `2^K` left to test.
use vstd::prelude::*;
use vstd::arithmetic::power2::{pow2, lemma_pow2_pos, lemma_pow2_adds};
use rayon::iter::{IndexedParallelIterator, IntoParallelIterator, ParallelIterator};
use crate::arith::pow2_u128;
use crate::bitset::SieveBits;
use crate::power::{PowerTable, MAX_EXPONENT};
use crate::track::{class_proven, sieve_class};

verus! {

/// `k` is one of the sieve's exponents: in `1..=max_k` and not excluded.
pub open spec fn is_pass(max_k: nat, excluded: Seq<u32>, k: nat) -> bool {
    1 <= k <= max_k && !excluded.contains(k as u32)
}

/// No pass with exponent below `upto` proves the class of `p`.
pub open spec fn survives_below(max_k: nat, excluded: Seq<u32>, upto: nat, p: nat) -> bool {
    forall|k: nat|
        is_pass(max_k, excluded, k) && k < upto ==> !#[trigger] class_proven(k, p % pow2(k))
}

/// Residue `p` modulo `2^max_k` is left to test after every pass.
pub open spec fn survives(max_k: nat, excluded: Seq<u32>, p: nat) -> bool {
    survives_below(max_k, excluded, max_k + 1, p)
}

/// Passes only ever clear: a residue left after the passes with exponent
/// below `u2` was also left after those below any `u1 <= u2`.
pub proof fn lemma_survivors_shrink(max_k: nat, excluded: Seq<u32>, u1: nat, u2: nat, p: nat)
    requires
        u1 <= u2,
        survives_below(max_k, excluded, u2, p),
    ensures
        survives_below(max_k, excluded, u1, p),
{
}

/// The residue's bit is still set and its class modulo `2^k` is proven.
pub fn resolves(bits: &SieveBits, k: u32, r0: usize, lut3: &PowerTable) -> (b: bool)
    requires
        bits.wf(),
        1 <= k <= MAX_EXPONENT,
        r0 < pow2(k as nat),
        r0 < bits@.len(),
        lut3.wf(),
    ensures
        b == (bits@[r0 as int] && class_proven(k as nat, r0 as nat)),
{
    bits.is_set(r0) && sieve_class(k, r0 as u128, lut3)
}

/// Relies on rayon's `into_par_iter` over a range, `map` and `collect_into_vec`:
/// one result per residue of `0..m`, in the order of the residues.
#[verifier::external_body]
fn resolve_all(bits: &SieveBits, k: u32, m: usize, lut3: &PowerTable) -> (v: Vec<bool>)
    requires
        bits.wf(),
        1 <= k <= MAX_EXPONENT,
        m == pow2(k as nat),
        m <= bits@.len(),
        lut3.wf(),
    ensures
        v@.len() == m,
        forall|r: int| 0 <= r < m ==> #[trigger] v@[r] == (bits@[r] && class_proven(k as nat, r as nat)),
{
    let mut out = Vec::new();
    (0..m).into_par_iter().map(|r0| resolves(bits, k, r0, lut3)).collect_into_vec(&mut out);
    out
}

/// `(p mod 2^k) mod 2^j == p mod 2^j` for `j <= k`.
proof fn lemma_mod_pow2_nested(p: nat, j: nat, k: nat)
    requires
        j <= k,
    ensures
        (p % pow2(k)) % pow2(j) == p % pow2(j),
{
    lemma_pow2_adds(j, (k - j) as nat);
    lemma_pow2_pos(j);
    lemma_pow2_pos((k - j) as nat);
    vstd::arithmetic::div_mod::lemma_mod_mod(p as int, pow2(j) as int, pow2((k - j) as nat) as int);
}

/// One sieve pass at exponent `k`: every residue `r0 < 2^k` whose bit is still
/// set and whose class is proven has its whole class cleared.
pub fn sieve_pass(bits: &mut SieveBits, k: u32, lut3: &PowerTable)
    requires
        old(bits).wf(),
        1 <= k <= MAX_EXPONENT,
        pow2(k as nat) <= old(bits)@.len(),
        old(bits)@.len() + pow2(k as nat) <= usize::MAX,
        lut3.wf(),
    ensures
        final(bits).wf(),
        final(bits)@.len() == old(bits)@.len(),
        forall|p: int|
            0 <= p < old(bits)@.len() ==> #[trigger] final(bits)@[p] == (old(bits)@[p] && !(old(
                bits,
            )@[p % (pow2(k as nat) as int)] && class_proven(k as nat, (p % (pow2(k as nat) as int)) as nat))),
        forall|p: int| 0 <= p < old(bits)@.len() && !old(bits)@[p] ==> !#[trigger] final(bits)@[p],
{
    proof {
        vstd::arithmetic::power2::lemma_pow2_strictly_increases(k as nat, 128);
        vstd::arithmetic::power2::lemma2_to64();
        lemma_pow2_adds(64, 64);
    }
    let m = pow2_u128(k) as usize;
    proof {
        lemma_pow2_pos(k as nat);
    }
    let proven = resolve_all(bits, k, m, lut3);
    let ghost start = bits@;
    let mut r0: usize = 0;
    while r0 < m
        invariant
            bits.wf(),
            bits@.len() == start.len(),
            m == pow2(k as nat),
            m > 0,
            r0 <= m,
            m <= start.len(),
            start.len() + m <= usize::MAX,
            proven@.len() == m,
            forall|r: int| 0 <= r < m ==> #[trigger] proven@[r] == (start[r] && class_proven(k as nat, r as nat)),
            forall|q: int|
                0 <= q < start.len() ==> #[trigger] bits@[q] == (start[q] && !(q % (m as int) < r0
                    && start[q % (m as int)] && class_proven(k as nat, (q % (m as int)) as nat))),
        decreases m - r0,
    {
        let ghost before = bits@;
        if proven[r0] {
            bits.clear_class(r0, m);
        }
        proof {
            assert forall|q: int| 0 <= q < start.len() implies #[trigger] bits@[q] == (start[q]
                && !(q % (m as int) < r0 + 1 && start[q % (m as int)] && class_proven(
                k as nat,
                (q % (m as int)) as nat,
            ))) by {
                vstd::arithmetic::div_mod::lemma_mod_pos_bound(q, m as int);
                assert(before[q] == (start[q] && !(q % (m as int) < r0 && start[q % (m as int)]
                    && class_proven(k as nat, (q % (m as int)) as nat))));
                if q % (m as int) == r0 {
                    assert(proven@[r0 as int] == (start[r0 as int] && class_proven(k as nat, r0 as nat)));
                }
            }
        }
        r0 = r0 + 1;
    }
}

/// Whether `k` is listed in `excluded`.
pub fn is_excluded(excluded: &Vec<u32>, k: u32) -> (b: bool)
    ensures
        b == excluded@.contains(k),
{
    let mut x: usize = 0;
    while x < excluded.len()
        invariant
            x <= excluded@.len(),
            forall|y: int| 0 <= y < x ==> excluded@[y] != k,
        decreases excluded@.len() - x,
    {
        if excluded[x] == k {
            return true;
        }
        x = x + 1;
    }
    false
}

/// Builds the sieve modulo `2^max_k`, running a pass for each exponent in
/// `1..=max_k` that `excluded` does not list, and returns the residues left to
/// test, ascending.
pub fn get_lut2(max_k: u32, excluded: &Vec<u32>, lut3: &PowerTable) -> (v: Vec<u64>)
    requires
        max_k <= MAX_EXPONENT,
        2 * pow2(max_k as nat) + 64 <= usize::MAX,
        lut3.wf(),
    ensures
        forall|x: int, y: int| 0 <= x < y < v@.len() ==> v@[x] < v@[y],
        forall|x: int|
            0 <= x < v@.len() ==> v@[x] < pow2(max_k as nat) && survives(
                max_k as nat,
                excluded@,
                v@[x] as nat,
            ),
        forall|p: nat|
            p < pow2(max_k as nat) && survives(max_k as nat, excluded@, p) ==> v@.contains(
                p as u64,
            ),
{
    proof {
        vstd::arithmetic::power2::lemma_pow2_strictly_increases(max_k as nat, 128);
        vstd::arithmetic::power2::lemma2_to64();
        lemma_pow2_adds(64, 64);
    }
    let len = pow2_u128(max_k) as usize;
    let mut bits = SieveBits::new(len);
    let mut k: u32 = 1;
    while k <= max_k
        invariant
            1 <= k <= max_k + 1,
            max_k <= MAX_EXPONENT,
            len == pow2(max_k as nat),
            2 * len + 64 <= usize::MAX,
            lut3.wf(),
            bits.wf(),
            bits@.len() == len,
            forall|p: int|
                0 <= p < len ==> #[trigger] bits@[p] == survives_below(
                    max_k as nat,
                    excluded@,
                    k as nat,
                    p as nat,
                ),
        decreases max_k + 1 - k,
    {
        let ghost before = bits@;
        let skip = is_excluded(excluded, k);
        proof {
            if k < max_k {
                vstd::arithmetic::power2::lemma_pow2_strictly_increases(k as nat, max_k as nat);
            }
        }
        if !skip {
            sieve_pass(&mut bits, k, lut3);
        }
        proof {
            let m = pow2(k as nat);
            lemma_pow2_pos(k as nat);
            assert forall|p: int| 0 <= p < len implies #[trigger] bits@[p] == survives_below(
                max_k as nat,
                excluded@,
                (k + 1) as nat,
                p as nat,
            ) by {
                let r = p % (m as int);
                vstd::arithmetic::div_mod::lemma_mod_pos_bound(p, m as int);
                assert(r <= p) by {
                    vstd::arithmetic::div_mod::lemma_mod_decreases(p as nat, m);
                }
                assert forall|j: nat| j < k implies #[trigger] ((r as nat) % pow2(j)) == (p as nat) % pow2(j) by {
                    lemma_mod_pow2_nested(p as nat, j, k as nat);
                }
                assert(survives_below(max_k as nat, excluded@, k as nat, r as nat)
                    == survives_below(max_k as nat, excluded@, k as nat, p as nat)) by {
                    if survives_below(max_k as nat, excluded@, k as nat, p as nat) {
                        assert forall|j: nat| is_pass(max_k as nat, excluded@, j) && j < k implies !#[trigger] class_proven(j, (r as nat) % pow2(j)) by {
                            assert(((r as nat) % pow2(j)) == (p as nat) % pow2(j));
                        }
                    } else {
                        let j = choose|j: nat| is_pass(max_k as nat, excluded@, j) && j < k && #[trigger] class_proven(j, (p as nat) % pow2(j));
                        assert(((r as nat) % pow2(j)) == (p as nat) % pow2(j));
                    }
                }
                if survives_below(max_k as nat, excluded@, (k + 1) as nat, p as nat) {
                    assert forall|j: nat| is_pass(max_k as nat, excluded@, j) && j < k implies !#[trigger] class_proven(j, (p as nat) % pow2(j)) by {
                    }
                } else {
                    let j = choose|j: nat| is_pass(max_k as nat, excluded@, j) && j < k + 1 && #[trigger] class_proven(j, (p as nat) % pow2(j));
                    if j == k {
                        assert(!skip);
                    }
                }
            }
        }
        k = k + 1;
    }
    let v = bits.remaining();
    proof {
        assert forall|p: nat|
            p < pow2(max_k as nat) && survives(max_k as nat, excluded@, p) implies v@.contains(
            p as u64,
        ) by {
            assert(bits@[p as int]);
        }
    }
    v
}

} // verus!
