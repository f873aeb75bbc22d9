//! The batch driver's work on one window: every surviving residue, offset into
//! the window, goes through the convergence test.
use vstd::prelude::*;
use vstd::arithmetic::power2::pow2;
use rayon::iter::{IndexedParallelIterator, IntoParallelRefIterator, ParallelIterator};
use crate::arith::{u128_bound, pow2_u128};
use crate::power::PowerTable;
use crate::stepper::{Verdict, converge, converge_from};

verus! {

/// The integer that residue `r` stands for in window `n` of size `2^k`.
pub open spec fn window_value(n: nat, k: nat, r: nat) -> nat {
    n * pow2(k) + r
}

/// The outcome of testing residue `r` in window `n`.
pub open spec fn candidate_verdict(n: nat, k: nat, r: nat, max_rounds: nat) -> Verdict {
    let v = window_value(n, k, r);
    if v >= u128_bound() {
        Verdict::Overflow
    } else if v < 2 {
        Verdict::Trivial
    } else {
        converge_from(v, v, 0, max_rounds)
    }
}

/// Tests the integer `n * 2^k + r` with at most `max_rounds` rounds.
pub fn test_candidate(n: u128, k: u32, r: u64, lut3: &PowerTable, max_rounds: u32) -> (v: Verdict)
    requires
        k < 128,
        lut3.wf(),
    ensures
        v == candidate_verdict(n as nat, k as nat, r as nat, max_rounds as nat),
{
    let size = pow2_u128(k);
    let base = match n.checked_mul(size) {
        Some(x) => x,
        None => {
            return Verdict::Overflow;
        },
    };
    let value = match base.checked_add(r as u128) {
        Some(x) => x,
        None => {
            return Verdict::Overflow;
        },
    };
    if value < 2 {
        return Verdict::Trivial;
    }
    converge(value, lut3, max_rounds)
}

/// Relies on rayon's `par_iter` over a slice, `map` and `collect_into_vec`:
/// one verdict per residue, in the order of the residues.
#[verifier::external_body]
fn test_all(n: u128, k: u32, lut2: &Vec<u64>, lut3: &PowerTable, max_rounds: u32) -> (v: Vec<Verdict>)
    requires
        k < 128,
        lut3.wf(),
    ensures
        v@.len() == lut2@.len(),
        forall|i: int|
            0 <= i < lut2@.len() ==> #[trigger] v@[i] == candidate_verdict(
                n as nat,
                k as nat,
                lut2@[i] as nat,
                max_rounds as nat,
            ),
{
    let mut out = Vec::new();
    lut2.par_iter().map(|&r| test_candidate(n, k, r, lut3, max_rounds)).collect_into_vec(&mut out);
    out
}

/// Tests window `n`: each residue `r` of `lut2` gives the integer `n * 2^k + r`,
/// tested with at most `max_rounds` rounds. The verdicts come in the order of
/// `lut2`.
pub fn process(n: u128, k: u32, lut2: &Vec<u64>, lut3: &PowerTable, max_rounds: u32) -> (v: Vec<Verdict>)
    requires
        k < 128,
        lut3.wf(),
    ensures
        v@.len() == lut2@.len(),
        forall|i: int|
            0 <= i < lut2@.len() ==> #[trigger] v@[i] == candidate_verdict(
                n as nat,
                k as nat,
                lut2@[i] as nat,
                max_rounds as nat,
            ),
{
    test_all(n, k, lut2, lut3, max_rounds)
}

/// A verdict that settles nothing: an overflow or a spent round budget.
pub open spec fn is_open(v: Verdict) -> bool {
    v == Verdict::Overflow || v == Verdict::Unresolved
}

/// The position of the first verdict that settles nothing, if any.
pub fn first_open(verdicts: &Vec<Verdict>) -> (r: Option<usize>)
    ensures
        r matches Some(i) ==> i < verdicts@.len() && is_open(verdicts@[i as int]) && forall|j: int|
            0 <= j < i ==> !is_open(#[trigger] verdicts@[j]),
        r is None ==> forall|j: int| 0 <= j < verdicts@.len() ==> !is_open(#[trigger] verdicts@[j]),
{
    let mut i: usize = 0;
    while i < verdicts.len()
        invariant
            i <= verdicts@.len(),
            forall|j: int| 0 <= j < i ==> !is_open(#[trigger] verdicts@[j]),
        decreases verdicts@.len() - i,
    {
        let v = verdicts[i];
        match v {
            Verdict::Overflow => {
                return Some(i);
            },
            Verdict::Unresolved => {
                return Some(i);
            },
            _ => {},
        }
        i = i + 1;
    }
    None
}

} // verus!
