//! The table of powers of three used by every shortcut step.
use vstd::prelude::*;
use crate::arith::{pow3, lemma_pow3_fits};

verus! {

/// The largest exponent the table holds.
pub const MAX_EXPONENT: usize = 80;

/// `3^e` for every `e` in `0..=80`, built once and then only read.
pub struct PowerTable {
    powers: Vec<u128>,
}

impl View for PowerTable {
    type V = Seq<u128>;

    closed spec fn view(&self) -> Seq<u128> {
        self.powers@
    }
}

impl PowerTable {
    /// The table holds exactly the powers of three up to the 80th.
    pub open spec fn wf(&self) -> bool {
        &&& self@.len() == MAX_EXPONENT + 1
        &&& forall|e: int| 0 <= e <= MAX_EXPONENT ==> #[trigger] self@[e] == pow3(e as nat)
    }

    /// `3^e`.
    pub fn get(&self, e: usize) -> (r: u128)
        requires
            self.wf(),
            e <= MAX_EXPONENT,
        ensures
            r == pow3(e as nat),
    {
        self.powers[e]
    }

    /// The number of entries, 81.
    pub fn len(&self) -> (r: usize)
        requires
            self.wf(),
        ensures
            r == MAX_EXPONENT + 1,
    {
        self.powers.len()
    }
}

/// Builds the table of powers of three, `3^0` to `3^80`.
pub fn get_lut3() -> (t: PowerTable)
    ensures
        t.wf(),
{
    let mut powers: Vec<u128> = Vec::new();
    let mut p: u128 = 1;
    let mut exp: usize = 0;
    while exp <= MAX_EXPONENT
        invariant
            exp <= MAX_EXPONENT + 1,
            powers@.len() == exp,
            exp <= MAX_EXPONENT ==> p == pow3(exp as nat),
            forall|e: int| 0 <= e < exp ==> #[trigger] powers@[e] == pow3(e as nat),
        decreases MAX_EXPONENT + 1 - exp,
    {
        powers.push(p);
        if exp < MAX_EXPONENT {
            proof {
                lemma_pow3_fits((exp + 1) as nat);
            }
            p = p * 3;
        }
        exp = exp + 1;
    }
    PowerTable { powers }
}

} // verus!
