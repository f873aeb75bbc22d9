//! The sieve's bitset: one bit per residue, packed into 64-bit words, where a
//! set bit means "still unresolved". Bits are only ever cleared.
use vstd::prelude::*;

verus! {

/// Residues `0..len`, one bit each, packed 64 to a word.
pub struct SieveBits {
    words: Vec<u64>,
    len: usize,
}

proof fn lemma_all_ones(t: u64)
    requires
        t < 64,
    ensures
        (u64::MAX >> t) & 1 == 1,
{
    assert(t < 64 ==> (u64::MAX >> t) & 1 == 1) by (bit_vector);
}

proof fn lemma_clear_bit(w: u64, j: u64, t: u64)
    requires
        j < 64,
        t < 64,
    ensures
        t == j ==> ((w & !(1u64 << j)) >> t) & 1 == 0,
        t != j ==> ((w & !(1u64 << j)) >> t) & 1 == (w >> t) & 1,
{
    assert(j < 64 && t < 64 && t == j ==> ((w & !(1u64 << j)) >> t) & 1 == 0) by (bit_vector);
    assert(j < 64 && t < 64 && t != j ==> ((w & !(1u64 << j)) >> t) & 1 == (w >> t) & 1)
        by (bit_vector);
}

impl View for SieveBits {
    type V = Seq<bool>;

    closed spec fn view(&self) -> Seq<bool> {
        Seq::new(
            self.len as nat,
            |p: int| (self.words@[p / 64] >> ((p % 64) as u64)) & 1 == 1,
        )
    }
}

impl SieveBits {
    /// Enough words for every bit.
    pub closed spec fn wf(&self) -> bool {
        &&& self.words@.len() * 64 >= self.len
        &&& self.len + 64 <= usize::MAX
    }

    /// A bitset over residues `0..len` with every bit set.
    pub fn new(len: usize) -> (s: SieveBits)
        requires
            len + 64 <= usize::MAX,
        ensures
            s.wf(),
            s@.len() == len,
            forall|p: int| 0 <= p < len ==> #[trigger] s@[p],
    {
        let n_words = (len + 63) / 64;
        let mut words: Vec<u64> = Vec::new();
        let mut w: usize = 0;
        while w < n_words
            invariant
                w <= n_words,
                n_words == (len + 63) / 64,
                words@.len() == w,
                forall|x: int| 0 <= x < w ==> #[trigger] words@[x] == u64::MAX,
            decreases n_words - w,
        {
            words.push(u64::MAX);
            w = w + 1;
        }
        let s = SieveBits { words, len };
        assert forall|p: int| 0 <= p < len implies #[trigger] s@[p] by {
            lemma_all_ones((p % 64) as u64);
        }
        s
    }

    /// The number of residues.
    pub fn len(&self) -> (r: usize)
        ensures
            r == self@.len(),
    {
        self.len
    }

    /// Whether residue `p` is still unresolved.
    pub fn is_set(&self, p: usize) -> (b: bool)
        requires
            self.wf(),
            p < self@.len(),
        ensures
            b == self@[p as int],
    {
        (self.words[p / 64] >> ((p % 64) as u64)) & 1 == 1
    }

    /// Marks residue `p` resolved.
    pub fn clear(&mut self, p: usize)
        requires
            old(self).wf(),
            p < old(self)@.len(),
        ensures
            final(self).wf(),
            final(self)@ == old(self)@.update(p as int, false),
    {
        let w = p / 64;
        let j = (p % 64) as u64;
        let word = self.words[w];
        self.words.set(w, word & !(1u64 << j));
        proof {
            assert forall|q: int| 0 <= q < self@.len() implies #[trigger] self@[q] == old(
                self,
            )@.update(p as int, false)[q] by {
                if q / 64 == w {
                    lemma_clear_bit(word, j, (q % 64) as u64);
                }
            }
            assert(self@ =~= old(self)@.update(p as int, false));
        }
    }

    /// Marks resolved every residue congruent to `r0` modulo `m`.
    pub fn clear_class(&mut self, r0: usize, m: usize)
        requires
            old(self).wf(),
            m > 0,
            r0 < m,
            old(self)@.len() + m <= usize::MAX,
        ensures
            final(self).wf(),
            final(self)@.len() == old(self)@.len(),
            forall|q: int|
                0 <= q < old(self)@.len() ==> #[trigger] final(self)@[q] == (old(self)@[q] && q
                    % (m as int) != r0),
    {
        let mut p: usize = r0;
        proof {
            vstd::arithmetic::div_mod::lemma_small_mod(r0 as nat, m as nat);
            assert forall|q: int| 0 <= q < r0 implies #[trigger] (q % (m as int)) != r0 by {
                vstd::arithmetic::div_mod::lemma_mod_decreases(q as nat, m as nat);
            }
        }
        while p < self.len
            invariant
                self.wf(),
                self@.len() == old(self)@.len(),
                m > 0,
                r0 < m,
                p % m == r0,
                p <= self@.len() + m,
                forall|q: int|
                    0 <= q < self@.len() ==> #[trigger] self@[q] == (old(self)@[q] && !(q % (
                    m as int) == r0 && q < p)),
                self@.len() + m <= usize::MAX,
            decreases self@.len() + m - p,
        {
            self.clear(p);
            proof {
                assert forall|q: int| 0 <= q < self@.len() implies #[trigger] self@[q] == (old(
                    self,
                )@[q] && !(q % (m as int) == r0 && q < p + m)) by {
                    if q % (m as int) == r0 && p < q {
                        vstd::arithmetic::div_mod::lemma_fundamental_div_mod(q, m as int);
                        vstd::arithmetic::div_mod::lemma_fundamental_div_mod(p as int, m as int);
                        let mi = m as int;
                        let pi = p as int;
                        assert(q >= pi + mi) by (nonlinear_arith)
                            requires
                                q == mi * (q / mi) + r0,
                                pi == mi * (pi / mi) + r0,
                                pi < q,
                                mi > 0,
                        ;
                    }
                }
            }
            proof {
                vstd::arithmetic::div_mod::lemma_mod_add_multiples_vanish(p as int, m as int);
            }
            p = p + m;
        }
    }

    /// The residues still unresolved, ascending.
    pub fn remaining(&self) -> (v: Vec<u64>)
        requires
            self.wf(),
        ensures
            forall|x: int, y: int| 0 <= x < y < v@.len() ==> v@[x] < v@[y],
            forall|x: int| 0 <= x < v@.len() ==> v@[x] < self@.len() && self@[v@[x] as int],
            forall|p: int| 0 <= p < self@.len() && #[trigger] self@[p] ==> v@.contains(p as u64),
    {
        let mut v: Vec<u64> = Vec::new();
        let mut p: usize = 0;
        while p < self.len
            invariant
                self.wf(),
                p <= self@.len(),
                forall|x: int, y: int| 0 <= x < y < v@.len() ==> v@[x] < v@[y],
                forall|x: int| 0 <= x < v@.len() ==> v@[x] < p && self@[v@[x] as int],
                forall|q: int| 0 <= q < p && #[trigger] self@[q] ==> v@.contains(q as u64),
            decreases self@.len() - p,
        {
            if self.is_set(p) {
                let ghost before = v@;
                v.push(p as u64);
                proof {
                    assert(v@[v@.len() - 1] == p as u64);
                    assert forall|q: int| 0 <= q < p + 1 && #[trigger] self@[q] implies v@.contains(q as u64) by {
                        if q < p {
                            let x = choose|x: int| 0 <= x < before.len() && before[x] == q as u64;
                            assert(v@[x] == q as u64);
                        } else {
                            assert(v@[v@.len() - 1] == q as u64);
                        }
                    }
                }
            }
            p = p + 1;
        }
        v
    }
}

} // verus!
