//! Why a cleared residue class needs no test: the two-track simulation tracks
//! the plain Collatz trajectory of every member of the class at once.
use vstd::prelude::*;
use vstd::arithmetic::power2::{pow2, lemma2_to64, lemma_pow2_pos, lemma_pow2_adds, lemma_pow2_unfold};
use vstd::arithmetic::div_mod::{lemma_fundamental_div_mod, lemma_mod_multiples_basic, lemma_div_multiples_vanish};
use crate::arith::{pow3, v2, lemma_pow3_pos, lemma_v2_split};
use crate::track::{min_nat, track_round, proven_from, class_proven};

verus! {

/// The Collatz map: halve an even number, send an odd `x` to `3x + 1`.
pub open spec fn collatz(x: nat) -> nat {
    if x % 2 == 0 {
        x / 2
    } else {
        3 * x + 1
    }
}

/// `s` applications of the Collatz map to `x`.
pub open spec fn iterate(x: nat, s: nat) -> nat
    decreases s,
{
    if s == 0 {
        x
    } else {
        iterate(collatz(x), (s - 1) as nat)
    }
}

proof fn lemma_iterate_adds(x: nat, s1: nat, s2: nat)
    ensures
        iterate(x, s1 + s2) == iterate(iterate(x, s1), s2),
    decreases s1,
{
    if s1 > 0 {
        lemma_iterate_adds(collatz(x), (s1 - 1) as nat, s2);
        assert((s1 + s2 - 1) as nat == (s1 - 1) as nat + s2);
    }
}

/// `2^a m - 1` reaches `3^a m - 1` in `2a` steps: `a` odd steps, each followed
/// by one halving.
proof fn lemma_odd_run(a: nat, m: nat)
    requires
        m >= 1,
    ensures
        pow2(a) * m >= 1,
        iterate((pow2(a) * m - 1) as nat, 2 * a) == (pow3(a) * m - 1) as nat,
    decreases a,
{
    lemma_pow2_pos(a);
    assert(pow2(a) * m >= 1) by (nonlinear_arith)
        requires
            pow2(a) >= 1,
            m >= 1,
    ;
    if a == 0 {
        lemma2_to64();
        assert(pow3(0) == 1);
        assert(1 * m == m);
    } else {
        lemma_pow2_unfold(a);
        let q = pow2((a - 1) as nat);
        let y = q * m;
        assert(pow2(a) * m == 2 * y) by (nonlinear_arith)
            requires
                pow2(a) == 2 * q,
                y == q * m,
        ;
        let x = (2 * y - 1) as nat;
        lemma_pow2_pos((a - 1) as nat);
        assert(y >= 1) by (nonlinear_arith)
            requires
                q >= 1,
                m >= 1,
                y == q * m,
        ;
        assert(collatz(x) == 6 * y - 2);
        assert(collatz((6 * y - 2) as nat) == 3 * y - 1);
        assert(iterate(x, 2 * a) == iterate(collatz(x), (2 * a - 1) as nat));
        assert(iterate((6 * y - 2) as nat, (2 * a - 1) as nat) == iterate(
            collatz((6 * y - 2) as nat),
            (2 * a - 2) as nat,
        ));
        assert(iterate(x, 2 * a) == iterate((3 * y - 1) as nat, (2 * a - 2) as nat));
        lemma_odd_run((a - 1) as nat, 3 * m);
        assert(q * (3 * m) == 3 * y) by (nonlinear_arith)
            requires
                y == q * m,
        ;
        assert(pow3((a - 1) as nat) * (3 * m) == pow3(a) * m) by (nonlinear_arith)
            requires
                pow3(a) == 3 * pow3((a - 1) as nat),
        ;
        assert((2 * (a - 1)) as nat == (2 * a - 2) as nat);
    }
}

/// `2^b c` reaches `c` in `b` halvings.
proof fn lemma_halvings(b: nat, c: nat)
    ensures
        iterate(pow2(b) * c, b) == c,
    decreases b,
{
    if b == 0 {
        lemma2_to64();
        assert(1 * c == c);
    } else {
        lemma_pow2_unfold(b);
        let q = pow2((b - 1) as nat);
        assert(pow2(b) * c == 2 * (q * c)) by (nonlinear_arith)
            requires
                pow2(b) == 2 * q,
        ;
        assert(collatz(2 * (q * c)) == q * c);
        lemma_halvings((b - 1) as nat, c);
    }
}

/// `2^a` divides `x` when `a` is at most the valuation of `x`.
proof fn lemma_pow2_divides(x: nat, a: nat)
    requires
        x > 0,
        a <= v2(x),
    ensures
        x % pow2(a) == 0,
        x == pow2(a) * (x / pow2(a)),
{
    lemma_v2_split(x);
    let e = v2(x);
    lemma_pow2_pos(e);
    lemma_pow2_pos(a);
    lemma_pow2_adds(a, (e - a) as nat);
    lemma_fundamental_div_mod(x as int, pow2(e) as int);
    let c = (pow2((e - a) as nat) * (x / pow2(e))) as nat;
    assert(x == c * pow2(a)) by (nonlinear_arith)
        requires
            x == pow2(e) * (x / pow2(e)) + x % pow2(e),
            x % pow2(e) == 0,
            pow2(e) == pow2(a) * pow2((e - a) as nat),
            c == pow2((e - a) as nat) * (x / pow2(e)),
    ;
    lemma_mod_multiples_basic(c as int, pow2(a) as int);
    lemma_div_multiples_vanish(c as int, pow2(a) as int);
    assert(c * pow2(a) == pow2(a) * c) by (nonlinear_arith);
}

/// One round of the simulation follows every member `n t + r` of the class
/// along its Collatz trajectory.
proof fn lemma_round(n: nat, r: nat, t: nat) -> (s: nat)
    requires
        r < n,
    ensures
        iterate(n * t + r, s) == track_round(n, r).0 * t + track_round(n, r).1,
        track_round(n, r).1 < track_round(n, r).0,
{
    let a = min_nat(v2(n), v2(r + 1));
    let pa = pow2(a);
    lemma_pow2_pos(a);
    lemma_pow2_divides(n, a);
    lemma_pow2_divides(r + 1, a);
    let nn = n / pa;
    let rr = (r + 1) / pa;
    assert(rr >= 1 && rr <= nn) by (nonlinear_arith)
        requires
            r + 1 == pa * rr,
            n == pa * nn,
            r + 1 <= n,
            pa >= 1,
    ;
    let m = nn * t + rr;
    assert(n * t + r == (pa * m - 1) as nat) by (nonlinear_arith)
        requires
            r + 1 == pa * rr,
            n == pa * nn,
            m == nn * t + rr,
    ;
    lemma_odd_run(a, m);
    let three_a = pow3(a);
    lemma_pow3_pos(a);
    let n1 = nn * three_a;
    let r1 = (rr * three_a - 1) as nat;
    assert(rr * three_a >= 1 && rr * three_a <= n1) by (nonlinear_arith)
        requires
            rr >= 1,
            rr <= nn,
            three_a >= 1,
            n1 == nn * three_a,
    ;
    assert(three_a * m - 1 == n1 * t + r1) by (nonlinear_arith)
        requires
            m == nn * t + rr,
            n1 == nn * three_a,
            r1 == rr * three_a - 1,
            rr * three_a >= 1,
    ;
    assert(n1 >= 1) by (nonlinear_arith)
        requires
            n1 == nn * three_a,
            nn >= 1,
            three_a >= 1,
    ;
    let b = if r1 == 0 { v2(n1) } else { min_nat(v2(n1), v2(r1)) };
    let pb = pow2(b);
    lemma_pow2_pos(b);
    lemma_pow2_divides(n1, b);
    if r1 > 0 {
        lemma_pow2_divides(r1, b);
    } else {
        vstd::arithmetic::div_mod::lemma_div_basics(pb as int);
        assert(r1 == pb * (r1 / pb));
    }
    let c = (n1 / pb) * t + r1 / pb;
    assert(n1 * t + r1 == pb * c) by (nonlinear_arith)
        requires
            n1 == pb * (n1 / pb),
            r1 == pb * (r1 / pb),
            c == (n1 / pb) * t + r1 / pb,
    ;
    lemma_halvings(b, c);
    lemma_iterate_adds(n * t + r, 2 * a, b);
    lemma_fundamental_div_mod(r1 as int, pb as int);
    lemma_fundamental_div_mod(n1 as int, pb as int);
    assert(r1 / pb < n1 / pb) by (nonlinear_arith)
        requires
            r1 == pb * (r1 / pb),
            n1 == pb * (n1 / pb),
            r1 < n1,
            pb > 0,
    ;
    2 * a + b
}

/// A simulation that succeeds maps every member `n t + r` of the class, after
/// some steps, to `n' t + r'` with `n' < m` and `r' < n'`.
proof fn lemma_track(m: nat, n: nat, r: nat, fuel: nat, t: nat) -> (res: (nat, nat, nat))
    requires
        proven_from(m, n, r, fuel),
        r < n,
    ensures
        iterate(n * t + r, res.0) == res.1 * t + res.2,
        res.1 < m,
        res.2 < res.1,
    decreases fuel,
{
    let next = track_round(n, r);
    let s1 = lemma_round(n, r, t);
    if next.0 < m {
        (s1, next.0, next.1)
    } else {
        let inner = lemma_track(m, next.0, next.1, (fuel - 1) as nat, t);
        lemma_iterate_adds(n * t + r, s1, inner.0);
        (s1 + inner.0, inner.1, inner.2)
    }
}

/// Every member `2^k t + r0` of a proven class with `t >= 2^k` reaches, under
/// the Collatz map, a value below itself.
pub proof fn lemma_proven_class_descends(k: nat, r0: nat, t: nat)
    requires
        r0 < pow2(k),
        class_proven(k, r0),
        t >= pow2(k),
    ensures
        exists|s: nat| #[trigger] iterate(pow2(k) * t + r0, s) < pow2(k) * t + r0,
{
    let res = lemma_track(pow2(k), pow2(k), r0, k, t);
    let big = pow2(k);
    assert(res.1 * t + res.2 < big * t + r0) by (nonlinear_arith)
        requires
            res.1 < big,
            res.2 < res.1,
            t >= big,
    ;
    assert(iterate(pow2(k) * t + r0, res.0) < pow2(k) * t + r0);
}

} // verus!
