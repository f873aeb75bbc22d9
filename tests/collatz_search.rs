use collatz::batch::{first_open, process, test_candidate};
use collatz::bitset::SieveBits;
use collatz::power::get_lut3;
use collatz::sieve::{get_lut2, is_excluded, sieve_pass};
use collatz::stepper::{converge, Verdict};
use collatz::track::sieve_class;

fn collatz_drops_below(x: u128, limit: u32) -> bool {
    let mut v = x;
    let mut steps: u32 = 0;
    while v >= x {
        if steps == limit {
            return false;
        }
        v = if v % 2 == 1 { 3 * v + 1 } else { v / 2 };
        steps += 1;
    }
    true
}

#[test]
fn power_table_holds_powers_of_three() {
    let lut3 = get_lut3();
    assert_eq!(lut3.len(), 81);
    let mut p: u128 = 1;
    for e in 0..=80usize {
        assert_eq!(lut3.get(e), p);
        assert_eq!(lut3.get(e), 3u128.pow(e as u32));
        if e < 80 {
            p *= 3;
        }
    }
    assert_eq!(lut3.get(80), 147808829414345923316083210206383297601);
}

#[test]
fn converge_exact_small_values() {
    let lut3 = get_lut3();
    // 3 -> 4 (a = 2) -> 9 -> 8 (b = 3) -> 1
    assert_eq!(converge(3, &lut3, 100), Verdict::Below { steps: 5, value: 1 });
    assert_eq!(converge(7, &lut3, 100), Verdict::Below { steps: 7, value: 5 });
    // an even start halves at once
    assert_eq!(converge(10, &lut3, 100), Verdict::Below { steps: 1, value: 5 });
}

#[test]
fn converge_drops_below_start() {
    let lut3 = get_lut3();
    for n0 in 2u128..5000 {
        match converge(n0, &lut3, 10_000) {
            Verdict::Below { value, .. } => assert!(value < n0),
            other => panic!("start {} gave {:?}", n0, other),
        }
    }
}

#[test]
fn converge_27_matches_plain_trajectory() {
    let lut3 = get_lut3();
    let (steps, value) = match converge(27, &lut3, 1000) {
        Verdict::Below { steps, value } => (steps, value),
        other => panic!("27 gave {:?}", other),
    };
    assert_eq!((steps, value), (59, 23));
    // the plain trajectory: 111 steps to 1
    let mut x: u128 = 27;
    let mut total = 0;
    let mut halvings = 0;
    let mut at_first_odd_below = None;
    while x != 1 {
        if x % 2 == 1 {
            x = 3 * x + 1;
        } else {
            x /= 2;
            halvings += 1;
        }
        total += 1;
        if at_first_odd_below.is_none() && x < 27 && x % 2 == 1 {
            at_first_odd_below = Some((x, halvings, total));
        }
    }
    assert_eq!(total, 111);
    // the absorbed steps are the halvings up to the first odd value below 27
    assert_eq!(at_first_odd_below, Some((value, steps, 96)));
}

#[test]
fn converge_reports_overflow_and_spent_budget() {
    let lut3 = get_lut3();
    assert_eq!(converge(u128::MAX, &lut3, 10), Verdict::Overflow);
    assert_eq!(converge(27, &lut3, 1), Verdict::Unresolved);
    assert_eq!(converge(27, &lut3, 0), Verdict::Unresolved);
}

#[test]
fn sieve_class_small_cases() {
    let lut3 = get_lut3();
    // even residues collapse at once
    assert!(sieve_class(1, 0, &lut3));
    assert!(!sieve_class(1, 1, &lut3));
    assert!(sieve_class(2, 1, &lut3));
    assert!(!sieve_class(2, 3, &lut3));
    assert!(!sieve_class(4, 7, &lut3));
}

#[test]
fn sieve_clears_only_convergent_classes() {
    let lut3 = get_lut3();
    for k in 1u32..=10 {
        for r0 in 0u128..(1u128 << k) {
            if sieve_class(k, r0, &lut3) {
                for t in 0u128..64 {
                    let x = (t << k) + r0;
                    if x >= 2 {
                        assert!(collatz_drops_below(x, 100_000), "k {} residue {} value {}", k, r0, x);
                    }
                }
            }
        }
    }
    let lut2 = get_lut2(10, &vec![], &lut3);
    assert_eq!(lut2.len(), 64);
}

#[test]
fn sieve_passes_only_clear_bits() {
    let lut3 = get_lut3();
    let size: usize = 1 << 10;
    let mut bits = SieveBits::new(size);
    for p in 0..size {
        assert!(bits.is_set(p));
    }
    let mut cleared_before = 0;
    for k in 1u32..=10 {
        let before: Vec<bool> = (0..size).map(|p| bits.is_set(p)).collect();
        sieve_pass(&mut bits, k, &lut3);
        let mut cleared = 0;
        for p in 0..size {
            if !before[p] {
                assert!(!bits.is_set(p));
            }
            if !bits.is_set(p) {
                cleared += 1;
            }
        }
        assert!(cleared >= cleared_before);
        cleared_before = cleared;
    }
    let remaining: Vec<u64> = (0..size as u64).filter(|&p| bits.is_set(p as usize)).collect();
    assert_eq!(remaining, get_lut2(10, &vec![], &lut3));
}

#[test]
fn every_integer_in_two_windows_is_accounted_for() {
    let lut3 = get_lut3();
    let lut2 = get_lut2(6, &vec![], &lut3);
    assert_eq!(lut2, vec![7, 15, 27, 31, 39, 47, 59, 63]);
    let w0 = process(0, 6, &lut2, &lut3, 10_000);
    let w1 = process(1, 6, &lut2, &lut3, 10_000);
    assert_eq!(w0.len(), lut2.len());
    assert_eq!(w1.len(), lut2.len());
    for x in 0u128..128 {
        let r = (x % 64) as u64;
        let proven = (1u32..=6).any(|k| sieve_class(k, (r as u128) % (1u128 << k), &lut3));
        let listed = lut2.contains(&r);
        assert!(proven != listed, "value {}", x);
        if listed {
            let i = lut2.iter().position(|&s| s == r).unwrap();
            let v = if x < 64 { w0[i] } else { w1[i] };
            match v {
                Verdict::Below { value, .. } => assert!(value < x),
                other => panic!("value {} gave {:?}", x, other),
            }
        }
    }
    assert_eq!(first_open(&w0), None);
    assert_eq!(first_open(&w1), None);
}

#[test]
fn sieve_with_exponent_four() {
    let lut3 = get_lut3();
    let lut2 = get_lut2(4, &vec![], &lut3);
    assert!(!lut2.contains(&0));
    assert!(lut2.iter().any(|r| r % 2 == 1));
    assert!(!lut2.is_empty());
    assert!(lut2.len() < 16);
    assert_eq!(lut2, vec![7, 11, 15]);
}

#[test]
fn excluded_exponents_are_skipped() {
    let lut3 = get_lut3();
    let all = get_lut2(4, &vec![1, 2, 3, 4], &lut3);
    assert_eq!(all, (0..16).collect::<Vec<u64>>());
    // residue 0 is still cleared at exponent 2 when 1 is skipped
    let without_one = get_lut2(4, &vec![1], &lut3);
    assert!(!without_one.contains(&0));
    assert_eq!(get_lut2(0, &vec![], &lut3), vec![0]);
    assert!(is_excluded(&vec![3, 6, 9], 6));
    assert!(!is_excluded(&vec![3, 6, 9], 7));
    assert!(!is_excluded(&vec![], 1));
}

#[test]
fn candidates_map_into_their_window() {
    let lut3 = get_lut3();
    // window 1 of size 16, residue 11: the integer 27
    assert_eq!(test_candidate(1, 4, 11, &lut3, 1000), Verdict::Below { steps: 59, value: 23 });
    assert_eq!(test_candidate(0, 4, 1, &lut3, 1000), Verdict::Trivial);
    assert_eq!(test_candidate(0, 4, 0, &lut3, 1000), Verdict::Trivial);
    assert_eq!(test_candidate(u128::MAX, 4, 7, &lut3, 1000), Verdict::Overflow);
    let verdicts = process(1, 4, &vec![7, 11, 15], &lut3, 1000);
    assert_eq!(verdicts[1], Verdict::Below { steps: 59, value: 23 });
    assert_eq!(verdicts[0], converge(23, &lut3, 1000));
    assert_eq!(verdicts[2], converge(31, &lut3, 1000));
    let spent = process(1, 4, &vec![7, 11, 15], &lut3, 1);
    // 23 drops below itself in one round, 27 does not
    assert_eq!(first_open(&spent), Some(1));
    assert_eq!(first_open(&vec![Verdict::Trivial, Verdict::Overflow]), Some(1));
}
