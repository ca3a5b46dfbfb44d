//! Reductions over gathered inputs.

use logigator_sim::bitset::BitSet;
use logigator_sim::reduce::{and_inputs, or_inputs, xor_inputs};
use logigator_sim::scratch::splitmix64;

fn oracle_and(inputs: &[u32], ls: &BitSet) -> bool {
    inputs.iter().all(|&l| ls.get(l))
}
fn oracle_or(inputs: &[u32], ls: &BitSet) -> bool {
    inputs.iter().any(|&l| ls.get(l))
}
fn oracle_xor(inputs: &[u32], ls: &BitSet) -> bool {
    inputs.iter().filter(|&&l| ls.get(l)).count() & 1 == 1
}

fn seeded_bitset(bits: u32, seed: u64) -> BitSet {
    let mut bs = BitSet::new(bits);
    let mut x = seed;
    for i in 0..bits {
        x = splitmix64(x);
        if x & 1 == 1 {
            bs.set(i, true);
        }
    }
    bs
}

fn no_neg(bits: u32) -> BitSet {
    BitSet::new(bits.max(1))
}

#[test]
fn reduce_reductions_match_oracle_across_fanin_and_chunk_boundaries() {
    // Cover the AND-mask trap and every chunk edge: 0, 1, just-under/at/over 64, 128±1, wide.
    let fanins = [
        0usize, 1, 2, 3, 7, 31, 63, 64, 65, 100, 127, 128, 129, 256, 257, 1000,
    ];
    for &n in &fanins {
        let bits = (n as u32).max(1);
        for seed in [1u64, 0xDEAD_BEEF, 0x5555_5555_AAAA_AAAA, u64::MAX] {
            let ls = seeded_bitset(bits, seed);
            let neg = no_neg(bits);
            let inputs: Vec<u32> = (0..n as u32).collect();
            assert_eq!(
                and_inputs(&inputs, &ls, &neg, 0),
                oracle_and(&inputs, &ls),
                "AND n={n} seed={seed}"
            );
            assert_eq!(
                or_inputs(&inputs, &ls, &neg, 0),
                oracle_or(&inputs, &ls),
                "OR n={n} seed={seed}"
            );
            assert_eq!(
                xor_inputs(&inputs, &ls, &neg, 0),
                oracle_xor(&inputs, &ls),
                "XOR n={n} seed={seed}"
            );
        }
    }
}

#[test]
fn reduce_all_set_and_all_clear_edges() {
    // All-ones: AND true, OR true, XOR = parity of N. All-zero: AND false (N>0), OR false, XOR false.
    for &n in &[1usize, 63, 64, 65, 128] {
        let inputs: Vec<u32> = (0..n as u32).collect();
        let neg = no_neg(n as u32);

        let mut all = BitSet::new(n as u32);
        for i in 0..n as u32 {
            all.set(i, true);
        }
        assert!(and_inputs(&inputs, &all, &neg, 0), "all-set AND n={n}");
        assert!(or_inputs(&inputs, &all, &neg, 0), "all-set OR n={n}");
        assert_eq!(
            xor_inputs(&inputs, &all, &neg, 0),
            n % 2 == 1,
            "all-set XOR n={n}"
        );

        let none = BitSet::new(n as u32);
        assert!(!and_inputs(&inputs, &none, &neg, 0), "all-clear AND n={n}");
        assert!(!or_inputs(&inputs, &none, &neg, 0), "all-clear OR n={n}");
        assert!(!xor_inputs(&inputs, &none, &neg, 0), "all-clear XOR n={n}");
    }
}

#[test]
fn reduce_empty_inputs_are_vacuous() {
    let ls = BitSet::new(1);
    let neg = no_neg(1);
    assert!(
        and_inputs(&[], &ls, &neg, 0),
        "AND of nothing is vacuously true"
    );
    assert!(!or_inputs(&[], &ls, &neg, 0), "OR of nothing is false");
    assert!(!xor_inputs(&[], &ls, &neg, 0), "XOR of nothing is false");
}

#[test]
fn reduce_repeated_and_scattered_links() {
    // Inputs may repeat a link and need not be contiguous/sorted — the gather indexes each.
    let mut ls = BitSet::new(10);
    let neg = no_neg(10);
    ls.set(3, true);
    ls.set(7, true);
    let inputs = [3u32, 3, 7, 3]; // all powered → AND true, XOR parity of 4 = even = false
    assert!(and_inputs(&inputs, &ls, &neg, 0));
    assert!(or_inputs(&inputs, &ls, &neg, 0));
    assert!(!xor_inputs(&inputs, &ls, &neg, 0));
    let mixed = [3u32, 0, 7]; // link 0 low → AND false, OR true, XOR parity of 2 = false
    assert!(!and_inputs(&mixed, &ls, &neg, 0));
    assert!(or_inputs(&mixed, &ls, &neg, 0));
    assert!(!xor_inputs(&mixed, &ls, &neg, 0));
}

#[test]
fn negation_straddles_word_boundary() {
    let neg_bits = 256u32; // covers max(in_base) + max(n)
    for &in_base in &[0u32, 60, 62, 63, 64, 120, 126, 127, 130] {
        for &n in &[1usize, 2, 4, 8, 10, 33, 63, 64, 65] {
            for seed in [1u64, 0xA5A5_1234_5678_9ABC, u64::MAX, 0x0F0F_F0F0_1357_2468] {
                let ls = seeded_bitset(n as u32, seed);
                let neg = seeded_bitset(neg_bits, seed ^ 0x9999_9999_9999_9999);
                let inputs: Vec<u32> = (0..n as u32).collect();
                let eff = |i: usize| ls.get(inputs[i]) ^ neg.get(in_base + i as u32);
                let oand = (0..n).all(eff);
                let oor = (0..n).any(eff);
                let oxor = (0..n).filter(|&i| eff(i)).count() & 1 == 1;
                assert_eq!(
                    and_inputs(&inputs, &ls, &neg, in_base),
                    oand,
                    "AND in_base={in_base} n={n} seed={seed}"
                );
                assert_eq!(
                    or_inputs(&inputs, &ls, &neg, in_base),
                    oor,
                    "OR in_base={in_base} n={n} seed={seed}"
                );
                assert_eq!(
                    xor_inputs(&inputs, &ls, &neg, in_base),
                    oxor,
                    "XOR in_base={in_base} n={n} seed={seed}"
                );
            }
        }
    }
}
