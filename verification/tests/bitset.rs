//! The packed bit set.

use logigator_sim::bitset::BitSet;
use logigator_sim::scratch::splitmix64;

#[test]
fn round_trips_bits() {
    let mut bs = BitSet::new(130); // 3 words
    assert_eq!(bs.bits(), 130);
    assert_eq!(bs.word_count(), 3);
    for i in 0..130 {
        assert!(!bs.get(i));
    }
    bs.set(0, true);
    bs.set(63, true);
    bs.set(64, true);
    bs.set(129, true);
    assert!(bs.get(0) && bs.get(63) && bs.get(64) && bs.get(129));
    assert!(!bs.get(1) && !bs.get(62) && !bs.get(65) && !bs.get(128));
    bs.set(63, false);
    assert!(!bs.get(63));
    assert!(bs.get(64)); // neighbouring word untouched
}

#[test]
fn clear_zeros_all() {
    let mut bs = BitSet::new(70);
    bs.set(5, true);
    bs.set(69, true);
    bs.clear();
    for i in 0..70 {
        assert!(!bs.get(i));
    }
}

#[test]
fn zero_length_is_valid() {
    let bs = BitSet::new(0);
    assert_eq!(bs.bits(), 0);
    assert_eq!(bs.word_count(), 0);
}

#[test]
fn bits_at_reads_runs_across_word_boundaries() {
    let mut bs = BitSet::new(200);
    // A known pattern, then compare bits_at against single bits for runs that sit inside a
    // word, end at a word edge, and straddle a boundary (incl. bit 63/64 and 127/128).
    for i in 0..200u32 {
        bs.set(i, (splitmix64(i as u64) & 1) == 1);
    }
    let oracle = |start: u32, n: u32| -> u64 {
        (0..n).fold(0u64, |acc, k| acc | ((bs.get(start + k) as u64) << k))
    };
    for &start in &[0u32, 1, 5, 60, 62, 63, 64, 65, 120, 126, 127, 128, 136] {
        for &n in &[0u32, 1, 2, 8, 31, 32, 33, 63, 64] {
            if start + n <= bs.bits() {
                assert_eq!(bs.bits_at(start, n), oracle(start, n), "bits_at({start},{n})");
            }
        }
    }
}

#[test]
fn clone_is_independent_snapshot() {
    let mut a = BitSet::new(64);
    a.set(1, true);
    let b = a.clone();
    a.set(2, true);
    assert!(b.get(1));
    assert!(!b.get(2)); // clone captured the value at clone time
}
