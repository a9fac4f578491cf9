use kmer_sketch::hashing::{hash_lanes, lanes_from_digest};
use kmer_sketch::table::{should_increment, table_indices, CountingTable};

#[test]
fn lanes_are_big_endian_words() {
    let digest: Vec<u8> = (0u8..64).collect();
    let lanes = lanes_from_digest(&digest);
    assert_eq!(lanes[0], 0x0001_0203_0405_0607);
    assert_eq!(lanes[7], 0x3839_3a3b_3c3d_3e3f);
}

#[test]
fn lanes_come_from_sha512() {
    // SHA-512("abc") starts ddaf35a193617aba and ends a54ca49f.
    let lanes = hash_lanes(b"abc");
    assert_eq!(lanes[0], 0xddaf_35a1_9361_7aba);
    assert_eq!(lanes[7] & 0xffff_ffff, 0xa54c_a49f);
}

#[test]
fn hashing_is_deterministic() {
    assert_eq!(hash_lanes(b"ACGTACGT"), hash_lanes(b"ACGTACGT"));
    assert_ne!(hash_lanes(b"ACGTACGT"), hash_lanes(b"ACGTACGA"));
}

#[test]
fn indices_reduce_modulo_size() {
    let lanes = [0u64, 1, 2, 3, 10, 11, 12, u64::MAX];
    assert_eq!(table_indices(&lanes, 10), [0, 1, 2, 3, 0, 1, 2, 5]);
}

#[test]
fn back_off_policy() {
    assert!(should_increment(0, 0));
    assert!(should_increment(0, 254));
    assert!(!should_increment(0, 255));
    assert!(should_increment(200, 54));
    assert!(!should_increment(200, 55));
    assert!(!should_increment(255, 0));
}

#[test]
fn fresh_table_is_zero() {
    let t = CountingTable::new(64);
    assert_eq!(t.size(), 64);
    assert_eq!(t.estimate(b"ACGT"), 0);
    assert!(!t.is_marked(b"ACGT"));
}

#[test]
fn accepted_observation_counts_once() {
    let mut t = CountingTable::new(1 << 16);
    t.observe_with(b"ACGT", 0);
    assert_eq!(t.estimate(b"ACGT"), 1);
    t.observe_with(b"ACGT", 255);
    assert_eq!(t.estimate(b"ACGT"), 1);
    t.observe_with(b"ACGT", 10);
    assert_eq!(t.estimate(b"ACGT"), 2);
}

#[test]
fn threshold_boundary_on_fresh_table() {
    let threshold: u8 = 5;
    let mut t = CountingTable::new(1 << 16);
    for _ in 0..threshold - 1 {
        t.observe_with(b"GATTACA", 0);
    }
    assert!(t.estimate(b"GATTACA") < threshold);
    t.observe_with(b"GATTACA", 0);
    assert_eq!(t.estimate(b"GATTACA"), threshold);
}

#[test]
fn saturation_ceiling() {
    let mut t = CountingTable::new(1 << 10);
    for _ in 0..300 {
        t.observe_with(b"CCCC", 0);
    }
    assert_eq!(t.estimate(b"CCCC"), 255);
    t.observe_with(b"CCCC", 0);
    assert_eq!(t.estimate(b"CCCC"), 255);
}

#[test]
fn random_observations_never_lower_estimates() {
    let mut t = CountingTable::new(1 << 12);
    let mut last = 0u8;
    for _ in 0..2000 {
        t.observe(b"TTTT");
        let e = t.estimate(b"TTTT");
        assert!(e >= last);
        last = e;
    }
    assert!(last > 0);
}

#[test]
fn estimate_is_stable_without_observations() {
    let mut t = CountingTable::new(1 << 12);
    t.observe_with(b"AC", 0);
    let a = t.estimate(b"AC");
    assert_eq!(t.estimate(b"AC"), a);
    assert_eq!(t.estimate(b"AC"), a);
}

#[test]
fn marking_sets_probed_cells() {
    let mut m = CountingTable::new(1 << 12);
    m.mark(b"ACGTACGT");
    assert!(m.is_marked(b"ACGTACGT"));
    assert_eq!(m.estimate(b"ACGTACGT"), 1);
}
