use minihash::hash::{FIRST_MULTIPLIER, SECOND_MULTIPLIER};
use minihash::placement::{next_index, probe_start};
use minihash::probe::{classify, present, Sighting};
use minihash::simple_hash;
use minihash::Placement;

#[test]
fn finalizer_matches_golden_values() {
    assert_eq!(simple_hash(0), 0);
    assert_eq!(simple_hash(1), 0x514e_28b7);
    assert_eq!(simple_hash(2), 0x30f4_c306);
    assert_eq!(simple_hash(3), 0x85f0_b427);
    assert_eq!(simple_hash(4), 0x249c_b285);
    assert_eq!(simple_hash(5), 0xcc0d_53cd);
    assert_eq!(simple_hash(42), 0x087f_cd5c);
    assert_eq!(simple_hash(24000), 0xc715_6f5c);
    assert_eq!(simple_hash(0x8000_0000), 0x6d3c_65a0);
    assert_eq!(simple_hash(0xdead_beef), 0x0de5_c6a9);
    assert_eq!(simple_hash(u32::MAX), 0x81f1_6f39);
}

#[test]
fn finalizer_follows_its_five_steps() {
    for x in [1u32, 7, 1000, 0x1234_5678, u32::MAX] {
        let mut expected = x;
        expected ^= expected >> 16;
        expected = expected.wrapping_mul(0x85eb_ca6b);
        expected ^= expected >> 13;
        expected = expected.wrapping_mul(0xc2b2_ae35);
        expected ^= expected >> 16;
        assert_eq!(simple_hash(x), expected);
    }
    assert_eq!(FIRST_MULTIPLIER, 0x85eb_ca6b);
    assert_eq!(SECOND_MULTIPLIER, 0xc2b2_ae35);
}

#[test]
fn hashed_start_is_hash_modulo_capacity() {
    assert_eq!(probe_start(Placement::Hashed, 1, 4), 3);
    assert_eq!(probe_start(Placement::Hashed, 2, 4), 2);
    assert_eq!(probe_start(Placement::Hashed, 3, 4), 3);
    assert_eq!(probe_start(Placement::Hashed, 4, 4), 1);
    assert_eq!(probe_start(Placement::Hashed, 5, 4), 1);
    assert_eq!(probe_start(Placement::Hashed, 1, 7), 6);
    assert_eq!(probe_start(Placement::Hashed, 3, 7), 0);
    assert_eq!(probe_start(Placement::Hashed, 42, 16), 12);
    assert_eq!(probe_start(Placement::Hashed, 1, 48000), 12727);
    assert_eq!(probe_start(Placement::Hashed, 24000, 48000), 38748);
    assert_eq!(probe_start(Placement::Hashed, u32::MAX, 48000), 19513);
    assert_eq!(probe_start(Placement::Hashed, 12345, 1), 0);
}

#[test]
fn sequential_start_is_the_first_slot() {
    assert_eq!(probe_start(Placement::Sequential, 1, 4), 0);
    assert_eq!(probe_start(Placement::Sequential, u32::MAX, 48000), 0);
    assert_eq!(probe_start(Placement::Sequential, 9, 1), 0);
}

#[test]
fn next_index_wraps_at_the_end() {
    assert_eq!(next_index(0, 4), 1);
    assert_eq!(next_index(2, 4), 3);
    assert_eq!(next_index(3, 4), 0);
    assert_eq!(next_index(0, 1), 0);
    assert_eq!(next_index(usize::MAX - 1, usize::MAX), 0);
}

#[test]
fn classify_tells_vacant_owned_and_foreign() {
    assert_eq!(classify(0, 5), Sighting::Vacant);
    assert_eq!(classify(5, 5), Sighting::Owned);
    assert_eq!(classify(6, 5), Sighting::Foreign);
    assert_eq!(classify(u32::MAX, 1), Sighting::Foreign);
    assert_eq!(classify(u32::MAX, u32::MAX), Sighting::Owned);
}

#[test]
fn present_treats_zero_as_no_value() {
    assert_eq!(present(0), None);
    assert_eq!(present(1), Some(1));
    assert_eq!(present(u32::MAX), Some(u32::MAX));
}
