use room_cell::uuid::{next_seed, Uuid, LCG_MULTIPLIER, UUID_SEED_INIT};

#[test]
fn first_uuid_from_initial_seed() {
    let mut seed = UUID_SEED_INIT;
    let id = Uuid::new(&mut seed);
    assert_eq!(
        id.0,
        [218, 162, 180, 95, 144, 211, 70, 38, 147, 198, 108, 240, 168, 140, 171, 2]
    );
    assert_eq!(id.to_hyphenated_string(), "daa2b45f-90d3-4626-93c6-6cf0a88cab02");
    assert_eq!(seed, 0x02ab_8ca8_f06c_c653);
}

#[test]
fn successive_uuids_differ_and_follow_the_generator() {
    let mut seed = UUID_SEED_INIT;
    let first = Uuid::new(&mut seed);
    let second = Uuid::new(&mut seed);
    assert!(first != second);
    assert_eq!(second.to_hyphenated_string(), "9809d14b-bfbb-4cd1-b917-f9bc78a635fb");
    assert_eq!(seed, 0xfb35_a678_bcf9_17b9);
}

#[test]
fn uuid_matches_little_endian_draws() {
    let mut seed: u64 = 12345;
    let a = 12345u64.wrapping_mul(LCG_MULTIPLIER).wrapping_add(1);
    let b = a.wrapping_mul(LCG_MULTIPLIER).wrapping_add(1);
    let id = Uuid::new(&mut seed);
    let mut expected = [0u8; 16];
    expected[0..8].copy_from_slice(&a.to_le_bytes());
    expected[8..16].copy_from_slice(&b.to_le_bytes());
    expected[6] = (expected[6] & 0x0F) | 0x40;
    expected[8] = (expected[8] & 0x3F) | 0x80;
    assert_eq!(id.0, expected);
    assert_eq!(seed, b);
}

#[test]
fn every_uuid_is_version_4() {
    for start in [0u64, 1, u64::MAX, UUID_SEED_INIT, 0x8000_0000_0000_0000] {
        let mut seed = start;
        for _ in 0..50 {
            let id = Uuid::new(&mut seed);
            assert_eq!(id.0[6] >> 4, 4);
            assert_eq!(id.0[8] >> 6, 2);
        }
    }
}

#[test]
fn next_seed_wraps() {
    assert_eq!(next_seed(0), 1);
    assert_eq!(next_seed(1), LCG_MULTIPLIER.wrapping_add(1));
    assert_eq!(next_seed(u64::MAX), 1u64.wrapping_sub(LCG_MULTIPLIER));
}

#[test]
fn hyphenated_text_layout() {
    let id = Uuid([
        0x00, 0x11, 0x22, 0x33, 0x44, 0x55, 0x66, 0x77, 0x88, 0x99, 0xaa, 0xbb, 0xcc, 0xdd, 0xee,
        0xff,
    ]);
    let text = id.to_hyphenated_string();
    assert_eq!(text, "00112233-4455-6677-8899-aabbccddeeff");
    assert_eq!(text.len(), 36);
    let zero = Uuid([0u8; 16]);
    assert_eq!(zero.to_hyphenated_string(), "00000000-0000-0000-0000-000000000000");
    let ones = Uuid([0xffu8; 16]);
    assert_eq!(ones.to_hyphenated_string(), "ffffffff-ffff-ffff-ffff-ffffffffffff");
}
