//! Sources of entropy.

use obj_core::platform::{Entropy, OsEntropy, SeededEntropy};
use rand_chacha::rand_core::{RngCore, SeedableRng};
use rand_chacha::ChaCha8Rng;

#[test]
fn same_seed_same_fill_stream() {
    let mut a = SeededEntropy::new(0xDEAD_BEEF);
    let mut b = SeededEntropy::new(0xDEAD_BEEF);
    let mut ba = [0u8; 64];
    let mut bb = [0u8; 64];
    a.fill_bytes(&mut ba);
    b.fill_bytes(&mut bb);
    assert_eq!(ba, bb, "same seed must yield identical bytes");
}

#[test]
fn same_seed_same_u32_stream() {
    let mut a = SeededEntropy::new(7);
    let mut b = SeededEntropy::new(7);
    let seq_a: Vec<u32> = (0..8).map(|_| a.next_u32()).collect();
    let seq_b: Vec<u32> = (0..8).map(|_| b.next_u32()).collect();
    assert_eq!(seq_a, seq_b, "same seed must yield identical u32 stream");
}

#[test]
fn different_seeds_differ() {
    let mut a = SeededEntropy::new(1);
    let mut b = SeededEntropy::new(2);
    let mut ba = [0u8; 32];
    let mut bb = [0u8; 32];
    a.fill_bytes(&mut ba);
    b.fill_bytes(&mut bb);
    assert_ne!(ba, bb, "distinct seeds must diverge");
}

#[test]
fn interleaved_salt_then_nonce_is_reproducible() {
    let draw = |seed: u64| {
        let mut e = SeededEntropy::new(seed);
        let salt = e.next_u32();
        let mut nonce = [0u8; 24];
        e.fill_bytes(&mut nonce);
        (salt, nonce)
    };
    assert_eq!(draw(42), draw(42));
    assert_ne!(draw(42).0, draw(43).0);
}

#[test]
fn os_entropy_fills_and_is_send_sync() {
    fn assert_send_sync<T: Send + Sync>() {}
    assert_send_sync::<OsEntropy>();
    assert_send_sync::<SeededEntropy>();
    let mut os = OsEntropy;
    let mut buf = [0u8; 16];
    os.fill_bytes(&mut buf);
    assert!(buf.iter().any(|&b| b != 0));
}

#[test]
fn a_seeded_source_is_one_stream_of_the_generator() {
    let mut e = SeededEntropy::new(99);
    let mut rng = ChaCha8Rng::seed_from_u64(99);
    for len in [4usize, 24, 7, 0, 1, 64, 5] {
        let mut ours = vec![0u8; len];
        let mut theirs = vec![0u8; len];
        e.fill_bytes(&mut ours);
        rng.fill_bytes(&mut theirs);
        assert_eq!(ours, theirs, "a filling of {len} bytes");
    }
}
