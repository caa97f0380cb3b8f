use std::collections::BTreeSet;

use merkle_vcs::blake3_channel::Blake3Channel;
use merkle_vcs::blake3_hash::Blake3Hash;
use merkle_vcs::channel::ChannelTime;
use merkle_vcs::fields::{M31, QM31};

#[test]
fn test_draw_random_bytes() {
    let mut channel = Blake3Channel::default();

    let first_random_bytes = channel.draw_random_bytes();

    // Assert that next random bytes are different.
    assert_ne!(first_random_bytes, channel.draw_random_bytes());
}

#[test]
fn test_draw_felt() {
    let mut channel = Blake3Channel::default();

    let first_random_felt = channel.draw_felt();

    // Assert that next random felt is different.
    assert_ne!(first_random_felt, channel.draw_felt());
}

#[test]
fn test_draw_felts() {
    let mut channel = Blake3Channel::default();

    let mut random_felts = channel.draw_felts(5);
    random_felts.extend(channel.draw_felts(4));

    // Assert that all the random felts are unique.
    assert_eq!(
        random_felts.len(),
        random_felts.iter().collect::<BTreeSet<_>>().len()
    );
}

#[test]
fn test_mix_felts() {
    let mut channel = Blake3Channel::default();
    let initial_digest = channel.digest;
    let felts: Vec<QM31> = (0..2u32)
        .map(|i| QM31::from_base(M31::new(i + 1923782)))
        .collect();

    channel.mix_felts(felts.as_slice());

    assert_ne!(initial_digest, channel.digest);
}

#[test]
fn test_mix_nonce_changes_digest() {
    let mut channel = Blake3Channel::default();
    let initial_digest = channel.digest;

    channel.mix_nonce(0xdead_beef);

    assert_ne!(initial_digest, channel.digest);
}

#[test]
fn test_channel_replay_determinism() {
    // Two independently constructed channels fed the same operations in the
    // same order draw the same values.
    let mut a = Blake3Channel::default();
    let mut b = Blake3Channel::default();

    let felts: Vec<QM31> = (0..4u32)
        .map(|i| QM31::from_base(M31::new(3 * i + 7)))
        .collect();
    a.mix_felts(felts.as_slice());
    b.mix_felts(felts.as_slice());
    a.mix_nonce(42);
    b.mix_nonce(42);

    assert_eq!(a.draw_felt(), b.draw_felt());
    assert_eq!(a.draw_felts(3), b.draw_felts(3));
    assert_eq!(a.draw_random_bytes(), b.draw_random_bytes());
    assert_eq!(a.trailing_zeros(), b.trailing_zeros());
}

#[test]
fn test_trailing_zeros_fresh_channel() {
    // A fresh channel state is all zero bytes: 256 trailing zero bits.
    let channel = Blake3Channel::default();
    assert_eq!(channel.trailing_zeros(), 256);
}

#[test]
fn test_trailing_zeros_crafted_digest() {
    let mut channel = Blake3Channel::default();
    // Bytes are scanned from the last one backwards; 0x01 has seven leading
    // zero bits, so one zero byte after it gives 8 + 7.
    let mut bytes = [0u8; 32];
    bytes[30] = 0x01;
    channel.update_digest(Blake3Hash { bytes });
    assert_eq!(channel.trailing_zeros(), 15);
}

#[test]
fn test_channel_time() {
    let mut time = ChannelTime::default();
    time.inc_sent();
    time.inc_sent();
    assert_eq!(time.n_sent, 2);
    assert_eq!(time.n_challenges, 0);
    time.inc_challenges();
    assert_eq!(time.n_sent, 0);
    assert_eq!(time.n_challenges, 1);
}
