//! The Fiat-Shamir transcript capability: a channel absorbs field elements,
//! roots and nonces, and emits pseudorandom field elements and bytes; a
//! `MerkleChannel` couples a Merkle backend's digest type to a channel.

use vstd::prelude::*;
use crate::fields::{M31, QM31, M31_MODULUS, u32_from_le_bytes_spec};
use crate::ops::MerkleHasher;

verus! {

/// How many extension-field elements one digest-sized draw yields.
pub const EXTENSION_FELTS_PER_HASH: usize = 2;

/// Transcript bookkeeping: how many challenge rounds were drawn and how many
/// values were sent in the current round.
#[derive(Clone, Default)]
pub struct ChannelTime {
    pub n_challenges: usize,
    pub n_sent: usize,
}

impl ChannelTime {
    /// Counts one more sent value in the current round.
    pub fn inc_sent(&mut self)
        requires
            old(self).n_sent < usize::MAX,
        ensures
            final(self).n_sent == old(self).n_sent + 1,
            final(self).n_challenges == old(self).n_challenges,
    {
        self.n_sent = self.n_sent + 1;
    }

    /// Opens the next challenge round: one more challenge, sent count reset.
    pub fn inc_challenges(&mut self)
        requires
            old(self).n_challenges < usize::MAX,
        ensures
            final(self).n_challenges == old(self).n_challenges + 1,
            final(self).n_sent == 0,
    {
        self.n_challenges = self.n_challenges + 1;
        self.n_sent = 0;
    }
}

/// A Fiat-Shamir transcript. Every operation advances the owned digest state
/// deterministically: prover and verifier that perform the same operations in
/// the same order on channels with equal state read equal values.
pub trait Channel: Sized {
    /// How many bytes one `draw_random_bytes` block holds.
    const BYTES_PER_HASH: usize;

    /// Absorbs a sequence of extension-field elements, one at a time.
    fn mix_felts(&mut self, felts: &[QM31]);

    /// Absorbs a proof-of-work nonce.
    fn mix_nonce(&mut self, nonce: u64);

    /// Derives one pseudorandom extension-field element and advances the state.
    fn draw_felt(&mut self) -> QM31;

    /// Derives `n_felts` pseudorandom extension-field elements.
    fn draw_felts(&mut self, n_felts: usize) -> Vec<QM31>;

    /// Derives one digest-sized block of pseudorandom bytes and advances the
    /// state.
    fn draw_random_bytes(&mut self) -> Vec<u8>;

    /// Counts the trailing zero bits of the current state, the cheap
    /// proof-of-work check.
    fn trailing_zeros(&self) -> u32;
}

/// Couples a Merkle backend to a channel: `mix_root` folds a commitment root
/// into the transcript, at the same position on both sides.
pub trait MerkleChannel {
    type C: Channel;

    type H: MerkleHasher;

    fn mix_root(channel: &mut Self::C, root: <Self::H as MerkleHasher>::Hash);
}

/// The base-field element read from the first four little-endian bytes of a
/// digest slice: the word is masked to 31 bits and reduced modulo `2^31 - 1`.
pub open spec fn extract_common_spec(s: Seq<u8>) -> M31
    recommends
        s.len() >= 4,
{
    M31 { value: (u32_from_le_bytes_spec(s.take(4)) & M31_MODULUS) % M31_MODULUS }
}

/// Reads a base-field element out of the leading four bytes of a digest
/// slice.
pub(crate) fn extract_common(hash: &[u8]) -> (r: M31)
    requires
        hash@.len() >= 4,
    ensures
        r == extract_common_spec(hash@),
        r.is_reduced(),
{
    let b0 = hash[0];
    let b1 = hash[1];
    let b2 = hash[2];
    let b3 = hash[3];
    let word: u32 = (b0 as u32) | ((b1 as u32) << 8) | ((b2 as u32) << 16) | ((b3 as u32) << 24);
    proof {
        assert(hash@.take(4)[0] == hash@[0]);
        assert(hash@.take(4)[1] == hash@[1]);
        assert(hash@.take(4)[2] == hash@[2]);
        assert(hash@.take(4)[3] == hash@[3]);
    }
    let masked = word & M31_MODULUS;
    let value = masked % M31_MODULUS;
    M31 { value }
}

} // verus!
