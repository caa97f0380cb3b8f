//! The blake3-backed transcript: the channel state is one 32-byte digest, and
//! every operation replaces it by a blake3 digest of an encoding of the
//! absorbed data and the old state.

use vstd::prelude::*;
use crate::blake3_hash::{blake3_of, blake3_digest, Blake3Hash, zero_digest};
use crate::blake3_merkle::push_bytes;
use crate::channel::{extract_common, extract_common_spec, Channel};
use crate::fields::{u64_le_bytes, u64_to_le_bytes, QM31};
use vstd::slice::slice_subrange;

verus! {

/// The state after absorbing one extension-field element: the element's
/// sixteen-byte encoding is prepended to the old state and rehashed.
pub open spec fn mix_felt_spec(digest: Seq<u8>, felt: QM31) -> Seq<u8> {
    blake3_of(felt.spec_le_bytes() + digest)
}

/// The state after absorbing a sequence of elements, first element first.
pub open spec fn mix_felts_spec(digest: Seq<u8>, felts: Seq<QM31>) -> Seq<u8>
    decreases felts.len(),
{
    if felts.len() == 0 {
        digest
    } else {
        mix_felts_spec(mix_felt_spec(digest, felts[0]), felts.drop_first())
    }
}

/// Absorbing one more element at the end folds it into the state last.
pub proof fn lemma_mix_felts_push(digest: Seq<u8>, felts: Seq<QM31>, felt: QM31)
    ensures
        mix_felts_spec(digest, felts.push(felt)) == mix_felt_spec(
            mix_felts_spec(digest, felts),
            felt,
        ),
    decreases felts.len(),
{
    if felts.len() == 0 {
        assert(felts.push(felt).drop_first() =~= Seq::<QM31>::empty());
        assert(felts.push(felt)[0] == felt);
        assert(mix_felts_spec(mix_felt_spec(digest, felt), Seq::<QM31>::empty())
            == mix_felt_spec(digest, felt));
        assert(mix_felts_spec(digest, felts) == digest);
    } else {
        assert(felts.push(felt).drop_first() =~= felts.drop_first().push(felt));
        assert(felts.push(felt)[0] == felts[0]);
        lemma_mix_felts_push(mix_felt_spec(digest, felts[0]), felts.drop_first(), felt);
    }
}

/// The 32-byte block a nonce is padded to: eight little-endian bytes and 24
/// zero bytes.
pub open spec fn nonce_block(nonce: u64) -> Seq<u8> {
    u64_le_bytes(nonce) + Seq::new(24, |i: int| 0u8)
}

/// The state after absorbing a nonce: the padded nonce block is prepended to
/// the old state and rehashed.
pub open spec fn mix_nonce_spec(digest: Seq<u8>, nonce: u64) -> Seq<u8> {
    blake3_of(nonce_block(nonce) + digest)
}

/// The 32 bytes a draw exposes: the digest of the state with one zero byte
/// appended.
pub open spec fn draw_bytes_spec(digest: Seq<u8>) -> Seq<u8> {
    blake3_of(digest + seq![0u8])
}

/// The state after any draw: the digest of the old state.
pub open spec fn digest_after_draw(digest: Seq<u8>) -> Seq<u8> {
    blake3_of(digest)
}

/// The extension-field element read out of a draw: four base-field elements
/// extracted at byte offsets 0, 4, 8 and 12 of the drawn block.
pub open spec fn draw_felt_spec(digest: Seq<u8>) -> QM31 {
    let extract = draw_bytes_spec(digest);
    QM31 {
        a: extract_common_spec(extract),
        b: extract_common_spec(extract.skip(4)),
        c: extract_common_spec(extract.skip(8)),
        d: extract_common_spec(extract.skip(12)),
    }
}

/// The elements that `n` consecutive draws yield, first draw first.
pub open spec fn draw_felts_spec(digest: Seq<u8>, n: nat) -> Seq<QM31>
    decreases n,
{
    if n == 0 {
        Seq::empty()
    } else {
        seq![draw_felt_spec(digest)] + draw_felts_spec(digest_after_draw(digest), (n - 1) as nat)
    }
}

/// The state after `n` consecutive draws.
pub open spec fn digest_after_draws(digest: Seq<u8>, n: nat) -> Seq<u8>
    decreases n,
{
    if n == 0 {
        digest
    } else {
        digest_after_draws(digest_after_draw(digest), (n - 1) as nat)
    }
}

/// One more draw at the end reads from the state that the earlier draws left.
pub proof fn lemma_draw_felts_unfold_last(digest: Seq<u8>, n: nat)
    requires
        n > 0,
    ensures
        draw_felts_spec(digest, n) == draw_felts_spec(digest, (n - 1) as nat).push(
            draw_felt_spec(digest_after_draws(digest, (n - 1) as nat)),
        ),
        digest_after_draws(digest, n) == digest_after_draw(
            digest_after_draws(digest, (n - 1) as nat),
        ),
    decreases n,
{
    if n == 1 {
        assert(draw_felts_spec(digest_after_draw(digest), 0) =~= Seq::<QM31>::empty());
        assert(draw_felts_spec(digest, 0) =~= Seq::<QM31>::empty());
        assert(digest_after_draws(digest_after_draw(digest), 0) == digest_after_draw(digest));
        assert(digest_after_draws(digest, 0) == digest);
        assert(draw_felts_spec(digest, 1) =~= draw_felts_spec(digest, 0).push(
            draw_felt_spec(digest),
        ));
    } else {
        lemma_draw_felts_unfold_last(digest_after_draw(digest), (n - 1) as nat);
        assert(draw_felts_spec(digest, n) =~= draw_felts_spec(digest, (n - 1) as nat).push(
            draw_felt_spec(digest_after_draws(digest, (n - 1) as nat)),
        ));
    }
}

/// A transcript whose state is one blake3 digest.
#[derive(Clone)]
pub struct Blake3Channel {
    /// Current state of the channel.
    pub digest: Blake3Hash,
}

impl Default for Blake3Channel {
    /// A fresh channel starts from the all-zero digest.
    fn default() -> (r: Blake3Channel)
        ensures
            r.digest@ == zero_digest(),
    {
        Blake3Channel { digest: Blake3Hash::zero() }
    }
}

impl Blake3Channel {
    /// Reads the current state.
    pub fn digest(&self) -> (r: Blake3Hash)
        ensures
            r == self.digest,
    {
        self.digest
    }

    /// Replaces the state.
    pub fn update_digest(&mut self, digest: Blake3Hash)
        ensures
            final(self).digest == digest,
    {
        self.digest = digest;
    }

    /// Absorbs a sequence of extension-field elements, first element first.
    pub fn mix_felts(&mut self, felts: &[QM31])
        ensures
            final(self).digest@ == mix_felts_spec(old(self).digest@, felts@),
    {
        let ghost d0 = self.digest@;
        let mut k: usize = 0;
        while k < felts.len()
            invariant
                k <= felts@.len(),
                self.digest@ == mix_felts_spec(d0, felts@.take(k as int)),
            decreases felts@.len() - k,
        {
            let mut buf = felts[k].le_bytes();
            push_bytes(&mut buf, self.digest.bytes.as_slice());
            let h = blake3_digest(buf.as_slice());
            proof {
                assert(buf@ =~= felts@[k as int].spec_le_bytes() + self.digest@);
                lemma_mix_felts_push(d0, felts@.take(k as int), felts@[k as int]);
                assert(felts@.take(k as int).push(felts@[k as int]) =~= felts@.take(k + 1));
            }
            self.digest = Blake3Hash { bytes: h };
            k += 1;
        }
        proof {
            assert(felts@.take(felts@.len() as int) =~= felts@);
        }
    }

    /// Absorbs a proof-of-work nonce.
    pub fn mix_nonce(&mut self, nonce: u64)
        ensures
            final(self).digest@ == mix_nonce_spec(old(self).digest@, nonce),
    {
        let mut buf = u64_to_le_bytes(nonce);
        let mut k: usize = 0;
        while k < 24
            invariant
                k <= 24,
                buf@ =~= u64_le_bytes(nonce) + Seq::new(k as nat, |i: int| 0u8),
            decreases 24 - k,
        {
            buf.push(0u8);
            proof {
                assert(Seq::new((k + 1) as nat, |i: int| 0u8) =~= Seq::new(
                    k as nat,
                    |i: int| 0u8,
                ).push(0u8));
            }
            k += 1;
        }
        push_bytes(&mut buf, self.digest.bytes.as_slice());
        proof {
            assert(buf@ =~= nonce_block(nonce) + old(self).digest@);
        }
        let h = blake3_digest(buf.as_slice());
        self.digest = Blake3Hash { bytes: h };
    }

    /// Derives one pseudorandom extension-field element and advances the
    /// state.
    pub fn draw_felt(&mut self) -> (r: QM31)
        ensures
            r == draw_felt_spec(old(self).digest@),
            final(self).digest@ == digest_after_draw(old(self).digest@),
    {
        let extract = self.draw_block();
        let s = extract.as_slice();
        let res_1 = extract_common(s);
        let res_2 = extract_common(slice_subrange(s, 4, 32));
        let res_3 = extract_common(slice_subrange(s, 8, 32));
        let res_4 = extract_common(slice_subrange(s, 12, 32));
        proof {
            assert(s@.subrange(4, 32) =~= extract@.skip(4));
            assert(s@.subrange(8, 32) =~= extract@.skip(8));
            assert(s@.subrange(12, 32) =~= extract@.skip(12));
        }
        QM31 { a: res_1, b: res_2, c: res_3, d: res_4 }
    }

    /// Derives `n_felts` pseudorandom extension-field elements.
    pub fn draw_felts(&mut self, n_felts: usize) -> (r: Vec<QM31>)
        ensures
            r@ == draw_felts_spec(old(self).digest@, n_felts as nat),
            final(self).digest@ == digest_after_draws(old(self).digest@, n_felts as nat),
    {
        let ghost d0 = self.digest@;
        let mut r: Vec<QM31> = Vec::new();
        let mut k: usize = 0;
        while k < n_felts
            invariant
                k <= n_felts,
                r@ == draw_felts_spec(d0, k as nat),
                self.digest@ == digest_after_draws(d0, k as nat),
            decreases n_felts - k,
        {
            let felt = self.draw_felt();
            r.push(felt);
            proof {
                lemma_draw_felts_unfold_last(d0, (k + 1) as nat);
            }
            k += 1;
        }
        r
    }

    /// Derives one 32-byte block of pseudorandom bytes and advances the
    /// state.
    pub fn draw_random_bytes(&mut self) -> (r: Vec<u8>)
        ensures
            r@ == draw_bytes_spec(old(self).digest@),
            final(self).digest@ == digest_after_draw(old(self).digest@),
    {
        let extract = self.draw_block();
        let mut r: Vec<u8> = Vec::new();
        push_bytes(&mut r, extract.as_slice());
        proof {
            assert(r@ =~= extract@);
        }
        r
    }

    /// Draws the exposed block and advances the state: the block is the
    /// digest of the state with a zero byte appended, the new state the
    /// digest of the old state alone.
    fn draw_block(&mut self) -> (r: [u8; 32])
        ensures
            r@ == draw_bytes_spec(old(self).digest@),
            final(self).digest@ == digest_after_draw(old(self).digest@),
    {
        let mut buf = self.digest.to_vec();
        buf.push(0u8);
        proof {
            assert(buf@ =~= old(self).digest@ + seq![0u8]);
        }
        let extract = blake3_digest(buf.as_slice());
        let h = blake3_digest(self.digest.bytes.as_slice());
        self.digest = Blake3Hash { bytes: h };
        extract
    }

    /// Counts the trailing zero bits of the state, last byte first.
    pub fn trailing_zeros(&self) -> (r: u32)
        ensures
            r as nat == trailing_zeros_spec(self.digest@),
    {
        proof {
            assert(self.digest.bytes@.len() == 32);
            assert(self.digest@.take(32) =~= self.digest@);
        }
        let mut n: u32 = 0;
        let mut i: usize = 32;
        while i > 0
            invariant
                i <= 32,
                n == 8 * (32 - i),
                self.digest@.len() == 32,
                trailing_zeros_spec(self.digest@) == n as nat + trailing_zeros_spec(
                    self.digest@.take(i as int),
                ),
            decreases i,
        {
            let b = self.digest.bytes[i - 1];
            proof {
                assert(self.digest@.take(i as int).last() == b);
                assert(self.digest@.take(i as int).drop_last() =~= self.digest@.take(i - 1));
            }
            if b == 0 {
                n += 8;
                i -= 1;
            } else {
                let z = byte_leading_zeros(b);
                proof {
                    assert(trailing_zeros_spec(self.digest@.take(i as int))
                        == byte_leading_zeros_spec(b));
                }
                return n + z;
            }
        }
        proof {
            assert(self.digest@.take(0) =~= Seq::<u8>::empty());
            assert(trailing_zeros_spec(Seq::<u8>::empty()) == 0);
        }
        n
    }
}

/// The number of trailing zero bits of a digest, counted from its last byte
/// backwards; a zero byte contributes all eight bits.
pub open spec fn trailing_zeros_spec(s: Seq<u8>) -> nat
    decreases s.len(),
{
    if s.len() == 0 {
        0
    } else if s.last() == 0 {
        8 + trailing_zeros_spec(s.drop_last())
    } else {
        byte_leading_zeros_spec(s.last())
    }
}

/// The number of leading zero bits of one byte.
pub open spec fn byte_leading_zeros_spec(b: u8) -> nat {
    if b >= 128 {
        0
    } else if b >= 64 {
        1
    } else if b >= 32 {
        2
    } else if b >= 16 {
        3
    } else if b >= 8 {
        4
    } else if b >= 4 {
        5
    } else if b >= 2 {
        6
    } else if b >= 1 {
        7
    } else {
        8
    }
}

/// Counts the leading zero bits of one byte.
pub fn byte_leading_zeros(b: u8) -> (r: u32)
    ensures
        r as nat == byte_leading_zeros_spec(b),
{
    if b >= 128 {
        0
    } else if b >= 64 {
        1
    } else if b >= 32 {
        2
    } else if b >= 16 {
        3
    } else if b >= 8 {
        4
    } else if b >= 4 {
        5
    } else if b >= 2 {
        6
    } else if b >= 1 {
        7
    } else {
        8
    }
}

/// The transcript capability, forwarding to the inherent methods above,
/// which carry the exact contracts.
impl Channel for Blake3Channel {
    const BYTES_PER_HASH: usize = 32;

    fn mix_felts(&mut self, felts: &[QM31]) {
        Blake3Channel::mix_felts(self, felts)
    }

    fn mix_nonce(&mut self, nonce: u64) {
        Blake3Channel::mix_nonce(self, nonce)
    }

    fn draw_felt(&mut self) -> QM31 {
        Blake3Channel::draw_felt(self)
    }

    fn draw_felts(&mut self, n_felts: usize) -> Vec<QM31> {
        Blake3Channel::draw_felts(self, n_felts)
    }

    fn draw_random_bytes(&mut self) -> Vec<u8> {
        Blake3Channel::draw_random_bytes(self)
    }

    fn trailing_zeros(&self) -> u32 {
        Blake3Channel::trailing_zeros(self)
    }
}

} // verus!
