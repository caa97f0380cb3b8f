//! The byte-oriented Merkle backend: nodes are blake3 digests, and a row of
//! column values is folded into one digest by chained hashing from the last
//! value to the first.

use vstd::prelude::*;
use crate::blake3_channel::Blake3Channel;
use crate::blake3_hash::{blake3_of, blake3_digest, hash_bytes, concat_and_hash, Blake3Hash};
use crate::channel::MerkleChannel;
use crate::fields::M31;
use crate::ops::MerkleHasher;

verus! {

/// Appends all of `src` to `dst`.
pub(crate) fn push_bytes(dst: &mut Vec<u8>, src: &[u8])
    ensures
        final(dst)@ == old(dst)@ + src@,
{
    let mut k: usize = 0;
    while k < src.len()
        invariant
            k <= src@.len(),
            dst@ =~= old(dst)@ + src@.take(k as int),
        decreases src@.len() - k,
    {
        dst.push(src[k]);
        k += 1;
    }
    proof {
        assert(dst@ =~= old(dst)@ + src@);
    }
}

/// The digest that the chained column reduction gives a non-empty row: the
/// last value is hashed alone, and every earlier value is prepended to the
/// running digest and rehashed.
pub open spec fn column_chain(values: Seq<M31>) -> Seq<u8>
    recommends
        values.len() > 0,
    decreases values.len(),
{
    if values.len() <= 1 {
        blake3_of(values[0].spec_le_bytes())
    } else {
        blake3_of(values[0].spec_le_bytes() + column_chain(values.drop_first()))
    }
}

/// Reduces a non-empty row of column values to one digest by the chained
/// hashing that `column_chain` states.
fn column_hash(values: &[M31]) -> (r: [u8; 32])
    requires
        values@.len() > 0,
    ensures
        r@ == column_chain(values@),
{
    let len = values.len();
    let enc = values[len - 1].le_bytes();
    let mut hash = blake3_digest(enc.as_slice());
    proof {
        assert(values@.skip(len - 1) =~= seq![values@[len - 1]]);
        assert(hash@ == column_chain(values@.skip(len - 1)));
    }
    let mut t = len - 1;
    while t > 0
        invariant
            t < len,
            len == values@.len(),
            hash@ == column_chain(values@.skip(t as int)),
        decreases t,
    {
        t -= 1;
        let mut buf = values[t].le_bytes();
        push_bytes(&mut buf, hash.as_slice());
        proof {
            let rest = values@.skip(t as int);
            assert(rest.drop_first() =~= values@.skip(t + 1));
            assert(rest[0] == values@[t as int]);
            assert(buf@ =~= values@[t as int].spec_le_bytes() + column_chain(
                values@.skip(t + 1),
            ));
        }
        hash = blake3_digest(buf.as_slice());
    }
    proof {
        assert(values@.skip(0) =~= values@);
    }
    hash
}

/// The Merkle backend over blake3 digests.
#[derive(Clone, Copy, Debug)]
pub struct Blake3MerkleHasher;

impl MerkleHasher for Blake3MerkleHasher {
    type Hash = Blake3Hash;

    /// A node digest is blake3 over the children digests with the reduced
    /// column digest, if any, between them; a node with neither children nor
    /// columns is the digest of the empty input.
    open spec fn spec_hash_node(children: Option<(Seq<u8>, Seq<u8>)>, values: Seq<M31>) -> Seq<
        u8,
    > {
        let col = if values.len() == 0 {
            None
        } else {
            Some(column_chain(values))
        };
        match (children, col) {
            (Some((l, r)), Some(c)) => blake3_of(l + c + r),
            (Some((l, r)), None) => blake3_of(l + r),
            (None, Some(c)) => blake3_of(c),
            (None, None) => blake3_of(Seq::<u8>::empty()),
        }
    }

    fn hash_node(children: Option<(Blake3Hash, Blake3Hash)>, values: &[M31]) -> (r: Blake3Hash) {
        let col: Option<[u8; 32]> = if values.len() == 0 {
            None
        } else {
            Some(column_hash(values))
        };
        let mut buf: Vec<u8> = Vec::new();
        match (&children, &col) {
            (Some((l, r)), Some(c)) => {
                push_bytes(&mut buf, l.bytes.as_slice());
                push_bytes(&mut buf, c.as_slice());
                push_bytes(&mut buf, r.bytes.as_slice());
                proof {
                    assert(buf@ =~= l@ + c@ + r@);
                }
            },
            (Some((l, r)), None) => {
                push_bytes(&mut buf, l.bytes.as_slice());
                push_bytes(&mut buf, r.bytes.as_slice());
                proof {
                    assert(buf@ =~= l@ + r@);
                }
            },
            (None, Some(c)) => {
                push_bytes(&mut buf, c.as_slice());
                proof {
                    assert(buf@ =~= c@);
                }
            },
            (None, None) => {
                proof {
                    assert(buf@ =~= Seq::<u8>::empty());
                }
            },
        }
        hash_bytes(buf.as_slice())
    }

    fn hash_eq(a: &Blake3Hash, b: &Blake3Hash) -> (r: bool) {
        a.eq_hash(b)
    }
}

/// Couples the blake3 Merkle backend to the blake3 channel.
#[derive(Default)]
pub struct Blake3MerkleChannel;

impl Blake3MerkleChannel {
    /// Folds a commitment root into the channel: the root is prepended to the
    /// channel state and the pair rehashed.
    pub fn mix_root(channel: &mut Blake3Channel, root: Blake3Hash)
        ensures
            final(channel).digest@ == blake3_of(root@ + old(channel).digest@),
    {
        let d = channel.digest();
        let h = concat_and_hash(&root, &d);
        channel.update_digest(h);
    }
}

/// The coupling capability, forwarding to the inherent `mix_root`, which
/// carries the exact contract.
impl MerkleChannel for Blake3MerkleChannel {
    type C = Blake3Channel;

    type H = Blake3MerkleHasher;

    fn mix_root(channel: &mut Blake3Channel, root: Blake3Hash) {
        Blake3MerkleChannel::mix_root(channel, root)
    }
}

} // verus!
