//! The blake3 digest type used by the byte-oriented Merkle backend and
//! channel, together with the one trusted entry point into the `blake3`
//! crate.

use vstd::prelude::*;

verus! {

/// The digest that `blake3` returns for a byte sequence. The digest is a pure
/// function of the input bytes alone; its value is not spelled out here, only
/// used as a name that the contracts below share.
pub uninterp spec fn blake3_of(input: Seq<u8>) -> Seq<u8>;

/// The all-zero 32-byte digest, the initial transcript state.
pub open spec fn zero_digest() -> Seq<u8> {
    Seq::new(32, |i: int| 0u8)
}

/// Relies on `blake3::Hasher` (`new`, `update`, `finalize`): the returned
/// 32-byte digest is a pure function of the input byte sequence alone, and
/// feeding the input in one `update` call is the documented equivalent of any
/// split of it.
#[verifier::external_body]
pub(crate) fn blake3_digest(input: &[u8]) -> (r: [u8; 32])
    ensures
        r@ == blake3_of(input@),
{
    *blake3::Hasher::new().update(input).finalize().as_bytes()
}

/// A 32-byte blake3 digest value.
#[derive(Clone, Copy, Debug)]
pub struct Blake3Hash {
    pub bytes: [u8; 32],
}

impl View for Blake3Hash {
    type V = Seq<u8>;

    open spec fn view(&self) -> Seq<u8> {
        self.bytes@
    }
}

impl Blake3Hash {
    /// The all-zero digest, the initial state of a fresh channel.
    pub fn zero() -> (r: Blake3Hash)
        ensures
            r@ == zero_digest(),
    {
        let bytes = [0u8; 32];
        proof {
            assert(bytes@ =~= zero_digest());
        }
        Blake3Hash { bytes }
    }

    /// Compares two digests byte for byte.
    pub fn eq_hash(&self, other: &Blake3Hash) -> (r: bool)
        ensures
            r <==> self@ == other@,
    {
        let mut i: usize = 0;
        while i < 32
            invariant
                i <= 32,
                forall|j: int| 0 <= j < i ==> self.bytes@[j] == other.bytes@[j],
            decreases 32 - i,
        {
            if self.bytes[i] != other.bytes[i] {
                return false;
            }
            i += 1;
        }
        proof {
            assert(self.bytes@ =~= other.bytes@);
        }
        true
    }

    /// Copies the digest bytes out as a vector.
    pub fn to_vec(&self) -> (r: Vec<u8>)
        ensures
            r@ == self@,
    {
        let mut r: Vec<u8> = Vec::new();
        let mut i: usize = 0;
        while i < 32
            invariant
                i <= 32,
                r@ =~= self.bytes@.take(i as int),
            decreases 32 - i,
        {
            r.push(self.bytes[i]);
            i += 1;
        }
        proof {
            assert(r@ =~= self.bytes@);
        }
        r
    }
}

impl Default for Blake3Hash {
    /// The default digest is the all-zero digest.
    fn default() -> (r: Blake3Hash)
        ensures
            r@ == zero_digest(),
    {
        Blake3Hash::zero()
    }
}

impl PartialEq for Blake3Hash {
    fn eq(&self, other: &Blake3Hash) -> (r: bool) {
        self.eq_hash(other)
    }
}

impl Eq for Blake3Hash {}

impl vstd::std_specs::cmp::PartialEqSpecImpl for Blake3Hash {
    open spec fn obeys_eq_spec() -> bool {
        true
    }

    open spec fn eq_spec(&self, other: &Blake3Hash) -> bool {
        self@ == other@
    }
}

/// Hashes a byte slice with blake3.
pub fn hash_bytes(data: &[u8]) -> (r: Blake3Hash)
    ensures
        r@ == blake3_of(data@),
{
    let bytes = blake3_digest(data);
    Blake3Hash { bytes }
}

/// Hashes the concatenation of two digests, the transcript-folding step of
/// the byte-oriented backends.
pub fn concat_and_hash(a: &Blake3Hash, b: &Blake3Hash) -> (r: Blake3Hash)
    ensures
        r@ == blake3_of(a@ + b@),
{
    let mut buf = a.to_vec();
    let mut tail = b.to_vec();
    buf.append(&mut tail);
    proof {
        assert(buf@ =~= a@ + b@);
    }
    hash_bytes(buf.as_slice())
}

} // verus!
