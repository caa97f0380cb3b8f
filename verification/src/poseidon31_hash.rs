//! The algebraic digest type of the field-native Merkle backend: eight packed
//! base-field limbs, with conversions to raw words and bytes.

use vstd::prelude::*;
use crate::fields::{M31, M31_MODULUS};

verus! {

/// A digest of eight base-field limbs.
#[derive(Clone, Copy, Debug, PartialEq, Eq)]
pub struct Poseidon31Hash(pub [M31; 8]);

impl Poseidon31Hash {
    /// Reads the eight limbs out as raw words.
    pub fn as_limbs(&self) -> (r: [u32; 8])
        ensures
            forall|i: int| 0 <= i < 8 ==> r@[i] == self.0@[i].value,
    {
        let r = [
            self.0[0].value,
            self.0[1].value,
            self.0[2].value,
            self.0[3].value,
            self.0[4].value,
            self.0[5].value,
            self.0[6].value,
            self.0[7].value,
        ];
        proof {
            assert forall|i: int| 0 <= i < 8 implies r@[i] == self.0@[i].value by {
                assert(r@.len() == 8);
            }
        }
        r
    }

    /// Packs eight raw words into a digest, reducing each limb.
    pub fn from_limbs(value: &[u32; 8]) -> (r: Poseidon31Hash)
        ensures
            forall|i: int| 0 <= i < 8 ==> r.0@[i].value == value@[i] as nat % M31_MODULUS as nat,
    {
        let limbs = [
            M31::new(value[0]),
            M31::new(value[1]),
            M31::new(value[2]),
            M31::new(value[3]),
            M31::new(value[4]),
            M31::new(value[5]),
            M31::new(value[6]),
            M31::new(value[7]),
        ];
        Poseidon31Hash(limbs)
    }

    /// The canonical 32-byte encoding: each limb as four little-endian bytes,
    /// first limb first.
    pub open spec fn spec_le_bytes(self) -> Seq<u8> {
        self.0@[0].spec_le_bytes() + self.0@[1].spec_le_bytes() + self.0@[2].spec_le_bytes()
            + self.0@[3].spec_le_bytes() + self.0@[4].spec_le_bytes() + self.0@[5].spec_le_bytes()
            + self.0@[6].spec_le_bytes() + self.0@[7].spec_le_bytes()
    }

    /// Encodes the digest as 32 bytes.
    pub fn to_le_bytes(&self) -> (r: Vec<u8>)
        ensures
            r@ == self.spec_le_bytes(),
    {
        let mut r: Vec<u8> = Vec::new();
        let mut b0 = self.0[0].le_bytes();
        let mut b1 = self.0[1].le_bytes();
        let mut b2 = self.0[2].le_bytes();
        let mut b3 = self.0[3].le_bytes();
        let mut b4 = self.0[4].le_bytes();
        let mut b5 = self.0[5].le_bytes();
        let mut b6 = self.0[6].le_bytes();
        let mut b7 = self.0[7].le_bytes();
        r.append(&mut b0);
        r.append(&mut b1);
        r.append(&mut b2);
        r.append(&mut b3);
        r.append(&mut b4);
        r.append(&mut b5);
        r.append(&mut b6);
        r.append(&mut b7);
        proof {
            assert(r@ =~= self.spec_le_bytes());
        }
        r
    }
}

} // verus!
