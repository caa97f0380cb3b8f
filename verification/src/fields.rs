//! The base field `M31` (integers modulo the Mersenne prime `2^31 - 1`) and
//! its degree-four extension `QM31`, as far as the commitment scheme and the
//! transcript need them: construction, reduction, and a canonical fixed-width
//! little-endian byte encoding.

use vstd::prelude::*;

verus! {

/// The Mersenne prime `2^31 - 1`.
pub const M31_MODULUS: u32 = 0x7fff_ffff;

/// A base-field element: an integer modulo `2^31 - 1`, kept reduced.
#[derive(Clone, Copy, Debug, PartialEq, Eq, PartialOrd, Ord, Structural)]
pub struct M31 {
    pub value: u32,
}

impl M31 {
    /// Whether the element is in reduced form.
    pub open spec fn is_reduced(self) -> bool {
        self.value < M31_MODULUS
    }

    /// Builds a field element from an arbitrary word, reducing it modulo `2^31 - 1`.
    pub fn new(value: u32) -> (r: M31)
        ensures
            r.value == value as nat % M31_MODULUS as nat,
            r.is_reduced(),
    {
        M31 { value: value % M31_MODULUS }
    }

    /// The canonical four-byte little-endian encoding of the element.
    pub open spec fn spec_le_bytes(self) -> Seq<u8> {
        u32_le_bytes(self.value)
    }

    /// Encodes the element as four little-endian bytes.
    pub fn le_bytes(&self) -> (r: Vec<u8>)
        ensures
            r@ == self.spec_le_bytes(),
    {
        u32_to_le_bytes(self.value)
    }
}

/// The little-endian four-byte encoding of a 32-bit word.
pub open spec fn u32_le_bytes(v: u32) -> Seq<u8> {
    seq![
        (v & 0xff) as u8,
        ((v >> 8) & 0xff) as u8,
        ((v >> 16) & 0xff) as u8,
        ((v >> 24) & 0xff) as u8,
    ]
}

/// Encodes a 32-bit word as four little-endian bytes.
pub fn u32_to_le_bytes(v: u32) -> (r: Vec<u8>)
    ensures
        r@ == u32_le_bytes(v),
{
    let mut r: Vec<u8> = Vec::new();
    r.push((v & 0xff) as u8);
    r.push(((v >> 8) & 0xff) as u8);
    r.push(((v >> 16) & 0xff) as u8);
    r.push(((v >> 24) & 0xff) as u8);
    proof {
        assert(r@ =~= u32_le_bytes(v));
    }
    r
}

/// The little-endian eight-byte encoding of a 64-bit word.
pub open spec fn u64_le_bytes(v: u64) -> Seq<u8> {
    seq![
        (v & 0xff) as u8,
        ((v >> 8) & 0xff) as u8,
        ((v >> 16) & 0xff) as u8,
        ((v >> 24) & 0xff) as u8,
        ((v >> 32) & 0xff) as u8,
        ((v >> 40) & 0xff) as u8,
        ((v >> 48) & 0xff) as u8,
        ((v >> 56) & 0xff) as u8,
    ]
}

/// Encodes a 64-bit word as eight little-endian bytes.
pub fn u64_to_le_bytes(v: u64) -> (r: Vec<u8>)
    ensures
        r@ == u64_le_bytes(v),
{
    let mut r: Vec<u8> = Vec::new();
    r.push((v & 0xff) as u8);
    r.push(((v >> 8) & 0xff) as u8);
    r.push(((v >> 16) & 0xff) as u8);
    r.push(((v >> 24) & 0xff) as u8);
    r.push(((v >> 32) & 0xff) as u8);
    r.push(((v >> 40) & 0xff) as u8);
    r.push(((v >> 48) & 0xff) as u8);
    r.push(((v >> 56) & 0xff) as u8);
    proof {
        assert(r@ =~= u64_le_bytes(v));
    }
    r
}

/// The 32-bit word read from four little-endian bytes.
pub open spec fn u32_from_le_bytes_spec(b: Seq<u8>) -> u32
    recommends
        b.len() == 4,
{
    (b[0] as u32) | ((b[1] as u32) << 8) | ((b[2] as u32) << 16) | ((b[3] as u32) << 24)
}

/// A secure-field element: the degree-four extension of `M31`, stored as four
/// base-field coefficients.
#[derive(Clone, Copy, Debug, PartialEq, Eq, PartialOrd, Ord, Structural)]
pub struct QM31 {
    pub a: M31,
    pub b: M31,
    pub c: M31,
    pub d: M31,
}

impl QM31 {
    /// Builds an extension element from its four base-field coefficients.
    pub fn from_m31(a: M31, b: M31, c: M31, d: M31) -> (r: QM31)
        ensures
            r == (QM31 { a, b, c, d }),
    {
        QM31 { a, b, c, d }
    }

    /// Embeds a base-field element into the extension field.
    pub fn from_base(x: M31) -> (r: QM31)
        ensures
            r == (QM31 { a: x, b: M31 { value: 0 }, c: M31 { value: 0 }, d: M31 { value: 0 } }),
    {
        QM31 { a: x, b: M31 { value: 0 }, c: M31 { value: 0 }, d: M31 { value: 0 } }
    }

    /// The canonical sixteen-byte encoding: the four coefficients, each as four
    /// little-endian bytes, first coefficient first.
    pub open spec fn spec_le_bytes(self) -> Seq<u8> {
        self.a.spec_le_bytes() + self.b.spec_le_bytes() + self.c.spec_le_bytes()
            + self.d.spec_le_bytes()
    }

    /// Encodes the element as sixteen bytes.
    pub fn le_bytes(&self) -> (r: Vec<u8>)
        ensures
            r@ == self.spec_le_bytes(),
    {
        let mut r = self.a.le_bytes();
        let mut rb = self.b.le_bytes();
        let mut rc = self.c.le_bytes();
        let mut rd = self.d.le_bytes();
        r.append(&mut rb);
        r.append(&mut rc);
        r.append(&mut rd);
        r
    }
}

} // verus!
