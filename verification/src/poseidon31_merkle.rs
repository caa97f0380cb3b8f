//! The pure layout of the field-native Merkle backend: how a node's children
//! digests and reduced column digest are packed into one permutation input,
//! and how a root is folded into the transcript as extension-field elements.
//! The compression function itself is an outside algebraic primitive that a
//! backend plugs in; what stands here is everything around that call.

use vstd::prelude::*;
use crate::fields::QM31;
use crate::poseidon31_hash::Poseidon31Hash;

verus! {

/// The raw limbs of an algebraic digest.
pub open spec fn limbs_of(h: Poseidon31Hash) -> Seq<u32> {
    Seq::new(8, |i: int| h.0@[i].value)
}

/// The packed compression input of one node: left child, column digest,
/// right child, in that order, each part present only when the node has it.
pub open spec fn node_input_spec(
    children: Option<(Poseidon31Hash, Poseidon31Hash)>,
    column_hash: Option<Seq<u32>>,
) -> Seq<u32> {
    match (children, column_hash) {
        (Some((l, r)), Some(c)) => limbs_of(l) + c + limbs_of(r),
        (Some((l, r)), None) => limbs_of(l) + limbs_of(r),
        (None, Some(c)) => c,
        (None, None) => Seq::empty(),
    }
}

/// Appends a digest's limbs to a packed input.
fn push_limbs(data: &mut Vec<u32>, h: &Poseidon31Hash)
    ensures
        final(data)@ == old(data)@ + limbs_of(*h),
{
    let limbs = h.as_limbs();
    let mut k: usize = 0;
    while k < 8
        invariant
            k <= 8,
            forall|t: int| 0 <= t < 8 ==> limbs@[t] == h.0@[t].value,
            data@ =~= old(data)@ + limbs_of(*h).take(k as int),
        decreases 8 - k,
    {
        data.push(limbs[k]);
        proof {
            assert(data@ =~= old(data)@ + limbs_of(*h).take(k + 1));
        }
        k += 1;
    }
    proof {
        assert(data@ =~= old(data)@ + limbs_of(*h));
    }
}

/// Packs one node's inputs for the compression call: a node with children
/// and a column digest packs 24 limbs, an interior node 16, a leaf its 8
/// column-digest limbs alone. A node with neither children nor columns is the
/// caller's contract violation in this backend, ruled out here.
pub fn hash_node_input(
    children: Option<(Poseidon31Hash, Poseidon31Hash)>,
    column_hash: Option<&[u32; 8]>,
) -> (r: Vec<u32>)
    requires
        children is Some || column_hash is Some,
    ensures
        r@ == node_input_spec(
            children,
            match column_hash {
                Some(c) => Some(c@),
                None => None,
            },
        ),
{
    let mut data: Vec<u32> = Vec::new();
    match (&children, &column_hash) {
        (Some((l, r)), Some(c)) => {
            push_limbs(&mut data, l);
            let mut k: usize = 0;
            while k < 8
                invariant
                    k <= 8,
                    data@ =~= limbs_of(children->Some_0.0) + c@.take(k as int),
                    c == column_hash->Some_0,
                decreases 8 - k,
            {
                data.push(c[k]);
                proof {
                    assert(data@ =~= limbs_of(children->Some_0.0) + c@.take(k + 1));
                }
                k += 1;
            }
            proof {
                assert(c@.take(8) =~= c@);
            }
            push_limbs(&mut data, r);
            proof {
                assert(data@ =~= limbs_of(children->Some_0.0) + column_hash->Some_0@ + limbs_of(
                    children->Some_0.1,
                ));
            }
        },
        (Some((l, r)), None) => {
            push_limbs(&mut data, l);
            push_limbs(&mut data, r);
            proof {
                assert(data@ =~= limbs_of(children->Some_0.0) + limbs_of(children->Some_0.1));
            }
        },
        (None, Some(c)) => {
            let mut k: usize = 0;
            while k < 8
                invariant
                    k <= 8,
                    data@ =~= c@.take(k as int),
                    c == column_hash->Some_0,
                decreases 8 - k,
            {
                data.push(c[k]);
                proof {
                    assert(data@ =~= c@.take(k + 1));
                }
                k += 1;
            }
            proof {
                assert(data@ =~= column_hash->Some_0@);
            }
        },
        (None, None) => {
            proof {
                assert(false);
            }
        },
    }
    data
}

/// Splits an algebraic root into the two extension-field elements the
/// transcript absorbs: the first four limbs and the last four, in limb order.
pub fn root_to_felts(root: &Poseidon31Hash) -> (r: (QM31, QM31))
    ensures
        r.0 == (QM31 { a: root.0@[0], b: root.0@[1], c: root.0@[2], d: root.0@[3] }),
        r.1 == (QM31 { a: root.0@[4], b: root.0@[5], c: root.0@[6], d: root.0@[7] }),
{
    let r1 = QM31::from_m31(root.0[0], root.0[1], root.0[2], root.0[3]);
    let r2 = QM31::from_m31(root.0[4], root.0[5], root.0[6], root.0[7]);
    (r1, r2)
}

} // verus!
