//! The hashing capability behind the Merkle tree: a backend supplies a digest
//! type and a pure node-combining function, and the layer-builders turn one
//! tree layer into the next with it.

use vstd::prelude::*;
use vstd::arithmetic::power2::pow2;
use crate::fields::M31;

verus! {

/// The digests of a pair of optional children, as byte sequences.
pub open spec fn children_view<T: View<V = Seq<u8>>>(children: Option<(T, T)>) -> Option<
    (Seq<u8>, Seq<u8>),
> {
    match children {
        Some((l, r)) => Some((l@, r@)),
        None => None,
    }
}

/// A stateless hash backend for the Merkle tree. `hash_node` combines the two
/// child digests (absent at the bottom layer) and the column values anchored
/// at the node into the node's digest; the combination is a pure function of
/// exactly these inputs, so prover and verifier agree bit for bit.
pub trait MerkleHasher {
    type Hash: Copy + View<V = Seq<u8>>;

    /// The digest of one tree node, as a function of the children digests and
    /// the row of column values anchored at the node.
    spec fn spec_hash_node(children: Option<(Seq<u8>, Seq<u8>)>, values: Seq<M31>) -> Seq<u8>;

    /// Computes one node digest.
    fn hash_node(children: Option<(Self::Hash, Self::Hash)>, values: &[M31]) -> (r: Self::Hash)
        ensures
            r@ == Self::spec_hash_node(children_view(children), values@),
    ;

    /// Compares two digests.
    fn hash_eq(a: &Self::Hash, b: &Self::Hash) -> (r: bool)
        ensures
            r <==> a@ == b@,
    ;
}

/// The row of values at index `i`: the `i`-th entry of every column, in
/// column order.
pub open spec fn row_view(cols: Seq<Seq<M31>>, i: int) -> Seq<M31> {
    Seq::new(cols.len(), |j: int| cols[j][i])
}

/// The views of a sequence of borrowed columns.
pub open spec fn col_views(cols: Seq<&Vec<M31>>) -> Seq<Seq<M31>> {
    cols.map_values(|c: &Vec<M31>| c@)
}

/// The views of a layer of digests.
pub open spec fn hashes_view<T: View<V = Seq<u8>>>(hashes: Seq<T>) -> Seq<Seq<u8>> {
    hashes.map_values(|h: T| h@)
}

/// What one full layer of the tree holds, given the previous (child) layer's
/// digests and the columns anchored at this layer: node `i` hashes children
/// `2i, 2i+1` together with row `i` of the columns.
pub open spec fn layer_nodes_view<H: MerkleHasher>(
    prev: Option<Seq<Seq<u8>>>,
    cols: Seq<Seq<M31>>,
    n: nat,
) -> Seq<Seq<u8>> {
    Seq::new(
        n,
        |i: int|
            H::spec_hash_node(
                match prev {
                    Some(p) => Some((p[2 * i], p[2 * i + 1])),
                    None => None,
                },
                row_view(cols, i),
            ),
    )
}

/// The sequential layer-building backend.
pub struct CpuBackend;

/// A backend that hashes the nodes of one layer independently of each other;
/// here it builds the layer in the same order as `CpuBackend`.
pub struct SimdBackend;

impl CpuBackend {
    /// Builds one layer of `2^log_size` node digests from the previous layer
    /// and the columns anchored at this layer.
    pub fn commit_on_layer<H: MerkleHasher>(
        log_size: usize,
        prev_layer: Option<&Vec<H::Hash>>,
        columns: &Vec<&Vec<M31>>,
    ) -> (r: Vec<H::Hash>)
        requires
            log_size < 30,
            prev_layer is Some ==> prev_layer->Some_0@.len() == pow2((log_size + 1) as nat),
            forall|j: int| 0 <= j < columns@.len() ==> #[trigger] columns@[j]@.len() == pow2(
                log_size as nat,
            ),
        ensures
            hashes_view(r@) =~= layer_nodes_view::<H>(
                match prev_layer {
                    Some(p) => Some(hashes_view(p@)),
                    None => None,
                },
                col_views(columns@),
                pow2(log_size as nat),
            ),
    {
        commit_layer_nodes::<H>(log_size, prev_layer, columns)
    }
}

impl SimdBackend {
    /// Builds one layer of `2^log_size` node digests from the previous layer
    /// and the columns anchored at this layer.
    pub fn commit_on_layer<H: MerkleHasher>(
        log_size: usize,
        prev_layer: Option<&Vec<H::Hash>>,
        columns: &Vec<&Vec<M31>>,
    ) -> (r: Vec<H::Hash>)
        requires
            log_size < 30,
            prev_layer is Some ==> prev_layer->Some_0@.len() == pow2((log_size + 1) as nat),
            forall|j: int| 0 <= j < columns@.len() ==> #[trigger] columns@[j]@.len() == pow2(
                log_size as nat,
            ),
        ensures
            hashes_view(r@) =~= layer_nodes_view::<H>(
                match prev_layer {
                    Some(p) => Some(hashes_view(p@)),
                    None => None,
                },
                col_views(columns@),
                pow2(log_size as nat),
            ),
    {
        commit_layer_nodes::<H>(log_size, prev_layer, columns)
    }
}

/// The shared layer-building loop behind both backends.
fn commit_layer_nodes<H: MerkleHasher>(
    log_size: usize,
    prev_layer: Option<&Vec<H::Hash>>,
    columns: &Vec<&Vec<M31>>,
) -> (r: Vec<H::Hash>)
    requires
        log_size < 30,
        prev_layer is Some ==> prev_layer->Some_0@.len() == pow2((log_size + 1) as nat),
        forall|j: int| 0 <= j < columns@.len() ==> #[trigger] columns@[j]@.len() == pow2(
            log_size as nat,
        ),
    ensures
        hashes_view(r@) =~= layer_nodes_view::<H>(
            match prev_layer {
                Some(p) => Some(hashes_view(p@)),
                None => None,
            },
            col_views(columns@),
            pow2(log_size as nat),
        ),
{
    let ghost prev_view: Option<Seq<Seq<u8>>> = match prev_layer {
        Some(p) => Some(hashes_view(p@)),
        None => None,
    };
    let n: usize = 1usize << log_size;
    proof {
        vstd::bits::lemma_usize_pow2_no_overflow(log_size as nat);
        vstd::bits::lemma_usize_shl_is_mul(1usize, log_size as usize);
        assert(n == pow2(log_size as nat));
        vstd::arithmetic::power2::lemma_pow2_adds(log_size as nat, 1);
        vstd::arithmetic::power2::lemma2_to64();
        assert(pow2((log_size + 1) as nat) == 2 * pow2(log_size as nat));
        vstd::arithmetic::power2::lemma_pow2_strictly_increases(log_size as nat, 30);
        assert(n < 0x40000000);
    }
    let mut r: Vec<H::Hash> = Vec::new();
    let mut i: usize = 0;
    while i < n
        invariant
            i <= n,
            n < 0x40000000,
            n == pow2(log_size as nat),
            pow2((log_size + 1) as nat) == 2 * n,
            prev_layer is Some ==> prev_layer->Some_0@.len() == 2 * n,
            forall|j: int| 0 <= j < columns@.len() ==> #[trigger] columns@[j]@.len() == n,
            prev_view == (match prev_layer {
                Some(p) => Some(hashes_view(p@)),
                None => None,
            }),
            r@.len() == i,
            forall|k: int| 0 <= k < i ==> #[trigger] r@[k]@ == layer_nodes_view::<H>(
                prev_view,
                col_views(columns@),
                n as nat,
            )[k],
        decreases n - i,
    {
        let children: Option<(H::Hash, H::Hash)> = match prev_layer {
            Some(p) => Some((p[2 * i], p[2 * i + 1])),
            None => None,
        };
        let mut row: Vec<M31> = Vec::new();
        let mut j: usize = 0;
        while j < columns.len()
            invariant
                j <= columns@.len(),
                i < n,
                forall|k: int| 0 <= k < columns@.len() ==> #[trigger] columns@[k]@.len() == n,
                row@.len() == j,
                forall|k: int| 0 <= k < j ==> #[trigger] row@[k] == columns@[k]@[i as int],
            decreases columns@.len() - j,
        {
            row.push(columns[j][i]);
            j += 1;
        }
        proof {
            assert(row@ =~= row_view(col_views(columns@), i as int));
        }
        let h = H::hash_node(children, row.as_slice());
        proof {
            assert(children_view(children) == (match prev_view {
                Some(p) => Some((p[2 * i as int], p[2 * i as int + 1])),
                None => None,
            }));
        }
        r.push(h);
        i += 1;
    }
    proof {
        assert forall|k: int| 0 <= k < n implies hashes_view(r@)[k] == layer_nodes_view::<H>(
            prev_view,
            col_views(columns@),
            n as nat,
        )[k] by {
            assert(hashes_view(r@)[k] == r@[k]@);
        }
        assert(hashes_view(r@) =~= layer_nodes_view::<H>(
            prev_view,
            col_views(columns@),
            n as nat,
        ));
    }
    r
}

} // verus!
