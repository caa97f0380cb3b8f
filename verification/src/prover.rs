//! The Merkle prover: commits to a set of power-of-two columns by building
//! every tree layer from the largest log size down to the root, and produces
//! minimal decommitments: exactly the sibling digests a verifier cannot
//! derive, plus the column values at the rows it reconstructs.

use vstd::prelude::*;
use vstd::arithmetic::power2::pow2;
use crate::fields::M31;
use crate::ops::{CpuBackend, MerkleHasher, hashes_view, col_views, layer_nodes_view, row_view};
use crate::queries::{
    first_index, needed_at, queries_wf, queries_view, compute_needed, find_first,
    lemma_needed_at_wf, bounded_by,
};

verus! {

/// The columns a commitment may hold at most: every log size stays below 30,
/// so node indices and layer lengths fit comfortably in a machine word.
pub const MAX_LOG_SIZE: usize = 29;

/// The floor base-two logarithm.
pub open spec fn log2(n: nat) -> nat
    decreases n,
{
    if n <= 1 {
        0
    } else {
        1 + log2(n / 2)
    }
}

/// `pow2` grows strictly, so equal powers have equal exponents.
pub proof fn lemma_pow2_injective(a: nat, b: nat)
    requires
        pow2(a) == pow2(b),
    ensures
        a == b,
{
    if a < b {
        vstd::arithmetic::power2::lemma_pow2_strictly_increases(a, b);
    }
    if b < a {
        vstd::arithmetic::power2::lemma_pow2_strictly_increases(b, a);
    }
}

/// The log size of a column: the exponent of its power-of-two length.
pub open spec fn col_log(c: Seq<M31>) -> nat {
    log2(c.len())
}

/// The views of a list of owned columns.
pub open spec fn cols_view(cols: Seq<Vec<M31>>) -> Seq<Seq<M31>> {
    cols.map_values(|c: Vec<M31>| c@)
}

/// Well-formed column set: every column's length is a power of two with
/// exponent at most `MAX_LOG_SIZE`.
pub open spec fn cols_wf(cols: Seq<Seq<M31>>) -> bool {
    forall|j: int|
        0 <= j < cols.len() ==> (#[trigger] cols[j]).len() == pow2(col_log(cols[j])) && col_log(
            cols[j],
        ) <= MAX_LOG_SIZE
}

/// The largest log size among the columns; zero when there are none.
pub open spec fn max_log(cols: Seq<Seq<M31>>) -> nat
    decreases cols.len(),
{
    if cols.len() == 0 {
        0
    } else {
        let rest = max_log(cols.drop_last());
        if col_log(cols.last()) > rest {
            col_log(cols.last())
        } else {
            rest
        }
    }
}

/// The maximum bounds every column's log size, and is attained when nonzero.
pub proof fn lemma_max_log(cols: Seq<Seq<M31>>)
    ensures
        forall|j: int| 0 <= j < cols.len() ==> col_log(#[trigger] cols[j]) <= max_log(cols),
        max_log(cols) == 0 || exists|j: int|
            0 <= j < cols.len() && col_log(#[trigger] cols[j]) == max_log(cols),
    decreases cols.len(),
{
    if cols.len() > 0 {
        lemma_max_log(cols.drop_last());
        assert forall|j: int| 0 <= j < cols.len() implies col_log(#[trigger] cols[j]) <= max_log(
            cols,
        ) by {
            if j < cols.len() - 1 {
                assert(cols.drop_last()[j] == cols[j]);
            }
        }
        if max_log(cols) != 0 {
            if col_log(cols.last()) > max_log(cols.drop_last()) {
                assert(col_log(cols[cols.len() - 1]) == max_log(cols));
            } else {
                let j = choose|j: int|
                    0 <= j < cols.drop_last().len() && col_log(
                        #[trigger] cols.drop_last()[j],
                    ) == max_log(cols.drop_last());
                assert(col_log(cols[j]) == max_log(cols));
            }
        }
    }
}

/// The columns whose log size is `l`, in input order.
pub open spec fn filter_cols(cols: Seq<Seq<M31>>, l: nat) -> Seq<Seq<M31>>
    decreases cols.len(),
{
    if cols.len() == 0 {
        Seq::empty()
    } else {
        filter_cols(cols.drop_last(), l) + (if col_log(cols.last()) == l {
            seq![cols.last()]
        } else {
            Seq::empty()
        })
    }
}

/// Row `i` of the columns anchored at layer `l`: the `i`-th entry of every
/// column of log size `l`, in input order.
pub open spec fn row_values(cols: Seq<Seq<M31>>, l: nat, i: int) -> Seq<M31>
    decreases cols.len(),
{
    if cols.len() == 0 {
        Seq::empty()
    } else {
        row_values(cols.drop_last(), l, i) + (if col_log(cols.last()) == l {
            seq![cols.last()[i]]
        } else {
            Seq::empty()
        })
    }
}

/// Reading row `i` across the filtered columns reads row `i` of the layer.
pub proof fn lemma_filter_row(cols: Seq<Seq<M31>>, l: nat, i: int)
    ensures
        row_view(filter_cols(cols, l), i) =~= row_values(cols, l, i),
    decreases cols.len(),
{
    if cols.len() == 0 {
    } else {
        lemma_filter_row(cols.drop_last(), l, i);
        let f = filter_cols(cols, l);
        let ff = filter_cols(cols.drop_last(), l);
        if col_log(cols.last()) == l {
            assert(f == ff + seq![cols.last()]);
            assert forall|j: int| 0 <= j < f.len() implies row_view(f, i)[j] == (row_view(ff, i)
                + seq![cols.last()[i]])[j] by {
                if j < ff.len() {
                    assert(f[j] == ff[j]);
                } else {
                    assert(f[j] == cols.last());
                }
            }
            assert(row_view(f, i) =~= row_view(ff, i) + seq![cols.last()[i]]);
        } else {
            assert(f == ff);
        }
    }
}

/// The digest of node `i` at layer `l` of the tree over `cols`: the node
/// hashes its two children (absent at the bottom layer `max`) together with
/// row `i` of the columns anchored at `l`.
pub open spec fn node_spec<H: MerkleHasher>(cols: Seq<Seq<M31>>, max: nat, l: nat, i: int) -> Seq<
    u8,
>
    decreases max - l,
{
    if l >= max {
        H::spec_hash_node(None, row_values(cols, l, i))
    } else {
        H::spec_hash_node(
            Some(
                (
                    node_spec::<H>(cols, max, l + 1, 2 * i),
                    node_spec::<H>(cols, max, l + 1, 2 * i + 1),
                ),
            ),
            row_values(cols, l, i),
        )
    }
}

/// The digests of the whole layer `l`.
pub open spec fn layer_spec<H: MerkleHasher>(cols: Seq<Seq<M31>>, max: nat, l: nat) -> Seq<
    Seq<u8>,
> {
    Seq::new(pow2(l), |i: int| node_spec::<H>(cols, max, l, i))
}

/// The root digest of the tree over `cols`.
pub open spec fn root_spec<H: MerkleHasher>(cols: Seq<Seq<M31>>) -> Seq<u8> {
    node_spec::<H>(cols, max_log(cols), 0, 0)
}

/// Finds the exponent of a power-of-two length.
fn col_log_exec(len: usize) -> (r: usize)
    requires
        exists|lg: nat| lg <= MAX_LOG_SIZE && len == pow2(lg),
    ensures
        r <= MAX_LOG_SIZE,
        len == pow2(r as nat),
{
    let ghost lg = choose|lg: nat| lg <= MAX_LOG_SIZE && len == pow2(lg);
    let mut l: usize = 0;
    loop
        invariant
            l <= MAX_LOG_SIZE,
            lg <= MAX_LOG_SIZE,
            len == pow2(lg),
            forall|t: nat| t < l ==> pow2(t) != len,
            l <= lg,
        decreases MAX_LOG_SIZE - l,
    {
        proof {
            vstd::bits::lemma_usize_pow2_no_overflow(l as nat);
            vstd::bits::lemma_usize_shl_is_mul(1usize, l);
        }
        if (1usize << l) == len {
            return l;
        }
        proof {
            assert(pow2(l as nat) != len);
            if l + 1 > lg {
                assert(l == lg);
                assert(false);
            }
        }
        l += 1;
    }
}

/// A committed Merkle tree: every layer's digests, the largest log size
/// first, the single root digest last.
pub struct MerkleProver<H: MerkleHasher> {
    pub layers: Vec<Vec<H::Hash>>,
}

/// A decommitment: the sibling digests a verifier cannot derive from the
/// revealed data, in canonical order (largest log size first, ascending node
/// index, left child before right).
pub struct MerkleDecommitment<H: MerkleHasher> {
    pub hash_witness: Vec<H::Hash>,
}

impl<H: MerkleHasher> MerkleProver<H> {
    /// The prover holds exactly the layers of the tree over `cols`.
    pub open spec fn wf(self, cols: Seq<Seq<M31>>) -> bool {
        let max = max_log(cols);
        &&& self.layers@.len() == max + 1
        &&& forall|k: int|
            0 <= k <= max ==> hashes_view(#[trigger] self.layers@[k]@) == layer_spec::<H>(
                cols,
                max,
                (max - k) as nat,
            )
    }

    /// Commits to a column set: builds every layer from the largest log size
    /// down to the root.
    pub fn commit(columns: &Vec<Vec<M31>>) -> (r: MerkleProver<H>)
        requires
            cols_wf(cols_view(columns@)),
        ensures
            r.wf(cols_view(columns@)),
    {
        let ghost cols = cols_view(columns@);
        // the log size of each column
        let mut logs: Vec<usize> = Vec::new();
        let mut j: usize = 0;
        while j < columns.len()
            invariant
                j <= columns@.len(),
                cols == cols_view(columns@),
                cols_wf(cols),
                logs@.len() == j,
                forall|t: int| 0 <= t < j ==> logs@[t] as nat == col_log(cols[t]),
            decreases columns@.len() - j,
        {
            proof {
                assert(cols[j as int] == columns@[j as int]@);
            }
            let lg = col_log_exec(columns[j].len());
            proof {
                lemma_pow2_injective(lg as nat, col_log(cols[j as int]));
            }
            logs.push(lg);
            j += 1;
        }
        // the largest log size present
        let mut max: usize = 0;
        let mut j2: usize = 0;
        while j2 < logs.len()
            invariant
                j2 <= logs@.len(),
                logs@.len() == columns@.len(),
                cols == cols_view(columns@),
                forall|t: int| 0 <= t < logs@.len() ==> logs@[t] as nat == col_log(cols[t]),
                max as nat == max_log(cols.take(j2 as int)),
                max <= MAX_LOG_SIZE,
                cols_wf(cols),
            decreases logs@.len() - j2,
        {
            proof {
                assert(cols.take(j2 + 1).drop_last() =~= cols.take(j2 as int));
                assert(cols.take(j2 + 1).last() == cols[j2 as int]);
            }
            if logs[j2] > max {
                max = logs[j2];
            }
            j2 += 1;
        }
        proof {
            assert(cols.take(cols.len() as int) =~= cols);
        }
        // build the layers, largest log size first
        let mut layers: Vec<Vec<H::Hash>> = Vec::new();
        let mut k: usize = 0;
        while k <= max
            invariant
                k <= max + 1,
                max <= MAX_LOG_SIZE,
                max as nat == max_log(cols),
                cols == cols_view(columns@),
                cols_wf(cols),
                logs@.len() == columns@.len(),
                forall|t: int| 0 <= t < logs@.len() ==> logs@[t] as nat == col_log(cols[t]),
                layers@.len() == k,
                forall|t: int|
                    0 <= t < k ==> hashes_view(#[trigger] layers@[t]@) == layer_spec::<H>(
                        cols,
                        max as nat,
                        (max - t) as nat,
                    ),
            decreases max + 1 - k,
        {
            let l = max - k;
            // gather the columns anchored at this layer
            let mut filtered: Vec<&Vec<M31>> = Vec::new();
            let mut t: usize = 0;
            while t < columns.len()
                invariant
                    t <= columns@.len(),
                    cols == cols_view(columns@),
                    cols_wf(cols),
                    logs@.len() == columns@.len(),
                    forall|u: int| 0 <= u < logs@.len() ==> logs@[u] as nat == col_log(cols[u]),
                    col_views(filtered@) =~= filter_cols(cols.take(t as int), l as nat),
                decreases columns@.len() - t,
            {
                proof {
                    assert(cols.take(t + 1).drop_last() =~= cols.take(t as int));
                    assert(cols.take(t + 1).last() == cols[t as int]);
                }
                if logs[t] == l {
                    filtered.push(&columns[t]);
                    proof {
                        assert(col_views(filtered@) =~= filter_cols(
                            cols.take(t + 1),
                            l as nat,
                        ));
                    }
                }
                t += 1;
            }
            proof {
                assert(cols.take(cols.len() as int) =~= cols);
                // every filtered column has length 2^l
                assert forall|u: int| 0 <= u < filtered@.len() implies #[trigger] filtered@[u]@.len()
                    == pow2(l as nat) by {
                    assert(col_views(filtered@)[u] == filtered@[u]@);
                    lemma_filter_cols_wf(cols, l as nat, u);
                }
            }
            let layer: Vec<H::Hash> = if k == 0 {
                CpuBackend::commit_on_layer::<H>(l, None, &filtered)
            } else {
                let prev = &layers[k - 1];
                proof {
                    assert(hashes_view(prev@) == layer_spec::<H>(
                        cols,
                        max as nat,
                        (l + 1) as nat,
                    ));
                    assert(prev@.len() == pow2((l + 1) as nat));
                }
                CpuBackend::commit_on_layer::<H>(l, Some(prev), &filtered)
            };
            proof {
                let prev_view: Option<Seq<Seq<u8>>> = if k == 0 {
                    None
                } else {
                    Some(hashes_view(layers@[k - 1]@))
                };
                assert(hashes_view(layer@) =~= layer_nodes_view::<H>(
                    prev_view,
                    col_views(filtered@),
                    pow2(l as nat),
                ));
                lemma_layer_nodes_match::<H>(cols, max as nat, l as nat, prev_view, col_views(filtered@));
                assert(hashes_view(layer@) =~= layer_spec::<H>(cols, max as nat, l as nat));
            }
            layers.push(layer);
            k += 1;
        }
        MerkleProver { layers }
    }

    /// Produces the decommitment for a query set: the values of every column
    /// at the rows the verifier reconstructs at that column's layer, and the
    /// sibling digests the verifier cannot derive, in canonical order.
    pub fn decommit(&self, queries: &Vec<Vec<usize>>, columns: &Vec<Vec<M31>>) -> (r: (
        Vec<Vec<M31>>,
        MerkleDecommitment<H>,
    ))
        requires
            cols_wf(cols_view(columns@)),
            self.wf(cols_view(columns@)),
            queries_wf(queries_view(queries@), max_log(cols_view(columns@))),
        ensures
            cols_view(r.0@) == queried_values_spec(
                cols_view(columns@),
                queries_view(queries@),
                max_log(cols_view(columns@)),
            ),
            hashes_view(r.1.hash_witness@) == witness_upto::<H>(
                cols_view(columns@),
                queries_view(queries@),
                max_log(cols_view(columns@)),
                0,
            ),
    {
        let ghost cols = cols_view(columns@);
        let ghost qv = queries_view(queries@);
        let ghost maxg = max_log(cols);
        proof {
            lemma_max_log(cols);
            if maxg != 0 {
                let j = choose|j: int| 0 <= j < cols.len() && col_log(#[trigger] cols[j]) == maxg;
            }
            assert(maxg <= MAX_LOG_SIZE);
        }
        let max = self.layers.len() - 1;
        proof {
            assert(max as nat == maxg);
        }
        let needed = compute_needed(queries, max);
        // the revealed values, one list per column
        let mut values: Vec<Vec<M31>> = Vec::new();
        let mut j: usize = 0;
        while j < columns.len()
            invariant
                j <= columns@.len(),
                cols == cols_view(columns@),
                qv == queries_view(queries@),
                maxg == max_log(cols),
                maxg <= MAX_LOG_SIZE,
                max as nat == maxg,
                cols_wf(cols),
                queries_wf(qv, maxg),
                needed@.len() == max + 1,
                forall|l: int| 0 <= l <= max ==> #[trigger] needed@[l]@ == needed_at(
                    qv,
                    maxg,
                    l as nat,
                ),
                values@.len() == j,
                forall|t: int| 0 <= t < j ==> #[trigger] values@[t]@ == reveal_rows(
                    cols[t],
                    needed_at(qv, maxg, col_log(cols[t])),
                ),
            decreases columns@.len() - j,
        {
            proof {
                assert(cols[j as int] == columns@[j as int]@);
            }
            let lg = col_log_exec(columns[j].len());
            proof {
                lemma_pow2_injective(lg as nat, col_log(cols[j as int]));
                lemma_max_log(cols);
                assert(lg as nat <= maxg);
                lemma_needed_at_wf(qv, maxg, lg as nat);
            }
            let nd = &needed[lg];
            let mut out: Vec<M31> = Vec::new();
            let mut k: usize = 0;
            while k < nd.len()
                invariant
                    k <= nd@.len(),
                    nd@ == needed_at(qv, maxg, lg as nat),
                    bounded_by(nd@, pow2(lg as nat)),
                    cols == cols_view(columns@),
                    j < columns@.len(),
                    cols[j as int].len() == pow2(lg as nat),
                    out@.len() == k,
                    forall|t: int| 0 <= t < k ==> #[trigger] out@[t] == cols[j as int][nd@[t]
                        as int],
                decreases nd@.len() - k,
            {
                out.push(columns[j][nd[k]]);
                k += 1;
            }
            proof {
                assert(out@ =~= reveal_rows(cols[j as int], needed_at(qv, maxg, lg as nat)));
            }
            values.push(out);
            j += 1;
        }
        proof {
            assert(cols_view(values@) =~= queried_values_spec(cols, qv, maxg));
        }
        // the sibling digests, layers from the largest log size down
        let mut witness: Vec<H::Hash> = Vec::new();
        let mut step: usize = 1;
        while step <= max
            invariant
                1 <= step <= max + 1,
                cols == cols_view(columns@),
                qv == queries_view(queries@),
                maxg == max_log(cols),
                maxg <= MAX_LOG_SIZE,
                max as nat == maxg,
                cols_wf(cols),
                queries_wf(qv, maxg),
                self.wf(cols),
                needed@.len() == max + 1,
                forall|l: int| 0 <= l <= max ==> #[trigger] needed@[l]@ == needed_at(
                    qv,
                    maxg,
                    l as nat,
                ),
                hashes_view(witness@) == witness_upto::<H>(
                    cols,
                    qv,
                    maxg,
                    (max - step + 1) as nat,
                ),
            decreases max + 1 - step,
        {
            let l = max - step;
            let nd = &needed[l];
            let ndc = &needed[l + 1];
            let child_layer = &self.layers[step - 1];
            let ghost child_hashes = layer_spec::<H>(cols, maxg, (l + 1) as nat);
            proof {
                assert(hashes_view(child_layer@) == child_hashes);
                assert(child_layer@.len() == pow2((l + 1) as nat));
                lemma_needed_at_wf(qv, maxg, l as nat);
                vstd::arithmetic::power2::lemma_pow2_adds(l as nat, 1);
                vstd::arithmetic::power2::lemma2_to64();
                assert(pow2((l + 1) as nat) == 2 * pow2(l as nat));
                vstd::arithmetic::power2::lemma_pow2_strictly_increases(l as nat, 30);
            }
            let mut k: usize = 0;
            while k < nd.len()
                invariant
                    k <= nd@.len(),
                    step >= 1,
                    max - step == l,
                    l < max,
                    nd@ == needed_at(qv, maxg, l as nat),
                    ndc@ == needed_at(qv, maxg, (l + 1) as nat),
                    bounded_by(nd@, pow2(l as nat)),
                    pow2((l + 1) as nat) == 2 * pow2(l as nat),
                    pow2(l as nat) < 0x40000000,
                    child_hashes == layer_spec::<H>(cols, maxg, (l + 1) as nat),
                    hashes_view(child_layer@) == child_hashes,
                    child_layer@.len() == pow2((l + 1) as nat),
                    hashes_view(witness@) == witness_upto::<H>(
                        cols,
                        qv,
                        maxg,
                        (l + 1) as nat,
                    ) + layer_witness(nd@, ndc@, child_hashes, k as nat),
                decreases nd@.len() - k,
            {
                let i = nd[k];
                let c0 = 2 * i;
                let c1 = 2 * i + 1;
                let ghost w_before = witness@;
                if find_first(ndc, c0).is_none() {
                    witness.push(child_layer[c0]);
                }
                if find_first(ndc, c1).is_none() {
                    witness.push(child_layer[c1]);
                }
                proof {
                    assert(hashes_view(witness@) =~= hashes_view(w_before) + node_witness(
                        ndc@,
                        child_hashes,
                        nd@[k as int],
                    ));
                    assert(hashes_view(witness@) =~= witness_upto::<H>(
                        cols,
                        qv,
                        maxg,
                        (l + 1) as nat,
                    ) + layer_witness(nd@, ndc@, child_hashes, (k + 1) as nat));
                }
                k += 1;
            }
            proof {
                assert(hashes_view(witness@) == witness_upto::<H>(cols, qv, maxg, l as nat));
            }
            step += 1;
        }
        proof {
            if max == 0 {
                assert(hashes_view(witness@) == witness_upto::<H>(cols, qv, maxg, 0));
            }
        }
        (values, MerkleDecommitment { hash_witness: witness })
    }

    /// The root: the single digest of the last layer.
    pub fn root(&self) -> (r: H::Hash)
        requires
            self.layers@.len() > 0,
            self.layers@[self.layers@.len() - 1]@.len() > 0,
        ensures
            r == self.layers@[self.layers@.len() - 1]@[0],
    {
        let k = self.layers.len() - 1;
        self.layers[k][0]
    }
}

/// The column values at the reconstructed rows of one column.
pub open spec fn reveal_rows(col: Seq<M31>, nd: Seq<usize>) -> Seq<M31> {
    Seq::new(nd.len(), |k: int| col[nd[k] as int])
}

/// All revealed values: for each column, in input order, its values at the
/// rows the verifier reconstructs at that column's layer.
pub open spec fn queried_values_spec(
    cols: Seq<Seq<M31>>,
    queries: Seq<Seq<usize>>,
    max: nat,
) -> Seq<Seq<M31>> {
    Seq::new(
        cols.len(),
        |j: int| reveal_rows(cols[j], needed_at(queries, max, col_log(cols[j]))),
    )
}

/// The witness digests one reconstructed node pulls: its children at the
/// layer below that are not reconstructed there, left child first.
pub open spec fn node_witness(
    needed_child: Seq<usize>,
    child_hashes: Seq<Seq<u8>>,
    i: usize,
) -> Seq<Seq<u8>> {
    (if first_index(needed_child, 2 * i) is None {
        seq![child_hashes[2 * i]]
    } else {
        Seq::empty()
    }) + (if first_index(needed_child, 2 * i + 1) is None {
        seq![child_hashes[2 * i + 1]]
    } else {
        Seq::empty()
    })
}

/// The witness the first `k` reconstructed nodes of a layer pull, in node
/// order.
pub open spec fn layer_witness(
    needed_l: Seq<usize>,
    needed_child: Seq<usize>,
    child_hashes: Seq<Seq<u8>>,
    k: nat,
) -> Seq<Seq<u8>>
    decreases k,
{
    if k == 0 {
        Seq::empty()
    } else {
        layer_witness(needed_l, needed_child, child_hashes, (k - 1) as nat) + node_witness(
            needed_child,
            child_hashes,
            needed_l[k - 1],
        )
    }
}

/// The whole witness stream for processing layers `max` down to `l`: one
/// layer's pulls after another, largest layer processed first.
pub open spec fn witness_upto<H: MerkleHasher>(
    cols: Seq<Seq<M31>>,
    queries: Seq<Seq<usize>>,
    max: nat,
    l: nat,
) -> Seq<Seq<u8>>
    decreases max - l,
{
    if l >= max {
        Seq::empty()
    } else {
        witness_upto::<H>(cols, queries, max, l + 1) + layer_witness(
            needed_at(queries, max, l),
            needed_at(queries, max, l + 1),
            layer_spec::<H>(cols, max, l + 1),
            needed_at(queries, max, l).len(),
        )
    }
}

/// Every filtered column has the layer's length.
proof fn lemma_filter_cols_wf(cols: Seq<Seq<M31>>, l: nat, u: int)
    requires
        cols_wf(cols),
        0 <= u < filter_cols(cols, l).len(),
    ensures
        filter_cols(cols, l)[u].len() == pow2(l),
    decreases cols.len(),
{
    if cols.len() == 0 {
    } else {
        assert(cols_wf(cols.drop_last())) by {
            assert(forall|j: int|
                0 <= j < cols.len() - 1 ==> cols.drop_last()[j] == #[trigger] cols[j]);
        }
        let ff = filter_cols(cols.drop_last(), l);
        if u < ff.len() {
            lemma_filter_cols_wf(cols.drop_last(), l, u);
        } else {
            assert(col_log(cols.last()) == l);
            assert(cols[cols.len() - 1] == cols.last());
        }
    }
}

/// A layer built from the matching child layer and the filtered columns is
/// the spec layer.
proof fn lemma_layer_nodes_match<H: MerkleHasher>(
    cols: Seq<Seq<M31>>,
    max: nat,
    l: nat,
    prev_view: Option<Seq<Seq<u8>>>,
    filtered: Seq<Seq<M31>>,
)
    requires
        l <= max,
        filtered == filter_cols(cols, l),
        l == max <==> prev_view is None,
        prev_view matches Some(p) ==> p == layer_spec::<H>(cols, max, l + 1),
    ensures
        layer_nodes_view::<H>(prev_view, filtered, pow2(l)) =~= layer_spec::<H>(cols, max, l),
{
    assert forall|i: int| 0 <= i < pow2(l) implies layer_nodes_view::<H>(
        prev_view,
        filtered,
        pow2(l),
    )[i] == layer_spec::<H>(cols, max, l)[i] by {
        lemma_filter_row(cols, l, i);
        assert(row_view(filtered, i) == row_values(cols, l, i));
        vstd::arithmetic::power2::lemma_pow2_adds(l, 1);
        vstd::arithmetic::power2::lemma2_to64();
        assert(pow2(l + 1) == 2 * pow2(l));
        match prev_view {
            Some(p) => {
                assert(p[2 * i] == node_spec::<H>(cols, max, l + 1, 2 * i));
                assert(p[2 * i + 1] == node_spec::<H>(cols, max, l + 1, 2 * i + 1));
            },
            None => {},
        }
    }
}

} // verus!
