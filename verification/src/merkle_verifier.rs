//! The Merkle verifier: walks the layers from the largest log size down to
//! the root, reconstructing every node it needs from revealed column values,
//! already-reconstructed children, or the witness stream, and compares the
//! final digest to the committed root. Witness and value streams must be
//! consumed exactly; any deficit or leftover rejects before the root is even
//! compared.

use vstd::prelude::*;
use vstd::arithmetic::power2::pow2;
use crate::fields::M31;
use crate::ops::{MerkleHasher, children_view, hashes_view};
use crate::prover::{MerkleDecommitment, cols_view};
use crate::queries::{
    first_index, needed_at, queries_wf, queries_view, compute_needed, find_first,
    lemma_needed_at_wf, lemma_first_index, bounded_by,
};

verus! {

/// Why a verification was rejected. Every error is terminal for the call.
#[derive(Clone, Copy, Debug, PartialEq, Eq, Structural)]
pub enum MerkleVerificationError {
    /// The witness stream ran out before the traversal was done.
    WitnessTooShort,
    /// The witness stream had entries left after the traversal.
    WitnessTooLong,
    /// Some column revealed fewer values than its layer's traversal consumes.
    ColumnValuesTooShort,
    /// Some column revealed more values than its layer's traversal consumes.
    ColumnValuesTooLong,
    /// The reconstructed root differs from the committed root.
    RootMismatch,
}

/// The largest log size among the verifier's columns; zero when there are
/// none.
pub open spec fn max_log_sizes(logs: Seq<usize>) -> nat
    decreases logs.len(),
{
    if logs.len() == 0 {
        0
    } else {
        let rest = max_log_sizes(logs.drop_last());
        if logs.last() as nat > rest {
            logs.last() as nat
        } else {
            rest
        }
    }
}

/// The maximum bounds every log size, and is attained when nonzero.
pub proof fn lemma_max_log_sizes(logs: Seq<usize>)
    ensures
        forall|j: int| 0 <= j < logs.len() ==> (#[trigger] logs[j]) as nat <= max_log_sizes(logs),
        max_log_sizes(logs) == 0 || exists|j: int|
            0 <= j < logs.len() && (#[trigger] logs[j]) as nat == max_log_sizes(logs),
    decreases logs.len(),
{
    if logs.len() > 0 {
        lemma_max_log_sizes(logs.drop_last());
        assert forall|j: int| 0 <= j < logs.len() implies (#[trigger] logs[j]) as nat
            <= max_log_sizes(logs) by {
            if j < logs.len() - 1 {
                assert(logs.drop_last()[j] == logs[j]);
            }
        }
        if max_log_sizes(logs) != 0 {
            if logs.last() as nat > max_log_sizes(logs.drop_last()) {
                assert(logs[logs.len() - 1] as nat == max_log_sizes(logs));
            } else {
                let j = choose|j: int|
                    0 <= j < logs.drop_last().len() && (#[trigger] logs.drop_last()[j]) as nat
                        == max_log_sizes(logs.drop_last());
                assert(logs[j] as nat == max_log_sizes(logs));
            }
        }
    }
}

/// One child digest: read from the reconstructed child layer if the child is
/// reconstructed there, else pulled from the witness stream at cursor `w`.
pub open spec fn child_hash(
    needed_child: Seq<usize>,
    computed: Seq<Seq<u8>>,
    witness: Seq<Seq<u8>>,
    w: nat,
    c: int,
) -> Result<(Seq<u8>, nat), MerkleVerificationError> {
    match first_index(needed_child, c) {
        Some(k) => Ok((computed[k as int], w)),
        None => if w < witness.len() {
            Ok((witness[w as int], w + 1))
        } else {
            Err(MerkleVerificationError::WitnessTooShort)
        },
    }
}

/// The `k`-th revealed row of the columns anchored at layer `l`: the `k`-th
/// value of every such column, in column order; a column with too few values
/// rejects, earliest column first.
pub open spec fn row_at(values: Seq<Seq<M31>>, logs: Seq<usize>, l: nat, k: nat) -> Result<
    Seq<M31>,
    MerkleVerificationError,
>
    decreases values.len(),
{
    if values.len() == 0 || logs.len() == 0 {
        Ok(Seq::empty())
    } else {
        match row_at(values.drop_last(), logs.drop_last(), l, k) {
            Err(e) => Err(e),
            Ok(rest) => if logs.last() as nat == l {
                if k < values.last().len() {
                    Ok(rest + seq![values.last()[k as int]])
                } else {
                    Err(MerkleVerificationError::ColumnValuesTooShort)
                }
            } else {
                Ok(rest)
            },
        }
    }
}

/// The two child digests of node `i`, left then right, absent at layer
/// `max`.
pub open spec fn node_children(
    needed_child: Seq<usize>,
    computed_child: Seq<Seq<u8>>,
    witness: Seq<Seq<u8>>,
    w: nat,
    max: nat,
    l: nat,
    i: usize,
) -> Result<(Option<(Seq<u8>, Seq<u8>)>, nat), MerkleVerificationError> {
    if l >= max {
        Ok((None, w))
    } else {
        match child_hash(needed_child, computed_child, witness, w, 2 * i) {
            Err(e) => Err(e),
            Ok((left, w1)) => match child_hash(needed_child, computed_child, witness, w1, 2 * i
                + 1) {
                Err(e) => Err(e),
                Ok((right, w2)) => Ok((Some((left, right)), w2)),
            },
        }
    }
}

/// Reconstructs one node: children first (left then right, absent at layer
/// `max`), then the node's revealed row, then the combined digest.
pub open spec fn process_node<H: MerkleHasher>(
    needed_child: Seq<usize>,
    computed_child: Seq<Seq<u8>>,
    witness: Seq<Seq<u8>>,
    w: nat,
    values: Seq<Seq<M31>>,
    logs: Seq<usize>,
    max: nat,
    l: nat,
    k: nat,
    i: usize,
) -> Result<(Seq<u8>, nat), MerkleVerificationError> {
    match node_children(needed_child, computed_child, witness, w, max, l, i) {
        Err(e) => Err(e),
        Ok((ch, w2)) => match row_at(values, logs, l, k) {
            Err(e) => Err(e),
            Ok(row) => Ok((H::spec_hash_node(ch, row), w2)),
        },
    }
}

/// Reconstructs the first `k` nodes of layer `l`, in ascending node order,
/// threading the witness cursor.
pub open spec fn process_nodes<H: MerkleHasher>(
    needed_l: Seq<usize>,
    needed_child: Seq<usize>,
    computed_child: Seq<Seq<u8>>,
    witness: Seq<Seq<u8>>,
    w0: nat,
    values: Seq<Seq<M31>>,
    logs: Seq<usize>,
    max: nat,
    l: nat,
    k: nat,
) -> Result<(Seq<Seq<u8>>, nat), MerkleVerificationError>
    decreases k,
{
    if k == 0 {
        Ok((Seq::empty(), w0))
    } else {
        match process_nodes::<H>(
            needed_l,
            needed_child,
            computed_child,
            witness,
            w0,
            values,
            logs,
            max,
            l,
            (k - 1) as nat,
        ) {
            Err(e) => Err(e),
            Ok((hs, w)) => match process_node::<H>(
                needed_child,
                computed_child,
                witness,
                w,
                values,
                logs,
                max,
                l,
                (k - 1) as nat,
                needed_l[k - 1],
            ) {
                Err(e) => Err(e),
                Ok((h, w2)) => Ok((hs.push(h), w2)),
            },
        }
    }
}

/// Processes layers `max` down to `l`: the result is the reconstructed
/// digests of layer `l` and the witness cursor after it.
pub open spec fn process_layers<H: MerkleHasher>(
    queries: Seq<Seq<usize>>,
    values: Seq<Seq<M31>>,
    logs: Seq<usize>,
    witness: Seq<Seq<u8>>,
    max: nat,
    l: nat,
) -> Result<(Seq<Seq<u8>>, nat), MerkleVerificationError>
    decreases max - l,
{
    if l >= max {
        process_nodes::<H>(
            needed_at(queries, max, max),
            Seq::empty(),
            Seq::empty(),
            witness,
            0,
            values,
            logs,
            max,
            max,
            needed_at(queries, max, max).len(),
        )
    } else {
        match process_layers::<H>(queries, values, logs, witness, max, l + 1) {
            Err(e) => Err(e),
            Ok((computed_child, w)) => process_nodes::<H>(
                needed_at(queries, max, l),
                needed_at(queries, max, l + 1),
                computed_child,
                witness,
                w,
                values,
                logs,
                max,
                l,
                needed_at(queries, max, l).len(),
            ),
        }
    }
}

/// What a verification returns: the layers are walked top to bottom; a
/// deficit in a stream rejects during the walk, a leftover rejects after it,
/// and only then is the reconstructed root compared to the committed one.
pub open spec fn verify_spec<H: MerkleHasher>(
    root: Seq<u8>,
    logs: Seq<usize>,
    queries: Seq<Seq<usize>>,
    values: Seq<Seq<M31>>,
    witness: Seq<Seq<u8>>,
) -> Result<(), MerkleVerificationError> {
    let max = max_log_sizes(logs);
    match process_layers::<H>(queries, values, logs, witness, max, 0) {
        Err(e) => Err(e),
        Ok((computed0, w)) => if w < witness.len() {
            Err(MerkleVerificationError::WitnessTooLong)
        } else if exists|j: int|
            0 <= j < values.len() && (#[trigger] values[j]).len() > needed_at(
                queries,
                max,
                logs[j] as nat,
            ).len() {
            Err(MerkleVerificationError::ColumnValuesTooLong)
        } else if needed_at(queries, max, 0).len() == 0 {
            Ok(())
        } else if computed0[0] == root {
            Ok(())
        } else {
            Err(MerkleVerificationError::RootMismatch)
        },
    }
}

/// An error while reconstructing an early node dooms the whole layer.
pub proof fn lemma_process_nodes_err<H: MerkleHasher>(
    needed_l: Seq<usize>,
    needed_child: Seq<usize>,
    computed_child: Seq<Seq<u8>>,
    witness: Seq<Seq<u8>>,
    w0: nat,
    values: Seq<Seq<M31>>,
    logs: Seq<usize>,
    max: nat,
    l: nat,
    k: nat,
    kk: nat,
    e: MerkleVerificationError,
)
    requires
        k <= kk,
        process_nodes::<H>(
            needed_l,
            needed_child,
            computed_child,
            witness,
            w0,
            values,
            logs,
            max,
            l,
            k,
        ) == Err::<(Seq<Seq<u8>>, nat), MerkleVerificationError>(e),
    ensures
        process_nodes::<H>(
            needed_l,
            needed_child,
            computed_child,
            witness,
            w0,
            values,
            logs,
            max,
            l,
            kk,
        ) == Err::<(Seq<Seq<u8>>, nat), MerkleVerificationError>(e),
    decreases kk - k,
{
    if kk > k {
        lemma_process_nodes_err::<H>(
            needed_l,
            needed_child,
            computed_child,
            witness,
            w0,
            values,
            logs,
            max,
            l,
            k,
            (kk - 1) as nat,
            e,
        );
    }
}

/// An error at an upper layer dooms every layer below it.
pub proof fn lemma_process_layers_err<H: MerkleHasher>(
    queries: Seq<Seq<usize>>,
    values: Seq<Seq<M31>>,
    logs: Seq<usize>,
    witness: Seq<Seq<u8>>,
    max: nat,
    l: nat,
    l0: nat,
    e: MerkleVerificationError,
)
    requires
        l <= l0,
        process_layers::<H>(queries, values, logs, witness, max, l0) == Err::<
            (Seq<Seq<u8>>, nat),
            MerkleVerificationError,
        >(e),
    ensures
        process_layers::<H>(queries, values, logs, witness, max, l) == Err::<
            (Seq<Seq<u8>>, nat),
            MerkleVerificationError,
        >(e),
    decreases l0 - l,
{
    if l < l0 {
        lemma_process_layers_err::<H>(queries, values, logs, witness, max, l + 1, l0, e);
        if l >= max {
            assert(process_layers::<H>(queries, values, logs, witness, max, l)
                == process_layers::<H>(queries, values, logs, witness, max, l + 1));
        }
    }
}

/// A verifier: the committed root and the log size of every committed
/// column, nothing more; revealed values and witness come per call.
pub struct MerkleVerifier<H: MerkleHasher> {
    pub root: H::Hash,
    pub column_log_sizes: Vec<usize>,
}

impl<H: MerkleHasher> MerkleVerifier<H> {
    /// Checks a decommitment: reconstructs every node the query set demands,
    /// layer by layer from the largest log size down, and compares the result
    /// of layer zero to the committed root.
    pub fn verify(
        &self,
        queries: &Vec<Vec<usize>>,
        queried_values: &Vec<Vec<M31>>,
        decommitment: &MerkleDecommitment<H>,
    ) -> (r: Result<(), MerkleVerificationError>)
        requires
            forall|j: int|
                0 <= j < self.column_log_sizes@.len() ==> #[trigger] self.column_log_sizes@[j]
                    <= 29,
            queried_values@.len() == self.column_log_sizes@.len(),
            queries_wf(queries_view(queries@), max_log_sizes(self.column_log_sizes@)),
        ensures
            r == verify_spec::<H>(
                self.root@,
                self.column_log_sizes@,
                queries_view(queries@),
                cols_view(queried_values@),
                hashes_view(decommitment.hash_witness@),
            ),
    {
        let ghost logs = self.column_log_sizes@;
        let ghost qv = queries_view(queries@);
        let ghost vals = cols_view(queried_values@);
        let ghost wit = hashes_view(decommitment.hash_witness@);
        let ghost maxg = max_log_sizes(logs);
        // the largest log size present
        let mut max: usize = 0;
        let mut j: usize = 0;
        while j < self.column_log_sizes.len()
            invariant
                j <= logs.len(),
                logs == self.column_log_sizes@,
                forall|t: int| 0 <= t < logs.len() ==> #[trigger] logs[t] <= 29,
                max as nat == max_log_sizes(logs.take(j as int)),
                max <= 29,
            decreases logs.len() - j,
        {
            proof {
                assert(logs.take(j + 1).drop_last() =~= logs.take(j as int));
                assert(logs.take(j + 1).last() == logs[j as int]);
            }
            if self.column_log_sizes[j] > max {
                max = self.column_log_sizes[j];
            }
            j += 1;
        }
        proof {
            assert(logs.take(logs.len() as int) =~= logs);
            assert(max as nat == maxg);
        }
        let needed = compute_needed(queries, max);
        let witness = &decommitment.hash_witness;
        let mut w: usize = 0;
        let mut computed: Vec<H::Hash> = Vec::new();
        let mut step: usize = 0;
        while step <= max
            invariant
                step <= max + 1,
                logs == self.column_log_sizes@,
                qv == queries_view(queries@),
                vals == cols_view(queried_values@),
                wit == hashes_view(witness@),
                witness == decommitment.hash_witness,
                maxg == max_log_sizes(logs),
                max as nat == maxg,
                max <= 29,
                queried_values@.len() == logs.len(),
                forall|t: int| 0 <= t < logs.len() ==> #[trigger] logs[t] <= 29,
                queries_wf(qv, maxg),
                needed@.len() == max + 1,
                forall|ll: int| 0 <= ll <= max ==> #[trigger] needed@[ll]@ == needed_at(
                    qv,
                    maxg,
                    ll as nat,
                ),
                w <= witness@.len(),
                step == 0 ==> computed@.len() == 0 && w == 0,
                step >= 1 ==> process_layers::<H>(qv, vals, logs, wit, maxg, (max - (step
                    - 1)) as nat) == Ok::<(Seq<Seq<u8>>, nat), MerkleVerificationError>(
                    (hashes_view(computed@), w as nat),
                ),
                step >= 1 ==> computed@.len() == needed_at(
                    qv,
                    maxg,
                    (max - (step - 1)) as nat,
                ).len(),
            decreases max + 1 - step,
        {
            let l = max - step;
            let nd = &needed[l];
            proof {
                lemma_needed_at_wf(qv, maxg, l as nat);
                vstd::arithmetic::power2::lemma_pow2_strictly_increases(l as nat, 30);
                vstd::arithmetic::power2::lemma2_to64();
            }
            let ghost ndc_s: Seq<usize> = if step == 0 {
                Seq::empty()
            } else {
                needed_at(qv, maxg, (l + 1) as nat)
            };
            let ghost cviews: Seq<Seq<u8>> = if step == 0 {
                Seq::empty()
            } else {
                hashes_view(computed@)
            };
            let ghost w_start: nat = w as nat;
            let mut new_computed: Vec<H::Hash> = Vec::new();
            let mut k: usize = 0;
            proof {
                assert(hashes_view(new_computed@) =~= Seq::<Seq<u8>>::empty());
            }
            while k < nd.len()
                invariant
                    k <= nd@.len(),
                    step <= max,
                    l == max - step,
                    logs == self.column_log_sizes@,
                    qv == queries_view(queries@),
                    vals == cols_view(queried_values@),
                    wit == hashes_view(witness@),
                    witness == decommitment.hash_witness,
                    maxg == max_log_sizes(logs),
                    max as nat == maxg,
                    max <= 29,
                    queried_values@.len() == logs.len(),
                    forall|t: int| 0 <= t < logs.len() ==> #[trigger] logs[t] <= 29,
                    queries_wf(qv, maxg),
                    needed@.len() == max + 1,
                    forall|ll: int| 0 <= ll <= max ==> #[trigger] needed@[ll]@ == needed_at(
                        qv,
                        maxg,
                        ll as nat,
                    ),
                    nd@ == needed_at(qv, maxg, l as nat),
                    bounded_by(nd@, pow2(l as nat)),
                    pow2(l as nat) < 0x40000000,
                    step == 0 ==> ndc_s == Seq::<usize>::empty() && cviews == Seq::<
                        Seq<u8>,
                    >::empty() && w_start == 0,
                    step >= 1 ==> ndc_s == needed_at(qv, maxg, (l + 1) as nat),
                    step >= 1 ==> cviews == hashes_view(computed@),
                    step >= 1 ==> computed@.len() == ndc_s.len(),
                    step >= 1 ==> process_layers::<H>(qv, vals, logs, wit, maxg, (l
                        + 1) as nat) == Ok::<(Seq<Seq<u8>>, nat), MerkleVerificationError>(
                        (cviews, w_start),
                    ),
                    w <= witness@.len(),
                    new_computed@.len() == k,
                    process_nodes::<H>(
                        nd@,
                        ndc_s,
                        cviews,
                        wit,
                        w_start,
                        vals,
                        logs,
                        maxg,
                        l as nat,
                        k as nat,
                    ) == Ok::<(Seq<Seq<u8>>, nat), MerkleVerificationError>(
                        (hashes_view(new_computed@), w as nat),
                    ),
                decreases nd@.len() - k,
            {
                let i = nd[k];
                proof {
                    assert((i as nat) < pow2(l as nat));
                }
                let c0 = 2 * i;
                let c1 = 2 * i + 1;
                let ghost w_node: nat = w as nat;
                let children: Option<(H::Hash, H::Hash)> = if step == 0 {
                    proof {
                        assert(l as nat >= maxg);
                    }
                    None
                } else {
                    let ndc = &needed[l + 1];
                    proof {
                        assert(ndc@ == ndc_s);
                        assert((l as nat) < maxg);
                    }
                    // left child
                    let left: H::Hash = match find_first(ndc, c0) {
                        Some(idx) => {
                            proof {
                                lemma_first_index(ndc_s, c0 as int);
                            }
                            computed[idx]
                        },
                        None => {
                            if w >= witness.len() {
                                proof {
                                    assert(child_hash(ndc_s, cviews, wit, w as nat, c0 as int)
                                        == Err::<(Seq<u8>, nat), MerkleVerificationError>(
                                        MerkleVerificationError::WitnessTooShort,
                                    ));
                                    assert(process_node::<H>(
                                        ndc_s,
                                        cviews,
                                        wit,
                                        w_node,
                                        vals,
                                        logs,
                                        maxg,
                                        l as nat,
                                        k as nat,
                                        nd@[k as int],
                                    ) == Err::<(Seq<u8>, nat), MerkleVerificationError>(
                                        MerkleVerificationError::WitnessTooShort,
                                    ));
                                    lemma_verify_err_at_node::<H>(
                                        self.root@,
                                        qv,
                                        vals,
                                        logs,
                                        wit,
                                        maxg,
                                        l as nat,
                                        k as nat,
                                        step as nat,
                                        ndc_s,
                                        cviews,
                                        w_start,
                                        hashes_view(new_computed@),
                                        w_node,
                                        MerkleVerificationError::WitnessTooShort,
                                    );
                                }
                                return Err(MerkleVerificationError::WitnessTooShort);
                            }
                            let h = witness[w];
                            proof {
                                assert(wit[w as int] == h@);
                            }
                            w += 1;
                            h
                        },
                    };
                    let ghost w_mid: nat = w as nat;
                    proof {
                        assert(child_hash(ndc_s, cviews, wit, w_node, c0 as int) == Ok::<
                            (Seq<u8>, nat),
                            MerkleVerificationError,
                        >((left@, w_mid)));
                    }
                    // right child
                    let right: H::Hash = match find_first(ndc, c1) {
                        Some(idx) => {
                            proof {
                                lemma_first_index(ndc_s, c1 as int);
                            }
                            computed[idx]
                        },
                        None => {
                            if w >= witness.len() {
                                proof {
                                    assert(child_hash(ndc_s, cviews, wit, w_mid, c1 as int)
                                        == Err::<(Seq<u8>, nat), MerkleVerificationError>(
                                        MerkleVerificationError::WitnessTooShort,
                                    ));
                                    assert(process_node::<H>(
                                        ndc_s,
                                        cviews,
                                        wit,
                                        w_node,
                                        vals,
                                        logs,
                                        maxg,
                                        l as nat,
                                        k as nat,
                                        nd@[k as int],
                                    ) == Err::<(Seq<u8>, nat), MerkleVerificationError>(
                                        MerkleVerificationError::WitnessTooShort,
                                    ));
                                    lemma_verify_err_at_node::<H>(
                                        self.root@,
                                        qv,
                                        vals,
                                        logs,
                                        wit,
                                        maxg,
                                        l as nat,
                                        k as nat,
                                        step as nat,
                                        ndc_s,
                                        cviews,
                                        w_start,
                                        hashes_view(new_computed@),
                                        w_node,
                                        MerkleVerificationError::WitnessTooShort,
                                    );
                                }
                                return Err(MerkleVerificationError::WitnessTooShort);
                            }
                            let h = witness[w];
                            proof {
                                assert(wit[w as int] == h@);
                            }
                            w += 1;
                            h
                        },
                    };
                    proof {
                        assert(child_hash(ndc_s, cviews, wit, w_mid, c1 as int) == Ok::<
                            (Seq<u8>, nat),
                            MerkleVerificationError,
                        >((right@, w as nat)));
                    }
                    Some((left, right))
                };
                proof {
                    assert(node_children(ndc_s, cviews, wit, w_node, maxg, l as nat, i)
                        == Ok::<(Option<(Seq<u8>, Seq<u8>)>, nat), MerkleVerificationError>(
                        (children_view(children), w as nat),
                    ));
                }
                // the node's revealed row
                let mut row: Vec<M31> = Vec::new();
                let mut t: usize = 0;
                proof {
                    assert(vals.take(0) =~= Seq::<Seq<M31>>::empty());
                    assert(logs.take(0) =~= Seq::<usize>::empty());
                }
                while t < queried_values.len()
                    invariant
                        t <= queried_values@.len(),
                        queried_values@.len() == logs.len(),
                        logs == self.column_log_sizes@,
                        vals == cols_view(queried_values@),
                        qv == queries_view(queries@),
                        wit == hashes_view(decommitment.hash_witness@),
                        maxg == max_log_sizes(logs),
                        max as nat == maxg,
                        step <= max,
                        l == max - step,
                        k < nd@.len(),
                        i == nd@[k as int],
                        nd@ == needed_at(qv, maxg, l as nat),
                        step == 0 ==> ndc_s == Seq::<usize>::empty() && cviews == Seq::<
                            Seq<u8>,
                        >::empty() && w_start == 0,
                        step >= 1 ==> ndc_s == needed_at(qv, maxg, (l + 1) as nat),
                        step >= 1 ==> process_layers::<H>(qv, vals, logs, wit, maxg, (l
                            + 1) as nat) == Ok::<(Seq<Seq<u8>>, nat), MerkleVerificationError>(
                            (cviews, w_start),
                        ),
                        process_nodes::<H>(
                            nd@,
                            ndc_s,
                            cviews,
                            wit,
                            w_start,
                            vals,
                            logs,
                            maxg,
                            l as nat,
                            k as nat,
                        ) == Ok::<(Seq<Seq<u8>>, nat), MerkleVerificationError>(
                            (hashes_view(new_computed@), w_node),
                        ),
                        node_children(ndc_s, cviews, wit, w_node, maxg, l as nat, i) == Ok::<
                            (Option<(Seq<u8>, Seq<u8>)>, nat),
                            MerkleVerificationError,
                        >((children_view(children), w as nat)),
                        row_at(vals.take(t as int), logs.take(t as int), l as nat, k as nat)
                            == Ok::<Seq<M31>, MerkleVerificationError>(row@),
                    decreases queried_values@.len() - t,
                {
                    proof {
                        assert(vals.take(t as int + 1).drop_last() =~= vals.take(t as int));
                        assert(logs.take(t as int + 1).drop_last() =~= logs.take(t as int));
                        assert(vals.take(t as int + 1).last() == vals[t as int]);
                        assert(logs.take(t as int + 1).last() == logs[t as int]);
                        assert(vals[t as int] == queried_values@[t as int]@);
                    }
                    if self.column_log_sizes[t] == l {
                        if k >= queried_values[t].len() {
                            proof {
                                assert(row_at(
                                    vals.take(t as int + 1),
                                    logs.take(t as int + 1),
                                    l as nat,
                                    k as nat,
                                ) == Err::<Seq<M31>, MerkleVerificationError>(
                                    MerkleVerificationError::ColumnValuesTooShort,
                                ));
                                lemma_row_at_err(
                                    vals,
                                    logs,
                                    l as nat,
                                    k as nat,
                                    (t + 1) as nat,
                                    MerkleVerificationError::ColumnValuesTooShort,
                                );
                                assert(process_node::<H>(
                                    ndc_s,
                                    cviews,
                                    wit,
                                    w_node,
                                    vals,
                                    logs,
                                    maxg,
                                    l as nat,
                                    k as nat,
                                    nd@[k as int],
                                ) == Err::<(Seq<u8>, nat), MerkleVerificationError>(
                                    MerkleVerificationError::ColumnValuesTooShort,
                                ));
                                lemma_verify_err_at_node::<H>(
                                    self.root@,
                                    qv,
                                    vals,
                                    logs,
                                    wit,
                                    maxg,
                                    l as nat,
                                    k as nat,
                                    step as nat,
                                    ndc_s,
                                    cviews,
                                    w_start,
                                    hashes_view(new_computed@),
                                    w_node,
                                    MerkleVerificationError::ColumnValuesTooShort,
                                );
                            }
                            return Err(MerkleVerificationError::ColumnValuesTooShort);
                        }
                        let ghost row_old = row@;
                        row.push(queried_values[t][k]);
                        proof {
                            assert(row@ =~= row_old + seq![vals[t as int][k as int]]);
                        }
                    }
                    t += 1;
                }
                proof {
                    assert(vals.take(vals.len() as int) =~= vals);
                    assert(logs.take(logs.len() as int) =~= logs);
                }
                let h = H::hash_node(children, row.as_slice());
                let ghost prev_views = hashes_view(new_computed@);
                proof {
                    assert(process_node::<H>(
                        ndc_s,
                        cviews,
                        wit,
                        w_node,
                        vals,
                        logs,
                        maxg,
                        l as nat,
                        k as nat,
                        nd@[k as int],
                    ) == Ok::<(Seq<u8>, nat), MerkleVerificationError>((h@, w as nat)));
                }
                new_computed.push(h);
                proof {
                    assert(hashes_view(new_computed@) =~= prev_views.push(h@));
                }
                k += 1;
            }
            proof {
                if step == 0 {
                    assert(l == max);
                    assert(process_layers::<H>(qv, vals, logs, wit, maxg, l as nat) == Ok::<
                        (Seq<Seq<u8>>, nat),
                        MerkleVerificationError,
                    >((hashes_view(new_computed@), w as nat)));
                } else {
                    assert(process_layers::<H>(qv, vals, logs, wit, maxg, l as nat) == Ok::<
                        (Seq<Seq<u8>>, nat),
                        MerkleVerificationError,
                    >((hashes_view(new_computed@), w as nat)));
                }
            }
            computed = new_computed;
            step += 1;
        }
        proof {
            assert((max - (step - 1)) as nat == 0);
            assert(process_layers::<H>(qv, vals, logs, wit, maxg, 0) == Ok::<
                (Seq<Seq<u8>>, nat),
                MerkleVerificationError,
            >((hashes_view(computed@), w as nat)));
        }
        // leftover witness rejects
        if w < witness.len() {
            return Err(MerkleVerificationError::WitnessTooLong);
        }
        // leftover column values reject
        let mut t: usize = 0;
        while t < queried_values.len()
            invariant
                t <= queried_values@.len(),
                queried_values@.len() == logs.len(),
                logs == self.column_log_sizes@,
                vals == cols_view(queried_values@),
                qv == queries_view(queries@),
                wit == hashes_view(decommitment.hash_witness@),
                maxg == max_log_sizes(logs),
                max as nat == maxg,
                forall|u: int| 0 <= u < logs.len() ==> #[trigger] logs[u] <= 29,
                needed@.len() == max + 1,
                forall|ll: int| 0 <= ll <= max ==> #[trigger] needed@[ll]@ == needed_at(
                    qv,
                    maxg,
                    ll as nat,
                ),
                w as nat >= wit.len(),
                process_layers::<H>(qv, vals, logs, wit, maxg, 0) == Ok::<
                    (Seq<Seq<u8>>, nat),
                    MerkleVerificationError,
                >((hashes_view(computed@), w as nat)),
                computed@.len() == needed_at(qv, maxg, 0).len(),
                forall|u: int|
                    0 <= u < t ==> (#[trigger] vals[u]).len() <= needed_at(
                        qv,
                        maxg,
                        logs[u] as nat,
                    ).len(),
            decreases queried_values@.len() - t,
        {
            proof {
                lemma_max_log_sizes(logs);
                assert(logs[t as int] as nat <= maxg);
                assert(vals[t as int] == queried_values@[t as int]@);
            }
            let lg = self.column_log_sizes[t];
            if queried_values[t].len() > needed[lg].len() {
                proof {
                    assert((vals[t as int]).len() > needed_at(
                        qv,
                        maxg,
                        logs[t as int] as nat,
                    ).len());
                }
                return Err(MerkleVerificationError::ColumnValuesTooLong);
            }
            t += 1;
        }
        proof {
            assert(!(exists|u: int|
                0 <= u < vals.len() && (#[trigger] vals[u]).len() > needed_at(
                    qv,
                    maxg,
                    logs[u] as nat,
                ).len()));
        }
        // root comparison
        let nd0 = &needed[0];
        if nd0.len() == 0 {
            return Ok(());
        }
        proof {
            assert(computed@.len() == needed_at(qv, maxg, 0).len());
            assert(hashes_view(computed@)[0] == computed@[0]@);
        }
        if H::hash_eq(&computed[0], &self.root) {
            Ok(())
        } else {
            Err(MerkleVerificationError::RootMismatch)
        }
    }
}

/// When reconstructing node `k` of layer `l` fails, the whole verification
/// fails with that error, provided the layers above `l` and the first `k`
/// nodes of layer `l` succeeded.
proof fn lemma_verify_err_at_node<H: MerkleHasher>(
    root: Seq<u8>,
    qv: Seq<Seq<usize>>,
    vals: Seq<Seq<M31>>,
    logs: Seq<usize>,
    wit: Seq<Seq<u8>>,
    maxg: nat,
    l: nat,
    k: nat,
    step: nat,
    ndc_s: Seq<usize>,
    cviews: Seq<Seq<u8>>,
    w_start: nat,
    hs: Seq<Seq<u8>>,
    w_node: nat,
    e: MerkleVerificationError,
)
    requires
        maxg == max_log_sizes(logs),
        l == maxg - step,
        step <= maxg,
        k < needed_at(qv, maxg, l).len(),
        step == 0 ==> ndc_s == Seq::<usize>::empty() && cviews == Seq::<Seq<u8>>::empty()
            && w_start == 0,
        step >= 1 ==> ndc_s == needed_at(qv, maxg, (l + 1) as nat),
        step >= 1 ==> process_layers::<H>(qv, vals, logs, wit, maxg, (l + 1) as nat) == Ok::<
            (Seq<Seq<u8>>, nat),
            MerkleVerificationError,
        >((cviews, w_start)),
        process_nodes::<H>(
            needed_at(qv, maxg, l),
            ndc_s,
            cviews,
            wit,
            w_start,
            vals,
            logs,
            maxg,
            l,
            k,
        ) == Ok::<(Seq<Seq<u8>>, nat), MerkleVerificationError>((hs, w_node)),
        process_node::<H>(
            ndc_s,
            cviews,
            wit,
            w_node,
            vals,
            logs,
            maxg,
            l,
            k,
            needed_at(qv, maxg, l)[k as int],
        ) == Err::<(Seq<u8>, nat), MerkleVerificationError>(e),
    ensures
        verify_spec::<H>(root, logs, qv, vals, wit) == Err::<(), MerkleVerificationError>(e),
{
    let nd = needed_at(qv, maxg, l);
    assert(process_nodes::<H>(nd, ndc_s, cviews, wit, w_start, vals, logs, maxg, l, (k
        + 1) as nat) == Err::<(Seq<Seq<u8>>, nat), MerkleVerificationError>(e));
    lemma_process_nodes_err::<H>(
        nd,
        ndc_s,
        cviews,
        wit,
        w_start,
        vals,
        logs,
        maxg,
        l,
        (k + 1) as nat,
        nd.len(),
        e,
    );
    if step == 0 {
        assert(l == maxg);
        assert(process_layers::<H>(qv, vals, logs, wit, maxg, l) == Err::<
            (Seq<Seq<u8>>, nat),
            MerkleVerificationError,
        >(e));
    } else {
        assert(l < maxg);
        assert(process_layers::<H>(qv, vals, logs, wit, maxg, l) == Err::<
            (Seq<Seq<u8>>, nat),
            MerkleVerificationError,
        >(e));
    }
    lemma_process_layers_err::<H>(qv, vals, logs, wit, maxg, 0, l, e);
}

/// A failed row stays failed as more columns are appended.
pub proof fn lemma_row_at_err(
    values: Seq<Seq<M31>>,
    logs: Seq<usize>,
    l: nat,
    k: nat,
    j: nat,
    e: MerkleVerificationError,
)
    requires
        j <= values.len(),
        values.len() == logs.len(),
        row_at(values.take(j as int), logs.take(j as int), l, k) == Err::<
            Seq<M31>,
            MerkleVerificationError,
        >(e),
    ensures
        row_at(values, logs, l, k) == Err::<Seq<M31>, MerkleVerificationError>(e),
    decreases values.len() - j,
{
    if j == values.len() {
        assert(values.take(j as int) =~= values);
        assert(logs.take(j as int) =~= logs);
    } else {
        assert(values.take(j as int + 1).drop_last() =~= values.take(j as int));
        assert(logs.take(j as int + 1).drop_last() =~= logs.take(j as int));
        lemma_row_at_err(values, logs, l, k, j + 1, e);
    }
}

} // verus!
