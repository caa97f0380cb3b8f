//! The laws tying prover and verifier together: an honest decommitment for
//! any well-formed query set verifies against the committed root, exact
//! stream consumption included.

use vstd::prelude::*;
use vstd::arithmetic::power2::pow2;
use crate::blake3_channel::{
    mix_felts_spec, mix_nonce_spec, draw_felt_spec, draw_felts_spec, draw_bytes_spec,
    trailing_zeros_spec,
};
use crate::fields::{M31, QM31};
use crate::ops::{MerkleHasher, hashes_view};
use crate::prover::{
    col_log, cols_wf, max_log, node_spec, layer_spec, root_spec, row_values, reveal_rows,
    queried_values_spec, node_witness, layer_witness, witness_upto, lemma_max_log,
    MerkleProver,
};
use crate::queries::{first_index, needed_at, queries_wf, lemma_needed_at_wf, lemma_first_index};
use crate::merkle_verifier::{
    max_log_sizes, child_hash, row_at, node_children, process_node, process_nodes,
    process_layers, verify_spec, MerkleVerificationError,
};

verus! {

/// Column log sizes listed per column agree on their maximum with the tree.
pub proof fn lemma_max_agree(cols: Seq<Seq<M31>>, logs: Seq<usize>)
    requires
        logs.len() == cols.len(),
        forall|j: int| 0 <= j < logs.len() ==> (#[trigger] logs[j]) as nat == col_log(cols[j]),
    ensures
        max_log_sizes(logs) == max_log(cols),
    decreases cols.len(),
{
    if cols.len() > 0 {
        assert(forall|j: int|
            0 <= j < logs.len() - 1 ==> (#[trigger] logs.drop_last()[j]) == logs[j]);
        assert(forall|j: int|
            0 <= j < cols.len() - 1 ==> (#[trigger] cols.drop_last()[j]) == cols[j]);
        lemma_max_agree(cols.drop_last(), logs.drop_last());
        assert(logs.last() as nat == col_log(cols[cols.len() - 1]));
    }
}

/// The digests of the nodes the verifier reconstructs at layer `l`, in node
/// order.
pub open spec fn computed_spec<H: MerkleHasher>(
    cols: Seq<Seq<M31>>,
    queries: Seq<Seq<usize>>,
    max: nat,
    l: nat,
) -> Seq<Seq<u8>> {
    Seq::new(
        needed_at(queries, max, l).len(),
        |k: int| node_spec::<H>(cols, max, l, needed_at(queries, max, l)[k] as int),
    )
}

/// Later prefixes of one layer's witness extend earlier ones.
pub proof fn lemma_layer_witness_prefix(
    needed_l: Seq<usize>,
    needed_child: Seq<usize>,
    child_hashes: Seq<Seq<u8>>,
    k1: nat,
    k2: nat,
)
    requires
        k1 <= k2,
    ensures
        layer_witness(needed_l, needed_child, child_hashes, k1).len() <= layer_witness(
            needed_l,
            needed_child,
            child_hashes,
            k2,
        ).len(),
        layer_witness(needed_l, needed_child, child_hashes, k2).take(
            layer_witness(needed_l, needed_child, child_hashes, k1).len() as int,
        ) == layer_witness(needed_l, needed_child, child_hashes, k1),
    decreases k2 - k1,
{
    if k1 == k2 {
        assert(layer_witness(needed_l, needed_child, child_hashes, k1).take(
            layer_witness(needed_l, needed_child, child_hashes, k1).len() as int,
        ) =~= layer_witness(needed_l, needed_child, child_hashes, k1));
    } else {
        lemma_layer_witness_prefix(needed_l, needed_child, child_hashes, k1, (k2 - 1) as nat);
        let w1 = layer_witness(needed_l, needed_child, child_hashes, k1);
        let wp = layer_witness(needed_l, needed_child, child_hashes, (k2 - 1) as nat);
        let w2 = layer_witness(needed_l, needed_child, child_hashes, k2);
        assert(w2 == wp + node_witness(needed_child, child_hashes, needed_l[k2 - 1]));
        assert(w2.take(w1.len() as int) =~= wp.take(w1.len() as int));
    }
}

/// The witness of a deeper start extends the witness of a shallower one.
pub proof fn lemma_witness_upto_prefix<H: MerkleHasher>(
    cols: Seq<Seq<M31>>,
    queries: Seq<Seq<usize>>,
    max: nat,
    l1: nat,
    l2: nat,
)
    requires
        l2 <= l1,
    ensures
        witness_upto::<H>(cols, queries, max, l1).len() <= witness_upto::<H>(
            cols,
            queries,
            max,
            l2,
        ).len(),
        witness_upto::<H>(cols, queries, max, l2).take(
            witness_upto::<H>(cols, queries, max, l1).len() as int,
        ) == witness_upto::<H>(cols, queries, max, l1),
    decreases l1 - l2,
{
    if l1 == l2 {
        assert(witness_upto::<H>(cols, queries, max, l1).take(
            witness_upto::<H>(cols, queries, max, l1).len() as int,
        ) =~= witness_upto::<H>(cols, queries, max, l1));
    } else {
        lemma_witness_upto_prefix::<H>(cols, queries, max, l1, l2 + 1);
        let wu1 = witness_upto::<H>(cols, queries, max, l1);
        let wun = witness_upto::<H>(cols, queries, max, l2 + 1);
        let wu2 = witness_upto::<H>(cols, queries, max, l2);
        if l2 >= max {
            assert(wu2 == wun);
        } else {
            assert(wu2 == wun + layer_witness(
                needed_at(queries, max, l2),
                needed_at(queries, max, l2 + 1),
                layer_spec::<H>(cols, max, l2 + 1),
                needed_at(queries, max, l2).len(),
            ));
            assert(wu2.take(wun.len() as int) =~= wun);
            assert(wu2.take(wu1.len() as int) =~= wun.take(wu1.len() as int));
        }
    }
}

/// The honest revealed values give, at row cursor `k` of layer `l`, exactly
/// row `needed(l)[k]` of the columns anchored at `l`.
pub proof fn lemma_row_at_honest(
    cols: Seq<Seq<M31>>,
    queries: Seq<Seq<usize>>,
    logs: Seq<usize>,
    max: nat,
    l: nat,
    k: nat,
    i: usize,
)
    requires
        cols.len() == logs.len(),
        forall|j: int| 0 <= j < logs.len() ==> (#[trigger] logs[j]) as nat == col_log(cols[j]),
        cols_wf(cols),
        k < needed_at(queries, max, l).len(),
        needed_at(queries, max, l)[k as int] == i,
        (i as nat) < pow2(l),
    ensures
        row_at(queried_values_spec(cols, queries, max), logs, l, k) == Ok::<
            Seq<M31>,
            MerkleVerificationError,
        >(row_values(cols, l, i as int)),
    decreases cols.len(),
{
    let vs = queried_values_spec(cols, queries, max);
    if cols.len() == 0 {
        assert(vs.len() == 0);
        assert(row_values(cols, l, i as int) =~= Seq::<M31>::empty());
    } else {
        assert(forall|j: int|
            0 <= j < logs.len() - 1 ==> (#[trigger] logs.drop_last()[j]) == logs[j]);
        assert(forall|j: int|
            0 <= j < cols.len() - 1 ==> (#[trigger] cols.drop_last()[j]) == cols[j]);
        assert(cols_wf(cols.drop_last()));
        lemma_row_at_honest(cols.drop_last(), queries, logs.drop_last(), max, l, k, i);
        let vsd = queried_values_spec(cols.drop_last(), queries, max);
        assert(vs.drop_last() =~= vsd);
        assert(vs.last() == reveal_rows(
            cols[cols.len() - 1],
            needed_at(queries, max, col_log(cols[cols.len() - 1])),
        ));
        assert(logs.last() as nat == col_log(cols[cols.len() - 1]));
        if logs.last() as nat == l {
            assert(vs.last().len() == needed_at(queries, max, l).len());
            assert(vs.last()[k as int] == cols[cols.len() - 1][i as int]);
            assert(cols.last() == cols[cols.len() - 1]);
            assert(row_values(cols, l, i as int) == row_values(cols.drop_last(), l, i as int)
                + seq![cols.last()[i as int]]);
        } else {
            assert(row_values(cols, l, i as int) == row_values(cols.drop_last(), l, i as int));
        }
    }
}

/// Honest processing of the first `k` nodes of layer `l`: every child lookup
/// is answered by the reconstructed child layer or by the next witness entry,
/// and the reconstructed digests are exactly the tree's.
pub proof fn lemma_process_nodes_honest<H: MerkleHasher>(
    cols: Seq<Seq<M31>>,
    queries: Seq<Seq<usize>>,
    logs: Seq<usize>,
    max: nat,
    l: nat,
    k: nat,
)
    requires
        cols_wf(cols),
        cols.len() == logs.len(),
        forall|j: int| 0 <= j < logs.len() ==> (#[trigger] logs[j]) as nat == col_log(cols[j]),
        queries_wf(queries, max),
        l <= max,
        k <= needed_at(queries, max, l).len(),
    ensures
        process_nodes::<H>(
            needed_at(queries, max, l),
            if l == max {
                Seq::<usize>::empty()
            } else {
                needed_at(queries, max, l + 1)
            },
            if l == max {
                Seq::<Seq<u8>>::empty()
            } else {
                computed_spec::<H>(cols, queries, max, l + 1)
            },
            witness_upto::<H>(cols, queries, max, 0),
            witness_upto::<H>(cols, queries, max, l + 1).len(),
            queried_values_spec(cols, queries, max),
            logs,
            max,
            l,
            k,
        ) == Ok::<(Seq<Seq<u8>>, nat), MerkleVerificationError>(
            (
                computed_spec::<H>(cols, queries, max, l).take(k as int),
                witness_upto::<H>(cols, queries, max, l + 1).len() + (if l == max {
                    0
                } else {
                    layer_witness(
                        needed_at(queries, max, l),
                        needed_at(queries, max, l + 1),
                        layer_spec::<H>(cols, max, l + 1),
                        k,
                    ).len()
                }),
            ),
        ),
    decreases k,
{
    let nd = needed_at(queries, max, l);
    let ndc_s = if l == max {
        Seq::<usize>::empty()
    } else {
        needed_at(queries, max, l + 1)
    };
    let cviews = if l == max {
        Seq::<Seq<u8>>::empty()
    } else {
        computed_spec::<H>(cols, queries, max, l + 1)
    };
    let wfull = witness_upto::<H>(cols, queries, max, 0);
    let wstart = witness_upto::<H>(cols, queries, max, l + 1).len();
    let vs = queried_values_spec(cols, queries, max);
    let chs = layer_spec::<H>(cols, max, l + 1);
    lemma_needed_at_wf(queries, max, l);
    if k == 0 {
        assert(computed_spec::<H>(cols, queries, max, l).take(0) =~= Seq::<Seq<u8>>::empty());
    } else {
        lemma_process_nodes_honest::<H>(cols, queries, logs, max, l, (k - 1) as nat);
        let i = nd[k - 1];
        assert((i as nat) < pow2(l));
        lemma_row_at_honest(cols, queries, logs, max, l, (k - 1) as nat, i);
        let w_node: nat = wstart + (if l == max {
            0
        } else {
            layer_witness(nd, ndc_s, chs, (k - 1) as nat).len()
        });
        if l == max {
            assert(node_children(ndc_s, cviews, wfull, w_node, max, l, i) == Ok::<
                (Option<(Seq<u8>, Seq<u8>)>, nat),
                MerkleVerificationError,
            >((None, w_node)));
            assert(process_node::<H>(ndc_s, cviews, wfull, w_node, vs, logs, max, l, (k
                - 1) as nat, i) == Ok::<(Seq<u8>, nat), MerkleVerificationError>(
                (H::spec_hash_node(None, row_values(cols, l, i as int)), w_node),
            ));
            assert(H::spec_hash_node(None, row_values(cols, l, i as int)) == node_spec::<H>(
                cols,
                max,
                l,
                i as int,
            ));
            assert(computed_spec::<H>(cols, queries, max, l).take(k as int)
                =~= computed_spec::<H>(cols, queries, max, l).take(k - 1).push(
                node_spec::<H>(cols, max, l, i as int),
            ));
        } else {
            lemma_needed_at_wf(queries, max, l + 1);
            vstd::arithmetic::power2::lemma_pow2_adds(l, 1);
            vstd::arithmetic::power2::lemma2_to64();
            assert(pow2(l + 1) == 2 * pow2(l));
            let lw_prev = layer_witness(nd, ndc_s, chs, (k - 1) as nat);
            let lw_cur = layer_witness(nd, ndc_s, chs, k);
            let lw_full = layer_witness(nd, ndc_s, chs, nd.len());
            let nw = node_witness(ndc_s, chs, i);
            assert(lw_cur == lw_prev + nw);
            lemma_layer_witness_prefix(nd, ndc_s, chs, k, nd.len());
            lemma_layer_witness_prefix(nd, ndc_s, chs, (k - 1) as nat, nd.len());
            // the full stream holds this layer's witness right after `wstart`
            lemma_witness_upto_prefix::<H>(cols, queries, max, l, 0);
            let wu_l = witness_upto::<H>(cols, queries, max, l);
            assert(wu_l == witness_upto::<H>(cols, queries, max, l + 1) + lw_full);
            assert(wfull.take(wu_l.len() as int) == wu_l);
            assert forall|p: int| 0 <= p < lw_full.len() implies wfull[wstart + p]
                == lw_full[p] by {
                assert(wfull[wstart + p] == wfull.take(wu_l.len() as int)[wstart + p]);
                assert(wu_l[wstart + p] == lw_full[p]);
            }
            assert(wu_l.len() <= wfull.len());
            // left child
            let left_res = child_hash(ndc_s, cviews, wfull, w_node, 2 * i);
            let left_missing = first_index(ndc_s, 2 * i) is None;
            let w_mid: nat = if left_missing {
                w_node + 1
            } else {
                w_node
            };
            assert(nw == (if left_missing {
                seq![chs[2 * i]]
            } else {
                Seq::<Seq<u8>>::empty()
            }) + (if first_index(ndc_s, 2 * i + 1) is None {
                seq![chs[2 * i + 1]]
            } else {
                Seq::<Seq<u8>>::empty()
            }));
            if left_missing {
                assert(lw_full[lw_prev.len() as int] == lw_cur[lw_prev.len() as int]) by {
                    assert(lw_full.take(lw_cur.len() as int) == lw_cur);
                }
                assert(lw_cur[lw_prev.len() as int] == nw[0]);
                assert(nw[0] == chs[2 * i]);
                assert(w_node < wfull.len());
                assert(wfull[w_node as int] == chs[2 * i]);
                assert(left_res == Ok::<(Seq<u8>, nat), MerkleVerificationError>(
                    (chs[2 * i], w_mid),
                ));
            } else {
                let t = first_index(ndc_s, 2 * i)->Some_0;
                lemma_first_index(ndc_s, 2 * i);
                assert(cviews[t as int] == node_spec::<H>(
                    cols,
                    max,
                    l + 1,
                    ndc_s[t as int] as int,
                ));
                assert(ndc_s[t as int] as int == 2 * i);
                assert(cviews[t as int] == chs[2 * i]);
                assert(left_res == Ok::<(Seq<u8>, nat), MerkleVerificationError>(
                    (chs[2 * i], w_mid),
                ));
            }
            // right child
            let right_res = child_hash(ndc_s, cviews, wfull, w_mid, 2 * i + 1);
            let right_missing = first_index(ndc_s, 2 * i + 1) is None;
            let w_end: nat = if right_missing {
                w_mid + 1
            } else {
                w_mid
            };
            if right_missing {
                let p = lw_prev.len() + (if left_missing {
                    1int
                } else {
                    0int
                });
                assert(lw_full[p] == lw_cur[p]) by {
                    assert(lw_full.take(lw_cur.len() as int) == lw_cur);
                }
                assert(lw_cur[p] == nw[p - lw_prev.len()]);
                assert(nw[p - lw_prev.len()] == chs[2 * i + 1]);
                assert(w_mid < wfull.len());
                assert(wfull[w_mid as int] == chs[2 * i + 1]);
                assert(right_res == Ok::<(Seq<u8>, nat), MerkleVerificationError>(
                    (chs[2 * i + 1], w_end),
                ));
            } else {
                let t = first_index(ndc_s, 2 * i + 1)->Some_0;
                lemma_first_index(ndc_s, 2 * i + 1);
                assert(cviews[t as int] == node_spec::<H>(
                    cols,
                    max,
                    l + 1,
                    ndc_s[t as int] as int,
                ));
                assert(ndc_s[t as int] as int == 2 * i + 1);
                assert(cviews[t as int] == chs[2 * i + 1]);
                assert(right_res == Ok::<(Seq<u8>, nat), MerkleVerificationError>(
                    (chs[2 * i + 1], w_end),
                ));
            }
            assert(w_end == w_node + nw.len());
            assert(node_children(ndc_s, cviews, wfull, w_node, max, l, i) == Ok::<
                (Option<(Seq<u8>, Seq<u8>)>, nat),
                MerkleVerificationError,
            >((Some((chs[2 * i], chs[2 * i + 1])), w_end)));
            assert(chs[2 * i] == node_spec::<H>(cols, max, l + 1, 2 * i));
            assert(chs[2 * i + 1] == node_spec::<H>(cols, max, l + 1, 2 * i + 1));
            assert(H::spec_hash_node(
                Some((chs[2 * i], chs[2 * i + 1])),
                row_values(cols, l, i as int),
            ) == node_spec::<H>(cols, max, l, i as int));
            assert(process_node::<H>(ndc_s, cviews, wfull, w_node, vs, logs, max, l, (k
                - 1) as nat, i) == Ok::<(Seq<u8>, nat), MerkleVerificationError>(
                (node_spec::<H>(cols, max, l, i as int), w_end),
            ));
            assert(computed_spec::<H>(cols, queries, max, l).take(k as int)
                =~= computed_spec::<H>(cols, queries, max, l).take(k - 1).push(
                node_spec::<H>(cols, max, l, i as int),
            ));
            assert(wstart + lw_cur.len() == w_end);
        }
    }
}

/// Honest processing of layers `max` down to `l` reconstructs exactly the
/// tree's digests at layer `l` and consumes exactly that range's witness.
pub proof fn lemma_process_layers_honest<H: MerkleHasher>(
    cols: Seq<Seq<M31>>,
    queries: Seq<Seq<usize>>,
    logs: Seq<usize>,
    max: nat,
    l: nat,
)
    requires
        cols_wf(cols),
        cols.len() == logs.len(),
        forall|j: int| 0 <= j < logs.len() ==> (#[trigger] logs[j]) as nat == col_log(cols[j]),
        queries_wf(queries, max),
        l <= max,
    ensures
        process_layers::<H>(
            queries,
            queried_values_spec(cols, queries, max),
            logs,
            witness_upto::<H>(cols, queries, max, 0),
            max,
            l,
        ) == Ok::<(Seq<Seq<u8>>, nat), MerkleVerificationError>(
            (computed_spec::<H>(cols, queries, max, l), witness_upto::<H>(
                cols,
                queries,
                max,
                l,
            ).len()),
        ),
    decreases max - l,
{
    if l >= max {
        lemma_process_nodes_honest::<H>(
            cols,
            queries,
            logs,
            max,
            max,
            needed_at(queries, max, max).len(),
        );
        assert(computed_spec::<H>(cols, queries, max, max).take(
            needed_at(queries, max, max).len() as int,
        ) =~= computed_spec::<H>(cols, queries, max, max));
        assert(witness_upto::<H>(cols, queries, max, max + 1).len() == 0);
        assert(witness_upto::<H>(cols, queries, max, max).len() == 0);
    } else {
        lemma_process_layers_honest::<H>(cols, queries, logs, max, l + 1);
        lemma_process_nodes_honest::<H>(
            cols,
            queries,
            logs,
            max,
            l,
            needed_at(queries, max, l).len(),
        );
        assert(computed_spec::<H>(cols, queries, max, l).take(
            needed_at(queries, max, l).len() as int,
        ) =~= computed_spec::<H>(cols, queries, max, l));
        assert(witness_upto::<H>(cols, queries, max, l) == witness_upto::<H>(
            cols,
            queries,
            max,
            l + 1,
        ) + layer_witness(
            needed_at(queries, max, l),
            needed_at(queries, max, l + 1),
            layer_spec::<H>(cols, max, l + 1),
            needed_at(queries, max, l).len(),
        ));
    }
}

/// For any well-formed column set and query set, verifying an honest
/// decommitment against the committed root succeeds: the witness and the
/// revealed values are consumed exactly, and the reconstructed root is the
/// tree's root.
pub proof fn lemma_verify_decommit<H: MerkleHasher>(
    cols: Seq<Seq<M31>>,
    queries: Seq<Seq<usize>>,
    logs: Seq<usize>,
)
    requires
        cols_wf(cols),
        logs.len() == cols.len(),
        forall|j: int| 0 <= j < logs.len() ==> (#[trigger] logs[j]) as nat == col_log(cols[j]),
        queries_wf(queries, max_log(cols)),
    ensures
        verify_spec::<H>(
            root_spec::<H>(cols),
            logs,
            queries,
            queried_values_spec(cols, queries, max_log(cols)),
            witness_upto::<H>(cols, queries, max_log(cols), 0),
        ) == Ok::<(), MerkleVerificationError>(()),
{
    let max = max_log(cols);
    let vs = queried_values_spec(cols, queries, max);
    let wfull = witness_upto::<H>(cols, queries, max, 0);
    lemma_max_agree(cols, logs);
    lemma_process_layers_honest::<H>(cols, queries, logs, max, 0);
    // exact consumption: nothing is left over
    assert(!(witness_upto::<H>(cols, queries, max, 0).len() < wfull.len()));
    assert forall|j: int| 0 <= j < vs.len() implies !((#[trigger] vs[j]).len() > needed_at(
        queries,
        max,
        logs[j] as nat,
    ).len()) by {
        assert(vs[j] == reveal_rows(cols[j], needed_at(queries, max, col_log(cols[j]))));
        assert(logs[j] as nat == col_log(cols[j]));
    }
    // the reconstructed root is the tree's root
    lemma_needed_at_wf(queries, max, 0);
    let nd0 = needed_at(queries, max, 0);
    if nd0.len() > 0 {
        vstd::arithmetic::power2::lemma2_to64();
        assert(pow2(0) == 1);
        assert((nd0[0] as nat) < 1);
        assert(nd0[0] == 0);
        assert(computed_spec::<H>(cols, queries, max, 0)[0] == node_spec::<H>(cols, max, 0, 0));
    }
}

/// The end-to-end round trip: a verifier holding a committed tree's root and
/// its columns' log sizes accepts that tree's honest decommitment for any
/// well-formed query set.
pub proof fn lemma_prover_verifier_round_trip<H: MerkleHasher>(
    p: MerkleProver<H>,
    root: Seq<u8>,
    logs: Seq<usize>,
    cols: Seq<Seq<M31>>,
    queries: Seq<Seq<usize>>,
)
    requires
        cols_wf(cols),
        p.wf(cols),
        root == hashes_view(p.layers@[p.layers@.len() - 1]@)[0],
        logs.len() == cols.len(),
        forall|j: int| 0 <= j < logs.len() ==> (#[trigger] logs[j]) as nat == col_log(cols[j]),
        queries_wf(queries, max_log(cols)),
    ensures
        verify_spec::<H>(
            root,
            logs,
            queries,
            queried_values_spec(cols, queries, max_log(cols)),
            witness_upto::<H>(cols, queries, max_log(cols), 0),
        ) == Ok::<(), MerkleVerificationError>(()),
{
    let max = max_log(cols);
    vstd::arithmetic::power2::lemma2_to64();
    assert(pow2(0) == 1);
    assert(hashes_view(p.layers@[max as int]@) == layer_spec::<H>(cols, max, 0));
    assert(layer_spec::<H>(cols, max, 0)[0] == node_spec::<H>(cols, max, 0, 0));
    assert(root == root_spec::<H>(cols));
    lemma_verify_decommit::<H>(cols, queries, logs);
}

/// One child lookup on a stream of the same length succeeds with the same
/// cursor, whatever the stream holds.
pub proof fn lemma_child_hash_samelen(
    needed_child: Seq<usize>,
    computed1: Seq<Seq<u8>>,
    computed2: Seq<Seq<u8>>,
    w1: Seq<Seq<u8>>,
    w2: Seq<Seq<u8>>,
    w: nat,
    c: int,
)
    requires
        child_hash(needed_child, computed1, w1, w, c) is Ok,
        w2.len() == w1.len(),
    ensures
        child_hash(needed_child, computed2, w2, w, c) is Ok,
        child_hash(needed_child, computed2, w2, w, c)->Ok_0.1 == child_hash(
            needed_child,
            computed1,
            w1,
            w,
            c,
        )->Ok_0.1,
{
}

/// A node reconstruction on a stream of the same length succeeds with the
/// same cursor, whatever the stream and the child layer hold.
pub proof fn lemma_process_node_samelen<H: MerkleHasher>(
    needed_child: Seq<usize>,
    computed1: Seq<Seq<u8>>,
    computed2: Seq<Seq<u8>>,
    w1: Seq<Seq<u8>>,
    w2: Seq<Seq<u8>>,
    w: nat,
    values: Seq<Seq<M31>>,
    logs: Seq<usize>,
    max: nat,
    l: nat,
    k: nat,
    i: usize,
)
    requires
        process_node::<H>(needed_child, computed1, w1, w, values, logs, max, l, k, i) is Ok,
        w2.len() == w1.len(),
    ensures
        process_node::<H>(needed_child, computed2, w2, w, values, logs, max, l, k, i) is Ok,
        process_node::<H>(needed_child, computed2, w2, w, values, logs, max, l, k, i)->Ok_0.1
            == process_node::<H>(
            needed_child,
            computed1,
            w1,
            w,
            values,
            logs,
            max,
            l,
            k,
            i,
        )->Ok_0.1,
{
    if l >= max {
    } else {
        lemma_child_hash_samelen(needed_child, computed1, computed2, w1, w2, w, 2 * i);
        let wl = child_hash(needed_child, computed1, w1, w, 2 * i)->Ok_0.1;
        lemma_child_hash_samelen(needed_child, computed1, computed2, w1, w2, wl, 2 * i + 1);
    }
}

/// A layer prefix on a stream of the same length succeeds with the same
/// cursor, whatever the stream and the child layer hold.
pub proof fn lemma_process_nodes_samelen<H: MerkleHasher>(
    needed_l: Seq<usize>,
    needed_child: Seq<usize>,
    computed1: Seq<Seq<u8>>,
    computed2: Seq<Seq<u8>>,
    w1: Seq<Seq<u8>>,
    w2: Seq<Seq<u8>>,
    w0: nat,
    values: Seq<Seq<M31>>,
    logs: Seq<usize>,
    max: nat,
    l: nat,
    k: nat,
)
    requires
        process_nodes::<H>(
            needed_l,
            needed_child,
            computed1,
            w1,
            w0,
            values,
            logs,
            max,
            l,
            k,
        ) is Ok,
        w2.len() == w1.len(),
    ensures
        process_nodes::<H>(
            needed_l,
            needed_child,
            computed2,
            w2,
            w0,
            values,
            logs,
            max,
            l,
            k,
        ) is Ok,
        process_nodes::<H>(
            needed_l,
            needed_child,
            computed2,
            w2,
            w0,
            values,
            logs,
            max,
            l,
            k,
        )->Ok_0.1 == process_nodes::<H>(
            needed_l,
            needed_child,
            computed1,
            w1,
            w0,
            values,
            logs,
            max,
            l,
            k,
        )->Ok_0.1,
        process_nodes::<H>(
            needed_l,
            needed_child,
            computed2,
            w2,
            w0,
            values,
            logs,
            max,
            l,
            k,
        )->Ok_0.0.len() == k,
    decreases k,
{
    if k > 0 {
        lemma_process_nodes_samelen::<H>(
            needed_l,
            needed_child,
            computed1,
            computed2,
            w1,
            w2,
            w0,
            values,
            logs,
            max,
            l,
            (k - 1) as nat,
        );
        let w = process_nodes::<H>(
            needed_l,
            needed_child,
            computed1,
            w1,
            w0,
            values,
            logs,
            max,
            l,
            (k - 1) as nat,
        )->Ok_0.1;
        lemma_process_node_samelen::<H>(
            needed_child,
            computed1,
            computed2,
            w1,
            w2,
            w,
            values,
            logs,
            max,
            l,
            (k - 1) as nat,
            needed_l[k - 1],
        );
    }
}

/// Processing the layers on a stream of the same length succeeds with the
/// same final cursor, whatever the stream holds.
pub proof fn lemma_process_layers_samelen<H: MerkleHasher>(
    queries: Seq<Seq<usize>>,
    values: Seq<Seq<M31>>,
    logs: Seq<usize>,
    w1: Seq<Seq<u8>>,
    w2: Seq<Seq<u8>>,
    max: nat,
    l: nat,
)
    requires
        l <= max,
        process_layers::<H>(queries, values, logs, w1, max, l) is Ok,
        w2.len() == w1.len(),
    ensures
        process_layers::<H>(queries, values, logs, w2, max, l) is Ok,
        process_layers::<H>(queries, values, logs, w2, max, l)->Ok_0.1 == process_layers::<H>(
            queries,
            values,
            logs,
            w1,
            max,
            l,
        )->Ok_0.1,
        process_layers::<H>(queries, values, logs, w2, max, l)->Ok_0.0.len() == needed_at(
            queries,
            max,
            l,
        ).len(),
    decreases max - l,
{
    if l >= max {
        lemma_process_nodes_samelen::<H>(
            needed_at(queries, max, max),
            Seq::empty(),
            Seq::empty(),
            Seq::empty(),
            w1,
            w2,
            0,
            values,
            logs,
            max,
            max,
            needed_at(queries, max, max).len(),
        );
    } else {
        lemma_process_layers_samelen::<H>(queries, values, logs, w1, w2, max, l + 1);
        let cv1 = process_layers::<H>(queries, values, logs, w1, max, l + 1)->Ok_0.0;
        let cv2 = process_layers::<H>(queries, values, logs, w2, max, l + 1)->Ok_0.0;
        let w = process_layers::<H>(queries, values, logs, w1, max, l + 1)->Ok_0.1;
        lemma_process_nodes_samelen::<H>(
            needed_at(queries, max, l),
            needed_at(queries, max, l + 1),
            cv1,
            cv2,
            w1,
            w2,
            w,
            values,
            logs,
            max,
            l,
            needed_at(queries, max, l).len(),
        );
    }
}

/// Tampering with witness entries cannot fake a stream error: any witness of
/// the honest length, with the honest revealed values, drives the traversal
/// to completion, and the call returns success or `RootMismatch` alone.
pub proof fn lemma_tampered_witness_reaches_root<H: MerkleHasher>(
    cols: Seq<Seq<M31>>,
    queries: Seq<Seq<usize>>,
    logs: Seq<usize>,
    tampered: Seq<Seq<u8>>,
)
    requires
        cols_wf(cols),
        logs.len() == cols.len(),
        forall|j: int| 0 <= j < logs.len() ==> (#[trigger] logs[j]) as nat == col_log(cols[j]),
        queries_wf(queries, max_log(cols)),
        tampered.len() == witness_upto::<H>(cols, queries, max_log(cols), 0).len(),
    ensures
        verify_spec::<H>(
            root_spec::<H>(cols),
            logs,
            queries,
            queried_values_spec(cols, queries, max_log(cols)),
            tampered,
        ) == Ok::<(), MerkleVerificationError>(()) || verify_spec::<H>(
            root_spec::<H>(cols),
            logs,
            queries,
            queried_values_spec(cols, queries, max_log(cols)),
            tampered,
        ) == Err::<(), MerkleVerificationError>(MerkleVerificationError::RootMismatch),
{
    let max = max_log(cols);
    let wfull = witness_upto::<H>(cols, queries, max, 0);
    let vs = queried_values_spec(cols, queries, max);
    lemma_max_agree(cols, logs);
    lemma_process_layers_honest::<H>(cols, queries, logs, max, 0);
    lemma_process_layers_samelen::<H>(queries, vs, logs, wfull, tampered, max, 0);
    assert forall|j: int| 0 <= j < vs.len() implies !((#[trigger] vs[j]).len() > needed_at(
        queries,
        max,
        logs[j] as nat,
    ).len()) by {
        assert(vs[j] == reveal_rows(cols[j], needed_at(queries, max, col_log(cols[j]))));
        assert(logs[j] as nat == col_log(cols[j]));
    }
}

/// A row read succeeds whenever every column at its layer is long enough.
pub proof fn lemma_row_at_ok(values: Seq<Seq<M31>>, logs: Seq<usize>, l: nat, k: nat)
    requires
        values.len() == logs.len(),
        forall|j: int|
            0 <= j < values.len() && logs[j] as nat == l ==> k < (#[trigger] values[j]).len(),
    ensures
        row_at(values, logs, l, k) is Ok,
    decreases values.len(),
{
    if values.len() > 0 {
        assert(forall|j: int|
            0 <= j < values.len() - 1 ==> (#[trigger] values.drop_last()[j]) == values[j]);
        assert(forall|j: int|
            0 <= j < logs.len() - 1 ==> (#[trigger] logs.drop_last()[j]) == logs[j]);
        lemma_row_at_ok(values.drop_last(), logs.drop_last(), l, k);
        assert(values.last() == values[values.len() - 1]);
    }
}

/// A layer prefix whose rows all read successfully reconstructs successfully,
/// with a cursor independent of what the rows hold.
pub proof fn lemma_process_nodes_rows_ok<H: MerkleHasher>(
    needed_l: Seq<usize>,
    needed_child: Seq<usize>,
    computed1: Seq<Seq<u8>>,
    computed2: Seq<Seq<u8>>,
    witness: Seq<Seq<u8>>,
    w0: nat,
    vs1: Seq<Seq<M31>>,
    vs2: Seq<Seq<M31>>,
    logs: Seq<usize>,
    max: nat,
    l: nat,
    k: nat,
)
    requires
        process_nodes::<H>(
            needed_l,
            needed_child,
            computed1,
            witness,
            w0,
            vs1,
            logs,
            max,
            l,
            k,
        ) is Ok,
        forall|k2: nat| k2 < k ==> #[trigger] row_at(vs2, logs, l, k2) is Ok,
    ensures
        process_nodes::<H>(
            needed_l,
            needed_child,
            computed2,
            witness,
            w0,
            vs2,
            logs,
            max,
            l,
            k,
        ) is Ok,
        process_nodes::<H>(
            needed_l,
            needed_child,
            computed2,
            witness,
            w0,
            vs2,
            logs,
            max,
            l,
            k,
        )->Ok_0.1 == process_nodes::<H>(
            needed_l,
            needed_child,
            computed1,
            witness,
            w0,
            vs1,
            logs,
            max,
            l,
            k,
        )->Ok_0.1,
    decreases k,
{
    if k > 0 {
        lemma_process_nodes_rows_ok::<H>(
            needed_l,
            needed_child,
            computed1,
            computed2,
            witness,
            w0,
            vs1,
            vs2,
            logs,
            max,
            l,
            (k - 1) as nat,
        );
        let w = process_nodes::<H>(
            needed_l,
            needed_child,
            computed1,
            witness,
            w0,
            vs1,
            logs,
            max,
            l,
            (k - 1) as nat,
        )->Ok_0.1;
        assert(row_at(vs2, logs, l, (k - 1) as nat) is Ok);
        lemma_process_node_samelen::<H>(
            needed_child,
            computed1,
            computed2,
            witness,
            witness,
            w,
            vs1,
            logs,
            max,
            l,
            (k - 1) as nat,
            needed_l[k - 1],
        );
    }
}

/// Processing the layers on revealed values whose rows all read successfully
/// reconstructs successfully, with the same witness consumption.
pub proof fn lemma_process_layers_rows_ok<H: MerkleHasher>(
    queries: Seq<Seq<usize>>,
    vs1: Seq<Seq<M31>>,
    vs2: Seq<Seq<M31>>,
    logs: Seq<usize>,
    witness: Seq<Seq<u8>>,
    max: nat,
    l: nat,
)
    requires
        l <= max,
        process_layers::<H>(queries, vs1, logs, witness, max, l) is Ok,
        forall|l2: nat, k2: nat|
            l <= l2 <= max && k2 < needed_at(queries, max, l2).len() ==> #[trigger] row_at(
                vs2,
                logs,
                l2,
                k2,
            ) is Ok,
    ensures
        process_layers::<H>(queries, vs2, logs, witness, max, l) is Ok,
        process_layers::<H>(queries, vs2, logs, witness, max, l)->Ok_0.1 == process_layers::<H>(
            queries,
            vs1,
            logs,
            witness,
            max,
            l,
        )->Ok_0.1,
    decreases max - l,
{
    if l >= max {
        assert forall|k2: nat| k2 < needed_at(queries, max, max).len() implies #[trigger] row_at(
            vs2,
            logs,
            max,
            k2,
        ) is Ok by {
            assert(row_at(vs2, logs, l, k2) is Ok);
        }
        lemma_process_nodes_rows_ok::<H>(
            needed_at(queries, max, max),
            Seq::empty(),
            Seq::empty(),
            Seq::empty(),
            witness,
            0,
            vs1,
            vs2,
            logs,
            max,
            max,
            needed_at(queries, max, max).len(),
        );
    } else {
        lemma_process_layers_rows_ok::<H>(queries, vs1, vs2, logs, witness, max, l + 1);
        let cv1 = process_layers::<H>(queries, vs1, logs, witness, max, l + 1)->Ok_0.0;
        let cv2 = process_layers::<H>(queries, vs2, logs, witness, max, l + 1)->Ok_0.0;
        let w = process_layers::<H>(queries, vs1, logs, witness, max, l + 1)->Ok_0.1;
        lemma_process_nodes_rows_ok::<H>(
            needed_at(queries, max, l),
            needed_at(queries, max, l + 1),
            cv1,
            cv2,
            witness,
            w,
            vs1,
            vs2,
            logs,
            max,
            l,
            needed_at(queries, max, l).len(),
        );
    }
}

/// Tampering with revealed values cannot fake a stream error: any revealed
/// values of the honest per-column lengths, with the honest witness, drive
/// the traversal to completion, and the call returns success or
/// `RootMismatch` alone.
pub proof fn lemma_tampered_values_reach_root<H: MerkleHasher>(
    cols: Seq<Seq<M31>>,
    queries: Seq<Seq<usize>>,
    logs: Seq<usize>,
    tampered: Seq<Seq<M31>>,
)
    requires
        cols_wf(cols),
        logs.len() == cols.len(),
        forall|j: int| 0 <= j < logs.len() ==> (#[trigger] logs[j]) as nat == col_log(cols[j]),
        queries_wf(queries, max_log(cols)),
        tampered.len() == cols.len(),
        forall|j: int|
            0 <= j < tampered.len() ==> (#[trigger] tampered[j]).len() == needed_at(
                queries,
                max_log(cols),
                col_log(cols[j]),
            ).len(),
    ensures
        verify_spec::<H>(
            root_spec::<H>(cols),
            logs,
            queries,
            tampered,
            witness_upto::<H>(cols, queries, max_log(cols), 0),
        ) == Ok::<(), MerkleVerificationError>(()) || verify_spec::<H>(
            root_spec::<H>(cols),
            logs,
            queries,
            tampered,
            witness_upto::<H>(cols, queries, max_log(cols), 0),
        ) == Err::<(), MerkleVerificationError>(MerkleVerificationError::RootMismatch),
{
    let max = max_log(cols);
    let wfull = witness_upto::<H>(cols, queries, max, 0);
    let vs = queried_values_spec(cols, queries, max);
    lemma_max_agree(cols, logs);
    lemma_process_layers_honest::<H>(cols, queries, logs, max, 0);
    assert forall|l2: nat, k2: nat|
        0 <= l2 <= max && k2 < needed_at(queries, max, l2).len() implies #[trigger] row_at(
        tampered,
        logs,
        l2,
        k2,
    ) is Ok by {
        assert forall|j: int|
            0 <= j < tampered.len() && logs[j] as nat == l2 implies k2 < (
        #[trigger] tampered[j]).len() by {
            assert(tampered[j].len() == needed_at(queries, max, col_log(cols[j])).len());
        }
        lemma_row_at_ok(tampered, logs, l2, k2);
    }
    lemma_process_layers_rows_ok::<H>(queries, vs, tampered, logs, wfull, max, 0);
    assert forall|j: int| 0 <= j < tampered.len() implies !((#[trigger] tampered[j]).len()
        > needed_at(queries, max, logs[j] as nat).len()) by {
        assert(logs[j] as nat == col_log(cols[j]));
    }
}

/// Committing the same columns twice yields the same layers and the same
/// root: a committed tree is determined by the columns alone.
pub proof fn lemma_commit_deterministic<H: MerkleHasher>(
    p1: MerkleProver<H>,
    p2: MerkleProver<H>,
    cols: Seq<Seq<M31>>,
)
    requires
        p1.wf(cols),
        p2.wf(cols),
    ensures
        p1.layers@.len() == p2.layers@.len(),
        forall|k: int|
            0 <= k < p1.layers@.len() ==> hashes_view(#[trigger] p1.layers@[k]@) == hashes_view(
                p2.layers@[k]@,
            ),
        hashes_view(p1.layers@[p1.layers@.len() - 1]@)[0] == root_spec::<H>(cols),
        hashes_view(p2.layers@[p2.layers@.len() - 1]@)[0] == root_spec::<H>(cols),
{
    let max = max_log(cols);
    vstd::arithmetic::power2::lemma2_to64();
    assert(pow2(0) == 1);
    assert(hashes_view(p1.layers@[max as int]@) == layer_spec::<H>(cols, max, 0));
    assert(layer_spec::<H>(cols, max, 0)[0] == node_spec::<H>(cols, max, 0, 0));
}

/// Replaying identical transcript operations on two channels in the same
/// state gives identical results: every operation's outcome is a pure
/// function of the digest state and the absorbed data, so independently
/// constructed channels that absorb the same data draw the same values.
pub proof fn lemma_channel_replay(d1: Seq<u8>, d2: Seq<u8>, felts: Seq<QM31>, nonce: u64, n: nat)
    requires
        d1 == d2,
    ensures
        mix_felts_spec(d1, felts) == mix_felts_spec(d2, felts),
        mix_nonce_spec(d1, nonce) == mix_nonce_spec(d2, nonce),
        draw_felt_spec(d1) == draw_felt_spec(d2),
        draw_felts_spec(d1, n) == draw_felts_spec(d2, n),
        draw_bytes_spec(d1) == draw_bytes_spec(d2),
        trailing_zeros_spec(d1) == trailing_zeros_spec(d2),
{
}

/// A successful node reconstruction never moves the witness cursor backwards,
/// and by at most two entries.
pub proof fn lemma_process_node_monotone<H: MerkleHasher>(
    needed_child: Seq<usize>,
    computed_child: Seq<Seq<u8>>,
    witness: Seq<Seq<u8>>,
    w: nat,
    values: Seq<Seq<M31>>,
    logs: Seq<usize>,
    max: nat,
    l: nat,
    k: nat,
    i: usize,
)
    requires
        process_node::<H>(
            needed_child,
            computed_child,
            witness,
            w,
            values,
            logs,
            max,
            l,
            k,
            i,
        ) is Ok,
    ensures
        ({
            let w2 = process_node::<H>(
                needed_child,
                computed_child,
                witness,
                w,
                values,
                logs,
                max,
                l,
                k,
                i,
            )->Ok_0.1;
            w <= w2 <= w + 2 && (w2 > w ==> w2 <= witness.len())
        }),
{
}

/// A successful layer prefix never moves the witness cursor backwards.
pub proof fn lemma_process_nodes_monotone<H: MerkleHasher>(
    needed_l: Seq<usize>,
    needed_child: Seq<usize>,
    computed_child: Seq<Seq<u8>>,
    witness: Seq<Seq<u8>>,
    w0: nat,
    values: Seq<Seq<M31>>,
    logs: Seq<usize>,
    max: nat,
    l: nat,
    k: nat,
)
    requires
        process_nodes::<H>(
            needed_l,
            needed_child,
            computed_child,
            witness,
            w0,
            values,
            logs,
            max,
            l,
            k,
        ) is Ok,
    ensures
        w0 <= process_nodes::<H>(
            needed_l,
            needed_child,
            computed_child,
            witness,
            w0,
            values,
            logs,
            max,
            l,
            k,
        )->Ok_0.1,
    decreases k,
{
    if k > 0 {
        lemma_process_nodes_monotone::<H>(
            needed_l,
            needed_child,
            computed_child,
            witness,
            w0,
            values,
            logs,
            max,
            l,
            (k - 1) as nat,
        );
        let w = process_nodes::<H>(
            needed_l,
            needed_child,
            computed_child,
            witness,
            w0,
            values,
            logs,
            max,
            l,
            (k - 1) as nat,
        )->Ok_0.1;
        lemma_process_node_monotone::<H>(
            needed_child,
            computed_child,
            witness,
            w,
            values,
            logs,
            max,
            l,
            (k - 1) as nat,
            needed_l[k - 1],
        );
    }
}

/// One child lookup behaves the same on a stream with the same first `m`
/// entries, as long as the cursor stays within them; a pull past a stream cut
/// at `m` runs dry.
pub proof fn lemma_child_hash_stream(
    needed_child: Seq<usize>,
    computed_child: Seq<Seq<u8>>,
    w1: Seq<Seq<u8>>,
    w2: Seq<Seq<u8>>,
    w: nat,
    m: nat,
    c: int,
)
    requires
        child_hash(needed_child, computed_child, w1, w, c) is Ok,
        w2.take(m as int) == w1.take(m as int),
        m <= w1.len(),
        m <= w2.len(),
        w <= m,
    ensures
        ({
            let (h, wn) = child_hash(needed_child, computed_child, w1, w, c)->Ok_0;
            &&& wn <= m ==> child_hash(needed_child, computed_child, w2, w, c) == child_hash(
                needed_child,
                computed_child,
                w1,
                w,
                c,
            )
            &&& (wn > m && w2.len() == m) ==> child_hash(needed_child, computed_child, w2, w, c)
                == Err::<(Seq<u8>, nat), MerkleVerificationError>(
                MerkleVerificationError::WitnessTooShort,
            )
        }),
{
    let (h, wn) = child_hash(needed_child, computed_child, w1, w, c)->Ok_0;
    match first_index(needed_child, c) {
        Some(_) => {},
        None => {
            if wn <= m {
                assert(w < m);
                assert(w2.take(m as int)[w as int] == w1.take(m as int)[w as int]);
                assert(w2[w as int] == w1[w as int]);
                assert(w < w2.len()) by {
                    assert(w2.take(m as int).len() == m);
                }
            }
        },
    }
}

/// One node reconstruction behaves the same on a stream with the same first
/// `m` entries while the cursor stays within them, and runs dry on a stream
/// cut at `m` the moment it would pull past the cut.
pub proof fn lemma_process_node_stream<H: MerkleHasher>(
    needed_child: Seq<usize>,
    computed_child: Seq<Seq<u8>>,
    w1: Seq<Seq<u8>>,
    w2: Seq<Seq<u8>>,
    w: nat,
    m: nat,
    values: Seq<Seq<M31>>,
    logs: Seq<usize>,
    max: nat,
    l: nat,
    k: nat,
    i: usize,
)
    requires
        process_node::<H>(needed_child, computed_child, w1, w, values, logs, max, l, k, i) is Ok,
        w2.take(m as int) == w1.take(m as int),
        m <= w1.len(),
        m <= w2.len(),
        w <= m,
    ensures
        ({
            let (h, wn) = process_node::<H>(
                needed_child,
                computed_child,
                w1,
                w,
                values,
                logs,
                max,
                l,
                k,
                i,
            )->Ok_0;
            &&& wn <= m ==> process_node::<H>(
                needed_child,
                computed_child,
                w2,
                w,
                values,
                logs,
                max,
                l,
                k,
                i,
            ) == process_node::<H>(needed_child, computed_child, w1, w, values, logs, max, l, k, i)
            &&& (wn > m && w2.len() == m) ==> process_node::<H>(
                needed_child,
                computed_child,
                w2,
                w,
                values,
                logs,
                max,
                l,
                k,
                i,
            ) == Err::<(Seq<u8>, nat), MerkleVerificationError>(
                MerkleVerificationError::WitnessTooShort,
            )
        }),
{
    if l >= max {
    } else {
        let left = child_hash(needed_child, computed_child, w1, w, 2 * i);
        assert(left is Ok);
        let (lh, wl) = left->Ok_0;
        lemma_child_hash_stream(needed_child, computed_child, w1, w2, w, m, 2 * i);
        assert(wl <= w + 1);
        let right = child_hash(needed_child, computed_child, w1, wl, 2 * i + 1);
        assert(right is Ok);
        let (rh, wr) = right->Ok_0;
        if wl <= m {
            lemma_child_hash_stream(needed_child, computed_child, w1, w2, wl, m, 2 * i + 1);
        }
    }
}

/// A layer prefix behaves the same on a stream with the same first `m`
/// entries while the cursor stays within them, and runs dry on a stream cut
/// at `m` the moment it would pull past the cut.
pub proof fn lemma_process_nodes_stream<H: MerkleHasher>(
    needed_l: Seq<usize>,
    needed_child: Seq<usize>,
    computed_child: Seq<Seq<u8>>,
    w1: Seq<Seq<u8>>,
    w2: Seq<Seq<u8>>,
    w0: nat,
    m: nat,
    values: Seq<Seq<M31>>,
    logs: Seq<usize>,
    max: nat,
    l: nat,
    k: nat,
)
    requires
        process_nodes::<H>(
            needed_l,
            needed_child,
            computed_child,
            w1,
            w0,
            values,
            logs,
            max,
            l,
            k,
        ) is Ok,
        w2.take(m as int) == w1.take(m as int),
        m <= w1.len(),
        m <= w2.len(),
        w0 <= m,
    ensures
        ({
            let (hs, w) = process_nodes::<H>(
                needed_l,
                needed_child,
                computed_child,
                w1,
                w0,
                values,
                logs,
                max,
                l,
                k,
            )->Ok_0;
            &&& w <= m ==> process_nodes::<H>(
                needed_l,
                needed_child,
                computed_child,
                w2,
                w0,
                values,
                logs,
                max,
                l,
                k,
            ) == process_nodes::<H>(
                needed_l,
                needed_child,
                computed_child,
                w1,
                w0,
                values,
                logs,
                max,
                l,
                k,
            )
            &&& (w > m && w2.len() == m) ==> process_nodes::<H>(
                needed_l,
                needed_child,
                computed_child,
                w2,
                w0,
                values,
                logs,
                max,
                l,
                k,
            ) == Err::<(Seq<Seq<u8>>, nat), MerkleVerificationError>(
                MerkleVerificationError::WitnessTooShort,
            )
        }),
    decreases k,
{
    if k > 0 {
        lemma_process_nodes_stream::<H>(
            needed_l,
            needed_child,
            computed_child,
            w1,
            w2,
            w0,
            m,
            values,
            logs,
            max,
            l,
            (k - 1) as nat,
        );
        let (hs_p, w_p) = process_nodes::<H>(
            needed_l,
            needed_child,
            computed_child,
            w1,
            w0,
            values,
            logs,
            max,
            l,
            (k - 1) as nat,
        )->Ok_0;
        lemma_process_node_monotone::<H>(
            needed_child,
            computed_child,
            w1,
            w_p,
            values,
            logs,
            max,
            l,
            (k - 1) as nat,
            needed_l[k - 1],
        );
        let (h, w) = process_node::<H>(
            needed_child,
            computed_child,
            w1,
            w_p,
            values,
            logs,
            max,
            l,
            (k - 1) as nat,
            needed_l[k - 1],
        )->Ok_0;
        if w_p <= m {
            lemma_process_node_stream::<H>(
                needed_child,
                computed_child,
                w1,
                w2,
                w_p,
                m,
                values,
                logs,
                max,
                l,
                (k - 1) as nat,
                needed_l[k - 1],
            );
        } else {
            // the prefix already overran the cut
            lemma_process_nodes_monotone::<H>(
                needed_l,
                needed_child,
                computed_child,
                w1,
                w0,
                values,
                logs,
                max,
                l,
                (k - 1) as nat,
            );
        }
    }
}

/// Processing the layers behaves the same on a stream with the same first `m`
/// entries while the cursor stays within them, and runs dry on a stream cut
/// at `m` the moment it would pull past the cut.
pub proof fn lemma_process_layers_stream<H: MerkleHasher>(
    queries: Seq<Seq<usize>>,
    values: Seq<Seq<M31>>,
    logs: Seq<usize>,
    w1: Seq<Seq<u8>>,
    w2: Seq<Seq<u8>>,
    m: nat,
    max: nat,
    l: nat,
)
    requires
        process_layers::<H>(queries, values, logs, w1, max, l) is Ok,
        w2.take(m as int) == w1.take(m as int),
        m <= w1.len(),
        m <= w2.len(),
    ensures
        ({
            let (c, w) = process_layers::<H>(queries, values, logs, w1, max, l)->Ok_0;
            &&& w <= m ==> process_layers::<H>(queries, values, logs, w2, max, l)
                == process_layers::<H>(queries, values, logs, w1, max, l)
            &&& (w > m && w2.len() == m) ==> process_layers::<H>(queries, values, logs, w2, max, l)
                == Err::<(Seq<Seq<u8>>, nat), MerkleVerificationError>(
                MerkleVerificationError::WitnessTooShort,
            )
        }),
    decreases max - l,
{
    if l >= max {
        lemma_process_nodes_stream::<H>(
            needed_at(queries, max, max),
            Seq::empty(),
            Seq::empty(),
            w1,
            w2,
            0,
            m,
            values,
            logs,
            max,
            max,
            needed_at(queries, max, max).len(),
        );
    } else {
        lemma_process_layers_stream::<H>(queries, values, logs, w1, w2, m, max, l + 1);
        let (cv, w_up) = process_layers::<H>(queries, values, logs, w1, max, l + 1)->Ok_0;
        let nd = needed_at(queries, max, l);
        if w_up <= m {
            lemma_process_nodes_stream::<H>(
                nd,
                needed_at(queries, max, l + 1),
                cv,
                w1,
                w2,
                w_up,
                m,
                values,
                logs,
                max,
                l,
                nd.len(),
            );
        } else {
            lemma_process_nodes_monotone::<H>(
                nd,
                needed_at(queries, max, l + 1),
                cv,
                w1,
                w_up,
                values,
                logs,
                max,
                l,
                nd.len(),
            );
        }
    }
}

/// Dropping the last witness entry of an honest decommitment makes the
/// verifier run dry: it rejects with `WitnessTooShort` before any root
/// comparison.
pub proof fn lemma_witness_too_short<H: MerkleHasher>(
    cols: Seq<Seq<M31>>,
    queries: Seq<Seq<usize>>,
    logs: Seq<usize>,
)
    requires
        cols_wf(cols),
        logs.len() == cols.len(),
        forall|j: int| 0 <= j < logs.len() ==> (#[trigger] logs[j]) as nat == col_log(cols[j]),
        queries_wf(queries, max_log(cols)),
        witness_upto::<H>(cols, queries, max_log(cols), 0).len() > 0,
    ensures
        verify_spec::<H>(
            root_spec::<H>(cols),
            logs,
            queries,
            queried_values_spec(cols, queries, max_log(cols)),
            witness_upto::<H>(cols, queries, max_log(cols), 0).drop_last(),
        ) == Err::<(), MerkleVerificationError>(MerkleVerificationError::WitnessTooShort),
{
    let max = max_log(cols);
    let wfull = witness_upto::<H>(cols, queries, max, 0);
    let cut = wfull.drop_last();
    let m = (wfull.len() - 1) as nat;
    lemma_max_agree(cols, logs);
    lemma_process_layers_honest::<H>(cols, queries, logs, max, 0);
    assert(cut.take(m as int) =~= wfull.take(m as int));
    assert(cut.len() == m);
    lemma_process_layers_stream::<H>(
        queries,
        queried_values_spec(cols, queries, max),
        logs,
        wfull,
        cut,
        m,
        max,
        0,
    );
}

/// Appending an extra entry to an honest witness leaves the traversal intact
/// but the stream unconsumed: the verifier rejects with `WitnessTooLong`.
pub proof fn lemma_witness_too_long<H: MerkleHasher>(
    cols: Seq<Seq<M31>>,
    queries: Seq<Seq<usize>>,
    logs: Seq<usize>,
    extra: Seq<u8>,
)
    requires
        cols_wf(cols),
        logs.len() == cols.len(),
        forall|j: int| 0 <= j < logs.len() ==> (#[trigger] logs[j]) as nat == col_log(cols[j]),
        queries_wf(queries, max_log(cols)),
    ensures
        verify_spec::<H>(
            root_spec::<H>(cols),
            logs,
            queries,
            queried_values_spec(cols, queries, max_log(cols)),
            witness_upto::<H>(cols, queries, max_log(cols), 0).push(extra),
        ) == Err::<(), MerkleVerificationError>(MerkleVerificationError::WitnessTooLong),
{
    let max = max_log(cols);
    let wfull = witness_upto::<H>(cols, queries, max, 0);
    let long = wfull.push(extra);
    let m = wfull.len();
    lemma_max_agree(cols, logs);
    lemma_process_layers_honest::<H>(cols, queries, logs, max, 0);
    assert(long.take(m as int) =~= wfull.take(m as int));
    lemma_process_layers_stream::<H>(
        queries,
        queried_values_spec(cols, queries, max),
        logs,
        wfull,
        long,
        m,
        max,
        0,
    );
}

/// Replacing one column's value list does not change a row whose layer skips
/// the column, nor one that reads an entry the replacement kept.
pub proof fn lemma_row_at_update(
    vs1: Seq<Seq<M31>>,
    vs2: Seq<Seq<M31>>,
    logs: Seq<usize>,
    j: int,
    l: nat,
    k: nat,
)
    requires
        vs1.len() == logs.len(),
        0 <= j < vs1.len(),
        vs2 == vs1.update(j, vs2[j]),
        logs[j] as nat == l ==> k < vs2[j].len() && k < vs1[j].len() && vs2[j][k as int]
            == vs1[j][k as int],
    ensures
        row_at(vs2, logs, l, k) == row_at(vs1, logs, l, k),
    decreases vs1.len(),
{
    if vs1.len() == 0 {
    } else {
        assert(vs2.len() == vs1.len());
        let t = vs1.len() - 1;
        if j == t {
            assert(vs2.drop_last() =~= vs1.drop_last());
            if logs[j] as nat == l {
                assert(vs2.last()[k as int] == vs1.last()[k as int]);
                assert(k < vs2.last().len() && k < vs1.last().len());
            } else {
                assert(vs2.last() == vs2[j]);
            }
        } else {
            assert(vs2.last() == vs1.last());
            assert(vs2.drop_last() =~= vs1.drop_last().update(j, vs2[j]));
            assert(vs2.drop_last()[j] == vs2[j]);
            assert(forall|u: int|
                0 <= u < logs.len() - 1 ==> (#[trigger] logs.drop_last()[u]) == logs[u]);
            lemma_row_at_update(vs1.drop_last(), vs2.drop_last(), logs.drop_last(), j, l, k);
        }
    }
}

/// Cutting one column of a passing row below the cursor makes the row reject
/// with `ColumnValuesTooShort`.
pub proof fn lemma_row_at_cut(
    vs1: Seq<Seq<M31>>,
    vs2: Seq<Seq<M31>>,
    logs: Seq<usize>,
    j: int,
    l: nat,
    k: nat,
)
    requires
        vs1.len() == logs.len(),
        0 <= j < vs1.len(),
        vs2 == vs1.update(j, vs2[j]),
        logs[j] as nat == l,
        k >= vs2[j].len(),
        row_at(vs1, logs, l, k) is Ok,
    ensures
        row_at(vs2, logs, l, k) == Err::<Seq<M31>, MerkleVerificationError>(
            MerkleVerificationError::ColumnValuesTooShort,
        ),
    decreases vs1.len(),
{
    assert(vs2.len() == vs1.len());
    let t = vs1.len() - 1;
    if j == t {
        assert(vs2.drop_last() =~= vs1.drop_last());
        assert(row_at(vs1.drop_last(), logs.drop_last(), l, k) is Ok);
        assert(vs2.last() == vs2[j]);
    } else {
        assert(vs2.last() == vs1.last());
        assert(vs2.drop_last() =~= vs1.drop_last().update(j, vs2[j]));
        assert(vs2.drop_last()[j] == vs2[j]);
        assert(forall|u: int|
            0 <= u < logs.len() - 1 ==> (#[trigger] logs.drop_last()[u]) == logs[u]);
        assert(row_at(vs1.drop_last(), logs.drop_last(), l, k) is Ok);
        lemma_row_at_cut(vs1.drop_last(), vs2.drop_last(), logs.drop_last(), j, l, k);
    }
}

/// A layer prefix depends on the revealed values only through its own rows.
pub proof fn lemma_process_nodes_values<H: MerkleHasher>(
    needed_l: Seq<usize>,
    needed_child: Seq<usize>,
    computed_child: Seq<Seq<u8>>,
    witness: Seq<Seq<u8>>,
    w0: nat,
    vs1: Seq<Seq<M31>>,
    vs2: Seq<Seq<M31>>,
    logs: Seq<usize>,
    max: nat,
    l: nat,
    k: nat,
)
    requires
        forall|k2: nat|
            k2 < k ==> #[trigger] row_at(vs2, logs, l, k2) == row_at(vs1, logs, l, k2),
    ensures
        process_nodes::<H>(
            needed_l,
            needed_child,
            computed_child,
            witness,
            w0,
            vs2,
            logs,
            max,
            l,
            k,
        ) == process_nodes::<H>(
            needed_l,
            needed_child,
            computed_child,
            witness,
            w0,
            vs1,
            logs,
            max,
            l,
            k,
        ),
    decreases k,
{
    if k > 0 {
        lemma_process_nodes_values::<H>(
            needed_l,
            needed_child,
            computed_child,
            witness,
            w0,
            vs1,
            vs2,
            logs,
            max,
            l,
            (k - 1) as nat,
        );
        assert(row_at(vs2, logs, l, (k - 1) as nat) == row_at(vs1, logs, l, (k - 1) as nat));
    }
}

/// Processing layers `max` down to `l` depends on the revealed values only
/// through the rows it reads.
pub proof fn lemma_process_layers_values<H: MerkleHasher>(
    queries: Seq<Seq<usize>>,
    vs1: Seq<Seq<M31>>,
    vs2: Seq<Seq<M31>>,
    logs: Seq<usize>,
    witness: Seq<Seq<u8>>,
    max: nat,
    l: nat,
)
    requires
        l <= max,
        forall|l2: nat, k2: nat|
            l <= l2 <= max && k2 < needed_at(queries, max, l2).len() ==> #[trigger] row_at(
                vs2,
                logs,
                l2,
                k2,
            ) == row_at(vs1, logs, l2, k2),
    ensures
        process_layers::<H>(queries, vs2, logs, witness, max, l) == process_layers::<H>(
            queries,
            vs1,
            logs,
            witness,
            max,
            l,
        ),
    decreases max - l,
{
    if l >= max {
        assert forall|k2: nat| k2 < needed_at(queries, max, max).len() implies #[trigger] row_at(
            vs2,
            logs,
            max,
            k2,
        ) == row_at(vs1, logs, max, k2) by {
            assert(row_at(vs2, logs, l, k2) == row_at(vs1, logs, l, k2));
        }
        lemma_process_nodes_values::<H>(
            needed_at(queries, max, max),
            Seq::empty(),
            Seq::empty(),
            witness,
            0,
            vs1,
            vs2,
            logs,
            max,
            max,
            needed_at(queries, max, max).len(),
        );
    } else {
        lemma_process_layers_values::<H>(queries, vs1, vs2, logs, witness, max, l + 1);
        match process_layers::<H>(queries, vs1, logs, witness, max, l + 1) {
            Err(_) => {},
            Ok((cv, w)) => {
                lemma_process_nodes_values::<H>(
                    needed_at(queries, max, l),
                    needed_at(queries, max, l + 1),
                    cv,
                    witness,
                    w,
                    vs1,
                    vs2,
                    logs,
                    max,
                    l,
                    needed_at(queries, max, l).len(),
                );
            },
        }
    }
}

/// Appending an extra value to one column of an honest decommitment leaves
/// the traversal intact but the column unconsumed: the verifier rejects with
/// `ColumnValuesTooLong`.
pub proof fn lemma_column_values_too_long<H: MerkleHasher>(
    cols: Seq<Seq<M31>>,
    queries: Seq<Seq<usize>>,
    logs: Seq<usize>,
    j: int,
    extra: M31,
)
    requires
        cols_wf(cols),
        logs.len() == cols.len(),
        forall|t: int| 0 <= t < logs.len() ==> (#[trigger] logs[t]) as nat == col_log(cols[t]),
        queries_wf(queries, max_log(cols)),
        0 <= j < cols.len(),
    ensures
        verify_spec::<H>(
            root_spec::<H>(cols),
            logs,
            queries,
            queried_values_spec(cols, queries, max_log(cols)).update(
                j,
                queried_values_spec(cols, queries, max_log(cols))[j].push(extra),
            ),
            witness_upto::<H>(cols, queries, max_log(cols), 0),
        ) == Err::<(), MerkleVerificationError>(MerkleVerificationError::ColumnValuesTooLong),
{
    let max = max_log(cols);
    let vs1 = queried_values_spec(cols, queries, max);
    let vs2 = vs1.update(j, vs1[j].push(extra));
    let wfull = witness_upto::<H>(cols, queries, max, 0);
    lemma_max_agree(cols, logs);
    lemma_process_layers_honest::<H>(cols, queries, logs, max, 0);
    assert(vs2[j] == vs1[j].push(extra));
    assert forall|l2: nat, k2: nat|
        0 <= l2 <= max && k2 < needed_at(queries, max, l2).len() implies #[trigger] row_at(
        vs2,
        logs,
        l2,
        k2,
    ) == row_at(vs1, logs, l2, k2) by {
        if logs[j] as nat == l2 {
            assert(vs1[j] == reveal_rows(cols[j], needed_at(queries, max, col_log(cols[j]))));
            assert(vs1[j].len() == needed_at(queries, max, l2).len());
            assert(vs2[j][k2 as int] == vs1[j][k2 as int]);
        }
        lemma_row_at_update(vs1, vs2, logs, j, l2, k2);
    }
    lemma_process_layers_values::<H>(queries, vs1, vs2, logs, wfull, max, 0);
    // the traversal succeeds and consumes the witness exactly; the extra
    // value is left over
    assert(vs2[j].len() > needed_at(queries, max, logs[j] as nat).len());
    assert(exists|u: int|
        0 <= u < vs2.len() && (#[trigger] vs2[u]).len() > needed_at(
            queries,
            max,
            logs[u] as nat,
        ).len());
}

/// Dropping the last value of a column the traversal consumes makes the
/// verifier reject with `ColumnValuesTooShort`.
pub proof fn lemma_column_values_too_short<H: MerkleHasher>(
    cols: Seq<Seq<M31>>,
    queries: Seq<Seq<usize>>,
    logs: Seq<usize>,
    j: int,
)
    requires
        cols_wf(cols),
        logs.len() == cols.len(),
        forall|t: int| 0 <= t < logs.len() ==> (#[trigger] logs[t]) as nat == col_log(cols[t]),
        queries_wf(queries, max_log(cols)),
        0 <= j < cols.len(),
        needed_at(queries, max_log(cols), col_log(cols[j])).len() > 0,
    ensures
        verify_spec::<H>(
            root_spec::<H>(cols),
            logs,
            queries,
            queried_values_spec(cols, queries, max_log(cols)).update(
                j,
                queried_values_spec(cols, queries, max_log(cols))[j].drop_last(),
            ),
            witness_upto::<H>(cols, queries, max_log(cols), 0),
        ) == Err::<(), MerkleVerificationError>(MerkleVerificationError::ColumnValuesTooShort),
{
    let max = max_log(cols);
    let lj = col_log(cols[j]);
    let vs1 = queried_values_spec(cols, queries, max);
    let vs2 = vs1.update(j, vs1[j].drop_last());
    let wfull = witness_upto::<H>(cols, queries, max, 0);
    let nd = needed_at(queries, max, lj);
    let kk = (nd.len() - 1) as nat;
    lemma_max_agree(cols, logs);
    lemma_max_log(cols);
    assert(lj <= max);
    lemma_needed_at_wf(queries, max, lj);
    assert(vs1[j] == reveal_rows(cols[j], nd));
    assert(vs1[j].len() == nd.len());
    assert(vs2[j] == vs1[j].drop_last());
    // the layers above `lj` read no row of the shortened column
    assert forall|l2: nat, k2: nat|
        lj + 1 <= l2 <= max && k2 < needed_at(queries, max, l2).len() implies #[trigger] row_at(
        vs2,
        logs,
        l2,
        k2,
    ) == row_at(vs1, logs, l2, k2) by {
        assert(logs[j] as nat == lj);
        lemma_row_at_update(vs1, vs2, logs, j, l2, k2);
    }
    // the first rows of layer `lj` are untouched too
    assert forall|k2: nat| k2 < kk implies #[trigger] row_at(vs2, logs, lj, k2) == row_at(
        vs1,
        logs,
        lj,
        k2,
    ) by {
        assert(vs2[j][k2 as int] == vs1[j][k2 as int]);
        lemma_row_at_update(vs1, vs2, logs, j, lj, k2);
    }
    lemma_process_layers_honest::<H>(cols, queries, logs, max, lj);
    let honest_layer = process_layers::<H>(queries, vs1, logs, wfull, max, lj);
    let (cv_l, w_l) = honest_layer->Ok_0;
    // reaching layer `lj` is unchanged, as is its node prefix
    let ndc_s = if lj == max {
        Seq::<usize>::empty()
    } else {
        needed_at(queries, max, lj + 1)
    };
    let cviews = if lj == max {
        Seq::<Seq<u8>>::empty()
    } else {
        computed_spec::<H>(cols, queries, max, lj + 1)
    };
    let w_start = witness_upto::<H>(cols, queries, max, lj + 1).len();
    lemma_process_nodes_honest::<H>(cols, queries, logs, max, lj, kk);
    lemma_process_nodes_values::<H>(
        nd,
        ndc_s,
        cviews,
        wfull,
        w_start,
        vs1,
        vs2,
        logs,
        max,
        lj,
        kk,
    );
    // the last node of layer `lj` still finds its children, but its row runs
    // out
    lemma_process_nodes_honest::<H>(cols, queries, logs, max, lj, nd.len());
    let w_node = process_nodes::<H>(
        nd,
        ndc_s,
        cviews,
        wfull,
        w_start,
        vs1,
        logs,
        max,
        lj,
        kk,
    )->Ok_0.1;
    let i = nd[kk as int];
    assert(process_node::<H>(ndc_s, cviews, wfull, w_node, vs1, logs, max, lj, kk, i) is Ok);
    assert(node_children(ndc_s, cviews, wfull, w_node, max, lj, i) is Ok);
    lemma_row_at_honest(cols, queries, logs, max, lj, kk, i);
    lemma_row_at_cut(vs1, vs2, logs, j, lj, kk);
    assert(process_node::<H>(ndc_s, cviews, wfull, w_node, vs2, logs, max, lj, kk, i) == Err::<
        (Seq<u8>, nat),
        MerkleVerificationError,
    >(MerkleVerificationError::ColumnValuesTooShort));
    assert(process_nodes::<H>(nd, ndc_s, cviews, wfull, w_start, vs2, logs, max, lj, nd.len())
        == Err::<(Seq<Seq<u8>>, nat), MerkleVerificationError>(
        MerkleVerificationError::ColumnValuesTooShort,
    ));
    // the failure propagates through layer `lj` down to the root layer
    if lj == max {
        assert(process_layers::<H>(queries, vs2, logs, wfull, max, lj) == Err::<
            (Seq<Seq<u8>>, nat),
            MerkleVerificationError,
        >(MerkleVerificationError::ColumnValuesTooShort));
    } else {
        lemma_process_layers_honest::<H>(cols, queries, logs, max, lj + 1);
        assert forall|l2: nat, k2: nat|
            lj + 1 <= l2 <= max && k2 < needed_at(queries, max, l2).len() implies #[trigger]
        row_at(vs2, logs, l2, k2) == row_at(vs1, logs, l2, k2) by {
            lemma_row_at_update(vs1, vs2, logs, j, l2, k2);
        }
        lemma_process_layers_values::<H>(queries, vs1, vs2, logs, wfull, max, lj + 1);
        assert(process_layers::<H>(queries, vs2, logs, wfull, max, lj) == Err::<
            (Seq<Seq<u8>>, nat),
            MerkleVerificationError,
        >(MerkleVerificationError::ColumnValuesTooShort));
    }
    crate::merkle_verifier::lemma_process_layers_err::<H>(
        queries,
        vs2,
        logs,
        wfull,
        max,
        0,
        lj,
        MerkleVerificationError::ColumnValuesTooShort,
    );
}

} // verus!
