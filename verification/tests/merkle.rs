use merkle_vcs::blake3_hash::Blake3Hash;
use merkle_vcs::blake3_merkle::Blake3MerkleHasher;
use merkle_vcs::fields::M31;
use merkle_vcs::merkle_verifier::{MerkleVerificationError, MerkleVerifier};
use merkle_vcs::prover::{MerkleDecommitment, MerkleProver};
use rand::rngs::SmallRng;
use rand::{Rng, SeedableRng};

type TestData = (
    Vec<Vec<usize>>,
    MerkleDecommitment<Blake3MerkleHasher>,
    Vec<Vec<M31>>,
    MerkleVerifier<Blake3MerkleHasher>,
);

fn prepare_merkle() -> TestData {
    const N_COLS: usize = 400;
    const N_QUERIES: usize = 7;
    let log_size_range = 6..9usize;

    let mut rng = SmallRng::seed_from_u64(0);
    let log_sizes: Vec<usize> = (0..N_COLS)
        .map(|_| rng.gen_range(log_size_range.clone()))
        .collect();
    let cols: Vec<Vec<M31>> = log_sizes
        .iter()
        .map(|&log_size| {
            (0..(1usize << log_size))
                .map(|_| M31::new(rng.gen_range(0..(1u32 << 30))))
                .collect()
        })
        .collect();
    let merkle = MerkleProver::<Blake3MerkleHasher>::commit(&cols);

    let max_log_size = 8usize;
    let mut queries: Vec<Vec<usize>> = vec![Vec::new(); max_log_size + 1];
    for log_size in (6..9usize).rev() {
        let mut layer_queries: Vec<usize> = (0..N_QUERIES)
            .map(|_| rng.gen_range(0..(1usize << log_size)))
            .collect();
        layer_queries.sort();
        layer_queries.dedup();
        queries[log_size] = layer_queries;
    }

    let (values, decommitment) = merkle.decommit(&queries, &cols);

    let verifier = MerkleVerifier {
        root: merkle.root(),
        column_log_sizes: log_sizes,
    };
    (queries, decommitment, values, verifier)
}

#[test]
fn test_merkle_success() {
    let (queries, decommitment, values, verifier) = prepare_merkle();

    verifier.verify(&queries, &values, &decommitment).unwrap();
}

#[test]
fn test_merkle_invalid_witness() {
    let (queries, mut decommitment, values, verifier) = prepare_merkle();
    decommitment.hash_witness[20] = Blake3Hash::default();

    assert_eq!(
        verifier.verify(&queries, &values, &decommitment).unwrap_err(),
        MerkleVerificationError::RootMismatch
    );
}

#[test]
fn test_merkle_invalid_value() {
    let (queries, decommitment, mut values, verifier) = prepare_merkle();
    values[3][6] = M31::new(0);

    assert_eq!(
        verifier.verify(&queries, &values, &decommitment).unwrap_err(),
        MerkleVerificationError::RootMismatch
    );
}

#[test]
fn test_merkle_witness_too_short() {
    let (queries, mut decommitment, values, verifier) = prepare_merkle();
    decommitment.hash_witness.pop();

    assert_eq!(
        verifier.verify(&queries, &values, &decommitment).unwrap_err(),
        MerkleVerificationError::WitnessTooShort
    );
}

#[test]
fn test_merkle_column_values_too_long() {
    let (queries, decommitment, mut values, verifier) = prepare_merkle();
    values[3].push(M31::new(0));

    assert_eq!(
        verifier.verify(&queries, &values, &decommitment).unwrap_err(),
        MerkleVerificationError::ColumnValuesTooLong
    );
}

#[test]
fn test_merkle_column_values_too_short() {
    let (queries, decommitment, mut values, verifier) = prepare_merkle();
    values[3].pop();

    assert_eq!(
        verifier.verify(&queries, &values, &decommitment).unwrap_err(),
        MerkleVerificationError::ColumnValuesTooShort
    );
}

#[test]
fn test_merkle_witness_too_long() {
    let (queries, mut decommitment, values, verifier) = prepare_merkle();
    decommitment.hash_witness.push(Blake3Hash::default());

    assert_eq!(
        verifier.verify(&queries, &values, &decommitment).unwrap_err(),
        MerkleVerificationError::WitnessTooLong
    );
}

#[test]
fn test_merkle_small_tree_round_trip() {
    // Two columns of four rows and one of two rows, queried at fixed indices.
    let cols: Vec<Vec<M31>> = vec![
        vec![M31::new(1), M31::new(2), M31::new(3), M31::new(4)],
        vec![M31::new(5), M31::new(6)],
        vec![M31::new(7), M31::new(8), M31::new(9), M31::new(10)],
    ];
    let prover = MerkleProver::<Blake3MerkleHasher>::commit(&cols);
    let queries: Vec<Vec<usize>> = vec![vec![], vec![1], vec![0, 3]];
    let (values, decommitment) = prover.decommit(&queries, &cols);

    // The revealed rows of the four-row columns are rows 0 and 3 plus any
    // rows forced by the two-row query's path; the two-row column reveals
    // row 1 plus the parents of rows 0 and 3.
    let verifier = MerkleVerifier::<Blake3MerkleHasher> {
        root: prover.root(),
        column_log_sizes: vec![2, 1, 2],
    };
    verifier.verify(&queries, &values, &decommitment).unwrap();

    // The revealed values hold the queried rows of each column.
    assert_eq!(values[0][0], M31::new(1));
    assert_eq!(values[2][0], M31::new(7));
}

#[test]
fn test_commit_deterministic() {
    // Committing identical columns twice yields identical roots.
    let cols: Vec<Vec<M31>> = (0..10u32)
        .map(|c| (0..8u32).map(|r| M31::new(1000 * c + r)).collect())
        .collect();
    let p1 = MerkleProver::<Blake3MerkleHasher>::commit(&cols);
    let p2 = MerkleProver::<Blake3MerkleHasher>::commit(&cols);
    assert_eq!(p1.root(), p2.root());
}

#[test]
fn test_root_differs_on_different_columns() {
    let cols1: Vec<Vec<M31>> = vec![vec![M31::new(1), M31::new(2)]];
    let cols2: Vec<Vec<M31>> = vec![vec![M31::new(1), M31::new(3)]];
    let p1 = MerkleProver::<Blake3MerkleHasher>::commit(&cols1);
    let p2 = MerkleProver::<Blake3MerkleHasher>::commit(&cols2);
    assert_ne!(p1.root(), p2.root());
}
