use bridge_proof::{Proof, Transaction};

fn reference_transactions() -> Vec<Transaction> {
    vec![
        Transaction::Hash("tx-111".to_string()),
        Transaction::CrossChainTransfer {
            who: "0xdfkdfjh".to_string(),
            amount: 42,
            dest_chain_id: 99,
        },
    ]
}

fn reference_block_hash() -> Vec<u8> {
    vec![
        239, 198, 146, 191, 146, 223, 233, 132, 124, 130, 225, 216, 129, 162, 40, 55, 150, 247,
        195, 109, 236, 56, 168, 34, 156, 176, 66, 47, 151, 242, 103, 21, 251, 148, 21, 120, 82, 42,
        244, 236, 211, 102, 37, 30, 93, 211, 241, 152, 18, 226, 69, 121, 242, 208, 167, 170, 51,
        221, 129, 153, 134, 20, 82, 197,
    ]
}

#[test]
fn test_proof() {
    let txs = reference_transactions();

    let block_hash = reference_block_hash();

    let proof = Proof {
        prev_block_hash: "block-111".into(),
        block_hash,
        transactions: txs,
    };

    assert!(proof.is_valid());
}

/// The proof failed validation.
/// We change a detail in the Transation::CrossChainTransfer tx which
/// makes the proof invalid.
#[test]
fn test_invalid_proof() {
    let txs = vec![
        Transaction::Hash("tx-111".to_string()),
        Transaction::CrossChainTransfer {
            who: "0xdfkdfjh".to_string(),
            amount: 4422,
            dest_chain_id: 99,
        },
    ];

    let block_hash = reference_block_hash();

    let proof = Proof {
        prev_block_hash: "block-111".into(),
        block_hash,
        transactions: txs,
    };

    assert!(!proof.is_valid());
}

/// Computing the block hash with the same two-level Merkle scheme and
/// then verifying it must succeed, for a fresh transaction list.
#[test]
fn recomputed_hash_is_accepted() {
    let txs = vec![
        Transaction::CrossChainTransfer {
            who: "carol".to_string(),
            amount: -7,
            dest_chain_id: 3,
        },
        Transaction::Hash("deadbeef".to_string()),
        Transaction::Hash("deadbeef".to_string()),
    ];
    let prev: Vec<u8> = b"some-previous-block".to_vec();

    let leaves: Vec<String> = txs.iter().flat_map(|t| t.values()).collect();
    let tx_tree = merkle::MerkleTree::from_vec(&ring::digest::SHA512, leaves);
    let meta_tree = merkle::MerkleTree::from_vec(
        &ring::digest::SHA512,
        vec![prev.clone(), tx_tree.root_hash().clone()],
    );
    let block_hash = meta_tree.root_hash().clone();

    let proof = Proof {
        prev_block_hash: prev,
        block_hash,
        transactions: txs,
    };
    assert!(proof.is_valid());
}

/// Leaf order is committed: swapping the two reference transactions
/// while keeping the reference block hash must invalidate the proof.
#[test]
fn permuted_transactions_are_rejected() {
    let mut txs = reference_transactions();
    txs.swap(0, 1);

    let proof = Proof {
        prev_block_hash: "block-111".into(),
        block_hash: reference_block_hash(),
        transactions: txs,
    };

    assert!(!proof.is_valid());
}

/// Validation is repeatable: the same proof value yields the same
/// boolean on every check.
#[test]
fn validation_is_repeatable() {
    let proof = Proof {
        prev_block_hash: "block-111".into(),
        block_hash: reference_block_hash(),
        transactions: reference_transactions(),
    };

    let first = proof.clone().is_valid();
    let second = proof.clone().is_valid();
    assert_eq!(first, second);
    assert!(first);

    let bad = Proof {
        prev_block_hash: "block-111".into(),
        block_hash: vec![0u8; 64],
        transactions: reference_transactions(),
    };
    assert_eq!(bad.clone().is_valid(), bad.is_valid());
}

/// A proof with zero transactions is decided, not rejected with a crash:
/// a correctly computed hash over the empty leaf set verifies, and a
/// wrong one does not.
#[test]
fn empty_transaction_list_is_decided() {
    let prev: Vec<u8> = b"genesis".to_vec();

    let empty: Vec<String> = Vec::new();
    let tx_tree = merkle::MerkleTree::from_vec(&ring::digest::SHA512, empty);
    let meta_tree = merkle::MerkleTree::from_vec(
        &ring::digest::SHA512,
        vec![prev.clone(), tx_tree.root_hash().clone()],
    );

    let valid = Proof {
        prev_block_hash: prev.clone(),
        block_hash: meta_tree.root_hash().clone(),
        transactions: Vec::new(),
    };
    assert!(valid.is_valid());

    let invalid = Proof {
        prev_block_hash: prev,
        block_hash: Vec::new(),
        transactions: Vec::new(),
    };
    assert!(!invalid.is_valid());
}

/// Changing the previous block hash alone must invalidate the proof.
#[test]
fn perturbed_prev_hash_is_rejected() {
    let proof = Proof {
        prev_block_hash: "block-112".into(),
        block_hash: reference_block_hash(),
        transactions: reference_transactions(),
    };
    assert!(!proof.is_valid());
}

/// Changing the destination chain alone must invalidate the proof.
#[test]
fn perturbed_dest_chain_is_rejected() {
    let txs = vec![
        Transaction::Hash("tx-111".to_string()),
        Transaction::CrossChainTransfer {
            who: "0xdfkdfjh".to_string(),
            amount: 42,
            dest_chain_id: 98,
        },
    ];
    let proof = Proof {
        prev_block_hash: "block-111".into(),
        block_hash: reference_block_hash(),
        transactions: txs,
    };
    assert!(!proof.is_valid());
}
