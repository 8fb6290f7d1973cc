use payment_ledger::{compute_merkle_root, Account, MerkleProof, MerkleTree};

fn hex_of(bytes: &[u8]) -> String {
    bytes.iter().map(|b| format!("{:02x}", b)).collect()
}

fn ledger(n: u8) -> Vec<Account> {
    (1..=n).map(|k| Account::new([k; 20], 1000 * k as u64)).collect()
}

#[test]
fn test_merkle_tree_creation() {
    let accounts = vec![
        Account::new([1u8; 20], 1000),
        Account::new([2u8; 20], 2000),
        Account::new([3u8; 20], 3000),
    ];

    let tree = MerkleTree::new(accounts);
    assert_ne!(tree.root, [0u8; 32]);
}

#[test]
fn test_merkle_proof() {
    let account1 = Account::new([1u8; 20], 1000);
    let account2 = Account::new([2u8; 20], 2000);
    let accounts = vec![account1.clone(), account2];

    let tree = MerkleTree::new(accounts);
    let proof = tree.get_proof(&account1);

    assert!(MerkleTree::verify_proof(&tree.root, &account1, &proof));
}

#[test]
fn leaf_hash_is_sha256_of_encoding() {
    let account = Account::new([1u8; 20], 1000);
    assert_eq!(
        hex_of(&account.hash()),
        "9e18c9913c193e1677c4a2bf90492e4748127299a926dea7b788e48033328060"
    );
}

#[test]
fn three_account_root_has_known_value() {
    let tree = MerkleTree::new(ledger(3));
    assert_eq!(
        hex_of(&tree.root),
        "1c95fe620214244ac8db18953c8388ec7ce9cb26a5ef0bb1a5ea6cb7a3e41d1e"
    );
    // three leaves padded to four, then two parents, then the root
    assert_eq!(tree.nodes.len(), 7);
    assert_eq!(tree.nodes[3], [0u8; 32]);
    assert_eq!(tree.nodes[6], tree.root);
}

#[test]
fn root_is_deterministic() {
    let a = MerkleTree::new(ledger(5));
    let b = MerkleTree::new(ledger(5));
    assert_eq!(a.root, b.root);
    assert_eq!(compute_merkle_root(&ledger(5)), a.root);
}

#[test]
fn empty_ledger_root_is_zero() {
    let tree = MerkleTree::new(vec![]);
    assert_eq!(tree.root, [0u8; 32]);
    assert!(tree.nodes.is_empty());
    assert_eq!(compute_merkle_root(&[]), [0u8; 32]);
}

#[test]
fn single_leaf_root_is_leaf_hash() {
    let account = Account::new([9u8; 20], 42);
    let tree = MerkleTree::new(vec![account]);
    assert_eq!(tree.root, account.hash());
    let proof = tree.get_proof(&account);
    assert!(proof.siblings.is_empty());
    assert!(MerkleTree::verify_proof(&tree.root, &account, &proof));
}

#[test]
fn proof_round_trip_for_every_position() {
    for n in 1..=9u8 {
        let accounts = ledger(n);
        let tree = MerkleTree::new(accounts.clone());
        for account in &accounts {
            let proof = tree.get_proof(account);
            assert!(
                MerkleTree::verify_proof(&tree.root, account, &proof),
                "ledger of {} accounts, address {}",
                n,
                account.address[0]
            );
        }
    }
}

#[test]
fn proof_of_absent_account_is_empty() {
    let tree = MerkleTree::new(ledger(4));
    let stranger = Account::new([77u8; 20], 5);
    let proof = tree.get_proof(&stranger);
    assert_eq!(proof.leaf_index, 0);
    assert!(proof.siblings.is_empty());
    assert!(!MerkleTree::verify_proof(&tree.root, &stranger, &proof));
}

#[test]
fn tampered_balance_fails_verification() {
    let accounts = ledger(6);
    let tree = MerkleTree::new(accounts.clone());
    for account in &accounts {
        let proof = tree.get_proof(account);
        for byte in 0..8 {
            let mut tampered = *account;
            tampered.balance ^= 1u64 << (8 * byte);
            assert!(!MerkleTree::verify_proof(&tree.root, &tampered, &proof));
        }
    }
}

#[test]
fn proof_with_wrong_position_fails() {
    let accounts = ledger(4);
    let tree = MerkleTree::new(accounts.clone());
    let proof = tree.get_proof(&accounts[1]);
    let moved = MerkleProof { leaf_index: 0, siblings: proof.siblings.clone() };
    assert!(!MerkleTree::verify_proof(&tree.root, &accounts[1], &moved));
}

#[test]
fn update_account_replaces_in_place_or_appends() {
    let mut tree = MerkleTree::new(ledger(3));
    let changed = Account { address: [2u8; 20], balance: 1, nonce: 4 };
    tree.update_account(changed);
    assert_eq!(tree.leaves.len(), 3);
    assert_eq!(tree.leaves[1], changed);
    let mut expected = ledger(3);
    expected[1] = changed;
    assert_eq!(tree.root, MerkleTree::new(expected.clone()).root);

    let fresh = Account::new([8u8; 20], 80);
    tree.update_account(fresh);
    assert_eq!(tree.leaves.len(), 4);
    assert_eq!(tree.leaves[3], fresh);
    expected.push(fresh);
    assert_eq!(tree.root, MerkleTree::new(expected).root);
}

#[test]
fn update_accounts_last_write_wins() {
    let mut tree = MerkleTree::new(ledger(2));
    let first = Account { address: [1u8; 20], balance: 5, nonce: 1 };
    let second = Account { address: [1u8; 20], balance: 6, nonce: 2 };
    let fresh = Account::new([3u8; 20], 30);
    tree.update_accounts(vec![first, fresh, second]);
    assert_eq!(tree.leaves, vec![second, Account::new([2u8; 20], 2000), fresh]);
    let rebuilt: payment_ledger::hashing::Hash = MerkleTree::new(tree.leaves.clone()).root;
    assert_eq!(tree.root, rebuilt);
}
