use payment_ledger::{
    apply_batch, apply_transaction, execute_batch, ledger_stats, prepare_transaction, total_of,
    Account, BatchInput, LedgerError, MerkleTree, RejectReason, Transaction, TxOutcome,
};

fn hex_of(bytes: &[u8]) -> String {
    bytes.iter().map(|b| format!("{:02x}", b)).collect()
}

const A: [u8; 20] = [0x11; 20];
const B: [u8; 20] = [0x22; 20];
const C: [u8; 20] = [0x33; 20];

fn two_accounts() -> Vec<Account> {
    vec![Account::new(A, 10000), Account::new(B, 5000)]
}

#[test]
fn empty_batch_changes_nothing() {
    let (after, count) = apply_batch(two_accounts(), &[]);
    assert_eq!(after, two_accounts());
    assert_eq!(count, 0);
}

#[test]
fn concrete_transfer_scenario() {
    let before = two_accounts();
    let batch = vec![Transaction::new(A, B, 100, 1)];
    let (after, count) = apply_batch(before.clone(), &batch);
    assert_eq!(
        after,
        vec![
            Account { address: A, balance: 9900, nonce: 1 },
            Account { address: B, balance: 5100, nonce: 0 },
        ]
    );
    assert_eq!(count, 1);
    let old_root = MerkleTree::new(before).root;
    let new_root = MerkleTree::new(after).root;
    assert_ne!(old_root, new_root);
    assert_eq!(hex_of(&old_root), "ccace0e5198ae75aff8a1f2e6cdb6d53beff2278ba68e42f3957f5e95b5c6d5b");
    assert_eq!(hex_of(&new_root), "cd36c22fd13bf547ef907afc2d3b393d79953dac35598d705c2091446f742832");
}

#[test]
fn execute_batch_reports_root_and_count() {
    let input = BatchInput {
        prev_root: MerkleTree::new(two_accounts()).root,
        transactions: vec![Transaction::new(A, B, 100, 1), Transaction::new(A, B, 100, 1)],
        accounts: two_accounts(),
    };
    let output = execute_batch(input);
    assert_eq!(output.processed_count, 1);
    assert_eq!(
        hex_of(&output.new_root),
        "cd36c22fd13bf547ef907afc2d3b393d79953dac35598d705c2091446f742832"
    );
}

#[test]
fn wrong_nonce_is_never_applied() {
    for nonce in [0u64, 2, 5, u64::MAX] {
        let mut accounts = two_accounts();
        let outcome = apply_transaction(&mut accounts, &Transaction::new(A, B, 100, nonce));
        assert_eq!(outcome, TxOutcome::Rejected(RejectReason::NonceMismatch));
        assert_eq!(accounts, two_accounts());
    }
    let (after, count) = apply_batch(two_accounts(), &[Transaction::new(A, B, 100, 2)]);
    assert_eq!(after, two_accounts());
    assert_eq!(count, 0);
}

#[test]
fn nonces_advance_within_a_batch() {
    let batch = vec![
        Transaction::new(A, B, 10, 1),
        Transaction::new(A, B, 10, 1),
        Transaction::new(A, B, 10, 2),
        Transaction::new(B, A, 5, 1),
    ];
    let (after, count) = apply_batch(two_accounts(), &batch);
    assert_eq!(count, 3);
    assert_eq!(after[0], Account { address: A, balance: 9985, nonce: 2 });
    assert_eq!(after[1], Account { address: B, balance: 5015, nonce: 1 });
}

#[test]
fn insufficient_funds_are_rejected() {
    let mut accounts = two_accounts();
    let outcome = apply_transaction(&mut accounts, &Transaction::new(B, A, 5001, 1));
    assert_eq!(outcome, TxOutcome::Rejected(RejectReason::InsufficientFunds));
    assert_eq!(accounts, two_accounts());

    // the whole balance may go
    let outcome = apply_transaction(&mut accounts, &Transaction::new(B, A, 5000, 1));
    assert_eq!(outcome, TxOutcome::Applied);
    assert_eq!(accounts[1], Account { address: B, balance: 0, nonce: 1 });
    assert_eq!(accounts[0].balance, 15000);
}

#[test]
fn unknown_sender_is_skipped() {
    let mut accounts = two_accounts();
    let outcome = apply_transaction(&mut accounts, &Transaction::new(C, A, 1, 1));
    assert_eq!(outcome, TxOutcome::Rejected(RejectReason::UnknownSender));
    assert_eq!(accounts, two_accounts());
}

#[test]
fn new_recipient_is_created() {
    let (after, count) = apply_batch(two_accounts(), &[Transaction::new(A, C, 250, 1)]);
    assert_eq!(count, 1);
    assert_eq!(after.len(), 3);
    assert_eq!(after[2], Account { address: C, balance: 250, nonce: 0 });
    assert_eq!(after[0], Account { address: A, balance: 9750, nonce: 1 });
}

#[test]
fn self_transfer_only_advances_nonce() {
    let (after, count) = apply_batch(two_accounts(), &[Transaction::new(A, A, 300, 1)]);
    assert_eq!(count, 1);
    assert_eq!(after[0], Account { address: A, balance: 10000, nonce: 1 });
}

#[test]
fn transfer_of_largest_balance() {
    let accounts = vec![Account::new(A, u64::MAX), Account::new(B, 0)];
    let (after, count) = apply_batch(accounts, &[Transaction::new(A, B, u64::MAX, 1)]);
    assert_eq!(count, 1);
    assert_eq!(after[0].balance, 0);
    assert_eq!(after[1].balance, u64::MAX);
}

#[test]
fn is_valid_checks_nonce_funds_and_address() {
    let sender = Account::new(A, 100);
    assert!(Transaction::new(A, B, 100, 1).is_valid(&sender));
    assert!(!Transaction::new(A, B, 101, 1).is_valid(&sender));
    assert!(!Transaction::new(A, B, 1, 0).is_valid(&sender));
    assert!(!Transaction::new(C, B, 1, 1).is_valid(&sender));
    let spent = Account { address: A, balance: 100, nonce: u64::MAX };
    assert!(!Transaction::new(A, B, 1, u64::MAX).is_valid(&spent));
}

#[test]
fn new_transaction_has_blank_signature() {
    let tx = Transaction::new(A, B, 7, 3);
    assert_eq!(tx.signature, vec![0u8; 64]);
    assert_eq!((tx.from, tx.to, tx.amount, tx.nonce), (A, B, 7, 3));
}

#[test]
fn prepare_transaction_uses_next_nonce() {
    let accounts = vec![Account { address: A, balance: 10, nonce: 4 }];
    let tx = prepare_transaction(&accounts, A, B, 3).unwrap();
    assert_eq!(tx.nonce, 5);
    assert_eq!((tx.from, tx.to, tx.amount), (A, B, 3));
    assert_eq!(prepare_transaction(&accounts, C, B, 3).unwrap_err(), LedgerError::UnknownAccount);
    let spent = vec![Account { address: A, balance: 10, nonce: u64::MAX }];
    assert_eq!(prepare_transaction(&spent, A, B, 3).unwrap_err(), LedgerError::InvalidTransaction);
}

#[test]
fn stats_over_a_ledger() {
    let accounts = vec![Account::new(A, 10), Account::new(B, 3), Account::new(C, 7)];
    let stats = ledger_stats(&accounts).unwrap();
    assert_eq!(stats.total_amount, 20);
    assert_eq!(stats.account_count, 3);
    assert_eq!(stats.highest_balance, 10);
    assert_eq!(stats.lowest_balance, 3);

    let empty = ledger_stats(&[]).unwrap();
    assert_eq!((empty.total_amount, empty.highest_balance, empty.lowest_balance), (0, 0, 0));

    let huge = vec![Account::new(A, u64::MAX), Account::new(B, 1)];
    assert!(ledger_stats(&huge).is_none());
    assert_eq!(total_of(&huge), None);
    assert_eq!(total_of(&accounts), Some(20));
}

#[test]
fn overflowing_credit_is_rejected() {
    let accounts = vec![Account::new(A, 10), Account::new(B, u64::MAX - 5)];
    let mut ledger = accounts.clone();
    let outcome = apply_transaction(&mut ledger, &Transaction::new(A, B, 6, 1));
    assert_eq!(outcome, TxOutcome::Rejected(RejectReason::CreditOverflow));
    assert_eq!(ledger, accounts);

    // a credit that just fits is applied
    let outcome = apply_transaction(&mut ledger, &Transaction::new(A, B, 5, 1));
    assert_eq!(outcome, TxOutcome::Applied);
    assert_eq!(ledger[1].balance, u64::MAX);
    assert_eq!(ledger[0], Account { address: A, balance: 5, nonce: 1 });
}

#[test]
fn ledger_total_beyond_u64_still_processes() {
    let accounts = vec![Account::new(A, u64::MAX), Account::new(B, u64::MAX), Account::new(C, 0)];
    let (same, count) = apply_batch(accounts.clone(), &[]);
    assert_eq!((same, count), (accounts.clone(), 0));

    let batch = vec![Transaction::new(A, A, 7, 1), Transaction::new(B, C, 9, 1), Transaction::new(A, B, 10, 2)];
    let (after, count) = apply_batch(accounts, &batch);
    assert_eq!(count, 2);
    assert_eq!(after[0], Account { address: A, balance: u64::MAX, nonce: 1 });
    assert_eq!(after[1], Account { address: B, balance: u64::MAX - 9, nonce: 1 });
    assert_eq!(after[2], Account { address: C, balance: 9, nonce: 0 });
}

#[test]
fn repeated_address_acts_on_first_entry() {
    let accounts = vec![Account::new(A, 10), Account::new(A, 50)];
    let (after, count) = apply_batch(accounts, &[Transaction::new(A, B, 20, 1), Transaction::new(A, B, 5, 1)]);
    assert_eq!(count, 1);
    assert_eq!(after[0], Account { address: A, balance: 5, nonce: 1 });
    assert_eq!(after[1], Account::new(A, 50));
    assert_eq!(after[2], Account { address: B, balance: 5, nonce: 0 });
}
