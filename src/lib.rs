//! A ledger of accounts committed to by a Merkle tree, and the rule that
//! applies batches of transfers to it.
//!
//! A ledger is an ordered sequence of accounts. Its order is the order in
//! which addresses first appeared: updates and transfers change accounts in
//! place, and an address seen for the first time is appended. The tree's
//! leaves follow that order, so equal ledgers give equal roots in every
//! process.
pub mod batch;
pub mod encoding;
pub mod hashing;
pub mod merkle;
pub mod messages;
pub mod summary;
pub mod types;

pub use batch::{
    RejectReason, TxOutcome, apply_batch, apply_transaction, execute_batch, prepare_transaction,
};
pub use encoding::{address_to_string, hash_to_string, parse_address};
pub use merkle::{MerkleProof, MerkleTree, WithdrawalProof, compute_merkle_root};
pub use messages::{
    CreateAccountRequest, CreateAccountResponse, CreateAccountWithBalanceRequest,
    CreateTransactionRequest, CreateTransactionResponse, ProcessBatchResponse,
    VerifyReceiptResponse,
};
pub use summary::{LedgerStats, ledger_stats, total_of};
pub use types::{Account, Address, BatchInput, BatchOutput, LedgerError, Transaction};
