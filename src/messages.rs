//! The requests and responses of the ledger's service interface, as plain
//! values.
use vstd::prelude::*;
use crate::types::{Account, Transaction};

verus! {

/// Asks for an account at a given address.
#[derive(Debug, Clone)]
pub struct CreateAccountRequest {
    /// The address as `0x` and hex.
    pub address: String,
    pub balance: u64,
}

/// Asks for an account at a fresh random address.
#[derive(Debug, Clone)]
pub struct CreateAccountWithBalanceRequest {
    pub balance: u64,
}

/// Asks for a transfer between two addresses given as `0x` and hex.
#[derive(Debug, Clone)]
pub struct CreateTransactionRequest {
    pub from: String,
    pub to: String,
    pub amount: u64,
}

#[derive(Debug, Clone)]
pub struct CreateAccountResponse {
    pub success: bool,
    pub message: String,
    /// The account created, on success.
    pub account: Option<Account>,
}

#[derive(Debug, Clone)]
pub struct CreateTransactionResponse {
    pub success: bool,
    pub message: String,
    /// The transfer queued, on success.
    pub transaction: Option<Transaction>,
}

#[derive(Debug, Clone)]
pub struct ProcessBatchResponse {
    pub success: bool,
    pub message: String,
    /// How many transfers the batch applied.
    pub processed_count: Option<u32>,
    /// The root after the batch, as `0x` and hex.
    pub new_root: Option<String>,
    pub receipt_saved: bool,
}

#[derive(Debug, Clone)]
pub struct VerifyReceiptResponse {
    pub success: bool,
    pub message: String,
    pub processed_count: Option<u32>,
    pub new_root: Option<String>,
}

} // verus!
