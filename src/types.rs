//! Accounts, transactions and the values that cross a batch's boundary.
use vstd::prelude::*;
use crate::hashing::{bytes_equal, le_bytes, push_bytes, push_le_u64, sha256, sha256_of};

verus! {

/// A 20-byte account identifier.
pub type Address = [u8; 20];

/// What the ledger refuses before any state changes.
#[derive(Debug, Clone, Copy, PartialEq, Eq, Structural)]
pub enum LedgerError {
    /// Text that is not 20 bytes in hex.
    MalformedAddress,
    /// No account holds the address.
    UnknownAccount,
    /// The transfer can never be valid.
    InvalidTransaction,
}

/// One ledger entry. `nonce` counts the transfers this account has sent.
#[derive(Debug, Clone, Copy, PartialEq, Eq)]
pub struct Account {
    pub address: Address,
    pub balance: u64,
    pub nonce: u64,
}

/// The canonical byte encoding of an account: its address, then its
/// balance and its nonce, each as 8 little-endian bytes.
pub open spec fn account_bytes(a: Account) -> Seq<u8> {
    a.address@ + le_bytes(a.balance) + le_bytes(a.nonce)
}

/// The leaf digest under which an account enters the tree.
pub open spec fn leaf_hash(a: Account) -> Seq<u8> {
    sha256_of(account_bytes(a))
}

impl Account {
    /// A fresh account, which has sent nothing yet.
    pub fn new(address: Address, balance: u64) -> (r: Account)
        ensures
            r == (Account { address, balance, nonce: 0 }),
    {
        Account { address, balance, nonce: 0 }
    }

    /// The account's leaf digest.
    pub fn hash(&self) -> (r: crate::hashing::Hash)
        ensures
            r@ == leaf_hash(*self),
    {
        let mut data: Vec<u8> = Vec::new();
        push_bytes(&mut data, self.address.as_slice());
        push_le_u64(&mut data, self.balance);
        push_le_u64(&mut data, self.nonce);
        sha256(data.as_slice())
    }
}

/// A proposed transfer of `amount` from `from` to `to`. It is accepted
/// only with `nonce` one above the sender's current nonce. The signature is
/// carried along and never checked here.
#[derive(Debug, Clone)]
pub struct Transaction {
    pub from: Address,
    pub to: Address,
    pub amount: u64,
    pub nonce: u64,
    pub signature: Vec<u8>,
}

impl Transaction {
    /// Whether this transfer may be taken from `sender` as it stands: the
    /// nonce is the next one, the balance covers the amount, and the
    /// addresses agree.
    pub open spec fn valid_for(&self, sender: Account) -> bool {
        &&& self.nonce == sender.nonce + 1
        &&& self.amount <= sender.balance
        &&& self.from@ == sender.address@
    }

    /// A transfer with a blank 64-byte signature.
    pub fn new(from: Address, to: Address, amount: u64, nonce: u64) -> (r: Transaction)
        ensures
            r.from == from,
            r.to == to,
            r.amount == amount,
            r.nonce == nonce,
            r.signature@ == Seq::new(64, |i: int| 0u8),
    {
        let mut signature: Vec<u8> = Vec::new();
        let mut i: usize = 0;
        while i < 64
            invariant
                i <= 64,
                signature@ == Seq::new(i as nat, |k: int| 0u8),
            decreases 64 - i,
        {
            signature.push(0u8);
            i = i + 1;
            assert(signature@ =~= Seq::new(i as nat, |k: int| 0u8));
        }
        Transaction { from, to, amount, nonce, signature }
    }

    /// Whether this transfer may be taken from `from_account` now.
    pub fn is_valid(&self, from_account: &Account) -> (r: bool)
        ensures
            r == self.valid_for(*from_account),
    {
        from_account.nonce < u64::MAX && self.nonce == from_account.nonce + 1
            && self.amount <= from_account.balance && bytes_equal(&self.from, &from_account.address)
    }
}

/// Whether `i` is the first position in `s` of an account with address `addr`.
pub open spec fn is_first_match(s: Seq<Account>, addr: Seq<u8>, i: int) -> bool {
    &&& 0 <= i < s.len()
    &&& s[i].address@ == addr
    &&& forall|k: int| 0 <= k < i ==> #[trigger] s[k].address@ != addr
}

/// The first position in `s` of an account with address `addr`, or -1
/// where there is none.
pub open spec fn first_position(s: Seq<Account>, addr: Seq<u8>) -> int {
    if exists|i: int| is_first_match(s, addr, i) {
        choose|i: int| is_first_match(s, addr, i)
    } else {
        -1
    }
}

/// No two accounts of `s` share an address.
pub open spec fn distinct_addresses(s: Seq<Account>) -> bool {
    forall|i: int, j: int| 0 <= i < j < s.len() ==> s[i].address@ != s[j].address@
}

/// Any position holding `addr` with no earlier one is the first position.
pub proof fn lemma_first_position(s: Seq<Account>, addr: Seq<u8>, i: int)
    requires
        is_first_match(s, addr, i),
    ensures
        first_position(s, addr) == i,
{
    let j = first_position(s, addr);
    assert(is_first_match(s, addr, j));
    if j < i {
        assert(s[j].address@ != addr);
    } else if i < j {
        assert(s[i].address@ != addr);
    }
}

/// Where addresses are distinct, each account sits at the first position
/// of its address.
pub proof fn lemma_distinct_position(s: Seq<Account>, k: int)
    requires
        distinct_addresses(s),
        0 <= k < s.len(),
    ensures
        first_position(s, s[k].address@) == k,
{
    assert forall|m: int| 0 <= m < k implies #[trigger] s[m].address@ != s[k].address@ by {}
    lemma_first_position(s, s[k].address@, k);
}

/// The position of the first account with the given address.
pub fn find_account(accounts: &[Account], address: &Address) -> (r: Option<usize>)
    ensures
        match r {
            Some(i) => i as int == first_position(accounts@, address@),
            None => first_position(accounts@, address@) == -1,
        },
{
    let mut i: usize = 0;
    while i < accounts.len()
        invariant
            i <= accounts@.len(),
            forall|k: int| 0 <= k < i ==> #[trigger] accounts@[k].address@ != address@,
        decreases accounts@.len() - i,
    {
        if bytes_equal(&accounts[i].address, address) {
            proof {
                lemma_first_position(accounts@, address@, i as int);
            }
            return Some(i);
        }
        i = i + 1;
    }
    assert(!exists|j: int| is_first_match(accounts@, address@, j));
    None
}

/// What a batch run is handed: the root before the batch, the transfers
/// in order, and the accounts they act on.
#[derive(Debug, Clone)]
pub struct BatchInput {
    pub prev_root: crate::hashing::Hash,
    pub transactions: Vec<Transaction>,
    pub accounts: Vec<Account>,
}

/// What a batch run reports: the root after the batch and how many
/// transfers were applied.
#[derive(Debug, Clone, Copy, PartialEq, Eq)]
pub struct BatchOutput {
    pub new_root: crate::hashing::Hash,
    pub processed_count: u32,
}

} // verus!
