//! The batch transition: an ordered list of transfers applied one after
//! another to a ledger, each seeing the effects of those before it.
use vstd::prelude::*;
use crate::merkle::{compute_merkle_root, merkle_root};
use crate::types::{
    Account, Address, BatchInput, BatchOutput, LedgerError, Transaction, distinct_addresses,
    find_account, first_position, is_first_match, lemma_first_position,
};

verus! {

/// Why a transfer was not applied.
#[derive(Debug, Clone, Copy, PartialEq, Eq, Structural)]
pub enum RejectReason {
    /// No account holds the sender's address.
    UnknownSender,
    /// The nonce is not one above the sender's.
    NonceMismatch,
    /// The amount exceeds the sender's balance.
    InsufficientFunds,
    /// Crediting the amount would take the recipient's balance past what a
    /// `u64` holds.
    CreditOverflow,
}

/// What became of one transfer.
#[derive(Debug, Clone, Copy, PartialEq, Eq, Structural)]
pub enum TxOutcome {
    Applied,
    Rejected(RejectReason),
}

/// The sum of all balances.
pub open spec fn total_balance(s: Seq<Account>) -> int
    decreases s.len(),
{
    if s.len() == 0 {
        0
    } else {
        total_balance(s.drop_last()) + s.last().balance
    }
}

/// Whether, once the sender of `tx` is debited, crediting the recipient
/// would carry its balance past `u64::MAX`.
pub open spec fn credit_overflows(s: Seq<Account>, tx: Transaction) -> bool {
    let d = debit(s, tx);
    let j = first_position(d, tx.to@);
    j >= 0 && d[j].balance + tx.amount > u64::MAX
}

/// What becomes of `tx` against the ledger `s`: rejected for the first
/// check it fails, applied where it passes them all. Besides the validity
/// checks, a credit that a `u64` balance cannot hold is refused.
pub open spec fn outcome(s: Seq<Account>, tx: Transaction) -> TxOutcome {
    let i = first_position(s, tx.from@);
    if i < 0 {
        TxOutcome::Rejected(RejectReason::UnknownSender)
    } else if tx.nonce != s[i].nonce + 1 {
        TxOutcome::Rejected(RejectReason::NonceMismatch)
    } else if tx.amount > s[i].balance {
        TxOutcome::Rejected(RejectReason::InsufficientFunds)
    } else if credit_overflows(s, tx) {
        TxOutcome::Rejected(RejectReason::CreditOverflow)
    } else {
        TxOutcome::Applied
    }
}

/// `s` with the sender of `tx` debited by its amount and its nonce
/// advanced by one.
pub open spec fn debit(s: Seq<Account>, tx: Transaction) -> Seq<Account> {
    let i = first_position(s, tx.from@);
    s.update(
        i,
        Account {
            address: s[i].address,
            balance: (s[i].balance - tx.amount) as u64,
            nonce: (s[i].nonce + 1) as u64,
        },
    )
}

/// `s` with the recipient of `tx` credited by its amount; a recipient not
/// yet in `s` is appended with that balance and nonce 0.
pub open spec fn credit(s: Seq<Account>, tx: Transaction) -> Seq<Account> {
    let j = first_position(s, tx.to@);
    if j >= 0 {
        s.update(
            j,
            Account {
                address: s[j].address,
                balance: (s[j].balance + tx.amount) as u64,
                nonce: s[j].nonce,
            },
        )
    } else {
        s.push(Account { address: tx.to, balance: tx.amount, nonce: 0 })
    }
}

/// The ledger after offering `tx` to `s`.
pub open spec fn apply_spec(s: Seq<Account>, tx: Transaction) -> Seq<Account> {
    if outcome(s, tx) == TxOutcome::Applied {
        credit(debit(s, tx), tx)
    } else {
        s
    }
}

/// The ledger after offering each of `txs` in order to `s`, and how many
/// of them were applied.
pub open spec fn batch_result(s: Seq<Account>, txs: Seq<Transaction>) -> (Seq<Account>, nat)
    decreases txs.len(),
{
    if txs.len() == 0 {
        (s, 0)
    } else {
        let prev = batch_result(s, txs.drop_last());
        let tx = txs.last();
        (
            apply_spec(prev.0, tx),
            if outcome(prev.0, tx) == TxOutcome::Applied {
                prev.1 + 1
            } else {
                prev.1
            },
        )
    }
}

proof fn lemma_total_push(s: Seq<Account>, a: Account)
    ensures
        total_balance(s.push(a)) == total_balance(s) + a.balance,
{
    assert(s.push(a).drop_last() =~= s);
}

proof fn lemma_total_update(s: Seq<Account>, i: int, a: Account)
    requires
        0 <= i < s.len(),
    ensures
        total_balance(s.update(i, a)) == total_balance(s) - s[i].balance + a.balance,
    decreases s.len(),
{
    let t = s.update(i, a);
    if i == s.len() - 1 {
        assert(t.drop_last() =~= s.drop_last());
    } else {
        assert(t.drop_last() =~= s.drop_last().update(i, a));
        lemma_total_update(s.drop_last(), i, a);
    }
}

/// Two ledgers with the same addresses in the same places give each
/// address the same first position.
proof fn lemma_same_addresses(s: Seq<Account>, t: Seq<Account>, addr: Seq<u8>)
    requires
        s.len() == t.len(),
        forall|k: int| 0 <= k < s.len() ==> #[trigger] s[k].address@ == t[k].address@,
    ensures
        first_position(s, addr) == first_position(t, addr),
{
    if exists|i: int| is_first_match(s, addr, i) {
        let i = choose|i: int| is_first_match(s, addr, i);
        assert forall|k: int| 0 <= k < i implies #[trigger] t[k].address@ != addr by {
            assert(s[k].address@ != addr);
        }
        lemma_first_position(s, addr, i);
        lemma_first_position(t, addr, i);
    } else if exists|i: int| is_first_match(t, addr, i) {
        let i = choose|i: int| is_first_match(t, addr, i);
        assert forall|k: int| 0 <= k < i implies #[trigger] s[k].address@ != addr by {
            assert(t[k].address@ != addr);
        }
        assert(is_first_match(s, addr, i));
    }
}

/// A position whose address is `addr` lies at or after the first one.
proof fn lemma_match_after_first(s: Seq<Account>, addr: Seq<u8>, k: int)
    requires
        0 <= k < s.len(),
        s[k].address@ == addr,
    ensures
        0 <= first_position(s, addr) <= k,
    decreases k,
{
    if forall|m: int| 0 <= m < k ==> #[trigger] s[m].address@ != addr {
        lemma_first_position(s, addr, k);
    } else {
        let m = choose|m: int| 0 <= m < k && #[trigger] s[m].address@ == addr;
        lemma_match_after_first(s, addr, m);
    }
}

/// Offers `tx` to the ledger: on success the sender is debited and its
/// nonce advanced, then the recipient is credited, or created if absent.
/// A transfer whose credit would overflow the recipient's balance is
/// rejected rather than applied.
pub fn apply_transaction(accounts: &mut Vec<Account>, tx: &Transaction) -> (r: TxOutcome)
    ensures
        r == outcome(old(accounts)@, *tx),
        r == TxOutcome::Applied <==> first_position(old(accounts)@, tx.from@) >= 0
            && tx.valid_for(old(accounts)@[first_position(old(accounts)@, tx.from@)])
            && !credit_overflows(old(accounts)@, *tx),
        final(accounts)@ == apply_spec(old(accounts)@, *tx),
        total_balance(final(accounts)@) == total_balance(old(accounts)@),
        final(accounts)@.len() <= old(accounts)@.len() + 1,
        distinct_addresses(old(accounts)@) ==> distinct_addresses(final(accounts)@),
{
    let ghost s = accounts@;
    let i = match find_account(accounts.as_slice(), &tx.from) {
        Some(i) => i,
        None => {
            return TxOutcome::Rejected(RejectReason::UnknownSender);
        },
    };
    let sender = accounts[i];
    if sender.nonce == u64::MAX || tx.nonce != sender.nonce + 1 {
        return TxOutcome::Rejected(RejectReason::NonceMismatch);
    }
    if tx.amount > sender.balance {
        return TxOutcome::Rejected(RejectReason::InsufficientFunds);
    }
    let debited = Account {
        address: sender.address,
        balance: sender.balance - tx.amount,
        nonce: sender.nonce + 1,
    };
    let ghost d = s.update(i as int, debited);
    proof {
        assert(d == debit(s, *tx));
        assert forall|k: int| 0 <= k < s.len() implies #[trigger] s[k].address@ == d[k].address@ by {}
        lemma_same_addresses(s, d, tx.to@);
    }
    let to_pos = find_account(accounts.as_slice(), &tx.to);
    if let Some(j) = to_pos {
        let held = if j == i {
            debited.balance
        } else {
            accounts[j].balance
        };
        if held > u64::MAX - tx.amount {
            return TxOutcome::Rejected(RejectReason::CreditOverflow);
        }
    }
    accounts.set(i, debited);
    proof {
        lemma_total_update(s, i as int, debited);
    }
    match to_pos {
        Some(j) => {
            let recipient = accounts[j];
            let credited = Account {
                address: recipient.address,
                balance: recipient.balance + tx.amount,
                nonce: recipient.nonce,
            };
            accounts.set(j, credited);
            proof {
                lemma_total_update(d, j as int, credited);
                if distinct_addresses(s) {
                    assert forall|a: int, b: int|
                        0 <= a < b < accounts@.len() implies accounts@[a].address@
                        != accounts@[b].address@ by {
                        assert(s[a].address@ == accounts@[a].address@);
                        assert(s[b].address@ == accounts@[b].address@);
                    }
                }
            }
        },
        None => {
            let created = Account { address: tx.to, balance: tx.amount, nonce: 0 };
            accounts.push(created);
            proof {
                lemma_total_push(d, created);
                if distinct_addresses(s) {
                    assert forall|a: int, b: int|
                        0 <= a < b < accounts@.len() implies accounts@[a].address@
                        != accounts@[b].address@ by {
                        if b == d.len() {
                            if accounts@[a].address@ == tx.to@ {
                                lemma_match_after_first(d, tx.to@, a);
                            }
                        } else {
                            assert(s[a].address@ == accounts@[a].address@);
                            assert(s[b].address@ == accounts@[b].address@);
                        }
                    }
                }
            }
        },
    }
    TxOutcome::Applied
}

/// Offers each transfer in order to `accounts` and returns the resulting
/// ledger with the number of transfers applied. Transfers that fail a
/// check are skipped and leave no trace. Accounts are found by the first
/// entry with their address: a ledger that repeats an address keeps every
/// entry, and only the first of them is ever debited or credited.
pub fn apply_batch(accounts: Vec<Account>, transactions: &[Transaction]) -> (r: (
    Vec<Account>,
    usize,
))
    ensures
        (r.0@, r.1 as nat) == batch_result(accounts@, transactions@),
        r.1 <= transactions@.len(),
        r.0@.len() <= accounts@.len() + transactions@.len(),
        total_balance(r.0@) == total_balance(accounts@),
        distinct_addresses(accounts@) ==> distinct_addresses(r.0@),
{
    let ghost start = accounts@;
    let mut ledger = accounts;
    let mut count: usize = 0;
    let mut i: usize = 0;
    while i < transactions.len()
        invariant
            i <= transactions@.len(),
            count <= i,
            (ledger@, count as nat) == batch_result(start, transactions@.subrange(0, i as int)),
            ledger@.len() <= start.len() + i,
            total_balance(ledger@) == total_balance(start),
            distinct_addresses(start) ==> distinct_addresses(ledger@),
        decreases transactions@.len() - i,
    {
        let outcome = apply_transaction(&mut ledger, &transactions[i]);
        match outcome {
            TxOutcome::Applied => {
                count = count + 1;
            },
            TxOutcome::Rejected(_) => {},
        }
        proof {
            let txs = transactions@.subrange(0, i + 1);
            assert(txs.drop_last() =~= transactions@.subrange(0, i as int));
        }
        i = i + 1;
    }
    assert(transactions@.subrange(0, i as int) =~= transactions@);
    (ledger, count)
}

/// The whole state transition on one batch: the transfers applied to the
/// accounts, then the root of the tree over the resulting ledger.
pub fn execute_batch(input: BatchInput) -> (r: BatchOutput)
    requires
        input.accounts@.len() + input.transactions@.len() <= usize::MAX / 2,
        input.transactions@.len() <= u32::MAX,
    ensures
        r.new_root@ == merkle_root(batch_result(input.accounts@, input.transactions@).0),
        r.processed_count == batch_result(input.accounts@, input.transactions@).1,
{
    let BatchInput { prev_root: _, transactions, accounts } = input;
    let (updated, count) = apply_batch(accounts, transactions.as_slice());
    let new_root = compute_merkle_root(updated.as_slice());
    BatchOutput { new_root, processed_count: count as u32 }
}

/// A transfer from `from` to `to` that carries the sender's next nonce.
pub fn prepare_transaction(accounts: &[Account], from: Address, to: Address, amount: u64) -> (r:
    Result<Transaction, LedgerError>)
    ensures
        first_position(accounts@, from@) < 0 ==> r == Err::<Transaction, LedgerError>(
            LedgerError::UnknownAccount,
        ),
        first_position(accounts@, from@) >= 0 && accounts@[first_position(accounts@, from@)].nonce
            == u64::MAX ==> r == Err::<Transaction, LedgerError>(LedgerError::InvalidTransaction),
        first_position(accounts@, from@) >= 0 && accounts@[first_position(accounts@, from@)].nonce
            < u64::MAX ==> (r matches Ok(tx) && {
            &&& tx.from == from
            &&& tx.to == to
            &&& tx.amount == amount
            &&& tx.nonce == accounts@[first_position(accounts@, from@)].nonce + 1
            &&& tx.signature@ == Seq::new(64, |k: int| 0u8)
        }),
{
    match find_account(accounts, &from) {
        None => Err(LedgerError::UnknownAccount),
        Some(i) => {
            let nonce = accounts[i].nonce;
            if nonce == u64::MAX {
                Err(LedgerError::InvalidTransaction)
            } else {
                Ok(Transaction::new(from, to, amount, nonce + 1))
            }
        },
    }
}

/// An empty batch leaves the ledger as it is and applies nothing.
pub proof fn lemma_empty_batch(s: Seq<Account>)
    ensures
        batch_result(s, Seq::<Transaction>::empty()) == (s, 0nat),
{
}

/// A transfer whose nonce is not one above its sender's is never applied:
/// offered after any part of a batch, it changes neither the ledger nor the
/// count of applied transfers.
pub proof fn lemma_nonce_enforced(s: Seq<Account>, txs: Seq<Transaction>, tx: Transaction)
    requires
        first_position(batch_result(s, txs).0, tx.from@) >= 0,
        tx.nonce != batch_result(s, txs).0[first_position(batch_result(s, txs).0, tx.from@)].nonce
            + 1,
    ensures
        outcome(batch_result(s, txs).0, tx) == TxOutcome::Rejected(RejectReason::NonceMismatch),
        batch_result(s, txs.push(tx)) == batch_result(s, txs),
{
    assert(txs.push(tx).drop_last() =~= txs);
}

/// A transfer of more than its sender holds is never applied: offered
/// after any part of a batch, it changes neither the ledger nor the count.
pub proof fn lemma_insufficient_funds(s: Seq<Account>, txs: Seq<Transaction>, tx: Transaction)
    requires
        first_position(batch_result(s, txs).0, tx.from@) >= 0,
        tx.amount > batch_result(s, txs).0[first_position(batch_result(s, txs).0, tx.from@)].balance,
    ensures
        outcome(batch_result(s, txs).0, tx) != TxOutcome::Applied,
        batch_result(s, txs.push(tx)) == batch_result(s, txs),
{
    assert(txs.push(tx).drop_last() =~= txs);
}

/// An applied transfer debits its sender exactly: the new balance is the
/// old one less the amount, which it never exceeds.
pub proof fn lemma_debit_exact(s: Seq<Account>, tx: Transaction)
    requires
        outcome(s, tx) == TxOutcome::Applied,
    ensures
        ({
            let i = first_position(s, tx.from@);
            &&& tx.amount <= s[i].balance
            &&& debit(s, tx)[i].balance == s[i].balance - tx.amount
            &&& debit(s, tx)[i].nonce == s[i].nonce + 1
        }),
{
}

/// An applied transfer to an address not yet in the ledger appends an
/// account for it holding the amount, with nonce 0.
pub proof fn lemma_new_recipient(s: Seq<Account>, tx: Transaction)
    requires
        outcome(s, tx) == TxOutcome::Applied,
        first_position(s, tx.to@) < 0,
    ensures
        apply_spec(s, tx) == debit(s, tx).push(Account { address: tx.to, balance: tx.amount, nonce: 0 }),
        apply_spec(s, tx).len() == s.len() + 1,
        apply_spec(s, tx).last() == (Account { address: tx.to, balance: tx.amount, nonce: 0 }),
{
    let d = debit(s, tx);
    assert forall|k: int| 0 <= k < s.len() implies #[trigger] s[k].address@ == d[k].address@ by {}
    lemma_same_addresses(s, d, tx.to@);
}

} // verus!
