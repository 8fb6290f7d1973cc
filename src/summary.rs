//! Figures that describe a ledger as a whole.
use vstd::prelude::*;
use crate::batch::total_balance;
use crate::types::Account;

verus! {

/// The largest balance in `s`, or 0 for no accounts.
pub open spec fn highest_balance(s: Seq<Account>) -> u64
    decreases s.len(),
{
    if s.len() == 0 {
        0
    } else if s.last().balance > highest_balance(s.drop_last()) {
        s.last().balance
    } else {
        highest_balance(s.drop_last())
    }
}

/// The smallest balance in `s`, or 0 for no accounts.
pub open spec fn lowest_balance(s: Seq<Account>) -> u64
    decreases s.len(),
{
    if s.len() == 0 {
        0
    } else if s.len() == 1 {
        s[0].balance
    } else if s.last().balance < lowest_balance(s.drop_last()) {
        s.last().balance
    } else {
        lowest_balance(s.drop_last())
    }
}

/// Totals over a ledger.
#[derive(Debug, Clone, Copy, PartialEq, Eq, Structural)]
pub struct LedgerStats {
    pub total_amount: u64,
    pub account_count: usize,
    pub highest_balance: u64,
    pub lowest_balance: u64,
}

proof fn lemma_total_prefix(s: Seq<Account>, i: int)
    requires
        0 <= i <= s.len(),
    ensures
        total_balance(s.subrange(0, i)) <= total_balance(s),
    decreases s.len(),
{
    if i == s.len() {
        assert(s.subrange(0, i) =~= s);
    } else {
        assert(s.subrange(0, i) =~= s.drop_last().subrange(0, i));
        lemma_total_prefix(s.drop_last(), i);
    }
}

/// The sum of all balances, or `None` where it does not fit in a `u64`.
pub fn total_of(accounts: &[Account]) -> (r: Option<u64>)
    ensures
        r is Some <==> total_balance(accounts@) <= u64::MAX,
        r matches Some(t) ==> t == total_balance(accounts@),
{
    let mut total: u64 = 0;
    let mut i: usize = 0;
    while i < accounts.len()
        invariant
            i <= accounts@.len(),
            total == total_balance(accounts@.subrange(0, i as int)),
        decreases accounts@.len() - i,
    {
        let balance = accounts[i].balance;
        proof {
            assert(accounts@.subrange(0, i + 1).drop_last() =~= accounts@.subrange(0, i as int));
        }
        if total > u64::MAX - balance {
            proof {
                lemma_total_prefix(accounts@, i + 1);
            }
            return None;
        }
        total = total + balance;
        i = i + 1;
    }
    assert(accounts@.subrange(0, i as int) =~= accounts@);
    Some(total)
}

/// The total, count, highest and lowest balance of a ledger; `None` where
/// the total does not fit in a `u64`.
pub fn ledger_stats(accounts: &[Account]) -> (r: Option<LedgerStats>)
    ensures
        r is None <==> total_balance(accounts@) > u64::MAX,
        r matches Some(st) ==> {
            &&& st.total_amount == total_balance(accounts@)
            &&& st.account_count == accounts@.len()
            &&& st.highest_balance == highest_balance(accounts@)
            &&& st.lowest_balance == lowest_balance(accounts@)
        },
{
    let total_amount = match total_of(accounts) {
        Some(t) => t,
        None => {
            return None;
        },
    };
    let mut highest: u64 = 0;
    let mut lowest: u64 = 0;
    let mut i: usize = 0;
    while i < accounts.len()
        invariant
            i <= accounts@.len(),
            total_amount == total_balance(accounts@),
            highest == highest_balance(accounts@.subrange(0, i as int)),
            lowest == lowest_balance(accounts@.subrange(0, i as int)),
        decreases accounts@.len() - i,
    {
        let balance = accounts[i].balance;
        proof {
            assert(accounts@.subrange(0, i + 1).drop_last() =~= accounts@.subrange(0, i as int));
        }
        if balance > highest {
            highest = balance;
        }
        if i == 0 || balance < lowest {
            lowest = balance;
        }
        i = i + 1;
    }
    assert(accounts@.subrange(0, i as int) =~= accounts@);
    Some(
        LedgerStats {
            total_amount,
            account_count: accounts.len(),
            highest_balance: highest,
            lowest_balance: lowest,
        },
    )
}

} // verus!
