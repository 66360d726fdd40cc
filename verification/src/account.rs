//! What an account holds now: its latest balance and the transactions
//! after it.

use std::collections::BTreeMap;
use vstd::prelude::*;
use crate::balances::dates_ascending;
use crate::date::{Date, MIN_DAYS};
use crate::models::{Account, Balance, Transaction};
use crate::ordered::{lists_ascending, sorted_keys, strictly_ascending};
use crate::store::AppData;

verus! {

/// A span of days: those after `after`, up to and with `upto`.
pub struct Span {
    pub after: i32,
    pub upto: i32,
}

/// What the transaction under `id` adds to the account `account` in the
/// span: its amount where it is a transaction of that account dated in the
/// span, and nothing otherwise.
pub open spec fn counted(txs: Map<u32, Transaction>, account: u32, span: Span, id: u32) -> int {
    if txs.contains_key(id) && txs[id].account_id == account && span.after < txs[id].date.days
        <= span.upto {
        txs[id].amount as int
    } else {
        0
    }
}

/// The sum of what the transactions with an id below `bound` add to the
/// account in the span.
pub open spec fn sum_below(txs: Map<u32, Transaction>, account: u32, span: Span, bound: nat) -> int
    decreases bound,
{
    if bound == 0 || bound > 0x1_0000_0000 {
        0
    } else {
        sum_below(txs, account, span, (bound - 1) as nat) + counted(
            txs,
            account,
            span,
            (bound - 1) as u32,
        )
    }
}

/// The sum of what all transactions add to the account in the span.
pub open spec fn sum_in(txs: Map<u32, Transaction>, account: u32, span: Span) -> int {
    sum_below(txs, account, span, 0x1_0000_0000)
}

/// The amount of the account: its latest balance and the amounts of all
/// its transactions dated after that balance.
pub open spec fn amount_now(account: Account, txs: Map<u32, Transaction>) -> int {
    let latest = account.spec_latest_balance();
    latest.amount + sum_in(txs, account.id, Span { after: latest.date.days, upto: i32::MAX })
}

/// The balance that holds on the day `day`: the last one dated on that day
/// or before it; where there is none, a balance of zero on the earliest
/// date.
pub open spec fn balance_as_of(balances: Seq<Balance>, day: i32) -> Balance
    decreases balances.len(),
{
    if balances.len() == 0 {
        Balance { date: Date { days: MIN_DAYS }, amount: 0 }
    } else if balances.last().date.days <= day {
        balances.last()
    } else {
        balance_as_of(balances.drop_last(), day)
    }
}

/// The amount of the account on the day `day`: the balance that holds on
/// that day, and the amounts of the account's transactions dated after
/// that balance, up to and with the day.
pub open spec fn amount_on(account: Account, txs: Map<u32, Transaction>, day: i32) -> int {
    let base = balance_as_of(account.balances@, day);
    base.amount + sum_in(txs, account.id, Span { after: base.date.days, upto: day })
}

/// Ids that stand for no transaction add nothing to the sum.
proof fn lemma_gap(txs: Map<u32, Transaction>, account: u32, span: Span, lo: nat, hi: nat)
    requires
        lo <= hi <= 0x1_0000_0000,
        forall|k: u32| lo <= k < hi ==> !txs.contains_key(k),
    ensures
        sum_below(txs, account, span, hi) == sum_below(txs, account, span, lo),
    decreases hi - lo,
{
    if lo < hi {
        lemma_gap(txs, account, span, lo, (hi - 1) as nat);
        assert(!txs.contains_key((hi - 1) as u32));
    }
}

/// In a list in the order of its dates, the balance that holds on a day is
/// the one before the place of the first balance dated after the day.
proof fn lemma_balance_as_of(balances: Seq<Balance>, day: i32, p: int)
    requires
        dates_ascending(balances),
        0 <= p <= balances.len(),
        forall|i: int| 0 <= i < p ==> balances[i].date.days <= day,
        forall|i: int| p <= i < balances.len() ==> balances[i].date.days > day,
    ensures
        balance_as_of(balances, day) == (if p == 0 {
            Balance { date: Date { days: MIN_DAYS }, amount: 0 }
        } else {
            balances[p - 1]
        }),
    decreases balances.len(),
{
    if balances.len() > 0 && p < balances.len() {
        lemma_balance_as_of(balances.drop_last(), day, p);
    }
}

/// The sum, in whole-number arithmetic that cannot overflow, of what the
/// account's transactions add in the span.
fn sum_of_transactions(transactions: &BTreeMap<u32, Transaction>, account: u32, span: Span) -> (sum:
    i128)
    ensures
        sum == sum_in(transactions@, account, span),
        -0x8000_0000_0000_0000_0000 <= sum <= 0x8000_0000_0000_0000_0000,
{
    let ghost txs = transactions@;
    let keys = sorted_keys(transactions);
    let mut sum: i128 = 0;
    let mut i: usize = 0;
    let ghost mut bound: nat = 0;
    while i < keys.len()
        invariant
            txs == transactions@,
            lists_ascending(keys@, txs.dom()),
            0 <= i <= keys@.len(),
            bound <= 0x1_0000_0000,
            i > 0 ==> bound == keys@[i - 1] + 1,
            i == 0 ==> bound == 0,
            sum == sum_below(txs, account, span, bound),
            -(i * 0x8000_0000) <= sum <= i * 0x8000_0000,
            i <= 0x1_0000_0000,
        decreases keys@.len() - i,
    {
        let id = keys[i];
        proof {
            lemma_ascending_at_least_index(keys@, i as int);
            assert forall|k: u32| bound <= k < id implies !txs.contains_key(k) by {
                if txs.contains_key(k) {
                    assert(keys@.contains(k));
                    let j = choose|j: int| 0 <= j < keys@.len() && keys@[j] == k;
                    if j < i {
                        if i > 0 && j < i - 1 {
                            assert(keys@[j] < keys@[i - 1]);
                        }
                    } else if j > i {
                        assert(keys@[i as int] < keys@[j]);
                    }
                }
            }
            if i > 0 {
                assert(keys@[i - 1] < keys@[i as int]);
            }
            lemma_gap(txs, account, span, bound, id as nat);
            assert(keys@.contains(id));
            assert(sum_below(txs, account, span, (id + 1) as nat) == sum_below(
                txs,
                account,
                span,
                id as nat,
            ) + counted(txs, account, span, id));
            bound = (id + 1) as nat;
        }
        match transactions.get(&id) {
            Some(transaction) => {
                if transaction.account_id == account && span.after < transaction.date.days
                    && transaction.date.days <= span.upto {
                    sum = sum + transaction.amount as i128;
                }
            },
            None => {},
        }
        i += 1;
    }
    proof {
        assert forall|k: u32| bound <= k < 0x1_0000_0000 implies !txs.contains_key(k) by {
            if txs.contains_key(k) {
                assert(keys@.contains(k));
                let j = choose|j: int| 0 <= j < keys@.len() && keys@[j] == k;
                if j < keys@.len() - 1 {
                    assert(keys@[j] < keys@[keys@.len() - 1]);
                }
            }
        }
        lemma_gap(txs, account, span, bound, 0x1_0000_0000);
    }
    sum
}

/// The whole number as a 32-bit one, where it is one.
fn narrowed(total: i128) -> (r: Option<i32>)
    ensures
        r == (if i32::MIN <= total <= i32::MAX {
            Some(total as i32)
        } else {
            None
        }),
{
    if total >= -0x8000_0000 && total <= 0x7fff_ffff {
        Some(total as i32)
    } else {
        None
    }
}

/// In an ascending sequence, no element is smaller than its place.
proof fn lemma_ascending_at_least_index(s: Seq<u32>, i: int)
    requires
        strictly_ascending(s),
        0 <= i < s.len(),
    ensures
        s[i] >= i,
    decreases i,
{
    if i > 0 {
        lemma_ascending_at_least_index(s, i - 1);
        assert(s[i - 1] < s[i]);
    }
}

impl Account {
    /// The amount of the account as a whole number that cannot overflow.
    fn wide_current_amount(&self, app_data: &AppData) -> (total: i128)
        ensures
            total == amount_now(*self, app_data@.store.transactions),
    {
        let latest = self.latest_balance();
        let span = Span { after: latest.date.days, upto: i32::MAX };
        let sum = sum_of_transactions(app_data.transactions(), self.id, span);
        latest.amount as i128 + sum
    }

    /// The amount of the account on a day as a whole number that cannot
    /// overflow.
    fn wide_balance_on_date(&self, app_data: &AppData, date: Date) -> (total: i128)
        requires
            self.balances_sorted(),
        ensures
            total == amount_on(*self, app_data@.store.transactions, date.days),
    {
        let at = self.balance_position(date);
        let held = if at < self.balances.len() && self.balances[at].date.days == date.days {
            at + 1
        } else {
            at
        };
        proof {
            lemma_balance_as_of(self.balances@, date.days, held as int);
        }
        let base = if held == 0 {
            Balance { date: Date::min_value(), amount: 0 }
        } else {
            self.balances[held - 1]
        };
        let span = Span { after: base.date.days, upto: date.days };
        let sum = sum_of_transactions(app_data.transactions(), self.id, span);
        base.amount as i128 + sum
    }

    /// The amount of the account, where it can be held in 32 bits.
    pub fn checked_current_amount(&self, app_data: &AppData) -> (r: Option<i32>)
        ensures
            r == (if i32::MIN <= amount_now(*self, app_data@.store.transactions) <= i32::MAX {
                Some(amount_now(*self, app_data@.store.transactions) as i32)
            } else {
                None
            }),
    {
        narrowed(self.wide_current_amount(app_data))
    }

    /// The amount of the account: its latest balance and the amounts of
    /// all its transactions dated after that balance.
    pub fn current_amount(&self, app_data: &AppData) -> (r: i32)
        requires
            i32::MIN <= amount_now(*self, app_data@.store.transactions) <= i32::MAX,
        ensures
            r == amount_now(*self, app_data@.store.transactions),
    {
        self.wide_current_amount(app_data) as i32
    }

    /// The amount of the account on a day, where it can be held in 32
    /// bits.
    pub fn checked_balance_on_date(&self, app_data: &AppData, date: Date) -> (r: Option<i32>)
        requires
            self.balances_sorted(),
        ensures
            r == (if i32::MIN <= amount_on(*self, app_data@.store.transactions, date.days)
                <= i32::MAX {
                Some(amount_on(*self, app_data@.store.transactions, date.days) as i32)
            } else {
                None
            }),
    {
        narrowed(self.wide_balance_on_date(app_data, date))
    }

    /// The amount of the account on a day: the balance that holds on that
    /// day, and the amounts of the account's transactions dated after
    /// that balance, up to and with the day.
    pub fn balance_on_date(&self, app_data: &AppData, date: Date) -> (r: i32)
        requires
            self.balances_sorted(),
            i32::MIN <= amount_on(*self, app_data@.store.transactions, date.days) <= i32::MAX,
        ensures
            r == amount_on(*self, app_data@.store.transactions, date.days),
    {
        self.wide_balance_on_date(app_data, date) as i32
    }
}

} // verus!
