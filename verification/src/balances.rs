//! The balances of an account: a list kept in the order of its dates, with
//! one balance for a date at most.

use vstd::prelude::*;
use crate::date::Date;
use crate::models::{Account, Balance};

verus! {

/// Each balance is dated before every later one of the list.
pub open spec fn dates_ascending(s: Seq<Balance>) -> bool {
    forall|i: int, j: int| 0 <= i < j < s.len() ==> s[i].date.days < s[j].date.days
}

/// How many balances of the list are dated before the day `day`.
pub open spec fn dated_before(s: Seq<Balance>, day: i32) -> nat
    decreases s.len(),
{
    if s.len() == 0 {
        0
    } else {
        dated_before(s.drop_last(), day) + (if s.last().date.days < day {
            1nat
        } else {
            0nat
        })
    }
}

/// In a list in the order of its dates, the balances dated before a day
/// are those at the front, up to a place `p`.
pub proof fn lemma_dated_before_is_place(s: Seq<Balance>, day: i32, p: int)
    requires
        dates_ascending(s),
        0 <= p <= s.len(),
        forall|i: int| 0 <= i < p ==> s[i].date.days < day,
        forall|i: int| p <= i < s.len() ==> s[i].date.days >= day,
    ensures
        dated_before(s, day) == p,
    decreases s.len(),
{
    if s.len() > 0 {
        let rest = s.drop_last();
        if p == s.len() {
            lemma_dated_before_is_place(rest, day, p - 1);
        } else {
            lemma_dated_before_is_place(rest, day, p);
        }
    }
}

impl Account {
    /// The balances stand in the order of their dates, no two on one day.
    pub open spec fn balances_sorted(&self) -> bool {
        dates_ascending(self.balances@)
    }

    /// Whether a balance is recorded for the day.
    pub open spec fn spec_has_balance_on(&self, date: Date) -> bool {
        exists|i: int| 0 <= i < self.balances@.len() && (#[trigger] self.balances@[i]).date == date
    }

    /// The place in the list at which a balance of the given date stands
    /// or would stand: the number of balances dated before it.
    pub fn balance_position(&self, date: Date) -> (r: usize)
        requires
            self.balances_sorted(),
        ensures
            r == dated_before(self.balances@, date.days),
            r <= self.balances@.len(),
            forall|i: int| 0 <= i < r ==> self.balances@[i].date.days < date.days,
            forall|i: int| r <= i < self.balances@.len() ==> self.balances@[i].date.days >= date.days,
    {
        let mut low: usize = 0;
        let mut high: usize = self.balances.len();
        while low < high
            invariant
                self.balances_sorted(),
                0 <= low <= high <= self.balances@.len(),
                forall|i: int| 0 <= i < low ==> self.balances@[i].date.days < date.days,
                forall|i: int|
                    high <= i < self.balances@.len() ==> self.balances@[i].date.days >= date.days,
            decreases high - low,
        {
            let mid = low + (high - low) / 2;
            if self.balances[mid].date.days < date.days {
                low = mid + 1;
            } else {
                high = mid;
            }
        }
        proof {
            lemma_dated_before_is_place(self.balances@, date.days, low as int);
        }
        low
    }

    /// Whether a balance is recorded for the day.
    pub fn has_balance_on(&self, date: Date) -> (r: bool)
        requires
            self.balances_sorted(),
        ensures
            r == self.spec_has_balance_on(date),
    {
        let at = self.balance_position(date);
        at < self.balances.len() && self.balances[at].date.days == date.days
    }

    /// Records a balance: in place of the one of the same day where there
    /// is one, and otherwise at its place in the order of the dates.
    pub fn set_balance(&mut self, balance: Balance)
        requires
            old(self).balances_sorted(),
        ensures
            final(self).balances_sorted(),
            final(self).id == old(self).id,
            final(self).name == old(self).name,
            final(self).currency_id == old(self).currency_id,
            final(self).debit_account == old(self).debit_account,
            final(self).balances@ == ({
                let at = dated_before(old(self).balances@, balance.date.days) as int;
                if old(self).spec_has_balance_on(balance.date) {
                    old(self).balances@.update(at, balance)
                } else {
                    old(self).balances@.insert(at, balance)
                }
            }),
            final(self).spec_has_balance_on(balance.date),
            forall|b: Balance|
                final(self).balances@.contains(b) <==> (b == balance || (old(
                    self,
                ).balances@.contains(b) && b.date != balance.date)),
    {
        let at = self.balance_position(balance.date);
        if at < self.balances.len() && self.balances[at].date.days == balance.date.days {
            self.balances[at] = balance;
            proof {
                let before = old(self).balances@;
                let after = self.balances@;
                assert(before[at as int].date == balance.date);
                assert(after[at as int].date == balance.date);
                assert forall|b: Balance|
                    after.contains(b) <==> (b == balance || (before.contains(b) && b.date
                        != balance.date)) by {
                    if after.contains(b) {
                        let i = choose|i: int| 0 <= i < after.len() && after[i] == b;
                        if i != at {
                            assert(before[i] == b);
                            if i < at {
                                assert(before[i].date.days < before[at as int].date.days);
                            } else {
                                assert(before[at as int].date.days < before[i].date.days);
                            }
                        }
                    }
                    if b == balance {
                        assert(after[at as int] == b);
                    }
                    if before.contains(b) && b.date != balance.date {
                        let i = choose|i: int| 0 <= i < before.len() && before[i] == b;
                        assert(after[i] == b);
                    }
                }
            }
        } else {
            proof {
                assert(!old(self).spec_has_balance_on(balance.date)) by {
                    if old(self).spec_has_balance_on(balance.date) {
                        let i = choose|i: int|
                            0 <= i < old(self).balances@.len() && (
                            #[trigger] old(self).balances@[i]).date == balance.date;
                        if i > at {
                            assert(old(self).balances@[at as int].date.days < old(
                                self,
                            ).balances@[i].date.days);
                        }
                    }
                }
            }
            self.balances.insert(at, balance);
            proof {
                let before = old(self).balances@;
                let after = self.balances@;
                assert(after[at as int].date == balance.date);
                assert forall|b: Balance|
                    after.contains(b) <==> (b == balance || (before.contains(b) && b.date
                        != balance.date)) by {
                    if after.contains(b) {
                        let i = choose|i: int| 0 <= i < after.len() && after[i] == b;
                        if i < at {
                            assert(before[i] == b);
                        } else if i > at {
                            assert(before[i - 1] == b);
                        }
                        if i != at && b.date == balance.date {
                            assert(before.contains(b));
                            assert(old(self).spec_has_balance_on(balance.date));
                        }
                    }
                    if b == balance {
                        assert(after[at as int] == b);
                    }
                    if before.contains(b) && b.date != balance.date {
                        let i = choose|i: int| 0 <= i < before.len() && before[i] == b;
                        if i < at {
                            assert(after[i] == b);
                        } else {
                            assert(after[i + 1] == b);
                        }
                    }
                }
            }
        }
    }

    /// Takes away the balance at the place `index` of the list.
    pub fn remove_balance(&mut self, index: usize) -> (removed: Balance)
        requires
            old(self).balances_sorted(),
            index < old(self).balances@.len(),
        ensures
            final(self).balances_sorted(),
            final(self).id == old(self).id,
            final(self).name == old(self).name,
            final(self).currency_id == old(self).currency_id,
            final(self).debit_account == old(self).debit_account,
            final(self).balances@ == old(self).balances@.remove(index as int),
            removed == old(self).balances@[index as int],
            !final(self).spec_has_balance_on(removed.date),
    {
        let removed = self.balances.remove(index);
        proof {
            if self.spec_has_balance_on(removed.date) {
                let i = choose|i: int|
                    0 <= i < self.balances@.len() && (#[trigger] self.balances@[i]).date
                        == removed.date;
                if i < index {
                    assert(old(self).balances@[i].date.days < old(
                        self,
                    ).balances@[index as int].date.days);
                } else {
                    assert(old(self).balances@[index as int].date.days < old(self).balances@[i
                        + 1].date.days);
                }
            }
        }
        removed
    }
}

} // verus!
