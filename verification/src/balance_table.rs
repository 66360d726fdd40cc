//! The table of an account's balances: for each balance, and for the time
//! after the last one, the total of the transactions counted to it.

use vstd::prelude::*;
use crate::date::{Date, MAX_DAYS};
use crate::model::{group_by_date, ids_on};
use crate::models::{Account, Balance, Transaction};
use crate::ordered::{lists_ascending, lists_days_ascending, sorted_days, sorted_members};
use crate::store::{index_view, AppData};

verus! {

/// Where the count stands: the row to which the last transaction was
/// counted, and the total of each row so far.
pub struct Tally {
    pub at: int,
    pub totals: Seq<int>,
}

/// The days of the rows of the table: those of the balances, and after
/// them the latest day of all.
pub open spec fn row_days(balances: Seq<Balance>) -> Seq<i32> {
    Seq::new(
        balances.len() + 1,
        |r: int|
            if r < balances.len() {
                balances[r].date.days
            } else {
                MAX_DAYS
            },
    )
}

/// The count before any transaction: at the first row, with every total
/// zero.
pub open spec fn start(rows: nat) -> Tally {
    Tally { at: 0, totals: Seq::new(rows, |r: int| 0int) }
}

/// The count after one more transaction, dated on `day`: where that day
/// is later than the day of the row at which the count stands, and a row
/// follows, the count moves on by one row; the amount is added to the row
/// at which the count then stands.
pub open spec fn counted_to(days: Seq<i32>, t: Tally, day: i32, amount: int) -> Tally {
    let at = if day > days[t.at] && t.at + 1 < days.len() {
        t.at + 1
    } else {
        t.at
    };
    Tally { at, totals: t.totals.update(at, t.totals[at] + amount) }
}

/// Whether `id` stands for a transaction of the account dated on `day`.
pub open spec fn belongs(txs: Map<u32, Transaction>, account: u32, day: int, id: u32) -> bool {
    txs.contains_key(id) && txs[id].account_id == account && txs[id].date.days == day
}

/// The count after the account's transactions dated before `day`, and
/// those dated on `day` with an id below `bound`, each counted in the
/// order of the dates and, within a day, of the ids.
pub open spec fn tally(
    txs: Map<u32, Transaction>,
    account: u32,
    days: Seq<i32>,
    day: int,
    bound: nat,
) -> Tally
    decreases day - i32::MIN + 1, bound,
{
    if day < i32::MIN || day > i32::MAX || bound > 0x1_0000_0000 {
        start(days.len())
    } else if bound == 0 {
        tally(txs, account, days, day - 1, 0x1_0000_0000)
    } else {
        let before = tally(txs, account, days, day, (bound - 1) as nat);
        let id = (bound - 1) as u32;
        if belongs(txs, account, day, id) {
            counted_to(days, before, day as i32, txs[id].amount as int)
        } else {
            before
        }
    }
}

/// The count after all transactions of the account.
pub open spec fn full_tally(account: Account, txs: Map<u32, Transaction>) -> Tally {
    tally(txs, account.id, row_days(account.balances@), i32::MAX as int, 0x1_0000_0000)
}

/// Whether `table` shows the balances of the account, and after them a
/// row for the time after the last balance, each with its total.
pub open spec fn shows(table: Seq<(Balance, i32)>, account: Account, totals: Seq<int>) -> bool {
    &&& table.len() == account.balances@.len() + 1
    &&& forall|r: int|
        0 <= r < account.balances@.len() ==> (#[trigger] table[r]).0 == account.balances@[r]
    &&& table.last().0 == Balance { date: Date { days: MAX_DAYS }, amount: 0 }
    &&& forall|r: int| 0 <= r < table.len() ==> (#[trigger] table[r]).1 == totals[r]
}

/// Ids that stand for no transaction of the account on the day leave the
/// count as it is.
proof fn lemma_ids_gap(
    txs: Map<u32, Transaction>,
    account: u32,
    days: Seq<i32>,
    day: int,
    lo: nat,
    hi: nat,
)
    requires
        i32::MIN <= day <= i32::MAX,
        lo <= hi <= 0x1_0000_0000,
        forall|id: u32| lo <= id < hi ==> !belongs(txs, account, day, id),
    ensures
        tally(txs, account, days, day, hi) == tally(txs, account, days, day, lo),
    decreases hi - lo,
{
    if lo < hi {
        lemma_ids_gap(txs, account, days, day, lo, (hi - 1) as nat);
        assert(!belongs(txs, account, day, (hi - 1) as u32));
    }
}

/// Days on which the account has no transaction leave the count as it is.
proof fn lemma_days_gap(
    txs: Map<u32, Transaction>,
    account: u32,
    days: Seq<i32>,
    from: int,
    to: int,
)
    requires
        i32::MIN - 1 <= from <= to <= i32::MAX,
        forall|d: int, id: u32| from < d <= to ==> !belongs(txs, account, d, id),
    ensures
        tally(txs, account, days, to, 0x1_0000_0000) == tally(
            txs,
            account,
            days,
            from,
            0x1_0000_0000,
        ),
    decreases to - from,
{
    if from < to {
        lemma_days_gap(txs, account, days, from, to - 1);
        lemma_ids_gap(txs, account, days, to, 0, 0x1_0000_0000);
    }
}

/// The count keeps its shape: it stands at a row of the table, and holds
/// a total for each row.
proof fn lemma_tally_shape(
    txs: Map<u32, Transaction>,
    account: u32,
    days: Seq<i32>,
    day: int,
    bound: nat,
)
    requires
        days.len() > 0,
    ensures
        0 <= tally(txs, account, days, day, bound).at < days.len(),
        tally(txs, account, days, day, bound).totals.len() == days.len(),
    decreases day - i32::MIN + 1, bound,
{
    if day < i32::MIN || day > i32::MAX || bound > 0x1_0000_0000 {
    } else if bound == 0 {
        lemma_tally_shape(txs, account, days, day - 1, 0x1_0000_0000);
    } else {
        lemma_tally_shape(txs, account, days, day, (bound - 1) as nat);
    }
}

/// The day of the row `r` of the account's table.
fn row_day(account: &Account, r: usize) -> (day: i32)
    requires
        r <= account.balances@.len(),
    ensures
        day == row_days(account.balances@)[r as int],
{
    if r < account.balances.len() {
        account.balances[r].date.days
    } else {
        MAX_DAYS
    }
}

impl Account {
    /// The table of the account's balances, with the total of the
    /// transactions counted to each, and a last row for the time after
    /// the last balance. The account's transactions are counted in the
    /// order of their dates and, within a day, of their ids; see
    /// `counted_to` for the row to which each is counted. `None` where a
    /// total cannot be held in 32 bits.
    pub fn balance_table(&self, app_data: &AppData) -> (r: Option<Vec<(Balance, i32)>>)
        requires
            app_data.indexed(),
            self.balances@.len() < usize::MAX,
        ensures
            match r {
                Some(table) => shows(
                    table@,
                    *self,
                    full_tally(*self, app_data@.store.transactions).totals,
                ),
                None => exists|row: int|
                    0 <= row <= self.balances@.len() && !(i32::MIN <= #[trigger] full_tally(
                        *self,
                        app_data@.store.transactions,
                    ).totals[row] <= i32::MAX),
            },
    {
        let transactions = app_data.transactions();
        let index = app_data.transactions_by_date();
        let ghost txs = transactions@;
        let ghost grouped = group_by_date(txs);
        let ghost dates = row_days(self.balances@);
        let rows = self.balances.len() + 1;
        let mut totals: Vec<i128> = Vec::new();
        let mut r: usize = 0;
        while r < rows
            invariant
                0 <= r <= rows,
                totals@.len() == r,
                forall|j: int| 0 <= j < r ==> totals@[j] == 0,
            decreases rows - r,
        {
            totals.push(0);
            r += 1;
        }
        let mut at: usize = 0;
        let mut seen: usize = 0;
        let ghost mut done: Set<u32> = Set::empty();
        let ghost mut reached: int = i32::MIN - 1;
        let days = sorted_days(index);
        let mut a: usize = 0;
        proof {
            assert(totals@.map_values(|t: i128| t as int) =~= start(rows as nat).totals);
            assert(index_view(index@) == grouped);
        }
        while a < days.len()
            invariant
                txs == transactions@,
                txs == app_data@.store.transactions,
                grouped == group_by_date(txs),
                index_view(index@) == grouped,
                dates == row_days(self.balances@),
                rows == self.balances@.len() + 1,
                lists_days_ascending(days@, index@.dom()),
                0 <= a <= days@.len(),
                a == 0 ==> reached == i32::MIN - 1,
                a > 0 ==> reached == days@[a - 1],
                at == tally(txs, self.id, dates, reached, 0x1_0000_0000).at,
                totals@.len() == rows,
                totals@.map_values(|t: i128| t as int) == tally(
                    txs,
                    self.id,
                    dates,
                    reached,
                    0x1_0000_0000,
                ).totals,
                0 <= at < rows,
                done.finite(),
                done.len() == seen,
                done.subset_of(txs.dom()),
                forall|k: u32| done.contains(k) ==> txs[k].date.days <= reached,
                forall|j: int|
                    0 <= j < rows ==> -(seen * 0x8000_0000) <= #[trigger] totals@[j] <= seen
                        * 0x8000_0000,
            decreases days@.len() - a,
        {
            let day = days[a];
            proof {
                assert(days@.contains(day));
                assert forall|d: int, id: u32| reached < d <= day - 1 implies !belongs(
                    txs,
                    self.id,
                    d,
                    id,
                ) by {
                    if belongs(txs, self.id, d, id) {
                        assert(ids_on(txs, d as i32).contains(id));
                        assert(grouped.contains_key(d as i32));
                        assert(index@.dom().contains(d as i32));
                        assert(days@.contains(d as i32));
                        let j = choose|j: int| 0 <= j < days@.len() && days@[j] == d as i32;
                        if j < a {
                            if a > 0 && j < a - 1 {
                                assert(days@[j] < days@[a - 1]);
                            }
                        } else if j > a {
                            assert(days@[a as int] < days@[j]);
                        }
                    }
                }
                if a > 0 {
                    assert(days@[a - 1] < days@[a as int]);
                }
                lemma_days_gap(txs, self.id, dates, reached, day - 1);
            }
            let ghost before_day = reached;
            match index.get(&day) {
                Some(set) => {
                    let ids = sorted_members(set);
                    let ghost mut bound: nat = 0;
                    let mut b: usize = 0;
                    proof {
                        assert(set@ == grouped[day]);
                        assert(set@ == ids_on(txs, day));
                    }
                    while b < ids.len()
                        invariant
                            txs == transactions@,
                            dates == row_days(self.balances@),
                            rows == self.balances@.len() + 1,
                            set@ == ids_on(txs, day),
                            lists_ascending(ids@, set@),
                            0 <= b <= ids@.len(),
                            bound <= 0x1_0000_0000,
                            b == 0 ==> bound == 0,
                            b > 0 ==> bound == ids@[b - 1] + 1,
                            at == tally(txs, self.id, dates, day as int, bound).at,
                            totals@.len() == rows,
                            totals@.map_values(|t: i128| t as int) == tally(
                                txs,
                                self.id,
                                dates,
                                day as int,
                                bound,
                            ).totals,
                            0 <= at < rows,
                            done.finite(),
                            done.len() == seen,
                            done.subset_of(txs.dom()),
                            forall|k: u32|
                                done.contains(k) ==> txs[k].date.days < day || (txs[k].date.days
                                    == day && k < bound),
                            forall|j: int|
                                0 <= j < rows ==> -(seen * 0x8000_0000) <= #[trigger] totals@[j]
                                    <= seen * 0x8000_0000,
                        decreases ids@.len() - b,
                    {
                        let id = ids[b];
                        proof {
                            assert(ids@.contains(id));
                            assert forall|k: u32| bound <= k < id implies !belongs(
                                txs,
                                self.id,
                                day as int,
                                k,
                            ) by {
                                if belongs(txs, self.id, day as int, k) {
                                    assert(set@.contains(k));
                                    assert(ids@.contains(k));
                                    let j = choose|j: int| 0 <= j < ids@.len() && ids@[j] == k;
                                    if j < b {
                                        if b > 0 && j < b - 1 {
                                            assert(ids@[j] < ids@[b - 1]);
                                        }
                                    } else if j > b {
                                        assert(ids@[b as int] < ids@[j]);
                                    }
                                }
                            }
                            if b > 0 {
                                assert(ids@[b - 1] < ids@[b as int]);
                            }
                            lemma_ids_gap(txs, self.id, dates, day as int, bound, id as nat);
                            lemma_tally_shape(txs, self.id, dates, day as int, id as nat);
                            assert(set@.contains(id));
                            assert(txs.contains_key(id) && txs[id].date.days == day);
                        }
                        match transactions.get(&id) {
                            Some(transaction) => {
                                if transaction.account_id == self.id {
                                    proof {
                                        assert(!done.contains(id));
                                        vstd::set_lib::lemma_len_subset(
                                            done.insert(id),
                                            txs.dom(),
                                        );
                                        assert(seen + 1 <= transactions.len());
                                    }
                                    let here = row_day(self, at);
                                    if day > here && at + 1 < rows {
                                        at = at + 1;
                                    }
                                    let ghost old_totals = totals@;
                                    let sum = totals[at] + transaction.amount as i128;
                                    totals.set(at, sum);
                                    seen = seen + 1;
                                    proof {
                                        done = done.insert(id);
                                        assert(totals@.map_values(|t: i128| t as int)
                                            =~= old_totals.map_values(|t: i128| t as int).update(
                                            at as int,
                                            old_totals[at as int] + transaction.amount,
                                        ));
                                    }
                                }
                            },
                            None => {},
                        }
                        proof {
                            bound = (id + 1) as nat;
                        }
                        b += 1;
                    }
                    proof {
                        assert forall|k: u32| bound <= k < 0x1_0000_0000 implies !belongs(
                            txs,
                            self.id,
                            day as int,
                            k,
                        ) by {
                            if belongs(txs, self.id, day as int, k) {
                                assert(set@.contains(k));
                                assert(ids@.contains(k));
                                let j = choose|j: int| 0 <= j < ids@.len() && ids@[j] == k;
                                if j < ids@.len() - 1 {
                                    assert(ids@[j] < ids@[ids@.len() - 1]);
                                }
                            }
                        }
                        lemma_ids_gap(txs, self.id, dates, day as int, bound, 0x1_0000_0000);
                    }
                },
                None => {
                    proof {
                        assert(index@.dom().contains(day));
                    }
                },
            }
            proof {
                reached = day as int;
            }
            a += 1;
        }
        proof {
            assert forall|d: int, id: u32| reached < d <= i32::MAX implies !belongs(
                txs,
                self.id,
                d,
                id,
            ) by {
                if belongs(txs, self.id, d, id) {
                    assert(ids_on(txs, d as i32).contains(id));
                    assert(grouped.contains_key(d as i32));
                    assert(index@.dom().contains(d as i32));
                    assert(days@.contains(d as i32));
                    let j = choose|j: int| 0 <= j < days@.len() && days@[j] == d as i32;
                    if j < days@.len() - 1 {
                        assert(days@[j] < days@[days@.len() - 1]);
                    }
                }
            }
            lemma_days_gap(txs, self.id, dates, reached, i32::MAX as int);
        }
        let ghost full = full_tally(*self, txs).totals;
        let mut table: Vec<(Balance, i32)> = Vec::new();
        let mut r: usize = 0;
        while r < rows
            invariant
                rows == self.balances@.len() + 1,
                totals@.len() == rows,
                full == full_tally(*self, app_data@.store.transactions).totals,
                totals@.map_values(|t: i128| t as int) == full,
                0 <= r <= rows,
                table@.len() == r,
                forall|j: int|
                    0 <= j < r && j < self.balances@.len() ==> (#[trigger] table@[j]).0
                        == self.balances@[j],
                r == rows ==> table@[rows - 1].0 == (Balance {
                    date: Date { days: MAX_DAYS },
                    amount: 0,
                }),
                forall|j: int| 0 <= j < r ==> (#[trigger] table@[j]).1 == full[j],
            decreases rows - r,
        {
            let total = totals[r];
            proof {
                assert(totals@.map_values(|t: i128| t as int)[r as int] == total);
            }
            if total < -0x8000_0000 || total > 0x7fff_ffff {
                proof {
                    let row = r as int;
                    assert(!(i32::MIN <= full_tally(
                        *self,
                        app_data@.store.transactions,
                    ).totals[row] <= i32::MAX));
                }
                return None;
            }
            let balance = if r < self.balances.len() {
                self.balances[r]
            } else {
                Balance { date: Date::max_value(), amount: 0 }
            };
            table.push((balance, total as i32));
            r += 1;
        }
        Some(table)
    }
}

} // verus!
