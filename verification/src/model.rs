//! The mathematical model of the store and of the commands on it.

use vstd::prelude::*;
use crate::models::{Account, Category, Currency, Entity, Flow, Transaction, TransactionGroup};
use crate::updates::Update;

verus! {

/// The six collections of a store, each as a map from id to entity.
pub struct StoreView {
    pub accounts: Map<u32, Account>,
    pub categories: Map<u32, Category>,
    pub currencies: Map<u32, Currency>,
    pub flows: Map<u32, Flow>,
    pub transactions: Map<u32, Transaction>,
    pub transaction_groups: Map<u32, TransactionGroup>,
}

impl StoreView {
    /// The store that holds nothing.
    pub open spec fn empty() -> StoreView {
        StoreView {
            accounts: Map::empty(),
            categories: Map::empty(),
            currencies: Map::empty(),
            flows: Map::empty(),
            transactions: Map::empty(),
            transaction_groups: Map::empty(),
        }
    }

    /// Every entity stands under its own id.
    pub open spec fn keyed(self) -> bool {
        &&& forall|k: u32| self.accounts.contains_key(k) ==> (#[trigger] self.accounts[k]).id == k
        &&& forall|k: u32|
            self.categories.contains_key(k) ==> (#[trigger] self.categories[k]).id == k
        &&& forall|k: u32|
            self.currencies.contains_key(k) ==> (#[trigger] self.currencies[k]).id == k
        &&& forall|k: u32| self.flows.contains_key(k) ==> (#[trigger] self.flows[k]).id == k
        &&& forall|k: u32|
            self.transactions.contains_key(k) ==> (#[trigger] self.transactions[k]).id == k
        &&& forall|k: u32|
            self.transaction_groups.contains_key(k) ==> (#[trigger] self.transaction_groups[k]).id
                == k
    }

    /// The same collections, each compared by what it holds.
    pub open spec fn same_as(self, other: StoreView) -> bool {
        &&& self.accounts =~= other.accounts
        &&& self.categories =~= other.categories
        &&& self.currencies =~= other.currencies
        &&& self.flows =~= other.flows
        &&& self.transactions =~= other.transactions
        &&& self.transaction_groups =~= other.transaction_groups
    }
}

/// The store after the command `u`. A set puts the entity under its id,
/// in place of what was there; a delete removes what is under the id, if
/// anything.
pub open spec fn next_store(s: StoreView, u: Update) -> StoreView {
    match u {
        Update::SetAccount(e) => StoreView { accounts: s.accounts.insert(e.id, e), ..s },
        Update::DeleteAccount(id) => StoreView { accounts: s.accounts.remove(id), ..s },
        Update::SetCategory(e) => StoreView { categories: s.categories.insert(e.id, e), ..s },
        Update::DeleteCategory(id) => StoreView { categories: s.categories.remove(id), ..s },
        Update::SetCurrency(e) => StoreView { currencies: s.currencies.insert(e.id, e), ..s },
        Update::DeleteCurrency(id) => StoreView { currencies: s.currencies.remove(id), ..s },
        Update::SetFlow(e) => StoreView { flows: s.flows.insert(e.id, e), ..s },
        Update::DeleteFlow(id) => StoreView { flows: s.flows.remove(id), ..s },
        Update::SetTransactionGroup(e) => StoreView {
            transaction_groups: s.transaction_groups.insert(e.id, e),
            ..s
        },
        Update::DeleteTransactionGroup(id) => StoreView {
            transaction_groups: s.transaction_groups.remove(id),
            ..s
        },
        Update::SetTransaction(e) => StoreView {
            transactions: s.transactions.insert(e.id, e),
            ..s
        },
        Update::DeleteTransaction(id) => StoreView { transactions: s.transactions.remove(id), ..s },
    }
}

/// The id that the command `u` is about.
pub open spec fn target_id(u: Update) -> u32 {
    match u {
        Update::SetAccount(e) => e.id,
        Update::SetCategory(e) => e.id,
        Update::SetCurrency(e) => e.id,
        Update::SetFlow(e) => e.id,
        Update::SetTransactionGroup(e) => e.id,
        Update::SetTransaction(e) => e.id,
        Update::DeleteAccount(id) => id,
        Update::DeleteCategory(id) => id,
        Update::DeleteCurrency(id) => id,
        Update::DeleteFlow(id) => id,
        Update::DeleteTransactionGroup(id) => id,
        Update::DeleteTransaction(id) => id,
    }
}

/// The command that undoes `u` in the store `s`: where `s` holds an entity
/// under the id that `u` is about, the command that sets that entity;
/// where it holds none, the command that deletes the id.
pub open spec fn reverse(s: StoreView, u: Update) -> Update {
    let id = target_id(u);
    match u {
        Update::SetAccount(_) | Update::DeleteAccount(_) => if s.accounts.contains_key(id) {
            Update::SetAccount(s.accounts[id])
        } else {
            Update::DeleteAccount(id)
        },
        Update::SetCategory(_) | Update::DeleteCategory(_) => if s.categories.contains_key(id) {
            Update::SetCategory(s.categories[id])
        } else {
            Update::DeleteCategory(id)
        },
        Update::SetCurrency(_) | Update::DeleteCurrency(_) => if s.currencies.contains_key(id) {
            Update::SetCurrency(s.currencies[id])
        } else {
            Update::DeleteCurrency(id)
        },
        Update::SetFlow(_) | Update::DeleteFlow(_) => if s.flows.contains_key(id) {
            Update::SetFlow(s.flows[id])
        } else {
            Update::DeleteFlow(id)
        },
        Update::SetTransactionGroup(_) | Update::DeleteTransactionGroup(_) => if s.transaction_groups.contains_key(
            id,
        ) {
            Update::SetTransactionGroup(s.transaction_groups[id])
        } else {
            Update::DeleteTransactionGroup(id)
        },
        Update::SetTransaction(_) | Update::DeleteTransaction(_) => if s.transactions.contains_key(
            id,
        ) {
            Update::SetTransaction(s.transactions[id])
        } else {
            Update::DeleteTransaction(id)
        },
    }
}

/// Whether the command sets or deletes a category.
pub open spec fn touches_categories(u: Update) -> bool {
    u is SetCategory || u is DeleteCategory
}

/// The store after the commands of `us`, applied from the first to the
/// last.
pub open spec fn apply_all(s: StoreView, us: Seq<Update>) -> StoreView
    decreases us.len(),
{
    if us.len() == 0 {
        s
    } else {
        next_store(apply_all(s, us.drop_last()), us.last())
    }
}

/// The batch that undoes `us` in the store `s`: it holds, from the last
/// command of `us` back to the first, the command that undoes it in the
/// store that the commands before it have made.
pub open spec fn reverse_all(s: StoreView, us: Seq<Update>) -> Seq<Update> {
    Seq::new(
        us.len(),
        |k: int| reverse(apply_all(s, us.take(us.len() - 1 - k)), us[us.len() - 1 - k]),
    )
}

/// Whether some command of the batch sets or deletes a category.
pub open spec fn any_touches_categories(us: Seq<Update>) -> bool {
    exists|i: int| 0 <= i < us.len() && touches_categories(#[trigger] us[i])
}

/// What the store holds under `id`, if anything.
pub open spec fn lookup<E>(m: Map<u32, E>, id: u32) -> Option<E> {
    if m.contains_key(id) {
        Some(m[id])
    } else {
        None
    }
}

/// The map that a list of entities gives when each is put under its id,
/// from the first to the last: of two with one id, the later one stays.
pub open spec fn indexed<E: Entity>(items: Seq<E>) -> Map<u32, E>
    decreases items.len(),
{
    if items.len() == 0 {
        Map::empty()
    } else {
        indexed(items.drop_last()).insert(items.last().entity_id(), items.last())
    }
}

/// In the map that a list of entities gives, every entity stands under its
/// own id.
pub proof fn lemma_indexed_keyed<E: Entity>(items: Seq<E>)
    ensures
        forall|k: u32| #[trigger]
            indexed(items).contains_key(k) ==> indexed(items)[k].entity_id() == k,
    decreases items.len(),
{
    if items.len() > 0 {
        let rest = indexed(items.drop_last());
        lemma_indexed_keyed(items.drop_last());
        assert forall|k: u32| #[trigger] indexed(items).contains_key(k) implies indexed(
            items,
        )[k].entity_id() == k by {
            if k != items.last().entity_id() {
                assert(rest.contains_key(k));
            }
        }
    }
}

/// The ids of a list of entities, in the list's order.
pub open spec fn ids_of<E: Entity>(items: Seq<&E>) -> Seq<u32> {
    Seq::new(items.len(), |i: int| items[i].entity_id())
}

/// `items` lists what the map holds, each entity once, by ascending id.
pub open spec fn lists_entities<E: Entity>(items: Seq<&E>, m: Map<u32, E>) -> bool {
    &&& crate::ordered::lists_ascending(ids_of(items), m.dom())
    &&& forall|i: int| 0 <= i < items.len() ==> *#[trigger] items[i] == m[items[i].entity_id()]
}

/// The part of the transactions that stands under the first `i` of
/// `keys`.
pub open spec fn first_transactions(
    txs: Map<u32, Transaction>,
    keys: Seq<u32>,
    i: int,
) -> Map<u32, Transaction> {
    Map::new(|k: u32| keys.take(i).contains(k) && txs.contains_key(k), |k: u32| txs[k])
}

/// The ids of the transactions dated on the day with number `day`.
pub open spec fn ids_on(txs: Map<u32, Transaction>, day: i32) -> Set<u32> {
    Set::new(|id: u32| txs.contains_key(id) && txs[id].date.days == day)
}

/// The transactions' ids grouped by date: each day on which at least one
/// transaction is dated, with the ids of the transactions of that day.
pub open spec fn group_by_date(txs: Map<u32, Transaction>) -> Map<i32, Set<u32>> {
    Map::new(|d: i32| exists|id: u32| ids_on(txs, d).contains(id), |d: i32| ids_on(txs, d))
}

/// The ids that a date index holds under `day`: none where the day has no
/// entry.
pub open spec fn bucket(index: Map<i32, Set<u32>>, day: i32) -> Set<u32> {
    if index.contains_key(day) {
        index[day]
    } else {
        Set::empty()
    }
}

/// The index with `id` added under `day`.
pub open spec fn index_with(index: Map<i32, Set<u32>>, day: i32, id: u32) -> Map<i32, Set<u32>> {
    index.insert(day, bucket(index, day).insert(id))
}

/// The index with `id` taken away from under `day`; a day that is left
/// without ids loses its entry.
pub open spec fn index_without(index: Map<i32, Set<u32>>, day: i32, id: u32) -> Map<
    i32,
    Set<u32>,
> {
    let rest = bucket(index, day).remove(id);
    if rest =~= Set::<u32>::empty() {
        index.remove(day)
    } else {
        index.insert(day, rest)
    }
}

/// How the grouping by date changes when a transaction is put under its
/// id: the id is added under the transaction's day, and taken away from
/// under the day of the transaction that it replaces, if that is another
/// day.
pub proof fn lemma_group_insert(txs: Map<u32, Transaction>, t: Transaction)
    ensures
        group_by_date(txs.insert(t.id, t)) == ({
            let added = index_with(group_by_date(txs), t.date.days, t.id);
            if txs.contains_key(t.id) && txs[t.id].date.days != t.date.days {
                index_without(added, txs[t.id].date.days, t.id)
            } else {
                added
            }
        }),
{
    let new_txs = txs.insert(t.id, t);
    let g = group_by_date(txs);
    let day = t.date.days;
    let added = index_with(g, day, t.id);
    let replaced = txs.contains_key(t.id) && txs[t.id].date.days != day;
    let result = if replaced {
        index_without(added, txs[t.id].date.days, t.id)
    } else {
        added
    };
    let want = group_by_date(new_txs);
    assert(ids_on(new_txs, day).contains(t.id));
    assert forall|d: i32| want.contains_key(d) <==> result.contains_key(d) by {
        if want.contains_key(d) {
            let k = choose|k: u32| ids_on(new_txs, d).contains(k);
            if d != day {
                assert(k != t.id);
                assert(ids_on(txs, d).contains(k));
                if replaced && d == txs[t.id].date.days {
                    assert(bucket(added, d).remove(t.id).contains(k));
                }
            }
        }
        if result.contains_key(d) {
            if d != day {
                if replaced && d == txs[t.id].date.days {
                    let rest = bucket(added, d).remove(t.id);
                    assert(!(rest =~= Set::<u32>::empty()));
                    let k = choose|k: u32| rest.contains(k);
                    assert(ids_on(new_txs, d).contains(k));
                } else {
                    let k = choose|k: u32| ids_on(txs, d).contains(k);
                    assert(ids_on(new_txs, d).contains(k));
                }
            }
        }
    }
    assert forall|d: i32| want.contains_key(d) implies want[d] =~= result[d] by {
        if d == day {
            assert forall|k: u32| ids_on(new_txs, d).contains(k) <==> bucket(g, d).insert(
                t.id,
            ).contains(k) by {
                if k != t.id && ids_on(new_txs, d).contains(k) {
                    assert(ids_on(txs, d).contains(k));
                    assert(g.contains_key(d));
                }
            }
            assert(ids_on(new_txs, d) =~= bucket(g, d).insert(t.id));
        } else if replaced && d == txs[t.id].date.days {
            assert(ids_on(new_txs, d) =~= bucket(added, d).remove(t.id));
        } else {
            assert(ids_on(new_txs, d) =~= ids_on(txs, d));
        }
    }
    assert(want =~= result);
}

/// How the grouping by date changes when a transaction is removed: its id
/// is taken away from under its day.
pub proof fn lemma_group_remove(txs: Map<u32, Transaction>, id: u32)
    ensures
        group_by_date(txs.remove(id)) == (if txs.contains_key(id) {
            index_without(group_by_date(txs), txs[id].date.days, id)
        } else {
            group_by_date(txs)
        }),
{
    let new_txs = txs.remove(id);
    let g = group_by_date(txs);
    let want = group_by_date(new_txs);
    if txs.contains_key(id) {
        let day = txs[id].date.days;
        let result = index_without(g, day, id);
        let rest = bucket(g, day).remove(id);
        assert(ids_on(txs, day).contains(id));
        assert(ids_on(new_txs, day) =~= rest);
        assert forall|d: i32| want.contains_key(d) <==> result.contains_key(d) by {
            if want.contains_key(d) {
                let k = choose|k: u32| ids_on(new_txs, d).contains(k);
                assert(ids_on(txs, d).contains(k));
                if d == day {
                    assert(rest.contains(k));
                }
            }
            if result.contains_key(d) {
                if d == day {
                    assert(!(rest =~= Set::<u32>::empty()));
                    let k = choose|k: u32| rest.contains(k);
                    assert(ids_on(new_txs, d).contains(k));
                } else {
                    let k = choose|k: u32| ids_on(txs, d).contains(k);
                    assert(ids_on(new_txs, d).contains(k));
                }
            }
        }
        assert forall|d: i32| want.contains_key(d) implies want[d] =~= result[d] by {
            if d != day {
                assert(ids_on(new_txs, d) =~= ids_on(txs, d));
            }
        }
        assert(want =~= result);
    } else {
        assert(new_txs =~= txs);
    }
}

/// The store together with its history: the counter of modifications, the
/// batches that undo what was done (the last one undoes the latest
/// action), and the batches that do again what was undone.
pub struct Ledger {
    pub store: StoreView,
    pub counter: int,
    pub undo: Seq<Seq<Update>>,
    pub redo: Seq<Seq<Update>>,
}

/// The ledger after the batch `b` is performed as a new action: the batch
/// is applied, the counter goes up by one, the reverse batch goes onto the
/// undo stack, and the redo stack is emptied.
pub open spec fn after_perform(l: Ledger, b: Seq<Update>) -> Ledger {
    Ledger {
        store: apply_all(l.store, b),
        counter: l.counter + 1,
        undo: l.undo.push(reverse_all(l.store, b)),
        redo: Seq::empty(),
    }
}

/// The ledger after an undo: unchanged where nothing can be undone;
/// otherwise the batch on top of the undo stack is applied, its reverse
/// goes onto the redo stack, and the counter goes down by one.
pub open spec fn after_undo(l: Ledger) -> Ledger {
    if l.undo.len() == 0 {
        l
    } else {
        Ledger {
            store: apply_all(l.store, l.undo.last()),
            counter: l.counter - 1,
            undo: l.undo.drop_last(),
            redo: l.redo.push(reverse_all(l.store, l.undo.last())),
        }
    }
}

/// The ledger after a redo: unchanged where nothing can be done again;
/// otherwise the batch on top of the redo stack is applied, its reverse
/// goes onto the undo stack, and the counter goes up by one.
pub open spec fn after_redo(l: Ledger) -> Ledger {
    if l.redo.len() == 0 {
        l
    } else {
        Ledger {
            store: apply_all(l.store, l.redo.last()),
            counter: l.counter + 1,
            undo: l.undo.push(reverse_all(l.store, l.redo.last())),
            redo: l.redo.drop_last(),
        }
    }
}

/// The ledger after the batches of `bs` are performed one after the other.
pub open spec fn perform_all(l: Ledger, bs: Seq<Seq<Update>>) -> Ledger
    decreases bs.len(),
{
    if bs.len() == 0 {
        l
    } else {
        after_perform(perform_all(l, bs.drop_last()), bs.last())
    }
}

/// The ledger after `n` undos.
pub open spec fn undo_times(l: Ledger, n: nat) -> Ledger
    decreases n,
{
    if n == 0 {
        l
    } else {
        after_undo(undo_times(l, (n - 1) as nat))
    }
}

/// The ledger after `n` redos.
pub open spec fn redo_times(l: Ledger, n: nat) -> Ledger
    decreases n,
{
    if n == 0 {
        l
    } else {
        redo_times(after_redo(l), (n - 1) as nat)
    }
}

} // verus!
