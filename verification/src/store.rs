//! The store: the six collections, the history that undo and redo walk,
//! and the two derived indices.

use std::collections::{BTreeMap, BTreeSet};
use vstd::prelude::*;
use crate::forest::{build_forest, is_forest, CategoryNode};
use crate::model::{
    after_perform, after_redo, after_undo, bucket, first_transactions, group_by_date, ids_of,
    ids_on, index_with, index_without, indexed, lemma_group_insert, lemma_group_remove,
    lemma_indexed_keyed, lists_entities, lookup, next_store, Ledger, StoreView,
};
use crate::models::{
    Account, Category, Currency, Entity, FileData, FileDataBorrowed, Flow, Transaction,
    TransactionGroup,
};
use crate::ordered::{lemma_take_step, lists_ascending, sorted_keys};
use crate::updates::{Update, Updates};

verus! {

broadcast use vstd::laws_cmp::group_laws_cmp;

/// The ledger's data, with undo and redo.
pub struct AppData {
    accounts: BTreeMap<u32, Account>,
    categories: BTreeMap<u32, Category>,
    currencies: BTreeMap<u32, Currency>,
    flows: BTreeMap<u32, Flow>,
    transactions: BTreeMap<u32, Transaction>,
    transaction_groups: BTreeMap<u32, TransactionGroup>,
    modification_count: u32,
    undo_stack: Vec<Updates>,
    redo_stack: Vec<Updates>,
    category_trees: Vec<CategoryNode>,
    transactions_by_date: BTreeMap<i32, BTreeSet<u32>>,
}

/// The batches of a stack, each as its list of commands.
pub open spec fn batches(stack: Seq<Updates>) -> Seq<Seq<Update>> {
    Seq::new(stack.len(), |i: int| stack[i]@)
}

/// What an index from day numbers to sets of ids holds.
pub open spec fn index_view(index: Map<i32, BTreeSet<u32>>) -> Map<i32, Set<u32>> {
    Map::new(|d: i32| index.contains_key(d), |d: i32| index[d]@)
}

/// Adds `id` under `day`.
fn index_add(index: &mut BTreeMap<i32, BTreeSet<u32>>, day: i32, id: u32)
    ensures
        index_view(final(index)@) == index_with(index_view(old(index)@), day, id),
{
    let mut ids = match index.remove(&day) {
        Some(ids) => ids,
        None => BTreeSet::new(),
    };
    ids.insert(id);
    index.insert(day, ids);
    proof {
        assert(index_view(index@) =~= index_with(index_view(old(index)@), day, id));
    }
}

/// Takes `id` away from under `day`, and the day's entry with it where no
/// id is left.
fn index_drop(index: &mut BTreeMap<i32, BTreeSet<u32>>, day: i32, id: u32)
    ensures
        index_view(final(index)@) == index_without(index_view(old(index)@), day, id),
{
    match index.remove(&day) {
        Some(ids) => {
            let mut ids = ids;
            ids.remove(&id);
            if !ids.is_empty() {
                index.insert(day, ids);
            }
        },
        None => {},
    }
    proof {
        assert(index_view(index@) =~= index_without(index_view(old(index)@), day, id));
    }
}

/// The map that holds each entity of the list under its id; of two with
/// one id, the later one stays.
pub fn index_by_id<E: Entity>(items: Vec<E>) -> (m: BTreeMap<u32, E>)
    ensures
        m@ == indexed(items@),
{
    let ghost all = items@;
    let mut m: BTreeMap<u32, E> = BTreeMap::new();
    proof {
        assert(all.take(0) =~= Seq::<E>::empty());
    }
    for item in it: items
        invariant
            it.seq() == all,
            m@ == indexed(all.take(it.index())),
    {
        proof {
            let longer = all.take(it.index() + 1);
            assert(longer.drop_last() =~= all.take(it.index()));
            assert(longer.last() == item);
        }
        let id = item.key();
        m.insert(id, item);
    }
    proof {
        assert(all.take(all.len() as int) =~= all);
    }
    m
}

/// What the map holds, by ascending id.
pub fn values_by_id<'a, E: Entity>(m: &'a BTreeMap<u32, E>) -> (items: Vec<&'a E>)
    requires
        forall|k: u32| m@.contains_key(k) ==> (#[trigger] m@[k]).entity_id() == k,
    ensures
        lists_entities(items@, m@),
{
    let keys = sorted_keys(m);
    let mut items: Vec<&'a E> = Vec::new();
    let mut i: usize = 0;
    while i < keys.len()
        invariant
            lists_ascending(keys@, m@.dom()),
            forall|k: u32| m@.contains_key(k) ==> (#[trigger] m@[k]).entity_id() == k,
            0 <= i <= keys@.len(),
            items@.len() == i,
            forall|j: int| 0 <= j < i ==> *#[trigger] items@[j] == m@[keys@[j]],
        decreases keys@.len() - i,
    {
        proof {
            assert(keys@.contains(keys@[i as int]));
        }
        match m.get(&keys[i]) {
            Some(item) => {
                items.push(item);
            },
            None => {},
        }
        i += 1;
    }
    proof {
        assert forall|j: int| 0 <= j < keys@.len() implies ids_of(items@)[j] == keys@[j] by {
            assert(keys@.contains(keys@[j]));
        }
        assert(ids_of(items@) =~= keys@);
    }
    items
}

/// The greatest key of the map, by `BTreeMap::last_key_value`, which
/// returns the entry with the maximum key, and `None` for an empty map.
#[verifier::external_body]
fn last_key<T>(map: &BTreeMap<u32, T>) -> (r: Option<u32>)
    ensures
        match r {
            Some(k) => map@.contains_key(k) && forall|j: u32| map@.contains_key(j) ==> j <= k,
            None => forall|j: u32| !map@.contains_key(j),
        },
{
    match map.last_key_value() {
        Some((k, _)) => Some(*k),
        None => None,
    }
}

/// The id for a new entity: one more than the greatest id in use, and 0
/// where none is in use.
pub fn next_id<T>(map: &BTreeMap<u32, T>) -> (r: u32)
    requires
        !map@.contains_key(u32::MAX),
    ensures
        forall|k: u32| map@.contains_key(k) ==> k < r,
        r == 0 || map@.contains_key((r - 1) as u32),
{
    match last_key(map) {
        Some(k) => k + 1,
        None => 0,
    }
}

impl View for AppData {
    type V = Ledger;

    /// The collections and the history.
    closed spec fn view(&self) -> Ledger {
        Ledger {
            store: StoreView {
                accounts: self.accounts@,
                categories: self.categories@,
                currencies: self.currencies@,
                flows: self.flows@,
                transactions: self.transactions@,
                transaction_groups: self.transaction_groups@,
            },
            counter: self.modification_count as int,
            undo: batches(self.undo_stack@),
            redo: batches(self.redo_stack@),
        }
    }
}

impl AppData {
    /// The category forest as it is held.
    pub closed spec fn forest(&self) -> Seq<CategoryNode> {
        self.category_trees@
    }

    /// The date index as it is held: for each day that has an entry, the
    /// ids under it.
    pub closed spec fn date_index(&self) -> Map<i32, Set<u32>> {
        index_view(self.transactions_by_date@)
    }

    /// Every entity stands under its own id, and the date index is the
    /// grouping of the transactions by date.
    pub open spec fn indexed(&self) -> bool {
        &&& self@.store.keyed()
        &&& self.date_index() == group_by_date(self@.store.transactions)
    }

    /// The derived indices are in step with the collections: besides
    /// `indexed`, the category forest is the forest of the categories.
    pub open spec fn consistent(&self) -> bool {
        &&& self.indexed()
        &&& is_forest(self.forest(), self@.store.categories)
    }

    /// The store is in order: it is consistent, the counter is the depth
    /// of the undo stack, and the counter can take every redo that is
    /// left.
    pub open spec fn wf(&self) -> bool {
        &&& self.consistent()
        &&& self@.counter == self@.undo.len()
        &&& self@.undo.len() + self@.redo.len() <= u32::MAX
    }

    /// `self` is what the command `u` makes of `before`: the collections
    /// change as the command says, and the history and the category
    /// forest stay as they are.
    pub open spec fn stepped(&self, before: &AppData, u: Update) -> bool {
        &&& self@ == (Ledger { store: next_store(before@.store, u), ..before@ })
        &&& self.forest() == before.forest()
        &&& self.indexed()
    }

    /// Date index consistency: under each day the index holds the ids of
    /// the transactions dated on that day, and no others.
    pub proof fn lemma_date_index_groups(&self, day: i32)
        requires
            self.indexed(),
        ensures
            bucket(self.date_index(), day) == ids_on(self@.store.transactions, day),
            forall|id: u32|
                bucket(self.date_index(), day).contains(id) <==> (
                self@.store.transactions.contains_key(id) && self@.store.transactions[id].date.days
                    == day),
    {
        let txs = self@.store.transactions;
        if !group_by_date(txs).contains_key(day) {
            assert forall|id: u32| !ids_on(txs, day).contains(id) by {}
            assert(ids_on(txs, day) =~= Set::<u32>::empty());
        }
    }

    /// An empty store without history.
    pub fn new() -> (r: AppData)
        ensures
            r@ == (Ledger {
                store: StoreView::empty(),
                counter: 0,
                undo: Seq::empty(),
                redo: Seq::empty(),
            }),
            r.forest() == Seq::<CategoryNode>::empty(),
            r.date_index() == Map::<i32, Set<u32>>::empty(),
            r.wf(),
    {
        let r = AppData {
            accounts: BTreeMap::new(),
            categories: BTreeMap::new(),
            currencies: BTreeMap::new(),
            flows: BTreeMap::new(),
            transactions: BTreeMap::new(),
            transaction_groups: BTreeMap::new(),
            modification_count: 0,
            undo_stack: Vec::new(),
            redo_stack: Vec::new(),
            category_trees: Vec::new(),
            transactions_by_date: BTreeMap::new(),
        };
        proof {
            assert(batches(r.undo_stack@) =~= Seq::<Seq<Update>>::empty());
            assert(batches(r.redo_stack@) =~= Seq::<Seq<Update>>::empty());
            assert(r.date_index() =~= Map::<i32, Set<u32>>::empty());
            assert(group_by_date(r.transactions@) =~= Map::<i32, Set<u32>>::empty());
            assert(crate::forest::node_ids(r.category_trees@) =~= Seq::<u32>::empty());
        }
        r
    }

    /// Puts an account under its id and gives back what was there.
    pub(crate) fn set_account(&mut self, entity: Account) -> (previous: Option<Account>)
        requires
            old(self).indexed(),
        ensures
            final(self).stepped(old(self), Update::SetAccount(entity)),
            previous == lookup(old(self)@.store.accounts, entity.id),
    {
        let id = entity.id;
        self.accounts.insert(id, entity)
    }

    /// Removes an account by its id and gives back what was there.
    pub(crate) fn delete_account(&mut self, id: u32) -> (previous: Option<Account>)
        requires
            old(self).indexed(),
        ensures
            final(self).stepped(old(self), Update::DeleteAccount(id)),
            previous == lookup(old(self)@.store.accounts, id),
    {
        self.accounts.remove(&id)
    }

    /// Puts a category under its id and gives back what was there.
    pub(crate) fn set_category(&mut self, entity: Category) -> (previous: Option<Category>)
        requires
            old(self).indexed(),
        ensures
            final(self).stepped(old(self), Update::SetCategory(entity)),
            previous == lookup(old(self)@.store.categories, entity.id),
    {
        let id = entity.id;
        self.categories.insert(id, entity)
    }

    /// Removes a category by its id and gives back what was there.
    pub(crate) fn delete_category(&mut self, id: u32) -> (previous: Option<Category>)
        requires
            old(self).indexed(),
        ensures
            final(self).stepped(old(self), Update::DeleteCategory(id)),
            previous == lookup(old(self)@.store.categories, id),
    {
        self.categories.remove(&id)
    }

    /// Puts a currency under its id and gives back what was there.
    pub(crate) fn set_currency(&mut self, entity: Currency) -> (previous: Option<Currency>)
        requires
            old(self).indexed(),
        ensures
            final(self).stepped(old(self), Update::SetCurrency(entity)),
            previous == lookup(old(self)@.store.currencies, entity.id),
    {
        let id = entity.id;
        self.currencies.insert(id, entity)
    }

    /// Removes a currency by its id and gives back what was there.
    pub(crate) fn delete_currency(&mut self, id: u32) -> (previous: Option<Currency>)
        requires
            old(self).indexed(),
        ensures
            final(self).stepped(old(self), Update::DeleteCurrency(id)),
            previous == lookup(old(self)@.store.currencies, id),
    {
        self.currencies.remove(&id)
    }

    /// Puts a flow under its id and gives back what was there.
    pub(crate) fn set_flow(&mut self, entity: Flow) -> (previous: Option<Flow>)
        requires
            old(self).indexed(),
        ensures
            final(self).stepped(old(self), Update::SetFlow(entity)),
            previous == lookup(old(self)@.store.flows, entity.id),
    {
        let id = entity.id;
        self.flows.insert(id, entity)
    }

    /// Removes a flow by its id and gives back what was there.
    pub(crate) fn delete_flow(&mut self, id: u32) -> (previous: Option<Flow>)
        requires
            old(self).indexed(),
        ensures
            final(self).stepped(old(self), Update::DeleteFlow(id)),
            previous == lookup(old(self)@.store.flows, id),
    {
        self.flows.remove(&id)
    }

    /// Puts a transaction group under its id and gives back what was there.
    pub(crate) fn set_transaction_group(&mut self, entity: TransactionGroup) -> (previous: Option<TransactionGroup>)
        requires
            old(self).indexed(),
        ensures
            final(self).stepped(old(self), Update::SetTransactionGroup(entity)),
            previous == lookup(old(self)@.store.transaction_groups, entity.id),
    {
        let id = entity.id;
        self.transaction_groups.insert(id, entity)
    }

    /// Removes a transaction group by its id and gives back what was there.
    pub(crate) fn delete_transaction_group(&mut self, id: u32) -> (previous: Option<TransactionGroup>)
        requires
            old(self).indexed(),
        ensures
            final(self).stepped(old(self), Update::DeleteTransactionGroup(id)),
            previous == lookup(old(self)@.store.transaction_groups, id),
    {
        self.transaction_groups.remove(&id)
    }

    /// Puts a transaction under its id, keeps the date index in step, and
    /// gives back what was there.
    pub(crate) fn insert_transaction(&mut self, transaction: Transaction) -> (previous: Option<
        Transaction,
    >)
        requires
            old(self).indexed(),
        ensures
            final(self).stepped(old(self), Update::SetTransaction(transaction)),
            previous == lookup(old(self)@.store.transactions, transaction.id),
    {
        let id = transaction.id;
        let day = transaction.date.days;
        proof {
            lemma_group_insert(self.transactions@, transaction);
        }
        index_add(&mut self.transactions_by_date, day, id);
        let previous = self.transactions.insert(id, transaction);
        let old_day = match &previous {
            Some(old_transaction) => Some(old_transaction.date.days),
            None => None,
        };
        match old_day {
            Some(old_day) => {
                if old_day != day {
                    index_drop(&mut self.transactions_by_date, old_day, id);
                }
            },
            None => {},
        }
        previous
    }

    /// Removes a transaction by its id, keeps the date index in step, and
    /// gives back what was there.
    pub(crate) fn remove_transaction(&mut self, id: u32) -> (previous: Option<Transaction>)
        requires
            old(self).indexed(),
        ensures
            final(self).stepped(old(self), Update::DeleteTransaction(id)),
            previous == lookup(old(self)@.store.transactions, id),
    {
        proof {
            lemma_group_remove(self.transactions@, id);
        }
        let previous = self.transactions.remove(&id);
        let old_day = match &previous {
            Some(old_transaction) => Some(old_transaction.date.days),
            None => None,
        };
        match old_day {
            Some(old_day) => {
                index_drop(&mut self.transactions_by_date, old_day, id);
            },
            None => {},
        }
        previous
    }

    /// Builds the category forest anew from the categories.
    pub(crate) fn recompute_category_trees(&mut self)
        ensures
            final(self)@ == old(self)@,
            final(self).date_index() == old(self).date_index(),
            final(self).indexed() == old(self).indexed(),
            is_forest(final(self).forest(), final(self)@.store.categories),
    {
        self.category_trees = build_forest(&self.categories);
    }

    /// Performs the commands as one new action: applies them, counts the
    /// modification, keeps the batch that undoes them, and forgets what
    /// was undone before.
    pub fn perform_update(&mut self, updates: Vec<Update>)
        requires
            old(self).wf(),
            old(self)@.counter < u32::MAX,
        ensures
            final(self).wf(),
            final(self)@ == after_perform(old(self)@, updates@),
    {
        let updates = Updates::new(updates);
        let reverse_updates = updates.apply(self);
        self.modification_count = self.modification_count + 1;
        self.undo_stack.push(reverse_updates);
        self.redo_stack.clear();
        proof {
            assert(self@.undo =~= old(self)@.undo.push(reverse_updates@));
            assert(self@.redo =~= Seq::<Seq<Update>>::empty());
        }
    }

    /// Undoes the latest action that is not undone yet; does nothing where
    /// there is none.
    pub fn undo(&mut self)
        requires
            old(self).wf(),
        ensures
            final(self).wf(),
            final(self)@ == after_undo(old(self)@),
    {
        match self.undo_stack.pop() {
            Some(updates) => {
                proof {
                    assert(self@.undo =~= old(self)@.undo.drop_last());
                    assert(updates@ == old(self)@.undo.last());
                }
                let reverse_updates = updates.apply(self);
                self.redo_stack.push(reverse_updates);
                self.modification_count = self.modification_count - 1;
                proof {
                    assert(self@.redo =~= old(self)@.redo.push(reverse_updates@));
                    assert(self@.undo =~= old(self)@.undo.drop_last());
                }
            },
            None => {
                proof {
                    assert(self@.undo =~= old(self)@.undo);
                }
            },
        }
    }

    /// Does again the action that was undone last; does nothing where
    /// there is none.
    pub fn redo(&mut self)
        requires
            old(self).wf(),
        ensures
            final(self).wf(),
            final(self)@ == after_redo(old(self)@),
    {
        match self.redo_stack.pop() {
            Some(updates) => {
                proof {
                    assert(self@.redo =~= old(self)@.redo.drop_last());
                    assert(updates@ == old(self)@.redo.last());
                }
                let reverse_updates = updates.apply(self);
                self.undo_stack.push(reverse_updates);
                self.modification_count = self.modification_count + 1;
                proof {
                    assert(self@.undo =~= old(self)@.undo.push(reverse_updates@));
                    assert(self@.redo =~= old(self)@.redo.drop_last());
                }
            },
            None => {
                proof {
                    assert(self@.redo =~= old(self)@.redo);
                }
            },
        }
    }

    /// Builds the date index anew from the transactions.
    pub(crate) fn recompute_transactions_by_date(&mut self)
        requires
            old(self)@.store.keyed(),
        ensures
            final(self)@ == old(self)@,
            final(self).forest() == old(self).forest(),
            final(self).indexed(),
    {
        let ghost txs = self.transactions@;
        let keys = sorted_keys(&self.transactions);
        let mut index: BTreeMap<i32, BTreeSet<u32>> = BTreeMap::new();
        let mut i: usize = 0;
        proof {
            assert(keys@.take(0) =~= Seq::<u32>::empty());
            assert(first_transactions(txs, keys@, 0) =~= Map::<u32, Transaction>::empty());
            assert(index_view(index@) =~= group_by_date(Map::<u32, Transaction>::empty()));
        }
        while i < keys.len()
            invariant
                txs == self.transactions@,
                self@ == old(self)@,
                self.forest() == old(self).forest(),
                self@.store.keyed(),
                lists_ascending(keys@, txs.dom()),
                0 <= i <= keys@.len(),
                index_view(index@) == group_by_date(first_transactions(txs, keys@, i as int)),
            decreases keys@.len() - i,
        {
            let id = keys[i];
            proof {
                assert(keys@.contains(id));
                let part = first_transactions(txs, keys@, i as int);
                let next = first_transactions(txs, keys@, i + 1);
                lemma_take_step(keys@, i as int);
                assert(!part.contains_key(id));
                assert(txs[id].id == id);
                assert(next =~= part.insert(id, txs[id]));
                lemma_group_insert(part, txs[id]);
            }
            let day = match self.transactions.get(&id) {
                Some(transaction) => transaction.date.days,
                None => 0,
            };
            index_add(&mut index, day, id);
            i += 1;
        }
        proof {
            assert(keys@.take(keys@.len() as int) =~= keys@);
            assert(first_transactions(txs, keys@, keys@.len() as int) =~= txs);
        }
        self.transactions_by_date = index;
    }

    /// The store that holds the entities of a snapshot, without history.
    /// Of two entities of one kind with one id, the later one stays.
    pub fn from_file(data: FileData) -> (r: AppData)
        ensures
            r@ == (Ledger {
                store: StoreView {
                    accounts: indexed(data.accounts@),
                    categories: indexed(data.categories@),
                    currencies: indexed(data.currencies@),
                    flows: indexed(data.flows@),
                    transactions: indexed(data.transactions@),
                    transaction_groups: indexed(data.transaction_groups@),
                },
                counter: 0,
                undo: Seq::empty(),
                redo: Seq::empty(),
            }),
            r.wf(),
    {
        proof {
            lemma_indexed_keyed(data.accounts@);
            lemma_indexed_keyed(data.categories@);
            lemma_indexed_keyed(data.currencies@);
            lemma_indexed_keyed(data.flows@);
            lemma_indexed_keyed(data.transactions@);
            lemma_indexed_keyed(data.transaction_groups@);
        }
        let mut t = AppData {
            accounts: index_by_id(data.accounts),
            categories: index_by_id(data.categories),
            currencies: index_by_id(data.currencies),
            flows: index_by_id(data.flows),
            transactions: index_by_id(data.transactions),
            transaction_groups: index_by_id(data.transaction_groups),
            modification_count: 0,
            undo_stack: Vec::new(),
            redo_stack: Vec::new(),
            category_trees: Vec::new(),
            transactions_by_date: BTreeMap::new(),
        };
        proof {
            assert(batches(t.undo_stack@) =~= Seq::<Seq<Update>>::empty());
            assert(batches(t.redo_stack@) =~= Seq::<Seq<Update>>::empty());
        }
        t.recompute_category_trees();
        t.recompute_transactions_by_date();
        t
    }

    /// The snapshot of the store: each collection as a list by ascending
    /// id.
    pub fn file_data<'a>(&'a self) -> (r: FileDataBorrowed<'a>)
        requires
            self@.store.keyed(),
        ensures
            lists_entities(r.accounts@, self@.store.accounts),
            lists_entities(r.categories@, self@.store.categories),
            lists_entities(r.currencies@, self@.store.currencies),
            lists_entities(r.flows@, self@.store.flows),
            lists_entities(r.transactions@, self@.store.transactions),
            lists_entities(r.transaction_groups@, self@.store.transaction_groups),
    {
        proof {
            let s = self@.store;
            assert forall|k: u32| self.accounts@.contains_key(k) implies (#[trigger] self.accounts@[k]).entity_id()
                == k by {
                assert(s.accounts[k].id == k);
            }
            assert forall|k: u32| self.categories@.contains_key(k) implies (#[trigger] self.categories@[k]).entity_id()
                == k by {
                assert(s.categories[k].id == k);
            }
            assert forall|k: u32| self.currencies@.contains_key(k) implies (#[trigger] self.currencies@[k]).entity_id()
                == k by {
                assert(s.currencies[k].id == k);
            }
            assert forall|k: u32| self.flows@.contains_key(k) implies (#[trigger] self.flows@[k]).entity_id()
                == k by {
                assert(s.flows[k].id == k);
            }
            assert forall|k: u32| self.transactions@.contains_key(k) implies (#[trigger] self.transactions@[k]).entity_id()
                == k by {
                assert(s.transactions[k].id == k);
            }
            assert forall|k: u32| self.transaction_groups@.contains_key(k) implies (#[trigger] self.transaction_groups@[k]).entity_id()
                == k by {
                assert(s.transaction_groups[k].id == k);
            }
        }
        FileDataBorrowed {
            accounts: values_by_id(&self.accounts),
            categories: values_by_id(&self.categories),
            currencies: values_by_id(&self.currencies),
            flows: values_by_id(&self.flows),
            transactions: values_by_id(&self.transactions),
            transaction_groups: values_by_id(&self.transaction_groups),
        }
    }

    /// The counter of modifications.
    pub fn modification_count(&self) -> (r: u32)
        ensures
            r == self@.counter,
    {
        self.modification_count
    }

    /// Whether there is an action to undo.
    pub fn can_undo(&self) -> (r: bool)
        ensures
            r == (self@.undo.len() > 0),
    {
        self.undo_stack.len() > 0
    }

    /// Whether there is an undone action to do again.
    pub fn can_redo(&self) -> (r: bool)
        ensures
            r == (self@.redo.len() > 0),
    {
        self.redo_stack.len() > 0
    }

    /// The accounts by id.
    pub fn accounts(&self) -> (r: &BTreeMap<u32, Account>)
        ensures
            r@ == self@.store.accounts,
    {
        &self.accounts
    }

    /// The categories by id.
    pub fn categories(&self) -> (r: &BTreeMap<u32, Category>)
        ensures
            r@ == self@.store.categories,
    {
        &self.categories
    }

    /// The currencies by id.
    pub fn currencies(&self) -> (r: &BTreeMap<u32, Currency>)
        ensures
            r@ == self@.store.currencies,
    {
        &self.currencies
    }

    /// The flows by id.
    pub fn flows(&self) -> (r: &BTreeMap<u32, Flow>)
        ensures
            r@ == self@.store.flows,
    {
        &self.flows
    }

    /// The transactions by id.
    pub fn transactions(&self) -> (r: &BTreeMap<u32, Transaction>)
        ensures
            r@ == self@.store.transactions,
    {
        &self.transactions
    }

    /// The transaction groups by id.
    pub fn transaction_groups(&self) -> (r: &BTreeMap<u32, TransactionGroup>)
        ensures
            r@ == self@.store.transaction_groups,
    {
        &self.transaction_groups
    }

    /// The category forest: the roots by ascending id, each with its
    /// descendants.
    pub fn category_trees(&self) -> (r: &Vec<CategoryNode>)
        ensures
            r@ == self.forest(),
    {
        &self.category_trees
    }

    /// The date index: for each day on which a transaction is dated, the
    /// ids of the transactions of that day.
    pub fn transactions_by_date(&self) -> (r: &BTreeMap<i32, BTreeSet<u32>>)
        ensures
            index_view(r@) == self.date_index(),
    {
        &self.transactions_by_date
    }
}

} // verus!
