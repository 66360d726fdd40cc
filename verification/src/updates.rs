//! Commands on the store, each of which is answered by the command that
//! undoes it, and batches of commands.

use std::time::SystemTime;
use vstd::prelude::*;
use crate::model::{
    any_touches_categories, apply_all, next_store, reverse, reverse_all, touches_categories, Ledger,
};
use crate::models::{Account, Category, Currency, Flow, Transaction, TransactionGroup};
use crate::store::AppData;

verus! {

/// The system clock's time stamp, carried through as an opaque value.
#[verifier::external_type_specification]
#[verifier::external_body]
pub struct ExSystemTime(SystemTime);

/// Reads the system clock with `SystemTime::now`. Nothing is claimed of
/// the value: it differs from call to call.
#[verifier::external_body]
fn current_time() -> SystemTime {
    SystemTime::now()
}

/// One atomic change to the store: an entity of one kind is set (inserted,
/// or put in place of the one with the same id), or the entity with a given
/// id is deleted.
#[derive(Clone, Debug, PartialEq, Eq)]
pub enum Update {
    SetAccount(Account),
    DeleteAccount(u32),
    SetCategory(Category),
    DeleteCategory(u32),
    SetCurrency(Currency),
    DeleteCurrency(u32),
    SetFlow(Flow),
    DeleteFlow(u32),
    SetTransactionGroup(TransactionGroup),
    DeleteTransactionGroup(u32),
    SetTransaction(Transaction),
    DeleteTransaction(u32),
}

impl Update {
    /// Whether the command sets or deletes a category.
    pub fn is_category_update(&self) -> (r: bool)
        ensures
            r == touches_categories(*self),
    {
        match self {
            Update::SetCategory(_) => true,
            Update::DeleteCategory(_) => true,
            _ => false,
        }
    }

    /// Performs the command on the collections and the date index, and
    /// returns the command that undoes it. The category forest is left as
    /// it is.
    pub(crate) fn apply_to_collections(self, app_data: &mut AppData) -> (r: Update)
        requires
            old(app_data).indexed(),
        ensures
            final(app_data).stepped(old(app_data), self),
            r == reverse(old(app_data)@.store, self),
    {
        match self {
            Update::SetAccount(account) => {
                let id = account.id;
                match app_data.set_account(account) {
                    Some(old_account) => Update::SetAccount(old_account),
                    None => Update::DeleteAccount(id),
                }
            },
            Update::DeleteAccount(id) => {
                match app_data.delete_account(id) {
                    Some(old_account) => Update::SetAccount(old_account),
                    None => Update::DeleteAccount(id),
                }
            },
            Update::SetCategory(category) => {
                let id = category.id;
                match app_data.set_category(category) {
                    Some(old_category) => Update::SetCategory(old_category),
                    None => Update::DeleteCategory(id),
                }
            },
            Update::DeleteCategory(id) => {
                match app_data.delete_category(id) {
                    Some(old_category) => Update::SetCategory(old_category),
                    None => Update::DeleteCategory(id),
                }
            },
            Update::SetCurrency(currency) => {
                let id = currency.id;
                match app_data.set_currency(currency) {
                    Some(old_currency) => Update::SetCurrency(old_currency),
                    None => Update::DeleteCurrency(id),
                }
            },
            Update::DeleteCurrency(id) => {
                match app_data.delete_currency(id) {
                    Some(old_currency) => Update::SetCurrency(old_currency),
                    None => Update::DeleteCurrency(id),
                }
            },
            Update::SetFlow(flow) => {
                let id = flow.id;
                match app_data.set_flow(flow) {
                    Some(old_flow) => Update::SetFlow(old_flow),
                    None => Update::DeleteFlow(id),
                }
            },
            Update::DeleteFlow(id) => {
                match app_data.delete_flow(id) {
                    Some(old_flow) => Update::SetFlow(old_flow),
                    None => Update::DeleteFlow(id),
                }
            },
            Update::SetTransactionGroup(transaction_group) => {
                let id = transaction_group.id;
                match app_data.set_transaction_group(transaction_group) {
                    Some(old_group) => Update::SetTransactionGroup(old_group),
                    None => Update::DeleteTransactionGroup(id),
                }
            },
            Update::DeleteTransactionGroup(id) => {
                match app_data.delete_transaction_group(id) {
                    Some(old_group) => Update::SetTransactionGroup(old_group),
                    None => Update::DeleteTransactionGroup(id),
                }
            },
            Update::SetTransaction(transaction) => {
                let id = transaction.id;
                match app_data.insert_transaction(transaction) {
                    Some(old_transaction) => Update::SetTransaction(old_transaction),
                    None => Update::DeleteTransaction(id),
                }
            },
            Update::DeleteTransaction(id) => {
                match app_data.remove_transaction(id) {
                    Some(old_transaction) => Update::SetTransaction(old_transaction),
                    None => Update::DeleteTransaction(id),
                }
            },
        }
    }

    /// Performs the command on the store and returns the command that
    /// undoes it. The history and the counter stay as they are.
    pub fn apply(self, app_data: &mut AppData) -> (r: Update)
        requires
            old(app_data).consistent(),
        ensures
            final(app_data).consistent(),
            final(app_data)@ == (Ledger {
                store: next_store(old(app_data)@.store, self),
                ..old(app_data)@
            }),
            r == reverse(old(app_data)@.store, self),
    {
        let touched = self.is_category_update();
        let r = self.apply_to_collections(app_data);
        if touched {
            app_data.recompute_category_trees();
        }
        r
    }
}

/// A batch: commands in the order in which they are applied, with the time
/// at which the batch was made.
pub struct Updates {
    time: SystemTime,
    updates: Vec<Update>,
}

impl View for Updates {
    type V = Seq<Update>;

    /// The commands of the batch, in order.
    closed spec fn view(&self) -> Seq<Update> {
        self.updates@
    }
}

impl Updates {
    /// A batch of the given commands, stamped with the current time.
    pub fn new(updates: Vec<Update>) -> (r: Updates)
        ensures
            r@ == updates@,
    {
        Updates { time: current_time(), updates }
    }

    /// Performs the commands on the store, from the first to the last, and
    /// returns the batch that undoes them: the commands that undo each,
    /// from the last back to the first. The category forest is built anew
    /// where a command set or deleted a category. The history and the
    /// counter stay as they are.
    pub fn apply(self, app_data: &mut AppData) -> (r: Updates)
        requires
            old(app_data).consistent(),
        ensures
            final(app_data).consistent(),
            final(app_data)@ == (Ledger {
                store: apply_all(old(app_data)@.store, self@),
                ..old(app_data)@
            }),
            r@ == reverse_all(old(app_data)@.store, self@),
    {
        let ghost before = app_data@;
        let ghost forest_before = app_data.forest();
        let ghost cmds = self.updates@;
        proof {
            assert(cmds.take(0) =~= Seq::<Update>::empty());
        }
        let mut undone: Vec<Update> = Vec::new();
        let mut touched = false;
        for update in it: self.updates
            invariant
                it.seq() == cmds,
                app_data.indexed(),
                app_data@ == (Ledger { store: apply_all(before.store, cmds.take(it.index())), ..before }),
                app_data.forest() == forest_before,
                undone@.len() == it.index(),
                forall|j: int|
                    0 <= j < it.index() ==> #[trigger] undone@[j] == reverse(
                        apply_all(before.store, cmds.take(j)),
                        cmds[j],
                    ),
                touched == any_touches_categories(cmds.take(it.index())),
        {
            let ghost i = it.index();
            proof {
                crate::laws::lemma_apply_prefix(before.store, cmds, i);
                let shorter = cmds.take(i);
                let longer = cmds.take(i + 1);
                assert(longer[i] == cmds[i]);
                if touches_categories(update) {
                    assert(touches_categories(longer[i]));
                } else if any_touches_categories(longer) {
                    let k = choose|k: int| 0 <= k < longer.len() && touches_categories(longer[k]);
                    assert(shorter[k] == longer[k]);
                }
                if any_touches_categories(shorter) {
                    let k = choose|k: int| 0 <= k < shorter.len() && touches_categories(shorter[k]);
                    assert(longer[k] == shorter[k]);
                }
            }
            if update.is_category_update() {
                touched = true;
            }
            let r = update.apply_to_collections(app_data);
            undone.push(r);
        }
        proof {
            assert(cmds.take(cmds.len() as int) =~= cmds);
        }
        let ghost forward = undone@;
        let mut updates: Vec<Update> = Vec::new();
        while undone.len() > 0
            invariant
                undone@.len() + updates@.len() == forward.len(),
                undone@ == forward.take(undone@.len() as int),
                forall|k: int|
                    0 <= k < updates@.len() ==> #[trigger] updates@[k] == forward[forward.len() - 1
                        - k],
            decreases undone@.len(),
        {
            match undone.pop() {
                Some(u) => {
                    updates.push(u);
                },
                None => {},
            }
        }
        if touched {
            app_data.recompute_category_trees();
        } else {
            proof {
                crate::laws::lemma_categories_untouched(before.store, cmds);
            }
        }
        proof {
            assert(updates@ =~= reverse_all(before.store, cmds));
        }
        Updates { time: current_time(), updates }
    }

    /// The time at which the batch was made.
    pub fn time(&self) -> (r: SystemTime)
        ensures
            r == self.stamp(),
    {
        self.time
    }

    /// The time stamp that the batch carries: the clock's time when the
    /// batch was made.
    pub closed spec fn stamp(&self) -> SystemTime {
        self.time
    }
}

} // verus!
