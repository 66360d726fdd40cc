use ebbify::models::{Account, Category, Transaction};
use ebbify::date::Date;
use ebbify::store::AppData;
use ebbify::updates::{Update, Updates};

fn account(id: u32, name: &str) -> Account {
    Account {
        id,
        name: name.to_string(),
        currency_id: 0,
        debit_account: true,
        balances: Vec::new(),
    }
}

fn category(id: u32, name: &str, parent_id: Option<u32>) -> Category {
    Category {
        id,
        name: name.to_string(),
        parent_id,
        default_amortization_type: None,
        default_amortization_length: None,
    }
}

fn transaction(id: u32, date: Date, amount: i32) -> Transaction {
    Transaction {
        id,
        account_id: 1,
        date,
        description: format!("t{}", id),
        amount,
        transaction_group_id: None,
    }
}

fn day(year: i32, month: u32, day: u32) -> Date {
    Date::from_ymd_opt(year, month, day).unwrap()
}

#[test]
fn two_accounts_in_one_batch_then_undo_and_redo() {
    let mut data = AppData::new();
    assert_eq!(data.modification_count(), 0);
    assert!(!data.can_undo());
    assert!(!data.can_redo());

    data.perform_update(vec![
        Update::SetAccount(account(1, "A1")),
        Update::SetAccount(account(2, "A2")),
    ]);
    assert_eq!(data.modification_count(), 1);
    assert_eq!(data.accounts().len(), 2);
    assert_eq!(data.accounts().get(&1), Some(&account(1, "A1")));
    assert_eq!(data.accounts().get(&2), Some(&account(2, "A2")));
    assert!(data.can_undo());
    assert!(!data.can_redo());

    data.undo();
    assert_eq!(data.modification_count(), 0);
    assert!(data.accounts().is_empty());
    assert!(!data.can_undo());
    assert!(data.can_redo());

    data.redo();
    assert_eq!(data.modification_count(), 1);
    assert_eq!(data.accounts().len(), 2);
    assert_eq!(data.accounts().get(&1), Some(&account(1, "A1")));
    assert_eq!(data.accounts().get(&2), Some(&account(2, "A2")));
    assert!(data.can_undo());
    assert!(!data.can_redo());
}

#[test]
fn changing_a_transaction_date_moves_it_between_buckets() {
    let jan5 = day(2024, 1, 5);
    let jan6 = day(2024, 1, 6);
    let mut data = AppData::new();
    data.perform_update(vec![Update::SetTransaction(transaction(1, jan5, 10))]);
    assert!(data.transactions_by_date().get(&jan5.days).unwrap().contains(&1));

    data.perform_update(vec![Update::SetTransaction(transaction(1, jan6, 10))]);
    let on_jan5 = data.transactions_by_date().get(&jan5.days);
    assert!(on_jan5.map_or(true, |ids| !ids.contains(&1)));
    assert!(data.transactions_by_date().get(&jan6.days).unwrap().contains(&1));
    assert_eq!(data.transactions().get(&1).unwrap().date, jan6);

    data.undo();
    assert!(data.transactions_by_date().get(&jan5.days).unwrap().contains(&1));
    let on_jan6 = data.transactions_by_date().get(&jan6.days);
    assert!(on_jan6.map_or(true, |ids| !ids.contains(&1)));
}

#[test]
fn undo_and_redo_on_empty_stacks_change_nothing() {
    let mut data = AppData::new();
    data.undo();
    assert_eq!(data.modification_count(), 0);
    assert!(data.accounts().is_empty());
    data.redo();
    assert_eq!(data.modification_count(), 0);
    assert!(data.accounts().is_empty());

    data.perform_update(vec![Update::SetAccount(account(1, "A1"))]);
    data.redo();
    assert_eq!(data.modification_count(), 1);
    assert_eq!(data.accounts().len(), 1);
}

#[test]
fn as_many_undos_as_performs_restore_state_and_counter() {
    let mut data = AppData::new();
    data.perform_update(vec![Update::SetAccount(account(7, "kept"))]);
    let before_accounts = data.accounts().clone();
    let before_categories = data.categories().clone();
    let before_count = data.modification_count();

    data.perform_update(vec![Update::SetAccount(account(1, "A1"))]);
    data.perform_update(vec![
        Update::SetAccount(account(1, "renamed")),
        Update::SetCategory(category(0, "Food", None)),
    ]);
    data.perform_update(vec![Update::DeleteAccount(7), Update::DeleteAccount(1)]);
    let after_accounts = data.accounts().clone();
    let after_categories = data.categories().clone();
    let after_count = data.modification_count();
    assert_eq!(after_count, before_count + 3);
    assert!(after_accounts.is_empty());

    data.undo();
    data.undo();
    data.undo();
    assert_eq!(data.accounts(), &before_accounts);
    assert_eq!(data.categories(), &before_categories);
    assert_eq!(data.modification_count(), before_count);
    assert!(data.category_trees().is_empty());

    data.redo();
    data.redo();
    data.redo();
    assert_eq!(data.accounts(), &after_accounts);
    assert_eq!(data.categories(), &after_categories);
    assert_eq!(data.modification_count(), after_count);
    assert_eq!(data.category_trees().len(), 1);
    assert!(!data.can_redo());
}

#[test]
fn a_new_action_after_undo_empties_the_redo_stack() {
    let mut data = AppData::new();
    data.perform_update(vec![Update::SetAccount(account(1, "A1"))]);
    data.undo();
    assert!(data.can_redo());

    data.perform_update(vec![Update::SetAccount(account(2, "A2"))]);
    assert!(!data.can_redo());
    let accounts = data.accounts().clone();
    let count = data.modification_count();

    data.redo();
    assert_eq!(data.accounts(), &accounts);
    assert_eq!(data.modification_count(), count);
    assert_eq!(data.accounts().len(), 1);
    assert!(data.accounts().contains_key(&2));
}

#[test]
fn the_counter_goes_up_on_perform_down_on_undo_and_up_on_redo() {
    let mut data = AppData::new();
    data.perform_update(Vec::new());
    assert_eq!(data.modification_count(), 1);
    data.perform_update(Vec::new());
    assert_eq!(data.modification_count(), 2);
    data.undo();
    assert_eq!(data.modification_count(), 1);
    data.redo();
    assert_eq!(data.modification_count(), 2);
    data.undo();
    data.undo();
    assert_eq!(data.modification_count(), 0);
    data.perform_update(Vec::new());
    assert_eq!(data.modification_count(), 1);
}

#[test]
fn a_batch_and_its_reverse_restore_the_store() {
    let mut data = AppData::new();
    data.perform_update(vec![
        Update::SetAccount(account(1, "A1")),
        Update::SetAccount(account(2, "A2")),
    ]);
    let accounts = data.accounts().clone();

    let batch = Updates::new(vec![
        Update::DeleteAccount(1),
        Update::SetAccount(account(1, "again")),
        Update::SetAccount(account(3, "A3")),
        Update::DeleteAccount(2),
        Update::DeleteAccount(9),
    ]);
    let reverse = batch.apply(&mut data);
    assert_eq!(data.accounts().len(), 2);
    assert_eq!(data.accounts().get(&1), Some(&account(1, "again")));
    assert_eq!(data.accounts().get(&3), Some(&account(3, "A3")));

    let forward = reverse.apply(&mut data);
    assert_eq!(data.accounts(), &accounts);

    forward.apply(&mut data);
    assert_eq!(data.accounts().len(), 2);
    assert_eq!(data.accounts().get(&1), Some(&account(1, "again")));
    assert_eq!(data.accounts().get(&3), Some(&account(3, "A3")));
}
