use ebbify::date::Date;
use ebbify::models::{Account, Category, FileData, Transaction};
use ebbify::store::{index_by_id, next_id, values_by_id, AppData};
use ebbify::updates::Update;
use std::collections::{BTreeMap, BTreeSet};

fn account(id: u32, name: &str) -> Account {
    Account {
        id,
        name: name.to_string(),
        currency_id: 0,
        debit_account: true,
        balances: Vec::new(),
    }
}

fn category(id: u32, parent_id: Option<u32>) -> Category {
    Category {
        id,
        name: format!("c{}", id),
        parent_id,
        default_amortization_type: None,
        default_amortization_length: None,
    }
}

fn transaction(id: u32, days: i32) -> Transaction {
    Transaction {
        id,
        account_id: 0,
        date: Date { days },
        description: String::new(),
        amount: 1,
        transaction_group_id: None,
    }
}

fn grouping(data: &AppData) -> BTreeMap<i32, BTreeSet<u32>> {
    let mut by_date: BTreeMap<i32, BTreeSet<u32>> = BTreeMap::new();
    for t in data.transactions().values() {
        by_date.entry(t.date.days).or_default().insert(t.id);
    }
    by_date
}

#[test]
fn a_new_store_is_empty() {
    let data = AppData::new();
    assert!(data.accounts().is_empty());
    assert!(data.categories().is_empty());
    assert!(data.currencies().is_empty());
    assert!(data.flows().is_empty());
    assert!(data.transactions().is_empty());
    assert!(data.transaction_groups().is_empty());
    assert!(data.category_trees().is_empty());
    assert!(data.transactions_by_date().is_empty());
    assert_eq!(data.modification_count(), 0);
    assert!(!data.can_undo());
    assert!(!data.can_redo());
}

#[test]
fn next_id_is_one_more_than_the_greatest_id() {
    let mut map: BTreeMap<u32, ()> = BTreeMap::new();
    assert_eq!(next_id(&map), 0);
    map.insert(0, ());
    assert_eq!(next_id(&map), 1);
    map.insert(5, ());
    map.insert(3, ());
    assert_eq!(next_id(&map), 6);
    map.remove(&5);
    assert_eq!(next_id(&map), 4);
    map.insert(u32::MAX - 1, ());
    assert_eq!(next_id(&map), u32::MAX);
}

#[test]
fn of_two_entities_with_one_id_the_later_one_stays() {
    let map = index_by_id(vec![account(2, "first"), account(1, "only"), account(2, "second")]);
    assert_eq!(map.len(), 2);
    assert_eq!(map.get(&1), Some(&account(1, "only")));
    assert_eq!(map.get(&2), Some(&account(2, "second")));
    assert!(index_by_id(Vec::<Account>::new()).is_empty());
}

#[test]
fn values_come_out_by_ascending_id() {
    let map = index_by_id(vec![account(9, "i"), account(2, "b"), account(5, "e")]);
    let values = values_by_id(&map);
    assert_eq!(values, vec![&account(2, "b"), &account(5, "e"), &account(9, "i")]);
}

#[test]
fn a_store_from_a_snapshot_holds_its_entities_and_no_history() {
    let mut file = FileData::default();
    file.accounts = vec![account(3, "c"), account(1, "a"), account(3, "c again")];
    file.categories = vec![category(2, Some(1)), category(1, None)];
    file.transactions = vec![transaction(4, 100), transaction(2, 100), transaction(7, 101)];
    let data = AppData::from_file(file);
    assert_eq!(data.modification_count(), 0);
    assert!(!data.can_undo());
    assert!(!data.can_redo());
    assert_eq!(data.accounts().len(), 2);
    assert_eq!(data.accounts().get(&3), Some(&account(3, "c again")));
    assert_eq!(data.category_trees().len(), 1);
    assert_eq!(data.category_trees()[0].id, 1);
    assert_eq!(data.category_trees()[0].children[0].id, 2);
    assert_eq!(data.transactions_by_date(), &grouping(&data));
    assert_eq!(data.transactions_by_date().get(&100), Some(&BTreeSet::from([2, 4])));
    assert_eq!(data.transactions_by_date().get(&101), Some(&BTreeSet::from([7])));
}

#[test]
fn the_snapshot_of_a_store_lists_each_collection_by_ascending_id() {
    let mut file = FileData::default();
    file.accounts = vec![account(3, "c"), account(1, "a"), account(2, "b")];
    file.transactions = vec![transaction(4, 100), transaction(2, 100)];
    let data = AppData::from_file(file);
    let out = data.file_data();
    assert_eq!(out.accounts, vec![&account(1, "a"), &account(2, "b"), &account(3, "c")]);
    assert_eq!(out.transactions, vec![&transaction(2, 100), &transaction(4, 100)]);
    assert!(out.categories.is_empty());
    assert!(out.currencies.is_empty());
    assert!(out.flows.is_empty());
    assert!(out.transaction_groups.is_empty());
}

#[test]
fn a_snapshot_read_back_gives_the_same_store() {
    let data = AppData::from_file(FileData::sample_data());
    let out = data.file_data();
    let mut copy = FileData::default();
    copy.accounts = out.accounts.into_iter().cloned().collect();
    copy.categories = out.categories.into_iter().cloned().collect();
    copy.currencies = out.currencies.into_iter().cloned().collect();
    copy.flows = out.flows.into_iter().cloned().collect();
    copy.transactions = out.transactions.into_iter().cloned().collect();
    copy.transaction_groups = out.transaction_groups.into_iter().cloned().collect();
    assert_eq!(copy, FileData::sample_data());
    let again = AppData::from_file(copy);
    assert_eq!(again.accounts(), data.accounts());
    assert_eq!(again.transactions(), data.transactions());
    assert_eq!(again.transactions_by_date(), data.transactions_by_date());
    assert_eq!(again.category_trees(), data.category_trees());
}

#[test]
fn the_date_index_is_the_grouping_of_the_transactions_after_every_step() {
    let mut data = AppData::from_file(FileData::sample_data());
    assert_eq!(data.transactions_by_date(), &grouping(&data));
    assert_eq!(data.transactions_by_date().len(), 31);

    data.perform_update(vec![
        Update::SetTransaction(transaction(5, 10)),
        Update::SetTransaction(transaction(2000, 10)),
        Update::DeleteTransaction(17),
        Update::DeleteTransaction(5000),
        Update::SetTransaction(transaction(5, 11)),
    ]);
    assert_eq!(data.transactions_by_date(), &grouping(&data));
    assert_eq!(data.transactions_by_date().get(&10), Some(&BTreeSet::from([2000])));
    assert_eq!(data.transactions_by_date().get(&11), Some(&BTreeSet::from([5])));

    data.perform_update(vec![Update::DeleteTransaction(2000)]);
    assert_eq!(data.transactions_by_date(), &grouping(&data));
    assert!(!data.transactions_by_date().contains_key(&10));

    data.undo();
    assert_eq!(data.transactions_by_date(), &grouping(&data));
    data.undo();
    assert_eq!(data.transactions_by_date(), &grouping(&data));
    assert_eq!(data.transactions_by_date().len(), 31);
    data.redo();
    assert_eq!(data.transactions_by_date(), &grouping(&data));
}

#[test]
fn a_day_without_transactions_has_no_entry() {
    let mut data = AppData::new();
    data.perform_update(vec![Update::SetTransaction(transaction(1, 50))]);
    assert_eq!(data.transactions_by_date().len(), 1);
    data.perform_update(vec![Update::SetTransaction(transaction(1, 51))]);
    assert_eq!(data.transactions_by_date().len(), 1);
    assert!(!data.transactions_by_date().contains_key(&50));
    data.perform_update(vec![Update::DeleteTransaction(1)]);
    assert!(data.transactions_by_date().is_empty());
}
