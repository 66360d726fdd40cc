use ebbify::cached_value::CachedValue;
use ebbify::models::Account;
use ebbify::store::AppData;
use ebbify::updates::Update;
use std::cell::Cell;

fn account(id: u32) -> Account {
    Account {
        id,
        name: String::new(),
        currency_id: 0,
        debit_account: true,
        balances: Vec::new(),
    }
}

#[test]
fn a_second_get_returns_the_kept_value_without_computing() {
    let data = AppData::new();
    let calls = Cell::new(0u32);
    let mut cache: CachedValue<usize> = CachedValue::default();
    let first = *cache.get(&data, |d: &AppData| {
        calls.set(calls.get() + 1);
        d.accounts().len() + 40
    });
    assert_eq!(first, 40);
    assert_eq!(calls.get(), 1);
    let second = *cache.get(&data, |_d: &AppData| {
        calls.set(calls.get() + 1);
        99
    });
    assert_eq!(second, 40);
    assert_eq!(calls.get(), 1);
}

#[test]
fn a_get_after_a_modification_computes_anew() {
    let mut data = AppData::new();
    let calls = Cell::new(0u32);
    let mut cache: CachedValue<usize> = CachedValue::default();
    let count = |d: &AppData| {
        calls.set(calls.get() + 1);
        d.accounts().len()
    };
    assert_eq!(*cache.get(&data, &count), 0);
    assert_eq!(calls.get(), 1);

    data.perform_update(vec![Update::SetAccount(account(1))]);
    assert_eq!(*cache.get(&data, &count), 1);
    assert_eq!(calls.get(), 2);
    assert_eq!(*cache.get(&data, &count), 1);
    assert_eq!(calls.get(), 2);

    data.undo();
    assert_eq!(*cache.get(&data, &count), 0);
    assert_eq!(calls.get(), 3);

    data.redo();
    assert_eq!(*cache.get(&data, &count), 1);
    assert_eq!(calls.get(), 4);

    // An undo with nothing to undo leaves the counter, and the cell fresh.
    data.undo();
    assert_eq!(*cache.get(&data, &count), 0);
    assert_eq!(calls.get(), 5);
    data.undo();
    assert_eq!(*cache.get(&data, &count), 0);
    assert_eq!(calls.get(), 5);
}

#[test]
fn invalidate_empties_the_cell_whatever_the_counter() {
    let data = AppData::new();
    let calls = Cell::new(0u32);
    let mut cache: CachedValue<u32> = CachedValue::default();
    let compute = |_d: &AppData| {
        calls.set(calls.get() + 1);
        calls.get() * 10
    };
    assert_eq!(*cache.get(&data, &compute), 10);
    cache.invalidate();
    assert_eq!(*cache.get(&data, &compute), 20);
    assert_eq!(calls.get(), 2);
    cache.invalidate();
    cache.invalidate();
    assert_eq!(*cache.get(&data, &compute), 30);
    assert_eq!(*cache.get(&data, &compute), 30);
    assert_eq!(calls.get(), 3);
}

#[test]
fn a_change_that_bypasses_the_counter_leaves_the_cell_fresh() {
    let mut data = AppData::new();
    let mut cache: CachedValue<usize> = CachedValue::default();
    assert_eq!(*cache.get(&data, |d: &AppData| d.accounts().len()), 0);
    Update::SetAccount(account(1)).apply(&mut data);
    assert_eq!(data.modification_count(), 0);
    assert_eq!(*cache.get(&data, |d: &AppData| d.accounts().len()), 0);
}
