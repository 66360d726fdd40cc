use ebbify::date::{Date, MAX_DAYS};
use ebbify::models::{Account, Balance, FileData, Transaction};
use ebbify::store::AppData;
use ebbify::updates::Update;

fn balance(days: i32, amount: i32) -> Balance {
    Balance { date: Date { days }, amount }
}

fn latest() -> Balance {
    Balance { date: Date { days: MAX_DAYS }, amount: 0 }
}

fn account(balances: Vec<Balance>) -> Account {
    Account { id: 1, name: String::new(), currency_id: 0, debit_account: true, balances }
}

fn transaction(id: u32, account_id: u32, days: i32, amount: i32) -> Transaction {
    Transaction {
        id,
        account_id,
        date: Date { days },
        description: String::new(),
        amount,
        transaction_group_id: None,
    }
}

fn store(transactions: Vec<Transaction>) -> AppData {
    let mut file = FileData::default();
    file.transactions = transactions;
    AppData::from_file(file)
}

#[test]
fn each_row_holds_the_transactions_up_to_its_balance() {
    let data = store(vec![
        transaction(6, 1, 40, 32),
        transaction(5, 1, 21, 16),
        transaction(4, 1, 20, 8),
        transaction(3, 1, 11, 4),
        transaction(2, 1, 10, 2),
        transaction(1, 1, 5, 1),
        transaction(7, 2, 12, 1000),
    ]);
    let a = account(vec![balance(10, 100), balance(20, 200)]);
    assert_eq!(
        a.balance_table(&data),
        Some(vec![(balance(10, 100), 3), (balance(20, 200), 12), (latest(), 48)])
    );
}

#[test]
fn without_balances_the_table_has_the_last_row_alone() {
    let data = store(vec![transaction(1, 1, 5, 1), transaction(2, 1, 9, -4), transaction(3, 2, 9, 7)]);
    assert_eq!(account(Vec::new()).balance_table(&data), Some(vec![(latest(), -3)]));
    assert_eq!(account(Vec::new()).balance_table(&AppData::new()), Some(vec![(latest(), 0)]));
}

#[test]
fn without_transactions_every_total_is_zero() {
    let a = account(vec![balance(10, 100), balance(20, 200)]);
    assert_eq!(
        a.balance_table(&AppData::new()),
        Some(vec![(balance(10, 100), 0), (balance(20, 200), 0), (latest(), 0)])
    );
}

#[test]
fn the_count_moves_on_by_one_row_for_a_transaction() {
    // The only transaction is dated after both balances: it moves the
    // count on from the first row to the second, and is counted there.
    let data = store(vec![transaction(1, 1, 25, 9)]);
    let a = account(vec![balance(10, 100), balance(20, 200)]);
    assert_eq!(
        a.balance_table(&data),
        Some(vec![(balance(10, 100), 0), (balance(20, 200), 9), (latest(), 0)])
    );
}

#[test]
fn transactions_of_one_day_are_counted_in_the_order_of_their_ids() {
    let data = store(vec![transaction(2, 1, 35, 2), transaction(1, 1, 35, 1)]);
    let a = account(vec![balance(10, 0), balance(20, 0), balance(30, 0)]);
    assert_eq!(
        a.balance_table(&data),
        Some(vec![(balance(10, 0), 0), (balance(20, 0), 1), (balance(30, 0), 2), (latest(), 0)])
    );
}

#[test]
fn a_transaction_dated_after_the_latest_day_stays_in_the_last_row() {
    let data = store(vec![transaction(1, 1, i32::MAX, 5), transaction(2, 1, i32::MAX, 6)]);
    assert_eq!(account(Vec::new()).balance_table(&data), Some(vec![(latest(), 11)]));
    let a = account(vec![balance(10, 0)]);
    assert_eq!(a.balance_table(&data), Some(vec![(balance(10, 0), 0), (latest(), 11)]));
}

#[test]
fn a_total_that_does_not_fit_gives_no_table() {
    let data = store(vec![transaction(1, 1, 5, i32::MAX), transaction(2, 1, 6, 1)]);
    assert_eq!(account(Vec::new()).balance_table(&data), None);
    let a = account(vec![balance(5, 0)]);
    assert_eq!(a.balance_table(&data), Some(vec![(balance(5, 0), i32::MAX), (latest(), 1)]));
    let low = store(vec![transaction(1, 1, 5, i32::MIN), transaction(2, 1, 6, -1)]);
    assert_eq!(account(Vec::new()).balance_table(&low), None);
}

#[test]
fn the_table_follows_the_store() {
    let mut data = AppData::new();
    let a = account(vec![balance(10, 100)]);
    data.perform_update(vec![
        Update::SetTransaction(transaction(1, 1, 10, 5)),
        Update::SetTransaction(transaction(2, 1, 11, 7)),
    ]);
    assert_eq!(a.balance_table(&data), Some(vec![(balance(10, 100), 5), (latest(), 7)]));
    data.perform_update(vec![Update::SetTransaction(transaction(2, 1, 9, 7))]);
    assert_eq!(a.balance_table(&data), Some(vec![(balance(10, 100), 12), (latest(), 0)]));
    data.undo();
    assert_eq!(a.balance_table(&data), Some(vec![(balance(10, 100), 5), (latest(), 7)]));
}
