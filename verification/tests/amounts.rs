use ebbify::date::{Date, MIN_DAYS};
use ebbify::models::{Account, Balance, FileData, Transaction};
use ebbify::store::AppData;

fn account(id: u32, balances: Vec<Balance>) -> Account {
    Account { id, name: String::new(), currency_id: 0, debit_account: true, balances }
}

fn transaction(id: u32, account_id: u32, days: i32, amount: i32) -> Transaction {
    Transaction {
        id,
        account_id,
        date: Date { days },
        description: String::new(),
        amount,
        transaction_group_id: None,
    }
}

fn store(transactions: Vec<Transaction>) -> AppData {
    let mut file = FileData::default();
    file.transactions = transactions;
    AppData::from_file(file)
}

#[test]
fn the_latest_balance_is_the_last_one_recorded() {
    let a = account(
        1,
        vec![
            Balance { date: Date { days: 10 }, amount: 100 },
            Balance { date: Date { days: 20 }, amount: -5 },
        ],
    );
    assert_eq!(a.latest_balance(), Balance { date: Date { days: 20 }, amount: -5 });
}

#[test]
fn without_balances_the_latest_balance_is_zero_on_the_earliest_date() {
    let a = account(1, Vec::new());
    assert_eq!(a.latest_balance(), Balance { date: Date { days: MIN_DAYS }, amount: 0 });
    assert_eq!(a.latest_balance().date, Date::min_value());
}

#[test]
fn the_amount_adds_the_account_s_transactions_after_the_latest_balance() {
    let data = store(vec![
        transaction(1, 1, 19, 1000),
        transaction(2, 1, 20, 2000),
        transaction(3, 1, 21, 7),
        transaction(4, 2, 25, 400),
        transaction(5, 1, 30, -50),
    ]);
    let a = account(1, vec![Balance { date: Date { days: 20 }, amount: 100 }]);
    assert_eq!(a.current_amount(&data), 100 + 7 - 50);
    assert_eq!(a.checked_current_amount(&data), Some(57));

    let other = account(2, Vec::new());
    assert_eq!(other.current_amount(&data), 400);

    let none = account(3, vec![Balance { date: Date { days: 0 }, amount: -9 }]);
    assert_eq!(none.current_amount(&data), -9);
}

#[test]
fn without_balances_every_transaction_of_the_account_counts() {
    let data = store(vec![
        transaction(1, 1, MIN_DAYS + 1, 5),
        transaction(2, 1, 0, 6),
        transaction(3, 1, 700_000, 7),
    ]);
    assert_eq!(account(1, Vec::new()).current_amount(&data), 18);
}

#[test]
fn the_amount_of_every_account_of_the_sample() {
    let data = AppData::from_file(FileData::sample_data());
    for id in 0..3u32 {
        let a = data.accounts().get(&id).unwrap();
        let expected: i32 = data
            .transactions()
            .values()
            .filter(|t| t.account_id == id)
            .map(|t| t.amount)
            .sum();
        assert_eq!(a.current_amount(&data), expected);
    }
    assert_eq!(data.accounts().get(&0).unwrap().current_amount(&data), 8350);
}

#[test]
fn an_amount_that_does_not_fit_is_none() {
    let data = store(vec![
        transaction(1, 1, 5, i32::MAX),
        transaction(2, 1, 6, 1),
        transaction(3, 2, 5, i32::MIN),
        transaction(4, 2, 6, -1),
        transaction(5, 3, 5, i32::MAX),
        transaction(6, 3, 6, i32::MAX),
        transaction(7, 3, 7, i32::MIN),
    ]);
    assert_eq!(account(1, Vec::new()).checked_current_amount(&data), None);
    assert_eq!(account(2, Vec::new()).checked_current_amount(&data), None);
    // The sum passes the limit on the way and comes back under it.
    assert_eq!(account(3, Vec::new()).checked_current_amount(&data), Some(i32::MAX - 1));
    assert_eq!(account(3, Vec::new()).current_amount(&data), i32::MAX - 1);
    let full = account(4, vec![Balance { date: Date { days: 0 }, amount: i32::MAX }]);
    assert_eq!(full.checked_current_amount(&data), Some(i32::MAX));
}
