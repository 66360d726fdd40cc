use ebbify::date::Date;
use ebbify::models::{Account, Balance, FileData, Transaction};
use ebbify::store::AppData;

fn balance(days: i32, amount: i32) -> Balance {
    Balance { date: Date { days }, amount }
}

fn account(balances: Vec<Balance>) -> Account {
    Account { id: 1, name: "a".to_string(), currency_id: 2, debit_account: true, balances }
}

fn transaction(id: u32, account_id: u32, days: i32, amount: i32) -> Transaction {
    Transaction {
        id,
        account_id,
        date: Date { days },
        description: String::new(),
        amount,
        transaction_group_id: None,
    }
}

#[test]
fn the_position_of_a_date_is_the_number_of_earlier_balances() {
    let a = account(vec![balance(10, 1), balance(20, 2), balance(30, 3)]);
    assert_eq!(a.balance_position(Date { days: 5 }), 0);
    assert_eq!(a.balance_position(Date { days: 10 }), 0);
    assert_eq!(a.balance_position(Date { days: 11 }), 1);
    assert_eq!(a.balance_position(Date { days: 20 }), 1);
    assert_eq!(a.balance_position(Date { days: 30 }), 2);
    assert_eq!(a.balance_position(Date { days: 31 }), 3);
    assert_eq!(account(Vec::new()).balance_position(Date { days: 0 }), 0);
}

#[test]
fn has_balance_on_tells_the_recorded_days() {
    let a = account(vec![balance(10, 1), balance(20, 2)]);
    assert!(a.has_balance_on(Date { days: 10 }));
    assert!(a.has_balance_on(Date { days: 20 }));
    assert!(!a.has_balance_on(Date { days: 15 }));
    assert!(!a.has_balance_on(Date { days: 9 }));
    assert!(!a.has_balance_on(Date { days: 21 }));
    assert!(!account(Vec::new()).has_balance_on(Date { days: 10 }));
}

#[test]
fn a_new_balance_goes_to_its_place_in_the_order_of_the_dates() {
    let mut a = account(Vec::new());
    a.set_balance(balance(20, 2));
    a.set_balance(balance(10, 1));
    a.set_balance(balance(30, 3));
    a.set_balance(balance(15, 9));
    assert_eq!(a.balances, vec![balance(10, 1), balance(15, 9), balance(20, 2), balance(30, 3)]);
    assert_eq!(a.id, 1);
    assert_eq!(a.name, "a");
    assert_eq!(a.currency_id, 2);
    assert!(a.debit_account);
}

#[test]
fn a_balance_of_a_recorded_day_takes_the_place_of_the_old_one() {
    let mut a = account(vec![balance(10, 1), balance(20, 2), balance(30, 3)]);
    a.set_balance(balance(20, -7));
    assert_eq!(a.balances, vec![balance(10, 1), balance(20, -7), balance(30, 3)]);
    a.set_balance(balance(10, 0));
    a.set_balance(balance(30, 4));
    assert_eq!(a.balances, vec![balance(10, 0), balance(20, -7), balance(30, 4)]);
}

#[test]
fn removing_a_balance_keeps_the_others_in_order() {
    let mut a = account(vec![balance(10, 1), balance(20, 2), balance(30, 3)]);
    assert_eq!(a.remove_balance(1), balance(20, 2));
    assert_eq!(a.balances, vec![balance(10, 1), balance(30, 3)]);
    assert_eq!(a.remove_balance(1), balance(30, 3));
    assert_eq!(a.remove_balance(0), balance(10, 1));
    assert!(a.balances.is_empty());
}

#[test]
fn the_amount_on_a_day_starts_from_the_balance_that_holds_then() {
    let mut file = FileData::default();
    file.transactions = vec![
        transaction(1, 1, 5, 1),
        transaction(2, 1, 10, 2),
        transaction(3, 1, 11, 4),
        transaction(4, 1, 20, 8),
        transaction(5, 1, 21, 16),
        transaction(6, 2, 12, 1000),
        transaction(7, 1, 40, 32),
    ];
    let data = AppData::from_file(file);
    let a = account(vec![balance(10, 100), balance(20, 200)]);
    // Before the first balance: from zero, the transactions up to the day.
    assert_eq!(a.balance_on_date(&data, Date { days: 4 }), 0);
    assert_eq!(a.balance_on_date(&data, Date { days: 5 }), 1);
    assert_eq!(a.balance_on_date(&data, Date { days: 9 }), 1);
    // On the day of a balance, that balance.
    assert_eq!(a.balance_on_date(&data, Date { days: 10 }), 100);
    assert_eq!(a.balance_on_date(&data, Date { days: 11 }), 104);
    assert_eq!(a.balance_on_date(&data, Date { days: 19 }), 104);
    assert_eq!(a.balance_on_date(&data, Date { days: 20 }), 200);
    assert_eq!(a.balance_on_date(&data, Date { days: 21 }), 216);
    assert_eq!(a.balance_on_date(&data, Date { days: 39 }), 216);
    assert_eq!(a.balance_on_date(&data, Date { days: 40 }), 248);
    assert_eq!(a.balance_on_date(&data, Date { days: i32::MAX }), 248);
    assert_eq!(a.checked_balance_on_date(&data, Date { days: 40 }), Some(248));
    assert_eq!(a.current_amount(&data), 248);
}

#[test]
fn an_amount_on_a_day_that_does_not_fit_is_none() {
    let mut file = FileData::default();
    file.transactions = vec![transaction(1, 1, 5, i32::MAX), transaction(2, 1, 6, 1)];
    let data = AppData::from_file(file);
    let a = account(Vec::new());
    assert_eq!(a.checked_balance_on_date(&data, Date { days: 5 }), Some(i32::MAX));
    assert_eq!(a.checked_balance_on_date(&data, Date { days: 6 }), None);
}
