use chrono::{Datelike, NaiveDate};
use ebbify::date::Date;
use ebbify::models::{Account, Category, Currency, FileData, Transaction};
use ebbify::sample::{RATE_CAD_BITS, RATE_ONE_BITS, SAMPLE_FIRST_DAY, SAMPLE_TRANSACTIONS};

fn account(id: u32, name: &str, currency_id: u32, debit_account: bool) -> Account {
    Account { id, name: name.to_string(), currency_id, debit_account, balances: Vec::new() }
}

fn category(id: u32, name: &str, parent_id: Option<u32>) -> Category {
    Category {
        id,
        name: name.to_string(),
        parent_id,
        default_amortization_type: None,
        default_amortization_length: None,
    }
}

fn currency(id: u32, code: &str, rate: f32) -> Currency {
    Currency {
        id,
        code: code.to_string(),
        major: 100,
        equivalent_usd_bits: rate.to_bits(),
        symbol: "$".to_string(),
    }
}

#[test]
fn the_sample_holds_its_accounts_categories_and_currencies() {
    let data = FileData::sample_data();
    assert_eq!(
        data.accounts,
        vec![
            account(0, "Debit Account", 0, true),
            account(1, "Credit Account", 0, false),
            account(2, "CAD Credit", 1, false),
        ]
    );
    assert_eq!(
        data.categories,
        vec![
            category(0, "Food", None),
            category(1, "Groceries", Some(0)),
            category(2, "Restaurants", Some(0)),
            category(3, "Transit", None),
        ]
    );
    assert_eq!(data.currencies, vec![currency(0, "USD", 1.0), currency(1, "CAD", 0.73214)]);
    assert!(data.flows.is_empty());
    assert!(data.transaction_groups.is_empty());
}

#[test]
fn the_rates_are_the_bits_of_the_single_precision_numbers() {
    assert_eq!(RATE_ONE_BITS, 1.0f32.to_bits());
    assert_eq!(RATE_CAD_BITS, 0.73214f32.to_bits());
    assert_eq!(f32::from_bits(RATE_CAD_BITS), 0.73214f32);
}

#[test]
fn the_sample_holds_a_thousand_transactions_by_formula() {
    let data = FileData::sample_data();
    assert_eq!(SAMPLE_TRANSACTIONS, 1000);
    assert_eq!(data.transactions.len(), 1000);
    for (i, t) in data.transactions.iter().enumerate() {
        let id = i as u32;
        let date = NaiveDate::from_ymd_opt(2023, 5, id % 31 + 1).unwrap();
        assert_eq!(
            t,
            &Transaction {
                id,
                account_id: id % 3,
                date: Date { days: date.num_days_from_ce() },
                description: format!("Transaction {}", id),
                amount: ((id as i32) % 10) * 10 - 20,
                transaction_group_id: None,
            }
        );
    }
}

#[test]
fn single_sample_transactions_have_the_expected_values() {
    let data = FileData::sample_data();
    assert_eq!(SAMPLE_FIRST_DAY, 738_641);
    assert_eq!(
        data.transactions[0],
        Transaction {
            id: 0,
            account_id: 0,
            date: Date::from_ymd_opt(2023, 5, 1).unwrap(),
            description: "Transaction 0".to_string(),
            amount: -20,
            transaction_group_id: None,
        }
    );
    assert_eq!(
        data.transactions[999],
        Transaction {
            id: 999,
            account_id: 0,
            date: Date::from_ymd_opt(2023, 5, 8).unwrap(),
            description: "Transaction 999".to_string(),
            amount: 70,
            transaction_group_id: None,
        }
    );
    assert_eq!(data.transactions[30].date, Date::from_ymd_opt(2023, 5, 31).unwrap());
    assert_eq!(data.transactions[31].date, Date::from_ymd_opt(2023, 5, 1).unwrap());
    assert_eq!(data.transactions[31].description, "Transaction 31");
    assert_eq!(data.transactions[107].description, "Transaction 107");
    assert_eq!(data.transactions[107].account_id, 2);
    assert_eq!(data.transactions[107].amount, 50);
}

#[test]
fn the_default_snapshot_is_empty() {
    let data = FileData::default();
    assert!(data.accounts.is_empty());
    assert!(data.categories.is_empty());
    assert!(data.currencies.is_empty());
    assert!(data.flows.is_empty());
    assert!(data.transactions.is_empty());
    assert!(data.transaction_groups.is_empty());
}
