//! The sample ledger: three accounts, four categories, two currencies and
//! a thousand transactions in May 2023.

use vstd::prelude::*;
use crate::date::Date;
use crate::models::{Account, Category, Currency, FileData, Transaction};

verus! {

/// The day number of 1 May 2023.
pub const SAMPLE_FIRST_DAY: i32 = 738_641;

/// The number of transactions in the sample.
pub const SAMPLE_TRANSACTIONS: u32 = 1000;

/// The bits of the single-precision number 1.
pub const RATE_ONE_BITS: u32 = 0x3f80_0000;

/// The bits of the single-precision number nearest to 0.73214.
pub const RATE_CAD_BITS: u32 = 0x3f3b_6d87;

/// The decimal digits of `n`, without leading zeros.
pub open spec fn decimal(n: nat) -> Seq<char>
    decreases n,
{
    if n < 10 {
        seq![(('0' as u8) + n) as char]
    } else {
        decimal(n / 10).push((('0' as u8) + n % 10) as char)
    }
}

/// The description of the sample transaction `id`: the word
/// "Transaction", a space, and the id in decimal digits.
pub open spec fn sample_description(id: u32) -> Seq<char> {
    "Transaction "@ + decimal(id as nat)
}

/// Whether `t` is the sample transaction `id`: on the account `id % 3`,
/// dated on the day `id % 31 + 1` of May 2023, of the amount
/// `(id % 10) * 10 - 20`, in no group.
pub open spec fn is_sample_transaction(t: Transaction, id: u32) -> bool {
    &&& t.id == id
    &&& t.account_id == id % 3
    &&& t.date == Date { days: (SAMPLE_FIRST_DAY + id % 31) as i32 }
    &&& t.description@ == sample_description(id)
    &&& t.amount == (id % 10) * 10 - 20
    &&& t.transaction_group_id is None
}

/// Whether `a` is an account with these fields and no balances.
pub open spec fn is_sample_account(
    a: Account,
    id: u32,
    name: Seq<char>,
    currency_id: u32,
    debit_account: bool,
) -> bool {
    &&& a.id == id
    &&& a.name@ == name
    &&& a.currency_id == currency_id
    &&& a.debit_account == debit_account
    &&& a.balances@.len() == 0
}

/// Whether `c` is a category with these fields and no amortization.
pub open spec fn is_sample_category(
    c: Category,
    id: u32,
    name: Seq<char>,
    parent_id: Option<u32>,
) -> bool {
    &&& c.id == id
    &&& c.name@ == name
    &&& c.parent_id == parent_id
    &&& c.default_amortization_type is None
    &&& c.default_amortization_length is None
}

/// Whether `c` is a currency with these fields, a hundred minor units to
/// the major one, and the symbol "$".
pub open spec fn is_sample_currency(c: Currency, id: u32, code: Seq<char>, rate_bits: u32) -> bool {
    &&& c.id == id
    &&& c.code@ == code
    &&& c.major == 100
    &&& c.equivalent_usd_bits == rate_bits
    &&& c.symbol@ == "$"@
}

/// Writes the description of a sample transaction with `format!`, which
/// writes an unsigned integer in decimal digits without leading zeros.
#[verifier::external_body]
fn describe(id: u32) -> (s: String)
    ensures
        s@ == sample_description(id),
{
    format!("Transaction {}", id)
}

fn account(id: u32, name: &str, currency_id: u32, debit_account: bool) -> (a: Account)
    ensures
        is_sample_account(a, id, name@, currency_id, debit_account),
{
    Account { id, name: name.to_owned(), currency_id, debit_account, balances: Vec::new() }
}

fn category(id: u32, name: &str, parent_id: Option<u32>) -> (c: Category)
    ensures
        is_sample_category(c, id, name@, parent_id),
{
    Category {
        id,
        name: name.to_owned(),
        parent_id,
        default_amortization_type: None,
        default_amortization_length: None,
    }
}

fn currency(id: u32, code: &str, rate_bits: u32) -> (c: Currency)
    ensures
        is_sample_currency(c, id, code@, rate_bits),
{
    Currency {
        id,
        code: code.to_owned(),
        major: 100,
        equivalent_usd_bits: rate_bits,
        symbol: "$".to_owned(),
    }
}

/// Whether `r` is the sample ledger.
pub open spec fn is_sample_data(r: FileData) -> bool {
    &&& r.accounts@.len() == 3
    &&& is_sample_account(r.accounts@[0], 0, "Debit Account"@, 0, true)
    &&& is_sample_account(r.accounts@[1], 1, "Credit Account"@, 0, false)
    &&& is_sample_account(r.accounts@[2], 2, "CAD Credit"@, 1, false)
    &&& r.categories@.len() == 4
    &&& is_sample_category(r.categories@[0], 0, "Food"@, None)
    &&& is_sample_category(r.categories@[1], 1, "Groceries"@, Some(0u32))
    &&& is_sample_category(r.categories@[2], 2, "Restaurants"@, Some(0u32))
    &&& is_sample_category(r.categories@[3], 3, "Transit"@, None)
    &&& r.currencies@.len() == 2
    &&& is_sample_currency(r.currencies@[0], 0, "USD"@, RATE_ONE_BITS)
    &&& is_sample_currency(r.currencies@[1], 1, "CAD"@, RATE_CAD_BITS)
    &&& r.flows@.len() == 0
    &&& r.transaction_groups@.len() == 0
    &&& r.transactions@.len() == SAMPLE_TRANSACTIONS
    &&& forall|i: int|
        0 <= i < SAMPLE_TRANSACTIONS ==> is_sample_transaction(
            #[trigger] r.transactions@[i],
            i as u32,
        )
}

impl FileData {
    /// The sample ledger.
    pub fn sample_data() -> (r: FileData)
        ensures
            is_sample_data(r),
    {
        let mut accounts: Vec<Account> = Vec::new();
        accounts.push(account(0, "Debit Account", 0, true));
        accounts.push(account(1, "Credit Account", 0, false));
        accounts.push(account(2, "CAD Credit", 1, false));
        let mut categories: Vec<Category> = Vec::new();
        categories.push(category(0, "Food", None));
        categories.push(category(1, "Groceries", Some(0)));
        categories.push(category(2, "Restaurants", Some(0)));
        categories.push(category(3, "Transit", None));
        let mut currencies: Vec<Currency> = Vec::new();
        currencies.push(currency(0, "USD", RATE_ONE_BITS));
        currencies.push(currency(1, "CAD", RATE_CAD_BITS));
        let mut transactions: Vec<Transaction> = Vec::new();
        let mut id: u32 = 0;
        while id < SAMPLE_TRANSACTIONS
            invariant
                0 <= id <= SAMPLE_TRANSACTIONS,
                transactions@.len() == id,
                forall|i: int|
                    0 <= i < id ==> is_sample_transaction(#[trigger] transactions@[i], i as u32),
            decreases SAMPLE_TRANSACTIONS - id,
        {
            let amount: i32 = ((id % 10) * 10) as i32 - 20;
            transactions.push(
                Transaction {
                    id,
                    account_id: id % 3,
                    date: Date { days: SAMPLE_FIRST_DAY + (id % 31) as i32 },
                    description: describe(id),
                    amount,
                    transaction_group_id: None,
                },
            );
            id += 1;
        }
        FileData {
            accounts,
            categories,
            currencies,
            flows: Vec::new(),
            transactions,
            transaction_groups: Vec::new(),
        }
    }
}

} // verus!
