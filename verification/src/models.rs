//! The six kinds of entity that the ledger holds, and the flat snapshot in
//! which they are stored.

use vstd::prelude::*;
use crate::date::Date;

verus! {

/// The balance that an account showed on one day.
#[derive(Clone, Copy, Debug, PartialEq, Eq, Structural)]
pub struct Balance {
    pub date: Date,
    pub amount: i32,
}

/// An account, with the balances recorded for it.
#[derive(Clone, Debug, PartialEq, Eq)]
pub struct Account {
    pub id: u32,
    pub name: String,
    pub currency_id: u32,
    pub debit_account: bool,
    pub balances: Vec<Balance>,
}

/// How the cost of a flow is spread over time.
#[derive(Clone, Copy, Debug, PartialEq, Eq, Structural)]
pub enum AmortizationType {
    Linear,
    Declining,
}

/// A category of flows. Categories form a forest through `parent_id`.
#[derive(Clone, Debug, PartialEq, Eq)]
pub struct Category {
    pub id: u32,
    pub name: String,
    pub parent_id: Option<u32>,
    pub default_amortization_type: Option<AmortizationType>,
    pub default_amortization_length: Option<i32>,
}

/// A currency. `major` is the number of minor units in one major unit, and
/// `equivalent_usd_bits` holds the bits of the single-precision rate that
/// converts one major unit to US dollars.
#[derive(Clone, Debug, PartialEq, Eq)]
pub struct Currency {
    pub id: u32,
    pub code: String,
    pub major: i32,
    pub equivalent_usd_bits: u32,
    pub symbol: String,
}

/// An amount assigned to a category on a date.
#[derive(Clone, Debug, PartialEq, Eq)]
pub struct Flow {
    pub id: u32,
    pub category_id: u32,
    pub date: Date,
    pub description: Option<String>,
    pub amount: i32,
    pub currency_id: u32,
    pub amortization_type: Option<AmortizationType>,
    pub amortization_length: Option<i32>,
    pub transaction_group_id: u32,
}

/// The transactions and flows that belong together.
#[derive(Clone, Debug, PartialEq, Eq)]
pub struct TransactionGroup {
    pub id: u32,
    pub transaction_ids: Vec<u32>,
    pub flow_ids: Vec<u32>,
}

/// A movement on an account.
#[derive(Clone, Debug, PartialEq, Eq)]
pub struct Transaction {
    pub id: u32,
    pub account_id: u32,
    pub date: Date,
    pub description: String,
    pub amount: i32,
    pub transaction_group_id: Option<i32>,
}

/// The flat snapshot of a ledger: each collection as a list.
#[derive(Clone, Debug, PartialEq, Eq)]
pub struct FileData {
    pub accounts: Vec<Account>,
    pub categories: Vec<Category>,
    pub currencies: Vec<Currency>,
    pub flows: Vec<Flow>,
    pub transactions: Vec<Transaction>,
    pub transaction_groups: Vec<TransactionGroup>,
}

impl Default for FileData {
    fn default() -> (r: FileData)
        ensures
            r.accounts@.len() == 0,
            r.categories@.len() == 0,
            r.currencies@.len() == 0,
            r.flows@.len() == 0,
            r.transactions@.len() == 0,
            r.transaction_groups@.len() == 0,
    {
        FileData {
            accounts: Vec::new(),
            categories: Vec::new(),
            currencies: Vec::new(),
            flows: Vec::new(),
            transactions: Vec::new(),
            transaction_groups: Vec::new(),
        }
    }
}

/// The same snapshot, borrowed from a store.
#[derive(Debug)]
pub struct FileDataBorrowed<'a> {
    pub accounts: Vec<&'a Account>,
    pub categories: Vec<&'a Category>,
    pub currencies: Vec<&'a Currency>,
    pub flows: Vec<&'a Flow>,
    pub transactions: Vec<&'a Transaction>,
    pub transaction_groups: Vec<&'a TransactionGroup>,
}

/// What the store holds: a value that carries the id under which it is
/// kept.
pub trait Entity {
    /// The id of the entity.
    spec fn entity_id(&self) -> u32;

    /// The id of the entity.
    fn key(&self) -> (r: u32)
        ensures
            r == self.entity_id(),
    ;
}

impl Entity for Account {
    open spec fn entity_id(&self) -> u32 {
        self.id
    }

    fn key(&self) -> u32 {
        self.id
    }
}

impl Entity for Category {
    open spec fn entity_id(&self) -> u32 {
        self.id
    }

    fn key(&self) -> u32 {
        self.id
    }
}

impl Entity for Currency {
    open spec fn entity_id(&self) -> u32 {
        self.id
    }

    fn key(&self) -> u32 {
        self.id
    }
}

impl Entity for Flow {
    open spec fn entity_id(&self) -> u32 {
        self.id
    }

    fn key(&self) -> u32 {
        self.id
    }
}

impl Entity for TransactionGroup {
    open spec fn entity_id(&self) -> u32 {
        self.id
    }

    fn key(&self) -> u32 {
        self.id
    }
}

impl Entity for Transaction {
    open spec fn entity_id(&self) -> u32 {
        self.id
    }

    fn key(&self) -> u32 {
        self.id
    }
}

impl Account {
    /// The balance recorded last; where none is recorded, a balance of zero
    /// on the earliest date.
    pub fn latest_balance(&self) -> (r: Balance)
        ensures
            r == self.spec_latest_balance(),
    {
        if self.balances.len() > 0 {
            self.balances[self.balances.len() - 1]
        } else {
            Balance { date: Date::min_value(), amount: 0 }
        }
    }

    pub open spec fn spec_latest_balance(&self) -> Balance {
        if self.balances@.len() > 0 {
            self.balances@.last()
        } else {
            Balance { date: Date { days: crate::date::MIN_DAYS }, amount: 0 }
        }
    }
}

} // verus!
