//! Purchase records and their non-negative costs.
use vstd::prelude::*;

use crate::category::CategoryName;
use crate::date::Date;

verus! {

/// A non-negative amount of money, in cents.
#[derive(Clone, Copy, PartialEq, Eq, Structural, Debug, Hash)]
pub struct Cost {
    cents: u64,
}

impl View for Cost {
    type V = u64;

    closed spec fn view(&self) -> u64 {
        self.cents
    }
}

impl Cost {
    /// Builds a cost from an amount in cents; negative amounts are refused and handed back.
    pub fn try_from(value: i64) -> (r: Result<Cost, i64>)
        ensures
            r is Ok <==> value >= 0,
            r matches Ok(c) ==> c@ == value,
            r matches Err(v) ==> v == value,
    {
        if value >= 0 {
            Ok(Cost { cents: value as u64 })
        } else {
            Err(value)
        }
    }

    /// A cost of exactly `cents` cents.
    pub fn from_cents(cents: u64) -> (r: Cost)
        ensures
            r@ == cents,
    {
        Cost { cents }
    }

    /// The amount in cents.
    pub fn as_number(&self) -> (r: u64)
        ensures
            r == self@,
    {
        self.cents
    }
}

/// What an entry holds, as mathematical values.
pub struct EntryModel {
    pub name: Seq<char>,
    pub cost: u64,
    pub date: Date,
    pub category: Seq<char>,
}

/// One purchase: what was bought, what it cost, when, and under which category.
#[derive(Debug)]
pub struct Entry {
    pub name: String,
    pub cost: Cost,
    pub date: Date,
    pub category: CategoryName,
}

impl View for Entry {
    type V = EntryModel;

    open spec fn view(&self) -> EntryModel {
        EntryModel { name: self.name@, cost: self.cost@, date: self.date, category: self.category@ }
    }
}

impl Clone for Entry {
    fn clone(&self) -> (r: Self)
        ensures
            r@ == self@,
    {
        Entry {
            name: self.name.clone(),
            cost: self.cost,
            date: self.date,
            category: self.category.clone(),
        }
    }
}

/// Entries are equal when name, date and category agree; the cost is not compared.
impl PartialEq for Entry {
    fn eq(&self, other: &Entry) -> (r: bool) {
        self.name == other.name && self.date == other.date && self.category.compare(&other.category)
            == 0
    }
}

impl vstd::std_specs::cmp::PartialEqSpecImpl for Entry {
    open spec fn obeys_eq_spec() -> bool {
        true
    }

    open spec fn eq_spec(&self, other: &Entry) -> bool {
        self.name@ == other.name@ && self.date == other.date && self.category@ == other.category@
    }
}

impl Entry {
    pub open spec fn wf(self) -> bool {
        self.date.wf()
    }
}

} // verus!
