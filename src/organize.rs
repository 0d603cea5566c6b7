//! Small enumerations that select how entries are ordered and grouped.
use vstd::prelude::*;

verus! {

/// Granularity of an aggregation bucket.
#[derive(Clone, Copy, PartialEq, Eq, Structural, Debug, Hash)]
pub enum GroupBy {
    Day,
    Month,
    Year,
}

/// Key by which the entry collection is kept sorted.
#[derive(Clone, Copy, PartialEq, Eq, Structural, Debug, Hash)]
pub enum SortBy {
    Date,
    Cost,
}

/// Direction in which a view walks the (always ascending) collection.
#[derive(Clone, Copy, PartialEq, Eq, Structural, Debug, Hash)]
pub enum SortOrder {
    Increasing,
    Decreasing,
}

impl GroupBy {
    pub fn label(&self) -> (r: &'static str)
        ensures
            *self == GroupBy::Day ==> r@ == "Day"@,
            *self == GroupBy::Month ==> r@ == "Month"@,
            *self == GroupBy::Year ==> r@ == "Year"@,
    {
        match self {
            GroupBy::Day => "Day",
            GroupBy::Month => "Month",
            GroupBy::Year => "Year",
        }
    }

    /// Every granularity, finest first.
    pub fn all() -> (r: Vec<GroupBy>)
        ensures
            r@ == seq![GroupBy::Day, GroupBy::Month, GroupBy::Year],
    {
        let r = vec![GroupBy::Day, GroupBy::Month, GroupBy::Year];
        assert(r@ =~= seq![GroupBy::Day, GroupBy::Month, GroupBy::Year]);
        r
    }
}

impl SortBy {
    pub fn label(&self) -> (r: &'static str)
        ensures
            *self == SortBy::Date ==> r@ == "Date"@,
            *self == SortBy::Cost ==> r@ == "Cost"@,
    {
        match self {
            SortBy::Date => "Date",
            SortBy::Cost => "Cost",
        }
    }
}

impl SortOrder {
    pub fn label(&self) -> (r: &'static str)
        ensures
            *self == SortOrder::Increasing ==> r@ == "Increasing"@,
            *self == SortOrder::Decreasing ==> r@ == "Decreasing"@,
    {
        match self {
            SortOrder::Increasing => "Increasing",
            SortOrder::Decreasing => "Decreasing",
        }
    }
}

} // verus!
