//! Per-category, per-period spending totals with every period in range present.
use vstd::prelude::*;

use crate::category::{has_key, name_lt, names_contain, sorted_keys, CategoryManager, CategoryName};
use crate::datamanager::{earliest, latest, lemma_extremes, DataManager};
use crate::date::{bucket_run, find_date, increasing, is_run, lemma_bucket, lemma_run, Date};
use crate::entry::EntryModel;
use crate::organize::GroupBy;

verus! {

/// Total cost of the entries of category `c` whose date falls in bucket `b`.
pub open spec fn bucket_total(s: Seq<EntryModel>, c: Seq<char>, g: GroupBy, b: Date) -> int
    decreases s.len(),
{
    if s.len() == 0 {
        0
    } else {
        let e = s.last();
        bucket_total(s.drop_last(), c, g, b) + if e.category == c && e.date.bucket(g) == b {
            e.cost as int
        } else {
            0
        }
    }
}

/// Total cost of the entries of category `c`.
pub open spec fn category_total(s: Seq<EntryModel>, c: Seq<char>) -> int
    decreases s.len(),
{
    if s.len() == 0 {
        0
    } else {
        category_total(s.drop_last(), c) + if s.last().category == c {
            s.last().cost as int
        } else {
            0
        }
    }
}

/// One category's totals, one per bucket, buckets ascending.
pub struct Series {
    pub dates: Vec<Date>,
    pub totals: Vec<u128>,
}

/// Series per category, categories in name order.
pub struct CostMap {
    pub names: Vec<CategoryName>,
    pub series: Vec<Series>,
}

/// The buckets of `r` run from the bucket of the earliest entry to that of
/// the latest one, and each total sums the entries of `c` in its bucket.
pub open spec fn series_of(r: Series, s: Seq<EntryModel>, c: Seq<char>, g: GroupBy) -> bool {
    &&& is_run(r.dates@, earliest(s).bucket(g), latest(s).bucket(g), g)
    &&& r.totals@.len() == r.dates@.len()
    &&& forall|j: int| 0 <= j < r.totals@.len() ==> r.totals@[j] == bucket_total(s, c, g, r.dates@[j])
}

impl Series {
    /// Position of a bucket date, if the series has it.
    pub fn contains_key(&self, date: &Date) -> (r: bool)
        requires
            increasing(self.dates@),
            date.wf(),
        ensures
            r == self.dates@.contains(*date),
    {
        find_date(&self.dates, date).is_some()
    }

    /// The total of a bucket, if the series has it.
    pub fn get(&self, date: &Date) -> (r: Option<u128>)
        requires
            increasing(self.dates@),
            self.totals@.len() == self.dates@.len(),
            date.wf(),
        ensures
            r is Some <==> self.dates@.contains(*date),
            r matches Some(v) ==> exists|j: int|
                0 <= j < self.dates@.len() && self.dates@[j] == *date && self.totals@[j] == v,
    {
        match find_date(&self.dates, date) {
            Some(j) => Some(self.totals[j]),
            None => None,
        }
    }
}

impl CostMap {
    /// The series of a category, if the map has one.
    pub fn get(&self, category: &CategoryName) -> (r: Option<&Series>)
        requires
            self.series@.len() == self.names@.len(),
        ensures
            r is Some <==> names_contain(self.names@, category@),
            r matches Some(x) ==> exists|k: int|
                0 <= k < self.names@.len() && self.names@[k]@ == category@ && self.series@[k] == *x,
    {
        let mut k: usize = 0;
        while k < self.names.len()
            invariant
                self.series@.len() == self.names@.len(),
                k <= self.names@.len(),
                forall|t: int| 0 <= t < k ==> self.names@[t]@ != category@,
            decreases self.names@.len() - k,
        {
            if self.names[k].compare(category) == 0 {
                return Some(&self.series[k]);
            }
            k += 1;
        }
        None
    }

    /// Whether the map has a series for the category.
    pub fn contains_key(&self, category: &CategoryName) -> (r: bool)
        requires
            self.series@.len() == self.names@.len(),
        ensures
            r == names_contain(self.names@, category@),
    {
        self.get(category).is_some()
    }
}

proof fn lemma_bucket_total_bound(s: Seq<EntryModel>, c: Seq<char>, g: GroupBy, b: Date)
    ensures
        0 <= bucket_total(s, c, g, b) <= s.len() * 18446744073709551615,
    decreases s.len(),
{
    if s.len() > 0 {
        lemma_bucket_total_bound(s.drop_last(), c, g, b);
    }
}

impl DataManager {
    /// Every bucket from that of the earliest entry to that of the latest.
    fn bucket_dates(&self, g: GroupBy) -> (r: Vec<Date>)
        requires
            self.wf(),
            self.entries@.len() > 0,
        ensures
            is_run(r@, earliest(self.model()).bucket(g), latest(self.model()).bucket(g), g),
    {
        let (first, last) = self.entries_date_extremes();
        let lo = first.unwrap().date;
        let hi = last.unwrap().date;
        proof {
            let s = self.model();
            lemma_extremes(s);
            let a = choose|i: int| 0 <= i < s.len() && s[i].date == earliest(s);
            let b = choose|i: int| 0 <= i < s.len() && s[i].date == latest(s);
            assert(self.entries@[a].date.wf());
            assert(self.entries@[b].date.wf());
            assert(earliest(s).key() <= s[b].date.key());
            lemma_bucket(lo, hi, g);
        }
        bucket_run(lo.to_bucket(g), hi.to_bucket(g), g)
    }

    /// Totals of one category over the given buckets.
    fn category_series(&self, name: &CategoryName, g: GroupBy, dates: &Vec<Date>) -> (r: Vec<u128>)
        requires
            self.wf(),
            self.entries@.len() > 0,
            is_run(dates@, earliest(self.model()).bucket(g), latest(self.model()).bucket(g), g),
        ensures
            r@.len() == dates@.len(),
            forall|j: int| 0 <= j < r@.len() ==> r@[j] == bucket_total(self.model(), name@, g, dates@[j]),
    {
        let ghost s = self.model();
        let ghost lo = earliest(s);
        let ghost hi = latest(s);
        proof {
            lemma_run(dates@, lo.bucket(g), hi.bucket(g), g);
            lemma_extremes(s);
            let a = choose|i: int| 0 <= i < s.len() && s[i].date == earliest(s);
            let b = choose|i: int| 0 <= i < s.len() && s[i].date == latest(s);
            assert(self.entries@[a].date.wf());
            assert(self.entries@[b].date.wf());
        }
        let nb = dates.len();
        let mut totals: Vec<u128> = Vec::new();
        let mut j: usize = 0;
        while j < nb
            invariant
                nb == dates@.len(),
                j <= nb,
                totals@.len() == j,
                forall|t: int| 0 <= t < j ==> totals@[t] == 0,
            decreases nb - j,
        {
            totals.push(0);
            j += 1;
        }
        let n = self.entries.len();
        let mut i: usize = 0;
        while i < n
            invariant
                n == self.entries@.len(),
                s == self.model(),
                self.wf(),
                lo.wf(),
                hi.wf(),
                increasing(dates@),
                forall|x: Date|
                    x.wf() && x.is_aligned(g) && lo.bucket(g).key() <= x.key() <= hi.bucket(g).key()
                        ==> dates@.contains(x),
                forall|t: int| 0 <= t < s.len() ==> lo.key() <= #[trigger] s[t].date.key() <= hi.key(),
                nb == dates@.len(),
                totals@.len() == nb,
                i <= n,
                forall|t: int|
                    0 <= t < nb ==> totals@[t] == bucket_total(s.take(i as int), name@, g, dates@[t])
                        && totals@[t] <= i * 18446744073709551615,
            decreases n - i,
        {
            assert(s.take(i + 1).drop_last() =~= s.take(i as int));
            assert(s.take(i + 1).last() == s[i as int]);
            let e = &self.entries[i];
            if e.category.compare(name) == 0 {
                let b = e.date.to_bucket(g);
                proof {
                    assert(e.date.wf());
                    lemma_bucket(lo, e.date, g);
                    lemma_bucket(e.date, hi, g);
                }
                match find_date(dates, &b) {
                    Some(k) => {
                        proof {
                            lemma_bucket_total_bound(s.take(i as int), name@, g, dates@[k as int]);
                        }
                        let v = totals[k] + e.cost.as_number() as u128;
                        totals.set(k, v);
                        assert forall|t: int| 0 <= t < nb && t != k implies dates@[t] != b by {
                            if t < k {
                                assert(dates@[t].key() < dates@[k as int].key());
                            } else {
                                assert(dates@[k as int].key() < dates@[t].key());
                            }
                        }
                    },
                    None => {},
                }
            }
            i += 1;
        }
        assert(s.take(n as int) =~= s);
        totals
    }

    /// Sums costs per requested category and per bucket of `group_by`. Every
    /// requested category gets a series over the same buckets: from the bucket
    /// of the earliest entry to that of the latest (over all entries), with
    /// zero where nothing was spent. Categories come out once each, in name
    /// order. With no entries the map is empty.
    pub fn cost_map(&self, group_by: GroupBy, categories: Vec<CategoryName>) -> (r: CostMap)
        requires
            self.wf(),
        ensures
            self.entries@.len() == 0 ==> r.names@.len() == 0 && r.series@.len() == 0,
            self.entries@.len() > 0 ==> {
                &&& forall|i: int, j: int|
                    0 <= i < j < r.names@.len() ==> name_lt(r.names@[i]@, r.names@[j]@)
                &&& forall|k: Seq<char>|
                    #[trigger] names_contain(r.names@, k) <==> names_contain(categories@, k)
                &&& r.series@.len() == r.names@.len()
                &&& forall|k: int|
                    0 <= k < r.series@.len() ==> series_of(
                        #[trigger] r.series@[k],
                        self.model(),
                        r.names@[k]@,
                        group_by,
                    )
            },
    {
        if self.entries.len() == 0 {
            return CostMap { names: Vec::new(), series: Vec::new() };
        }
        let ghost cats = categories@;
        let mut registry = CategoryManager::default();
        let _ = registry.append_categories(categories);
        let names = registry.categories();
        proof {
            registry.lemma_sorted();
            let nv = names@.map_values(|c: CategoryName| c@);
            let rv = registry@.map_values(|p: (Seq<char>, crate::category::CategoryInfo)| p.0);
            assert(nv.len() == rv.len());
            assert forall|i: int| 0 <= i < names@.len() implies names@[i]@ == registry@[i].0 by {
                assert(nv[i] == rv[i]);
            }
            assert forall|k: Seq<char>| names_contain(names@, k) <==> has_key(registry@, k) by {
                if has_key(registry@, k) {
                    let t = choose|t: int| 0 <= t < registry@.len() && registry@[t].0 == k;
                    assert(names@[t]@ == k);
                }
                if names_contain(names@, k) {
                    let t = choose|t: int| 0 <= t < names@.len() && names@[t]@ == k;
                    assert(registry@[t].0 == k);
                }
            }
            assert forall|k: Seq<char>| has_key(registry@, k) <==> names_contain(cats, k) by {
                assert(!has_key(Seq::<(Seq<char>, crate::category::CategoryInfo)>::empty(), k));
            }
        }
        let dates = self.bucket_dates(group_by);
        let mut series: Vec<Series> = Vec::new();
        let mut k: usize = 0;
        while k < names.len()
            invariant
                self.wf(),
                self.entries@.len() > 0,
                is_run(dates@, earliest(self.model()).bucket(group_by), latest(self.model()).bucket(group_by), group_by),
                k <= names@.len(),
                series@.len() == k,
                forall|t: int|
                    0 <= t < k ==> series_of(#[trigger] series@[t], self.model(), names@[t]@, group_by),
            decreases names@.len() - k,
        {
            let totals = self.category_series(&names[k], group_by, &dates);
            let copy = dates.clone();
            assert(copy@ =~= dates@);
            series.push(Series { dates: copy, totals });
            k += 1;
        }
        CostMap { names, series }
    }
}

} // verus!
