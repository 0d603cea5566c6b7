//! The owned, sorted collection of entries and the operations over it.
use vstd::prelude::*;

use crate::category::{names_contain, CategoryError, CategoryManager, CategoryName};
use crate::date::Date;
use crate::entry::{Entry, EntryModel};
use crate::organize::SortBy;

verus! {

broadcast use vstd::seq_lib::group_to_multiset_ensures;

/// The key that `by` sorts on.
pub open spec fn key_of(e: EntryModel, by: SortBy) -> int {
    match by {
        SortBy::Date => e.date.key(),
        SortBy::Cost => e.cost as int,
    }
}

/// Ascending by the key of `by`.
pub open spec fn sorted_by(s: Seq<EntryModel>, by: SortBy) -> bool {
    forall|i: int, j: int| 0 <= i < j < s.len() ==> key_of(s[i], by) <= key_of(s[j], by)
}

/// `new` lists entries of `old` (through positions `f`, each used once), and
/// entries with equal keys keep the order they had in `old`.
pub open spec fn stable_reorder_by(old: Seq<EntryModel>, new: Seq<EntryModel>, by: SortBy, f: Seq<int>) -> bool {
    &&& f.len() == new.len()
    &&& forall|i: int| 0 <= i < f.len() ==> 0 <= #[trigger] f[i] < old.len() && new[i] == old[f[i]]
    &&& forall|i: int, j: int| 0 <= i < j < f.len() ==> f[i] != f[j]
    &&& forall|i: int, j: int|
        0 <= i < j < f.len() && key_of(new[i], by) == key_of(new[j], by) ==> f[i] < f[j]
}

pub open spec fn view_of(v: Seq<Entry>) -> Seq<EntryModel> {
    v.map_values(|e: Entry| e@)
}

pub open spec fn all_dates_wf(v: Seq<Entry>) -> bool {
    forall|i: int| 0 <= i < v.len() ==> v[i].date.wf()
}

/// Lexicographic order on (key, position) pairs.
pub open spec fn pair_le(a: (u64, usize), b: (u64, usize)) -> bool {
    a.0 < b.0 || (a.0 == b.0 && a.1 <= b.1)
}

/// Relies on std's `slice::sort`: the result is an ascending permutation;
/// tuples are ordered lexicographically.
#[verifier::external_body]
fn sort_pairs(v: &mut Vec<(u64, usize)>)
    ensures
        final(v)@.to_multiset() == old(v)@.to_multiset(),
        forall|i: int, j: int| 0 <= i < j < final(v)@.len() ==> pair_le(final(v)@[i], final(v)@[j]),
{
    v.sort();
}

/// Applying a function to two sequences with the same elements gives
/// sequences with the same elements.
pub proof fn lemma_map_same_multiset<A, B>(a: Seq<A>, b: Seq<A>, f: spec_fn(A) -> B)
    requires
        a.to_multiset() == b.to_multiset(),
    ensures
        a.map_values(f).to_multiset() == b.map_values(f).to_multiset(),
    decreases a.len(),
{
    if a.len() == 0 {
        assert(a.to_multiset().len() == 0);
        assert(b.to_multiset().len() == b.len());
        assert(a.map_values(f) =~= Seq::<B>::empty());
        assert(b.map_values(f) =~= Seq::<B>::empty());
    } else {
        let x = a.last();
        let a1 = a.drop_last();
        assert(a =~= a1.push(x));
        assert(a.to_multiset().count(x) > 0);
        assert(b.contains(x));
        let j = choose|j: int| 0 <= j < b.len() && b[j] == x;
        let b1 = b.remove(j);
        assert(b1.to_multiset() == b.to_multiset().remove(x));
        assert(a1.to_multiset() =~= b1.to_multiset());
        lemma_map_same_multiset(a1, b1, f);
        assert(a.map_values(f) =~= a1.map_values(f).push(f(x)));
        assert(b1.map_values(f) =~= b.map_values(f).remove(j));
        assert(b.map_values(f)[j] == f(x));
        assert(b.map_values(f).to_multiset().count(f(x)) > 0);
        assert(b.map_values(f).to_multiset() =~= b1.map_values(f).to_multiset().insert(f(x)));
    }
}

/// Where display position `index` stands in storage when the view is
/// walked in reverse.
pub open spec fn storage_index(len: int, index: int, reversed: bool) -> int {
    if reversed {
        len - 1 - index
    } else {
        index
    }
}

/// A position past the end of the collection.
#[derive(Clone, Copy, PartialEq, Eq, Structural, Debug)]
pub struct IndexOutOfRange {
    pub index: usize,
    pub len: usize,
}

/// Date of the first entry with the smallest date.
pub open spec fn earliest(s: Seq<EntryModel>) -> Date
    decreases s.len(),
{
    if s.len() <= 1 {
        s[0].date
    } else if s.last().date.key() < earliest(s.drop_last()).key() {
        s.last().date
    } else {
        earliest(s.drop_last())
    }
}

/// Date of the first entry with the largest date.
pub open spec fn latest(s: Seq<EntryModel>) -> Date
    decreases s.len(),
{
    if s.len() <= 1 {
        s[0].date
    } else if s.last().date.key() > latest(s.drop_last()).key() {
        s.last().date
    } else {
        latest(s.drop_last())
    }
}

pub proof fn lemma_extremes(s: Seq<EntryModel>)
    requires
        s.len() > 0,
    ensures
        forall|i: int| 0 <= i < s.len() ==> earliest(s).key() <= #[trigger] s[i].date.key(),
        forall|i: int| 0 <= i < s.len() ==> latest(s).key() >= #[trigger] s[i].date.key(),
        exists|i: int| 0 <= i < s.len() && s[i].date == earliest(s),
        exists|i: int| 0 <= i < s.len() && s[i].date == latest(s),
    decreases s.len(),
{
    if s.len() > 1 {
        let w = s.drop_last();
        lemma_extremes(w);
        assert forall|i: int| 0 <= i < s.len() - 1 implies s[i] == w[i] by {}
        let a = choose|i: int| 0 <= i < w.len() && w[i].date == earliest(w);
        let b = choose|i: int| 0 <= i < w.len() && w[i].date == latest(w);
        assert(s[a].date == w[a].date);
        assert(s[b].date == w[b].date);
        assert(s[s.len() - 1] == s.last());
    } else {
        assert(s[0].date == earliest(s));
    }
}

/// Total cost of the entries of category `c` dated in month `m` of year `y`.
pub open spec fn month_total(s: Seq<EntryModel>, c: Seq<char>, y: i32, m: u32) -> int
    decreases s.len(),
{
    if s.len() == 0 {
        0
    } else {
        let e = s.last();
        month_total(s.drop_last(), c, y, m) + if e.category == c && e.date.year == y
            && e.date.month == m {
            e.cost as int
        } else {
            0
        }
    }
}

/// Owns the entries, kept ascending by the active sort key.
pub struct DataManager {
    /// File the entries are persisted to, if any.
    pub active_file: Option<String>,
    /// Active sort key.
    pub sort_by: SortBy,
    pub entries: Vec<Entry>,
    /// Set when the whole collection was replaced; a chart view resets and clears it.
    pub plot_reset_next_frame: bool,
}

impl Default for DataManager {
    fn default() -> (r: Self)
        ensures
            r.entries@.len() == 0,
            r.sort_by == SortBy::Date,
            r.active_file is None,
            !r.plot_reset_next_frame,
    {
        DataManager {
            active_file: None,
            sort_by: SortBy::Date,
            entries: Vec::new(),
            plot_reset_next_frame: false,
        }
    }
}

/// The key an entry sorts on.
fn entry_key(e: &Entry, by: SortBy) -> (r: u64)
    requires
        e.date.wf(),
    ensures
        r == key_of(e@, by),
{
    match by {
        SortBy::Date => e.date.sort_key(),
        SortBy::Cost => e.cost.as_number(),
    }
}

impl DataManager {
    pub open spec fn wf(self) -> bool {
        all_dates_wf(self.entries@)
    }

    pub open spec fn model(self) -> Seq<EntryModel> {
        view_of(self.entries@)
    }

    /// Reorders the entries ascending by `by` (entries with equal keys keep
    /// their relative order) and makes `by` the active key. Returns whether
    /// the active key changed.
    pub fn sort_entries(&mut self, by: SortBy) -> (changed: bool)
        requires
            old(self).wf(),
        ensures
            final(self).wf(),
            final(self).model().to_multiset() == old(self).model().to_multiset(),
            sorted_by(final(self).model(), by),
            exists|f: Seq<int>| #[trigger] stable_reorder_by(old(self).model(), final(self).model(), by, f),
            final(self).sort_by == by,
            changed == (old(self).sort_by != by),
            final(self).active_file == old(self).active_file,
            final(self).plot_reset_next_frame == old(self).plot_reset_next_frame,
    {
        let n = self.entries.len();
        let ghost e = self.entries@;
        let mut pairs: Vec<(u64, usize)> = Vec::new();
        let mut i: usize = 0;
        while i < n
            invariant
                n == e.len(),
                e == self.entries@,
                all_dates_wf(e),
                i <= n,
                pairs@.len() == i,
                forall|t: int| 0 <= t < i ==> pairs@[t].0 == key_of(e[t]@, by) && pairs@[t].1 == t,
            decreases n - i,
        {
            pairs.push((entry_key(&self.entries[i], by), i));
            i += 1;
        }
        let ghost initial = pairs@;
        sort_pairs(&mut pairs);
        assert(pairs@.to_multiset().len() == pairs@.len());
        assert(initial.to_multiset().len() == initial.len());
        assert forall|t: int| 0 <= t < pairs@.len() implies pairs@[t].1 < n && pairs@[t].0 == key_of(
            e[pairs@[t].1 as int]@,
            by,
        ) by {
            assert(pairs@.to_multiset().count(pairs@[t]) > 0);
            assert(initial.contains(pairs@[t]));
            let u = choose|u: int| 0 <= u < initial.len() && initial[u] == pairs@[t];
        }
        let mut out: Vec<Entry> = Vec::new();
        let mut k: usize = 0;
        while k < n
            invariant
                n == e.len(),
                e == self.entries@,
                all_dates_wf(e),
                pairs@.len() == n,
                k <= n,
                out@.len() == k,
                forall|t: int| 0 <= t < n ==> pairs@[t].1 < n && pairs@[t].0 == key_of(
                    e[pairs@[t].1 as int]@,
                    by,
                ),
                forall|t: int| 0 <= t < k ==> out@[t]@ == e[pairs@[t].1 as int]@ && out@[t].date.wf(),
            decreases n - k,
        {
            let idx = pairs[k].1;
            out.push(self.entries[idx].clone());
            k += 1;
        }
        let ghost fi = Seq::new(n as nat, |t: int| pairs@[t].1 as int);
        proof {
            assert(initial.no_duplicates()) by {
                assert forall|a: int, b: int| 0 <= a < initial.len() && 0 <= b < initial.len() && a != b
                    implies initial[a] != initial[b] by {
                    assert(initial[a].1 == a && initial[b].1 == b);
                }
            }
            initial.lemma_multiset_has_no_duplicates();
            pairs@.lemma_multiset_has_no_duplicates_conv();
            let m = view_of(out@);
            assert(m.len() == n);
            assert forall|a: int, b: int| 0 <= a < b < fi.len() implies fi[a] != fi[b] by {
                if fi[a] == fi[b] {
                    assert(pairs@[a] == pairs@[b]);
                }
            }
            assert forall|a: int, b: int|
                0 <= a < b < fi.len() && key_of(m[a], by) == key_of(m[b], by) implies fi[a] < fi[b] by {
                assert(pair_le(pairs@[a], pairs@[b]));
                assert(pairs@[a] != pairs@[b]);
            }
            assert(stable_reorder_by(view_of(e), m, by, fi));
            assert(stable_reorder_by(view_of(e), view_of(out@), by, fi));
            let f = |p: (u64, usize)| e[p.1 as int]@;
            assert(initial.map_values(f) =~= view_of(e));
            assert(pairs@.map_values(f) =~= view_of(out@));
            lemma_map_same_multiset(pairs@, initial, f);
            assert forall|a: int, b: int| 0 <= a < b < out@.len() implies key_of(out@[a]@, by) <= key_of(
                out@[b]@,
                by,
            ) by {
                assert(pair_le(pairs@[a], pairs@[b]));
            }
        }
        let ghost outv = out@;
        self.entries = out;
        assert(self.model() == view_of(outv));
        let changed = self.sort_by != by;
        self.sort_by = by;
        assert(sorted_by(self.model(), by));
        assert(stable_reorder_by(view_of(e), self.model(), by, fi));
        assert(view_of(e) == old(self).model());
        assert(exists|f: Seq<int>| #[trigger] stable_reorder_by(old(self).model(), self.model(), by, f));
        changed
    }

    /// Appends an entry, then restores the order of the active sort key.
    pub fn add_entry(&mut self, entry: Entry)
        requires
            old(self).wf(),
            entry.date.wf(),
        ensures
            final(self).wf(),
            final(self).model().to_multiset() == old(self).model().to_multiset().insert(entry@),
            sorted_by(final(self).model(), final(self).sort_by),
            exists|f: Seq<int>|
                #[trigger] stable_reorder_by(
                    old(self).model().push(entry@),
                    final(self).model(),
                    final(self).sort_by,
                    f,
                ),
            final(self).sort_by == old(self).sort_by,
            final(self).active_file == old(self).active_file,
            final(self).plot_reset_next_frame == old(self).plot_reset_next_frame,
    {
        let ghost before = self.model();
        let ghost ev = entry@;
        self.entries.push(entry);
        assert(self.model() =~= before.push(ev));
        let by = self.sort_by;
        self.sort_entries(by);
    }

    /// Removes the entry shown at `index` of a view that is ascending, or
    /// descending when `reversed`.
    pub fn remove_entry_pos(&mut self, index: usize, reversed: bool) -> (r: Result<(), IndexOutOfRange>)
        requires
            old(self).wf(),
        ensures
            final(self).wf(),
            r is Ok <==> index < old(self).entries@.len(),
            r is Ok ==> final(self).model() == old(self).model().remove(
                storage_index(old(self).entries@.len() as int, index as int, reversed),
            ),
            r matches Err(e) ==> e.index == index && e.len == old(self).entries@.len(),
            r is Err ==> final(self).entries@ == old(self).entries@,
            final(self).sort_by == old(self).sort_by,
            final(self).active_file == old(self).active_file,
            final(self).plot_reset_next_frame == old(self).plot_reset_next_frame,
    {
        let len = self.entries.len();
        if index >= len {
            return Err(IndexOutOfRange { index, len });
        }
        let pos = if reversed {
            len - 1 - index
        } else {
            index
        };
        let ghost before = self.model();
        self.entries.remove(pos);
        assert(self.model() =~= before.remove(pos as int));
        Ok(())
    }

    /// Replaces the whole collection (not re-sorted) and asks the chart view to reset.
    pub fn set_entries(&mut self, entries: Vec<Entry>)
        requires
            all_dates_wf(entries@),
        ensures
            final(self).wf(),
            final(self).entries@ == entries@,
            final(self).plot_reset_next_frame,
            final(self).sort_by == old(self).sort_by,
            final(self).active_file == old(self).active_file,
    {
        self.entries = entries;
        self.plot_reset_next_frame = true;
    }

    /// The entries in storage order, or in reverse.
    pub fn get_entries_iter(&self, reverse: bool) -> (r: Vec<&Entry>)
        ensures
            r@.len() == self.entries@.len(),
            forall|i: int|
                0 <= i < r@.len() ==> *r@[i] == self.entries@[storage_index(
                    r@.len() as int,
                    i,
                    reverse,
                )],
    {
        let n = self.entries.len();
        let mut out: Vec<&Entry> = Vec::new();
        let mut i: usize = 0;
        while i < n
            invariant
                n == self.entries@.len(),
                i <= n,
                out@.len() == i,
                forall|t: int| 0 <= t < i ==> *out@[t] == self.entries@[storage_index(n as int, t, reverse)],
            decreases n - i,
        {
            let pos = if reverse {
                n - 1 - i
            } else {
                i
            };
            out.push(&self.entries[pos]);
            i += 1;
        }
        out
    }

    /// An entry with the earliest and one with the latest date; `None` when
    /// there are no entries.
    pub fn entries_date_extremes(&self) -> (r: (Option<&Entry>, Option<&Entry>))
        requires
            self.wf(),
        ensures
            r.0 is Some <==> self.entries@.len() > 0,
            r.1 is Some <==> self.entries@.len() > 0,
            r.0 matches Some(e) ==> e.date == earliest(self.model()) && exists|i: int|
                0 <= i < self.entries@.len() && self.entries@[i] == *e,
            r.1 matches Some(e) ==> e.date == latest(self.model()) && exists|i: int|
                0 <= i < self.entries@.len() && self.entries@[i] == *e,
    {
        let n = self.entries.len();
        if n == 0 {
            return (None, None);
        }
        let ghost s = self.model();
        let mut lo: usize = 0;
        let mut hi: usize = 0;
        let mut i: usize = 1;
        assert(s.take(1).len() == 1);
        while i < n
            invariant
                n == self.entries@.len(),
                s == self.model(),
                self.wf(),
                1 <= i <= n,
                lo < n,
                hi < n,
                self.entries@[lo as int].date == earliest(s.take(i as int)),
                self.entries@[hi as int].date == latest(s.take(i as int)),
            decreases n - i,
        {
            assert(s.take(i + 1).drop_last() =~= s.take(i as int));
            assert(s.take(i + 1).last() == s[i as int]);
            if self.entries[i].date.is_before(&self.entries[lo].date) {
                lo = i;
            }
            if self.entries[hi].date.is_before(&self.entries[i].date) {
                hi = i;
            }
            i += 1;
        }
        assert(s.take(n as int) =~= s);
        assert(self.entries@[lo as int] == self.entries@[lo as int]);
        assert(self.entries@[hi as int] == self.entries@[hi as int]);
        (Some(&self.entries[lo]), Some(&self.entries[hi]))
    }

    /// Total spent in `category` during the month (and year) of `date`.
    pub fn monthly_cost(&self, category: &CategoryName, date: &Date) -> (r: u128)
        ensures
            r == month_total(self.model(), category@, date.year, date.month),
    {
        let n = self.entries.len();
        let ghost s = self.model();
        let mut acc: u128 = 0;
        let mut i: usize = 0;
        while i < n
            invariant
                n == self.entries@.len(),
                s == self.model(),
                i <= n,
                acc == month_total(s.take(i as int), category@, date.year, date.month),
                acc <= i * 18446744073709551615,
            decreases n - i,
        {
            assert(s.take(i + 1).drop_last() =~= s.take(i as int));
            assert(s.take(i + 1).last() == s[i as int]);
            let e = &self.entries[i];
            if e.date.year == date.year && e.date.month == date.month && e.category.compare(category)
                == 0 {
                acc = acc + e.cost.as_number() as u128;
            }
            i += 1;
        }
        assert(s.take(n as int) =~= s);
        acc
    }

    /// Decides where the entries are written: to `file_path` when given, which
    /// then becomes the active file, else to the active file; `None` when
    /// neither is set.
    pub fn resolve_write_path(&mut self, file_path: Option<String>) -> (r: Option<String>)
        ensures
            r == match file_path {
                Some(p) => Some(p),
                None => old(self).active_file,
            },
            final(self).active_file == match file_path {
                Some(p) => Some(p),
                None => old(self).active_file,
            },
            final(self).entries@ == old(self).entries@,
            final(self).sort_by == old(self).sort_by,
            final(self).plot_reset_next_frame == old(self).plot_reset_next_frame,
    {
        match file_path {
            Some(p) => {
                let target = p.clone();
                assert(target@ == p@);
                self.active_file = Some(p);
                Some(target)
            },
            None => match &self.active_file {
                Some(p) => Some(p.clone()),
                None => None,
            },
        }
    }
}

/// The categories the entries use, once each, in name order.
pub fn create_unique_category_set(entries: &Vec<Entry>) -> (r: Vec<CategoryName>)
    ensures
        forall|k: Seq<char>|
            #[trigger] names_contain(r@, k) <==> exists|i: int|
                0 <= i < entries@.len() && entries@[i].category@ == k,
        forall|i: int, j: int| 0 <= i < j < r@.len() ==> crate::category::name_lt(r@[i]@, r@[j]@),
{
    let mut all: Vec<CategoryName> = Vec::new();
    let mut i: usize = 0;
    while i < entries.len()
        invariant
            i <= entries@.len(),
            all@.len() == i,
            forall|t: int| 0 <= t < i ==> (#[trigger] all@[t])@ == entries@[t].category@,
        decreases entries@.len() - i,
    {
        all.push(entries[i].category.clone());
        i += 1;
    }
    let ghost cats = all@;
    let mut registry = CategoryManager::default();
    let _ = registry.append_categories(all);
    let names = registry.categories();
    proof {
        registry.lemma_sorted();
        let nv = names@.map_values(|c: CategoryName| c@);
        let rv = registry@.map_values(|p: (Seq<char>, crate::category::CategoryInfo)| p.0);
        assert(nv.len() == rv.len());
        assert forall|t: int| 0 <= t < names@.len() implies names@[t]@ == registry@[t].0 by {
            assert(nv[t] == rv[t]);
        }
        assert forall|k: Seq<char>| #[trigger] names_contain(names@, k) <==> exists|t: int|
            0 <= t < entries@.len() && entries@[t].category@ == k by {
            assert(!crate::category::has_key(Seq::<(Seq<char>, crate::category::CategoryInfo)>::empty(), k));
            if crate::category::has_key(registry@, k) {
                let t = choose|t: int| 0 <= t < registry@.len() && registry@[t].0 == k;
                assert(names@[t]@ == k);
            }
            if names_contain(names@, k) {
                let t = choose|t: int| 0 <= t < names@.len() && names@[t]@ == k;
                assert(registry@[t].0 == k);
            }
            if names_contain(cats, k) {
                let t = choose|t: int| 0 <= t < cats.len() && cats[t]@ == k;
                assert(entries@[t].category@ == k);
            }
            if exists|t: int| 0 <= t < entries@.len() && entries@[t].category@ == k {
                let t = choose|t: int| 0 <= t < entries@.len() && entries@[t].category@ == k;
                assert(cats[t]@ == k);
            }
        }
    }
    names
}

/// Replaces the collection with imported entries (not re-sorted), registers
/// the categories they use, and asks the chart view to reset.
pub fn import_entry_vec(data_mgr: &mut DataManager, cat_mgr: &mut CategoryManager, entries: Vec<Entry>) -> (r: Result<(), CategoryError>)
    requires
        all_dates_wf(entries@),
        old(cat_mgr).wf(),
    ensures
        r is Ok,
        final(data_mgr).wf(),
        final(data_mgr).entries@ == entries@,
        final(data_mgr).plot_reset_next_frame,
        final(cat_mgr).wf(),
        forall|k: Seq<char>|
            crate::category::has_key(final(cat_mgr)@, k) <==> (crate::category::has_key(
                old(cat_mgr)@,
                k,
            ) || exists|i: int| 0 <= i < entries@.len() && entries@[i].category@ == k),
        forall|i: int| 0 <= i < old(cat_mgr)@.len() ==> final(cat_mgr)@.contains(old(cat_mgr)@[i]),
{
    let unique = create_unique_category_set(&entries);
    let ghost u = unique@;
    let ghost ev = entries@;
    let ghost before = cat_mgr@;
    data_mgr.set_entries(entries);
    let r = cat_mgr.append_categories(unique);
    proof {
        assert forall|k: Seq<char>|
            crate::category::has_key(cat_mgr@, k) <==> (crate::category::has_key(before, k)
                || exists|i: int| 0 <= i < ev.len() && ev[i].category@ == k) by {
            if names_contain(u, k) {
                assert(exists|j: int| 0 <= j < u.len() && u[j]@ == k);
            }
            if exists|j: int| 0 <= j < u.len() && u[j]@ == k {
                assert(names_contain(u, k));
            }
        }
    }
    r
}

} // verus!
