//! Calendar dates of the proleptic Gregorian calendar, years 1 to 9999.
use chrono::Datelike;
use vstd::prelude::*;

use crate::organize::GroupBy;

verus! {

/// Largest year a `Date` may hold (four decimal digits).
pub const MAX_YEAR: i32 = 9999;

/// A calendar date held as plain numbers; `wf` says it names a real day.
#[derive(Clone, Copy, PartialEq, Eq, Structural, Debug, Hash, PartialOrd, Ord)]
pub struct Date {
    pub year: i32,
    pub month: u32,
    pub day: u32,
}

pub open spec fn is_leap_year(y: int) -> bool {
    (y % 4 == 0 && y % 100 != 0) || y % 400 == 0
}

pub open spec fn days_in_month(y: int, m: int) -> int {
    if m == 2 {
        if is_leap_year(y) { 29 } else { 28 }
    } else if m == 4 || m == 6 || m == 9 || m == 11 {
        30
    } else {
        31
    }
}

impl Date {
    pub open spec fn wf(self) -> bool {
        &&& 1 <= self.year <= MAX_YEAR
        &&& 1 <= self.month <= 12
        &&& 1 <= self.day <= days_in_month(self.year as int, self.month as int)
    }

    /// A number that orders dates chronologically (e.g. 20240301).
    pub open spec fn key(self) -> int {
        self.year * 10000 + self.month * 100 + self.day
    }

    /// The calendar day that follows this one.
    pub open spec fn next_day(self) -> Date {
        if (self.day as int) < days_in_month(self.year as int, self.month as int) {
            Date { year: self.year, month: self.month, day: (self.day + 1) as u32 }
        } else if self.month < 12 {
            Date { year: self.year, month: (self.month + 1) as u32, day: 1 }
        } else {
            Date { year: (self.year + 1) as i32, month: 1, day: 1 }
        }
    }

    /// The bucket a date falls in: itself, the first of its month, or January 1 of its year.
    pub open spec fn bucket(self, g: GroupBy) -> Date {
        match g {
            GroupBy::Day => self,
            GroupBy::Month => Date { year: self.year, month: self.month, day: 1 },
            GroupBy::Year => Date { year: self.year, month: 1, day: 1 },
        }
    }

    pub open spec fn is_aligned(self, g: GroupBy) -> bool {
        self.bucket(g) == self
    }

    /// The bucket that follows an aligned bucket.
    pub open spec fn next_bucket(self, g: GroupBy) -> Date {
        match g {
            GroupBy::Day => self.next_day(),
            GroupBy::Month => if self.month < 12 {
                Date { year: self.year, month: (self.month + 1) as u32, day: 1 }
            } else {
                Date { year: (self.year + 1) as i32, month: 1, day: 1 }
            },
            GroupBy::Year => Date { year: (self.year + 1) as i32, month: 1, day: 1 },
        }
    }

    /// Builds a date when `(year, month, day)` names a day of years 1..=9999.
    pub fn new(year: i32, month: u32, day: u32) -> (r: Option<Date>)
        ensures
            r is Some <==> (Date { year, month, day }).wf(),
            r is Some ==> r->0 == (Date { year, month, day }),
    {
        if year < 1 || year > MAX_YEAR || month < 1 || month > 12 || day < 1 {
            return None;
        }
        if day > month_length(year, month) {
            return None;
        }
        Some(Date { year, month, day })
    }

    pub fn year(&self) -> (r: i32)
        ensures r == self.year,
    {
        self.year
    }

    pub fn month(&self) -> (r: u32)
        ensures r == self.month,
    {
        self.month
    }

    pub fn day(&self) -> (r: u32)
        ensures r == self.day,
    {
        self.day
    }

    /// Chronological order key, `year * 10000 + month * 100 + day`.
    pub fn sort_key(&self) -> (r: u64)
        requires self.wf(),
        ensures r == self.key(),
    {
        (self.year as u64) * 10000 + (self.month as u64) * 100 + (self.day as u64)
    }

    /// `self` is strictly earlier than `other`.
    pub fn is_before(&self, other: &Date) -> (r: bool)
        requires self.wf(), other.wf(),
        ensures r == (self.key() < other.key()),
    {
        self.sort_key() < other.sort_key()
    }

    /// Aligns a date to the start of its bucket.
    pub fn to_bucket(&self, g: GroupBy) -> (r: Date)
        requires self.wf(),
        ensures r == self.bucket(g), r.wf(),
    {
        match g {
            GroupBy::Day => *self,
            GroupBy::Month => Date { year: self.year, month: self.month, day: 1 },
            GroupBy::Year => Date { year: self.year, month: 1, day: 1 },
        }
    }
}

/// Relies on chrono's `NaiveDate::succ_opt`: the calendar day after a date.
#[verifier::external_body]
fn chrono_succ(d: &Date) -> (r: Date)
    requires
        d.wf(),
        d.key() < 99991231,
    ensures
        r == d.next_day(),
{
    let n = chrono::NaiveDate::from_ymd_opt(d.year, d.month, d.day).unwrap();
    let s = n.succ_opt().unwrap();
    Date { year: s.year(), month: s.month(), day: s.day() }
}

/// Relies on chrono's `Local::now`: the current date in the local time zone,
/// as `(year, month, day)`.
#[verifier::external_body]
pub(crate) fn local_today() -> (r: (i32, u32, u32)) {
    let now = chrono::Local::now();
    (now.year(), now.month(), now.day())
}

/// Number of days of a month.
pub fn month_length(year: i32, month: u32) -> (r: u32)
    requires 1 <= month <= 12,
    ensures r == days_in_month(year as int, month as int),
{
    if month == 2 {
        if (year % 4 == 0 && year % 100 != 0) || year % 400 == 0 {
            29
        } else {
            28
        }
    } else if month == 4 || month == 6 || month == 9 || month == 11 {
        30
    } else {
        31
    }
}


/// Two valid dates with the same key are the same date.
pub proof fn lemma_key_injective(a: Date, b: Date)
    requires
        a.wf(),
        b.wf(),
        a.key() == b.key(),
    ensures
        a == b,
{
}

/// Buckets are valid, aligned, no later than the date, and monotone.
pub proof fn lemma_bucket(d: Date, e: Date, g: GroupBy)
    requires
        d.wf(),
        e.wf(),
    ensures
        d.bucket(g).wf(),
        d.bucket(g).is_aligned(g),
        d.bucket(g).key() <= d.key(),
        d.key() <= e.key() ==> d.bucket(g).key() <= e.bucket(g).key(),
        e.is_aligned(g) && e.key() <= d.key() ==> e.key() <= d.bucket(g).key(),
{
}

/// The bucket after an aligned bucket `b` is valid, aligned, later than `b`,
/// and no later than any aligned date `x` after `b`.
pub proof fn lemma_next_bucket(b: Date, x: Date, g: GroupBy)
    requires
        b.wf(),
        b.is_aligned(g),
        x.wf(),
        x.is_aligned(g),
        b.key() < x.key(),
    ensures
        b.next_bucket(g).wf(),
        b.next_bucket(g).is_aligned(g),
        b.key() < b.next_bucket(g).key() <= x.key(),
{
}

/// `d` lists every bucket from `start` to `end`: each is the bucket after the previous.
pub open spec fn is_run(d: Seq<Date>, start: Date, end: Date, g: GroupBy) -> bool {
    &&& d.len() > 0
    &&& d[0] == start
    &&& d.last() == end
    &&& forall|i: int| 0 <= i < d.len() - 1 ==> d[i + 1] == #[trigger] d[i].next_bucket(g)
    &&& forall|i: int| 0 <= i < d.len() ==> (#[trigger] d[i]).wf() && d[i].is_aligned(g)
}

/// Keys of valid dates strictly increasing along the sequence.
pub open spec fn increasing(d: Seq<Date>) -> bool {
    &&& forall|i: int| 0 <= i < d.len() ==> (#[trigger] d[i]).wf()
    &&& forall|i: int, j: int| 0 <= i < j < d.len() ==> d[i].key() < d[j].key()
}

/// A run is increasing and holds every aligned date between its ends.
pub proof fn lemma_run(d: Seq<Date>, start: Date, end: Date, g: GroupBy)
    requires
        is_run(d, start, end, g),
    ensures
        increasing(d),
        forall|x: Date|
            x.wf() && x.is_aligned(g) && start.key() <= x.key() <= end.key() ==> d.contains(x),
    decreases d.len(),
{
    if d.len() == 1 {
        assert forall|x: Date|
            x.wf() && x.is_aligned(g) && start.key() <= x.key() <= end.key() implies d.contains(x) by {
            lemma_key_injective(x, start);
            assert(d[0] == x);
        }
    } else {
        let w = d.drop_last();
        let prev = w.last();
        assert(w[w.len() - 1] == d[d.len() - 2]);
        assert(d[d.len() - 1] == d[d.len() - 2].next_bucket(g));
        assert forall|i: int| 0 <= i < w.len() - 1 implies w[i + 1] == #[trigger] w[i].next_bucket(g) by {
            assert(d[i + 1] == d[i].next_bucket(g));
        }
        assert forall|i: int| 0 <= i < w.len() implies (#[trigger] w[i]).wf() && w[i].is_aligned(g) by {
            assert(d[i].wf() && d[i].is_aligned(g));
        }
        assert(is_run(w, start, prev, g));
        lemma_run(w, start, prev, g);
        assert(prev.wf() && prev.is_aligned(g));
        assert(d[d.len() - 1].wf());
        // prev is strictly before end
        assert(prev.key() < prev.next_bucket(g).key()) by {
            if prev.key() >= end.key() {
                // impossible: end is the bucket after prev
                assert(end == prev.next_bucket(g));
            }
            lemma_next_bucket_grows(prev, g);
        }
        assert forall|i: int, j: int| 0 <= i < j < d.len() implies d[i].key() < d[j].key() by {
            if j == d.len() - 1 {
                if i < w.len() - 1 {
                    assert(w[i].key() < w[w.len() - 1].key());
                }
            } else {
                assert(w[i].key() < w[j].key());
            }
        }
        assert forall|x: Date|
            x.wf() && x.is_aligned(g) && start.key() <= x.key() <= end.key() implies d.contains(x) by {
            if x.key() <= prev.key() {
                assert(w.contains(x));
                let t = choose|t: int| 0 <= t < w.len() && w[t] == x;
                assert(d[t] == x);
            } else {
                lemma_next_bucket(prev, x, g);
                lemma_key_injective(x, end);
                assert(d[d.len() - 1] == x);
            }
        }
    }
}

/// The bucket after a valid aligned bucket has a larger key.
pub proof fn lemma_next_bucket_grows(b: Date, g: GroupBy)
    requires
        b.wf(),
        b.is_aligned(g),
    ensures
        b.key() < b.next_bucket(g).key(),
{
}

/// The aligned bucket after `b`.
fn next_bucket_of(b: &Date, end: &Date, g: GroupBy) -> (r: Date)
    requires
        b.wf(),
        b.is_aligned(g),
        end.wf(),
        end.is_aligned(g),
        b.key() < end.key(),
    ensures
        r == b.next_bucket(g),
        r.wf(),
        r.is_aligned(g),
        b.key() < r.key() <= end.key(),
{
    proof {
        lemma_next_bucket(*b, *end, g);
    }
    match g {
        GroupBy::Day => chrono_succ(b),
        GroupBy::Month => if b.month < 12 {
            Date { year: b.year, month: b.month + 1, day: 1 }
        } else {
            Date { year: b.year + 1, month: 1, day: 1 }
        },
        GroupBy::Year => Date { year: b.year + 1, month: 1, day: 1 },
    }
}

/// Every bucket from `start` to `end`, in order.
pub fn bucket_run(start: Date, end: Date, g: GroupBy) -> (r: Vec<Date>)
    requires
        start.wf(),
        start.is_aligned(g),
        end.wf(),
        end.is_aligned(g),
        start.key() <= end.key(),
    ensures
        is_run(r@, start, end, g),
{
    let mut out: Vec<Date> = Vec::new();
    out.push(start);
    let mut cur = start;
    while cur.sort_key() < end.sort_key()
        invariant
            cur.wf(),
            cur.is_aligned(g),
            cur.key() <= end.key(),
            end.wf(),
            end.is_aligned(g),
            out@.len() > 0,
            out@[0] == start,
            out@.last() == cur,
            forall|i: int| 0 <= i < out@.len() - 1 ==> out@[i + 1] == #[trigger] out@[i].next_bucket(g),
            forall|i: int| 0 <= i < out@.len() ==> (#[trigger] out@[i]).wf() && out@[i].is_aligned(g),
        decreases end.key() - cur.key(),
    {
        let ghost before = out@;
        cur = next_bucket_of(&cur, &end, g);
        out.push(cur);
        assert forall|i: int| 0 <= i < out@.len() - 1 implies out@[i + 1] == #[trigger] out@[i].next_bucket(g) by {
            if i < before.len() - 1 {
                assert(out@[i + 1] == before[i + 1]);
            }
        }
    }
    proof {
        lemma_key_injective(cur, end);
    }
    out
}

/// Position of `target` in increasing `d`, if present.
pub fn find_date(d: &Vec<Date>, target: &Date) -> (r: Option<usize>)
    requires
        increasing(d@),
        target.wf(),
    ensures
        r matches Some(i) ==> i < d@.len() && d@[i as int] == *target,
        r is None ==> !d@.contains(*target),
{
    let mut lo: usize = 0;
    let mut hi: usize = d.len();
    let tk = target.sort_key();
    while lo < hi
        invariant
            increasing(d@),
            target.wf(),
            tk == target.key(),
            lo <= hi <= d@.len(),
            forall|i: int| 0 <= i < lo ==> d@[i].key() < tk,
            forall|i: int| hi <= i < d@.len() ==> d@[i].key() > tk,
        decreases hi - lo,
    {
        let mid = lo + (hi - lo) / 2;
        let mk = d[mid].sort_key();
        if mk == tk {
            proof {
                lemma_key_injective(d@[mid as int], *target);
            }
            return Some(mid);
        } else if mk < tk {
            lo = mid + 1;
        } else {
            hi = mid;
        }
    }
    proof {
        if d@.contains(*target) {
            let t = choose|t: int| 0 <= t < d@.len() && d@[t] == *target;
            assert(d@[t].key() == tk);
        }
    }
    None
}

} // verus!
