//! The entry file format: one line per entry, `name,YYYY-MM-DD,cost,category`,
//! with the cost in units and two decimals (`4.50`). No header, no quoting.
use chrono::Datelike;
use vstd::prelude::*;

use crate::category::{normal_name, parses, stored_form, CategoryName};
use crate::date::Date;
use crate::text::has_char;
use crate::entry::{Entry, EntryModel};

verus! {

pub open spec fn digit_char(d: int) -> char {
    if d == 0 {
        '0'
    } else if d == 1 {
        '1'
    } else if d == 2 {
        '2'
    } else if d == 3 {
        '3'
    } else if d == 4 {
        '4'
    } else if d == 5 {
        '5'
    } else if d == 6 {
        '6'
    } else if d == 7 {
        '7'
    } else if d == 8 {
        '8'
    } else {
        '9'
    }
}

/// The value of a decimal digit character.
pub open spec fn digit_value(c: char) -> Option<int> {
    if c == '0' {
        Some(0)
    } else if c == '1' {
        Some(1)
    } else if c == '2' {
        Some(2)
    } else if c == '3' {
        Some(3)
    } else if c == '4' {
        Some(4)
    } else if c == '5' {
        Some(5)
    } else if c == '6' {
        Some(6)
    } else if c == '7' {
        Some(7)
    } else if c == '8' {
        Some(8)
    } else if c == '9' {
        Some(9)
    } else {
        None
    }
}

/// Decimal text of a number, without leading zeros.
pub open spec fn nat_text(n: nat) -> Seq<char>
    decreases n,
{
    if n < 10 {
        seq![digit_char(n as int)]
    } else {
        nat_text(n / 10).push(digit_char((n % 10) as int))
    }
}

/// The last `width` decimal digits of `n`, zero-padded.
pub open spec fn padded(n: nat, width: nat) -> Seq<char>
    decreases width,
{
    if width == 0 {
        Seq::empty()
    } else {
        padded(n / 10, (width - 1) as nat).push(digit_char((n % 10) as int))
    }
}

pub open spec fn date_text(d: Date) -> Seq<char> {
    padded(d.year as nat, 4) + seq!['-'] + padded(d.month as nat, 2) + seq!['-'] + padded(
        d.day as nat,
        2,
    )
}

/// A cost in cents written as units, a point and two decimals.
pub open spec fn cost_text(c: u64) -> Seq<char> {
    nat_text((c / 100) as nat) + seq!['.'] + padded((c % 100) as nat, 2)
}

pub open spec fn record_text(e: EntryModel) -> Seq<char> {
    e.name + seq![','] + date_text(e.date) + seq![','] + cost_text(e.cost) + seq![','] + e.category
}

/// The file text of a sequence of entries: each record followed by a newline.
pub open spec fn csv_text(s: Seq<EntryModel>) -> Seq<char>
    decreases s.len(),
{
    if s.len() == 0 {
        Seq::empty()
    } else {
        csv_text(s.drop_last()) + record_text(s.last()) + seq!['\n']
    }
}

fn digit_str(d: u64) -> (r: &'static str)
    requires
        d < 10,
    ensures
        r@ == seq![digit_char(d as int)],
{
    proof {
        reveal_strlit("0");
        reveal_strlit("1");
        reveal_strlit("2");
        reveal_strlit("3");
        reveal_strlit("4");
        reveal_strlit("5");
        reveal_strlit("6");
        reveal_strlit("7");
        reveal_strlit("8");
        reveal_strlit("9");
    }
    if d == 0 {
        "0"
    } else if d == 1 {
        "1"
    } else if d == 2 {
        "2"
    } else if d == 3 {
        "3"
    } else if d == 4 {
        "4"
    } else if d == 5 {
        "5"
    } else if d == 6 {
        "6"
    } else if d == 7 {
        "7"
    } else if d == 8 {
        "8"
    } else {
        "9"
    }
}

fn push_nat(out: &mut String, n: u64)
    ensures
        final(out)@ == old(out)@ + nat_text(n as nat),
    decreases n,
{
    if n >= 10 {
        push_nat(out, n / 10);
    }
    out.append(digit_str(n % 10));
    assert(n < 10 ==> nat_text(n as nat) =~= seq![digit_char(n as int)]);
}

fn push_padded(out: &mut String, n: u64, width: u64)
    ensures
        final(out)@ == old(out)@ + padded(n as nat, width as nat),
    decreases width,
{
    if width > 0 {
        push_padded(out, n / 10, width - 1);
        out.append(digit_str(n % 10));
    } else {
        assert(padded(n as nat, 0) =~= Seq::<char>::empty());
    }
}

fn push_sep(out: &mut String, c: char)
    requires
        c == ',' || c == '-' || c == '.' || c == '\n',
    ensures
        final(out)@ == old(out)@ + seq![c],
{
    proof {
        reveal_strlit(",");
        reveal_strlit("-");
        reveal_strlit(".");
        reveal_strlit("\n");
    }
    if c == ',' {
        out.append(",");
    } else if c == '-' {
        out.append("-");
    } else if c == '.' {
        out.append(".");
    } else {
        out.append("\n");
    }
}

fn push_record(out: &mut String, e: &Entry)
    requires
        e.date.wf(),
    ensures
        final(out)@ == old(out)@ + record_text(e@),
{
    let ghost start = out@;
    out.append(e.name.as_str());
    push_sep(out, ',');
    push_padded(out, e.date.year as u64, 4);
    push_sep(out, '-');
    push_padded(out, e.date.month as u64, 2);
    push_sep(out, '-');
    push_padded(out, e.date.day as u64, 2);
    push_sep(out, ',');
    let c = e.cost.as_number();
    push_nat(out, c / 100);
    push_sep(out, '.');
    push_padded(out, c % 100, 2);
    push_sep(out, ',');
    let shown = e.category.display();
    out.append(shown.as_str());
    assert(out@ =~= start + record_text(e@));
}

impl Entry {
    /// The entry as one line of the file format, without the newline.
    pub fn to_csv_string(&self) -> (r: String)
        requires
            self.date.wf(),
        ensures
            r@ == record_text(self@),
    {
        let mut out = String::new();
        push_record(&mut out, self);
        assert(out@ =~= record_text(self@));
        out
    }
}

impl Entry {
    /// A one-line description for messages: `Entry(name: N, cost: 4.50, date: 2024-03-01)`.
    pub fn describe(&self) -> (r: String)
        requires
            self.date.wf(),
        ensures
            r@ == "Entry(name: "@ + self.name@ + ", cost: "@ + cost_text(self.cost@) + ", date: "@
                + date_text(self.date) + ")"@,
    {
        let mut out = String::from_str("Entry(name: ");
        out.append(self.name.as_str());
        out.append(", cost: ");
        let c = self.cost.as_number();
        push_nat(&mut out, c / 100);
        push_sep(&mut out, '.');
        push_padded(&mut out, c % 100, 2);
        out.append(", date: ");
        push_padded(&mut out, self.date.year as u64, 4);
        push_sep(&mut out, '-');
        push_padded(&mut out, self.date.month as u64, 2);
        push_sep(&mut out, '-');
        push_padded(&mut out, self.date.day as u64, 2);
        out.append(")");
        assert(out@ =~= "Entry(name: "@ + self.name@ + ", cost: "@ + cost_text(self.cost@) + ", date: "@
            + date_text(self.date) + ")"@);
        out
    }
}

/// The file text for a sequence of entries: one line per entry, in order.
pub fn entries_to_csv(entries: &Vec<Entry>) -> (r: String)
    requires
        forall|i: int| 0 <= i < entries@.len() ==> (#[trigger] entries@[i]).date.wf(),
    ensures
        r@ == csv_text(entries@.map_values(|e: Entry| e@)),
{
    let ghost s = entries@.map_values(|e: Entry| e@);
    let mut out = String::new();
    let mut i: usize = 0;
    assert(csv_text(s.take(0)) =~= out@);
    while i < entries.len()
        invariant
            s == entries@.map_values(|e: Entry| e@),
            forall|t: int| 0 <= t < entries@.len() ==> (#[trigger] entries@[t]).date.wf(),
            i <= entries@.len(),
            out@ == csv_text(s.take(i as int)),
        decreases entries@.len() - i,
    {
        assert(s.take(i + 1).drop_last() =~= s.take(i as int));
        push_record(&mut out, &entries[i]);
        push_sep(&mut out, '\n');
        i += 1;
    }
    assert(s.take(i as int) =~= s);
    out
}


/// The pieces of `s` between occurrences of `sep`, empty pieces included.
pub open spec fn split_on(s: Seq<char>, sep: char) -> Seq<Seq<char>>
    decreases s.len(),
{
    if s.len() == 0 {
        seq![Seq::empty()]
    } else {
        let p = split_on(s.drop_last(), sep);
        if s.last() == sep {
            p.push(Seq::empty())
        } else {
            p.update(p.len() - 1, p.last().push(s.last()))
        }
    }
}

/// The lines of a text; a final newline ends the last line rather than starting an empty one.
pub open spec fn lines(text: Seq<char>) -> Seq<Seq<char>> {
    let p = split_on(text, '\n');
    if p.last().len() == 0 {
        p.drop_last()
    } else {
        p
    }
}

pub open spec fn all_digits(t: Seq<char>) -> bool {
    forall|i: int| 0 <= i < t.len() ==> (#[trigger] digit_value(t[i])) is Some
}

/// The number a string of decimal digits denotes.
pub open spec fn digits_value(t: Seq<char>) -> nat
    decreases t.len(),
{
    if t.len() == 0 {
        0
    } else {
        digits_value(t.drop_last()) * 10 + match digit_value(t.last()) {
            Some(v) => v as nat,
            None => 0,
        }
    }
}

/// A date in the canonical form `YYYY-MM-DD` that names a real day.
pub open spec fn canonical_date(t: Seq<char>) -> Option<Date> {
    if t.len() == 10 && t[4] == '-' && t[7] == '-' && all_digits(t.subrange(0, 4)) && all_digits(
        t.subrange(5, 7),
    ) && all_digits(t.subrange(8, 10)) {
        let d = Date {
            year: digits_value(t.subrange(0, 4)) as i32,
            month: digits_value(t.subrange(5, 7)) as u32,
            day: digits_value(t.subrange(8, 10)) as u32,
        };
        if d.wf() {
            Some(d)
        } else {
            None
        }
    } else {
        None
    }
}

/// What chrono's `%Y-%m-%d` parse gives, as (year, month, day), for a text
/// that is not the canonical form of a valid date.
pub uninterp spec fn chrono_date_of(t: Seq<char>) -> Option<(i32, u32, u32)>;

/// What chrono's `%Y-%m-%d` parse gives for a date text: the date itself for
/// the canonical form of a valid date, and `chrono_date_of` otherwise.
pub open spec fn chrono_date_result(t: Seq<char>) -> Option<(i32, u32, u32)> {
    match canonical_date(t) {
        Some(d) => Some((d.year, d.month, d.day)),
        None => chrono_date_of(t),
    }
}

/// The date of a date field: what chrono reads, when it is a date of years 1..=9999.
pub open spec fn field_date(t: Seq<char>) -> Option<Date> {
    match chrono_date_result(t) {
        Some((y, m, d)) => if (Date { year: y, month: m, day: d }).wf() {
            Some(Date { year: y, month: m, day: d })
        } else {
            None
        },
        None => None,
    }
}

/// Cents of a cost written as digits, optionally followed by a point and one
/// or two decimals; `None` when malformed or too large.
pub open spec fn parse_cost(t: Seq<char>) -> Option<u64> {
    let p = split_on(t, '.');
    if p.len() == 1 && p[0].len() > 0 && all_digits(p[0]) {
        let v = digits_value(p[0]) * 100;
        if v <= u64::MAX {
            Some(v as u64)
        } else {
            None
        }
    } else if p.len() == 2 && p[0].len() > 0 && all_digits(p[0]) && 1 <= p[1].len() <= 2
        && all_digits(p[1]) {
        let f = if p[1].len() == 1 {
            digits_value(p[1]) * 10
        } else {
            digits_value(p[1])
        };
        let v = digits_value(p[0]) * 100 + f;
        if v <= u64::MAX {
            Some(v as u64)
        } else {
            None
        }
    } else {
        None
    }
}

/// A line with exactly four comma-separated fields: name, date, cost, category.
pub open spec fn parse_record(line: Seq<char>) -> Option<EntryModel> {
    let f = split_on(line, ',');
    if f.len() == 4 && field_date(f[1]) is Some && parse_cost(f[2]) is Some && parses(f[3]) {
        Some(
            EntryModel {
                name: f[0],
                cost: parse_cost(f[2])->0,
                date: field_date(f[1])->0,
                category: stored_form(f[3]),
            },
        )
    } else {
        None
    }
}

/// All lines parsed, or `None` when one of them is malformed.
pub open spec fn parse_lines(ls: Seq<Seq<char>>) -> Option<Seq<EntryModel>>
    decreases ls.len(),
{
    if ls.len() == 0 {
        Some(Seq::empty())
    } else {
        match (parse_lines(ls.drop_last()), parse_record(ls.last())) {
            (Some(s), Some(e)) => Some(s.push(e)),
            _ => None,
        }
    }
}

pub open spec fn parse_text(text: Seq<char>) -> Option<Seq<EntryModel>> {
    parse_lines(lines(text))
}

/// A line of the input that is not a well-formed record (0-based).
#[derive(Clone, Copy, PartialEq, Eq, Structural, Debug)]
pub struct MalformedRecord {
    pub line: usize,
}

/// Relies on `str::split` with a `char` pattern: the pieces between
/// occurrences of the separator, in order, empty pieces included.
#[verifier::external_body]
fn split_text(s: &str, sep: char) -> (r: Vec<String>)
    ensures
        r@.map_values(|x: String| x@) == split_on(s@, sep),
{
    s.split(sep).map(|x| x.to_string()).collect()
}

fn digit_of(c: char) -> (r: Option<u64>)
    ensures
        r is Some <==> digit_value(c) is Some,
        r matches Some(v) ==> v == digit_value(c)->0,
{
    if c == '0' {
        Some(0)
    } else if c == '1' {
        Some(1)
    } else if c == '2' {
        Some(2)
    } else if c == '3' {
        Some(3)
    } else if c == '4' {
        Some(4)
    } else if c == '5' {
        Some(5)
    } else if c == '6' {
        Some(6)
    } else if c == '7' {
        Some(7)
    } else if c == '8' {
        Some(8)
    } else if c == '9' {
        Some(9)
    } else {
        None
    }
}

proof fn lemma_digits_grow(t: Seq<char>, i: int)
    requires
        0 <= i <= t.len(),
    ensures
        digits_value(t.take(i)) <= digits_value(t),
    decreases t.len() - i,
{
    if i < t.len() {
        lemma_digits_grow(t, i + 1);
        assert(t.take(i + 1).drop_last() =~= t.take(i));
    } else {
        assert(t.take(i) =~= t);
    }
}

/// The value of a non-empty string of digits that fits in a `u64`.
fn parse_digits(t: &str) -> (r: Option<u64>)
    ensures
        r is Some <==> t@.len() > 0 && all_digits(t@) && digits_value(t@) <= u64::MAX,
        r matches Some(v) ==> v == digits_value(t@),
{
    let n = t.unicode_len();
    if n == 0 {
        return None;
    }
    let mut acc: u64 = 0;
    let mut i: usize = 0;
    while i < n
        invariant
            n == t@.len(),
            i <= n,
            all_digits(t@.take(i as int)),
            acc == digits_value(t@.take(i as int)),
        decreases n - i,
    {
        let c = t.get_char(i);
        assert(t@.take(i + 1).drop_last() =~= t@.take(i as int));
        assert(t@.take(i + 1).last() == c);
        match digit_of(c) {
            None => {
                assert(!all_digits(t@));
                return None;
            },
            Some(d) => {
                if acc > (u64::MAX - d) / 10 {
                    proof {
                        lemma_digits_grow(t@, i + 1);
                    }
                    return None;
                }
                acc = acc * 10 + d;
            },
        }
        i += 1;
        assert(all_digits(t@.take(i as int)));
    }
    assert(t@.take(n as int) =~= t@);
    Some(acc)
}


pub open spec fn pow10(n: nat) -> nat
    decreases n,
{
    if n == 0 {
        1
    } else {
        10 * pow10((n - 1) as nat)
    }
}

proof fn lemma_digits_below(t: Seq<char>)
    ensures
        digits_value(t) < pow10(t.len()),
    decreases t.len(),
{
    if t.len() > 0 {
        lemma_digits_below(t.drop_last());
    }
}

proof fn lemma_split_nonempty(s: Seq<char>, sep: char)
    ensures
        split_on(s, sep).len() >= 1,
    decreases s.len(),
{
    if s.len() > 0 {
        lemma_split_nonempty(s.drop_last(), sep);
    }
}

proof fn lemma_parse_lines_each(ls: Seq<Seq<char>>)
    requires
        parse_lines(ls) is Some,
    ensures
        forall|l: int| 0 <= l < ls.len() ==> (#[trigger] parse_record(ls[l])) is Some,
    decreases ls.len(),
{
    if ls.len() > 0 {
        lemma_parse_lines_each(ls.drop_last());
        assert forall|l: int| 0 <= l < ls.len() implies (#[trigger] parse_record(ls[l])) is Some by {
            if l < ls.len() - 1 {
                assert(ls.drop_last()[l] == ls[l]);
            }
        }
    }
}

/// Relies on chrono's `NaiveDate::parse_from_str` with format `%Y-%m-%d`
/// (month and day may have one or two digits): the canonical text
/// `YYYY-MM-DD` of a valid date reads as that date.
#[verifier::external_body]
fn chrono_parse_date(t: &str) -> (r: Option<(i32, u32, u32)>)
    ensures
        r == chrono_date_result(t@),
        canonical_date(t@) is None ==> r == chrono_date_of(t@),
{
    chrono::NaiveDate::parse_from_str(t, "%Y-%m-%d").ok().map(|d| (d.year(), d.month(), d.day()))
}

fn parse_date_field(t: &str) -> (r: Option<Date>)
    ensures
        r == field_date(t@),
{
    match chrono_parse_date(t) {
        Some((y, m, d)) => Date::new(y, m, d),
        None => None,
    }
}

fn parse_cost_field(t: &str) -> (r: Option<u64>)
    ensures
        r == parse_cost(t@),
{
    let parts = split_text(t, '.');
    let ghost p = split_on(t@, '.');
    assert(parts@.len() == p.len());
    if parts.len() == 1 {
        assert(parts@[0]@ == p[0]);
        match parse_digits(parts[0].as_str()) {
            Some(v) => if v <= u64::MAX / 100 {
                Some(v * 100)
            } else {
                None
            },
            None => None,
        }
    } else if parts.len() == 2 {
        assert(parts@[0]@ == p[0]);
        assert(parts@[1]@ == p[1]);
        let flen = parts[1].as_str().unicode_len();
        if flen < 1 || flen > 2 {
            return None;
        }
        proof {
            lemma_digits_below(p[1]);
            reveal_with_fuel(pow10, 3);
            assert(pow10(2) == 100);
            assert(pow10(1) == 10);
        }
        match (parse_digits(parts[0].as_str()), parse_digits(parts[1].as_str())) {
            (Some(v), Some(f0)) => {
                let f = if flen == 1 {
                    f0 * 10
                } else {
                    f0
                };
                if v <= (u64::MAX - f) / 100 {
                    Some(v * 100 + f)
                } else {
                    None
                }
            },
            _ => None,
        }
    } else {
        None
    }
}

/// Parses one line of the file format.
pub fn parse_record_line(line: &str) -> (r: Option<Entry>)
    ensures
        r matches Some(e) ==> parse_record(line@) == Some(e@) && e.date.wf(),
        r is None ==> parse_record(line@) is None,
{
    let fields = split_text(line, ',');
    let ghost f = split_on(line@, ',');
    assert(fields@.len() == f.len());
    if fields.len() != 4 {
        return None;
    }
    assert(fields@[0]@ == f[0]);
    assert(fields@[1]@ == f[1]);
    assert(fields@[2]@ == f[2]);
    assert(fields@[3]@ == f[3]);
    let date = match parse_date_field(fields[1].as_str()) {
        Some(d) => d,
        None => return None,
    };
    let cost = match parse_cost_field(fields[2].as_str()) {
        Some(c) => c,
        None => return None,
    };
    let category = match CategoryName::from_str(fields[3].as_str()) {
        Ok(c) => c,
        Err(_) => return None,
    };
    let e = Entry {
        name: fields[0].clone(),
        cost: crate::entry::Cost::from_cents(cost),
        date,
        category,
    };
    Some(e)
}

/// Parses a whole file. A malformed line aborts the parse and is reported.
pub fn read_entries_from_str(text: &str) -> (r: Result<Vec<Entry>, MalformedRecord>)
    ensures
        r is Ok <==> parse_text(text@) is Some,
        r matches Ok(v) ==> parse_text(text@) == Some(v@.map_values(|e: Entry| e@)) && forall|i: int|
            0 <= i < v@.len() ==> (#[trigger] v@[i]).date.wf(),
        r matches Err(e) ==> e.line < lines(text@).len() && parse_record(lines(text@)[e.line as int])
            is None && forall|l: int| 0 <= l < e.line ==> parse_record(lines(text@)[l]) is Some,
{
    let parts = split_text(text, '\n');
    let ghost p = split_on(text@, '\n');
    let ghost ls = lines(text@);
    proof {
        lemma_split_nonempty(text@, '\n');
    }
    assert(parts@.len() == p.len());
    let mut nl = parts.len();
    assert(parts@[nl - 1]@ == p.last());
    if parts[nl - 1].as_str().unicode_len() == 0 {
        nl = nl - 1;
    }
    assert(ls.len() == nl);
    assert(forall|t: int| 0 <= t < nl ==> parts@[t]@ == #[trigger] ls[t]);
    let mut out: Vec<Entry> = Vec::new();
    let mut i: usize = 0;
    while i < nl
        invariant
            ls == lines(text@),
            nl == ls.len(),
            nl <= parts@.len(),
            forall|t: int| 0 <= t < nl ==> parts@[t]@ == #[trigger] ls[t],
            i <= nl,
            parse_lines(ls.take(i as int)) == Some(out@.map_values(|e: Entry| e@)),
            forall|t: int| 0 <= t < out@.len() ==> (#[trigger] out@[t]).date.wf(),
            forall|l: int| 0 <= l < i ==> parse_record(ls[l]) is Some,
        decreases nl - i,
    {
        assert(ls.take(i + 1).drop_last() =~= ls.take(i as int));
        assert(ls.take(i + 1).last() == ls[i as int]);
        assert(parts@[i as int]@ == ls[i as int]);
        assert(parse_text(text@) == parse_lines(ls));
        match parse_record_line(parts[i].as_str()) {
            Some(e) => {
                let ghost prev = out@;
                out.push(e);
                assert(out@.map_values(|e: Entry| e@) =~= prev.map_values(|e: Entry| e@).push(e@));
            },
            None => {
                proof {
                    if parse_text(text@) is Some {
                        lemma_parse_lines_each(ls);
                        assert(parse_record(ls[i as int]) is Some);
                    }
                }
                return Err(MalformedRecord { line: i });
            },
        }
        i += 1;
    }
    assert(ls.take(nl as int) =~= ls);
    Ok(out)
}


proof fn lemma_digit_char(d: int)
    requires
        0 <= d < 10,
    ensures
        digit_value(digit_char(d)) == Some(d),
        digit_char(d) != ',' && digit_char(d) != '.' && digit_char(d) != '-' && digit_char(d) != '\n',
{
}

/// Written digits are digits, and read back as the number.
proof fn lemma_padded(n: nat, w: nat)
    requires
        n < pow10(w),
    ensures
        padded(n, w).len() == w,
        all_digits(padded(n, w)),
        digits_value(padded(n, w)) == n,
        forall|i: int| 0 <= i < w ==> (#[trigger] padded(n, w)[i]) != ',' && padded(n, w)[i] != '.'
            && padded(n, w)[i] != '\n',
    decreases w,
{
    if w > 0 {
        let p = pow10((w - 1) as nat);
        assert(n / 10 < p) by (nonlinear_arith)
            requires
                n < 10 * p,
        ;
        lemma_padded(n / 10, (w - 1) as nat);
        lemma_digit_char((n % 10) as int);
        let t = padded(n, w);
        assert(t.drop_last() =~= padded(n / 10, (w - 1) as nat));
        assert forall|i: int| 0 <= i < t.len() implies (#[trigger] digit_value(t[i])) is Some by {
            if i < t.len() - 1 {
                assert(t[i] == padded(n / 10, (w - 1) as nat)[i]);
            }
        }
    } else {
        assert(n == 0);
    }
}

proof fn lemma_nat_text(n: nat)
    ensures
        nat_text(n).len() > 0,
        all_digits(nat_text(n)),
        digits_value(nat_text(n)) == n,
        forall|i: int| 0 <= i < nat_text(n).len() ==> (#[trigger] nat_text(n)[i]) != ',' && nat_text(
            n,
        )[i] != '.' && nat_text(n)[i] != '\n',
    decreases n,
{
    lemma_digit_char((n % 10) as int);
    if n >= 10 {
        lemma_nat_text(n / 10);
        let t = nat_text(n);
        assert(t.drop_last() =~= nat_text(n / 10));
        assert(t.last() == digit_char((n % 10) as int));
        assert(digits_value(t) == (n / 10) * 10 + n % 10);
        assert forall|i: int| 0 <= i < t.len() implies (#[trigger] digit_value(t[i])) is Some by {
            if i < t.len() - 1 {
                assert(t[i] == nat_text(n / 10)[i]);
            }
        }
    } else {
        assert(nat_text(n) =~= seq![digit_char(n as int)]);
        assert(nat_text(n).drop_last() =~= Seq::<char>::empty());
        assert(nat_text(n).last() == digit_char(n as int));
        assert(n % 10 == n);
        lemma_digit_char(n as int);
        assert(digits_value(Seq::<char>::empty()) == 0);
    }
}

/// Appending text without separators extends the last piece.
proof fn lemma_split_plain(p: Seq<char>, q: Seq<char>, sep: char)
    requires
        !has_char(q, sep),
    ensures
        split_on(p + q, sep) == split_on(p, sep).update(
            split_on(p, sep).len() - 1,
            split_on(p, sep).last() + q,
        ),
    decreases q.len(),
{
    lemma_split_nonempty(p, sep);
    if q.len() == 0 {
        assert(p + q =~= p);
        assert(split_on(p, sep).last() + q =~= split_on(p, sep).last());
        assert(split_on(p, sep).update(split_on(p, sep).len() - 1, split_on(p, sep).last())
            =~= split_on(p, sep));
    } else {
        let q1 = q.drop_last();
        assert(!has_char(q1, sep)) by {
            if has_char(q1, sep) {
                let i = choose|i: int| 0 <= i < q1.len() && q1[i] == sep;
                assert(q[i] == sep);
            }
        }
        lemma_split_plain(p, q1, sep);
        assert((p + q).drop_last() =~= p + q1);
        assert((p + q).last() == q.last());
        assert(q.last() != sep);
        lemma_split_nonempty(p + q1, sep);
        assert(split_on(p + q, sep) =~= split_on(p, sep).update(
            split_on(p, sep).len() - 1,
            split_on(p, sep).last() + q,
        )) by {
            assert(split_on(p, sep).last() + q =~= (split_on(p, sep).last() + q1).push(q.last()));
        }
    }
}

proof fn lemma_split_sep(p: Seq<char>, sep: char)
    ensures
        split_on(p + seq![sep], sep) == split_on(p, sep).push(Seq::empty()),
{
    assert((p + seq![sep]).drop_last() =~= p);
}

proof fn lemma_split_plain_alone(q: Seq<char>, sep: char)
    requires
        !has_char(q, sep),
    ensures
        split_on(q, sep) == seq![q],
{
    lemma_split_plain(Seq::empty(), q, sep);
    assert(Seq::<char>::empty() + q =~= q);
    assert(split_on(Seq::<char>::empty(), sep).update(0, Seq::<char>::empty() + q) =~= seq![q]);
}

proof fn lemma_no_char_from_index(t: Seq<char>, c: char)
    requires
        forall|i: int| 0 <= i < t.len() ==> t[i] != c,
    ensures
        !has_char(t, c),
{
}

proof fn lemma_date_round_trip(d: Date)
    requires
        d.wf(),
    ensures
        canonical_date(date_text(d)) == Some(d),
        !has_char(date_text(d), ','),
        !has_char(date_text(d), '\n'),
{
    reveal_with_fuel(pow10, 5);
    lemma_padded(d.year as nat, 4);
    lemma_padded(d.month as nat, 2);
    lemma_padded(d.day as nat, 2);
    let t = date_text(d);
    let y = padded(d.year as nat, 4);
    let m = padded(d.month as nat, 2);
    let dd = padded(d.day as nat, 2);
    assert(t.subrange(0, 4) =~= y);
    assert(t.subrange(5, 7) =~= m);
    assert(t.subrange(8, 10) =~= dd);
    assert(t[4] == '-');
    assert(t[7] == '-');
    assert forall|i: int| 0 <= i < t.len() implies t[i] != ',' && t[i] != '\n' by {
        if i < 4 {
            assert(t[i] == y[i]);
        } else if 4 < i < 7 {
            assert(t[i] == m[i - 5]);
        } else if 7 < i {
            assert(t[i] == dd[i - 8]);
        }
    }
}

proof fn lemma_cost_round_trip(c: u64)
    ensures
        parse_cost(cost_text(c)) == Some(c),
        !has_char(cost_text(c), ','),
        !has_char(cost_text(c), '\n'),
{
    reveal_with_fuel(pow10, 3);
    let q = (c / 100) as nat;
    let r = (c % 100) as nat;
    lemma_nat_text(q);
    lemma_padded(r, 2);
    let a = nat_text(q);
    let b = padded(r, 2);
    lemma_no_char_from_index(a, '.');
    lemma_no_char_from_index(b, '.');
    lemma_split_plain_alone(a, '.');
    lemma_split_sep(a, '.');
    lemma_split_plain(a + seq!['.'], b, '.');
    assert(split_on(cost_text(c), '.') =~= seq![a, b]);
    let t = cost_text(c);
    assert forall|i: int| 0 <= i < t.len() implies t[i] != ',' && t[i] != '\n' by {
        if i < a.len() {
            assert(t[i] == a[i]);
        } else if i > a.len() {
            assert(t[i] == b[i - a.len() - 1]);
        }
    }
}

proof fn lemma_record_fields(e: EntryModel)
    requires
        !has_char(e.name, ','),
        !has_char(e.category, ','),
        !has_char(date_text(e.date), ','),
        !has_char(cost_text(e.cost), ','),
    ensures
        split_on(record_text(e), ',') == seq![e.name, date_text(e.date), cost_text(e.cost), e.category],
{
    let n = e.name;
    let d = date_text(e.date);
    let c = cost_text(e.cost);
    let k = e.category;
    let e0 = Seq::<char>::empty();
    let prefix1 = n + seq![','];
    let prefix2 = prefix1 + d;
    let prefix3 = prefix2 + seq![','];
    let prefix4 = prefix3 + c;
    let prefix5 = prefix4 + seq![','];
    lemma_split_plain_alone(n, ',');
    lemma_split_sep(n, ',');
    assert(split_on(prefix1, ',') =~= seq![n, e0]);
    lemma_split_plain(prefix1, d, ',');
    assert(e0 + d =~= d);
    assert(split_on(prefix2, ',') =~= seq![n, d]);
    lemma_split_sep(prefix2, ',');
    assert(split_on(prefix3, ',') =~= seq![n, d, e0]);
    lemma_split_plain(prefix3, c, ',');
    assert(e0 + c =~= c);
    assert(split_on(prefix4, ',') =~= seq![n, d, c]);
    lemma_split_sep(prefix4, ',');
    assert(split_on(prefix5, ',') =~= seq![n, d, c, e0]);
    lemma_split_plain(prefix5, k, ',');
    assert(e0 + k =~= k);
    assert(split_on(prefix5 + k, ',') =~= seq![n, d, c, k]);
    assert(record_text(e) == prefix5 + k);
}

/// Each record reads back as the entry it was written from.
proof fn lemma_record_round_trip(e: EntryModel)
    requires
        e.date.wf(),
        normal_name(e.category),
        !has_char(e.name, ','),
        !has_char(e.category, ','),
    ensures
        parse_record(record_text(e)) == Some(e),
{
    lemma_date_round_trip(e.date);
    lemma_cost_round_trip(e.cost);
    lemma_record_fields(e);
    let f = split_on(record_text(e), ',');
    assert(f[1] == date_text(e.date));
    assert(f[2] == cost_text(e.cost));
    assert(f[3] == e.category);
    assert(stored_form(f[3]) == e.category);
}

proof fn lemma_text_lines(s: Seq<EntryModel>)
    requires
        forall|i: int| 0 <= i < s.len() ==> !has_char(#[trigger] record_text(s[i]), '\n'),
    ensures
        split_on(csv_text(s), '\n') == s.map_values(|e: EntryModel| record_text(e)).push(
            Seq::empty(),
        ),
    decreases s.len(),
{
    if s.len() == 0 {
        assert(split_on(csv_text(s), '\n') =~= seq![Seq::<char>::empty()]);
        assert(s.map_values(|e: EntryModel| record_text(e)).push(Seq::empty()) =~= seq![
            Seq::<char>::empty(),
        ]);
    } else {
        let s1 = s.drop_last();
        assert forall|i: int| 0 <= i < s1.len() implies !has_char(
            #[trigger] record_text(s1[i]),
            '\n',
        ) by {
            assert(s1[i] == s[i]);
        }
        lemma_text_lines(s1);
        let x = csv_text(s1);
        let r = record_text(s.last());
        assert(!has_char(record_text(s[s.len() - 1]), '\n'));
        lemma_split_plain(x, r, '\n');
        lemma_split_sep(x + r, '\n');
        assert(csv_text(s) =~= x + r + seq!['\n']);
        assert(s.map_values(|e: EntryModel| record_text(e)) =~= s1.map_values(
            |e: EntryModel| record_text(e),
        ).push(r));
        assert(split_on(csv_text(s), '\n') =~= s.map_values(|e: EntryModel| record_text(e)).push(
            Seq::empty(),
        ));
    }
}

proof fn lemma_parse_records(s: Seq<EntryModel>)
    requires
        forall|i: int| 0 <= i < s.len() ==> parse_record(#[trigger] record_text(s[i])) == Some(s[i]),
    ensures
        parse_lines(s.map_values(|e: EntryModel| record_text(e))) == Some(s),
    decreases s.len(),
{
    if s.len() > 0 {
        let s1 = s.drop_last();
        assert forall|i: int| 0 <= i < s1.len() implies parse_record(#[trigger] record_text(s1[i]))
            == Some(s1[i]) by {
            assert(s1[i] == s[i]);
        }
        lemma_parse_records(s1);
        let ls = s.map_values(|e: EntryModel| record_text(e));
        assert(ls.drop_last() =~= s1.map_values(|e: EntryModel| record_text(e)));
        assert(ls.last() == record_text(s[s.len() - 1]));
        assert(s1.push(s.last()) =~= s);
    } else {
        assert(s.map_values(|e: EntryModel| record_text(e)) =~= Seq::<Seq<char>>::empty());
        assert(s =~= Seq::<EntryModel>::empty());
    }
}

/// Writing entries and reading the text back gives the same entries, when no
/// name or category holds a comma or a line break.
pub proof fn lemma_csv_round_trip(s: Seq<EntryModel>)
    requires
        forall|i: int|
            0 <= i < s.len() ==> {
                &&& (#[trigger] s[i]).date.wf()
                &&& normal_name(s[i].category)
                &&& !has_char(s[i].name, ',')
                &&& !has_char(s[i].name, '\n')
                &&& !has_char(s[i].category, ',')
                &&& !has_char(s[i].category, '\n')
            },
    ensures
        parse_text(csv_text(s)) == Some(s),
{
    assert forall|i: int| 0 <= i < s.len() implies !has_char(#[trigger] record_text(s[i]), '\n') by {
        let e = s[i];
        lemma_date_round_trip(e.date);
        lemma_cost_round_trip(e.cost);
        let t = record_text(e);
        let n = e.name;
        let d = date_text(e.date);
        let c = cost_text(e.cost);
        if has_char(t, '\n') {
            let j = choose|j: int| 0 <= j < t.len() && t[j] == '\n';
            if j < n.len() {
                assert(n[j] == '\n');
            } else if n.len() < j < n.len() + 1 + d.len() {
                assert(d[j - n.len() - 1] == '\n');
            } else if n.len() + 1 + d.len() < j < n.len() + 2 + d.len() + c.len() {
                assert(c[j - n.len() - 2 - d.len()] == '\n');
            } else if n.len() + 2 + d.len() + c.len() < j {
                assert(e.category[j - n.len() - 3 - d.len() - c.len()] == '\n');
            }
        }
    }
    assert forall|i: int| 0 <= i < s.len() implies parse_record(#[trigger] record_text(s[i])) == Some(
        s[i],
    ) by {
        lemma_record_round_trip(s[i]);
    }
    lemma_text_lines(s);
    lemma_parse_records(s);
    let ls = s.map_values(|e: EntryModel| record_text(e));
    assert(split_on(csv_text(s), '\n').drop_last() =~= ls);
}

} // verus!
