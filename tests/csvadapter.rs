use pennypilot::category::CategoryName;
use pennypilot::csvadapter::{entries_to_csv, parse_record_line, read_entries_from_str, MalformedRecord};
use pennypilot::date::Date;
use pennypilot::entry::{Cost, Entry};

fn entry(n: &str, y: i32, m: u32, d: u32, cents: i64, cat: &str) -> Entry {
    Entry {
        name: n.to_string(),
        cost: Cost::try_from(cents).unwrap(),
        date: Date::new(y, m, d).unwrap(),
        category: CategoryName::from_str(cat).unwrap(),
    }
}

#[test]
fn record_format() {
    let e = entry("Coffee", 2024, 3, 1, 450, "Misc");
    assert_eq!(e.to_csv_string(), "Coffee,2024-03-01,4.50,misc");
    let e = entry("Rent", 987, 12, 31, 150000, "rent");
    assert_eq!(e.to_csv_string(), "Rent,0987-12-31,1500.00,rent");
    let e = entry("Gum", 2024, 1, 9, 7, "misc");
    assert_eq!(e.to_csv_string(), "Gum,2024-01-09,0.07,misc");
}

#[test]
fn serialize_then_parse_round_trips() {
    let entries = vec![
        entry("Coffee", 2024, 3, 1, 450, "misc"),
        entry("Rent", 2024, 3, 1, 150000, "rent"),
        entry("", 2000, 2, 29, 0, "eating out"),
    ];
    let text = entries_to_csv(&entries);
    assert_eq!(
        text,
        "Coffee,2024-03-01,4.50,misc\nRent,2024-03-01,1500.00,rent\n,2000-02-29,0.00,eating out\n"
    );
    let back = read_entries_from_str(&text).unwrap();
    assert_eq!(back.len(), entries.len());
    for (a, b) in entries.iter().zip(back.iter()) {
        assert_eq!(a.name, b.name);
        assert_eq!(a.date, b.date);
        assert_eq!(a.cost, b.cost);
        assert_eq!(a.category.display(), b.category.display());
    }
}

#[test]
fn parse_accepts_float_style_costs() {
    let e = parse_record_line("Coffee,2024-03-01,4.5,Misc").unwrap();
    assert_eq!(e.cost.as_number(), 450);
    assert_eq!(e.category.display(), "misc");
    let e = parse_record_line("Rent,2024-03-01,1500,rent").unwrap();
    assert_eq!(e.cost.as_number(), 150000);
    let e = parse_record_line("Rent,2024-03-01,1500.0,rent").unwrap();
    assert_eq!(e.cost.as_number(), 150000);
    let e = parse_record_line("Rent,2024-3-1,1500.0, Rent ").unwrap();
    assert_eq!(e.date, Date::new(2024, 3, 1).unwrap());
    assert_eq!(e.category.display(), "rent");
}

#[test]
fn parse_rejects_malformed_lines() {
    for bad in [
        "Coffee,2024-03-01,4.50",
        "Coffee,2024-03-01,4.50,misc,extra",
        "Coffee,2024-02-30,4.50,misc",
        "Coffee,2024-03-01,-4.50,misc",
        "Coffee,2024-03-01,4.505,misc",
        "Coffee,2024-03-01,abc,misc",
        "Coffee,2024-03-01,4.50,m1sc",
        "Coffee,2024-13-01,4.50,misc",
        "Coffee,10000-01-01,4.50,misc",
        "Coffee,2024/03/01,4.50,misc",
        "",
    ] {
        assert!(parse_record_line(bad).is_none(), "accepted {bad:?}");
    }
}

#[test]
fn parse_fails_fast_on_first_bad_line() {
    let text = "A,2024-03-01,1.00,misc\nB,2024-03-02,oops,misc\nC,2024-03-03,x,misc\n";
    assert_eq!(read_entries_from_str(text).unwrap_err(), MalformedRecord { line: 1 });
    assert_eq!(read_entries_from_str("").unwrap().len(), 0);
    assert_eq!(read_entries_from_str("A,2024-03-01,1.00,misc").unwrap().len(), 1);
    assert_eq!(read_entries_from_str("\n").unwrap_err(), MalformedRecord { line: 0 });
}

#[test]
fn describe_entry() {
    let e = entry("Coffee", 2024, 3, 1, 450, "misc");
    assert_eq!(e.describe(), "Entry(name: Coffee, cost: 4.50, date: 2024-03-01)");
}
