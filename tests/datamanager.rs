use chrono::{Datelike, Duration, NaiveDate};
use pennypilot::category::{CategoryManager, CategoryName};
use pennypilot::datamanager::{create_unique_category_set, import_entry_vec, DataManager, IndexOutOfRange};
use pennypilot::date::Date;
use pennypilot::entry::{Cost, Entry};
use pennypilot::organize::{GroupBy, SortBy};
use rand::Rng;

// Category names may hold letters and white space only.
const CATEGORIES: [&str; 5] = ["testa", "testb", "testc", "testd", "teste"];

fn random_category() -> CategoryName {
    let mut rng = rand::thread_rng();
    let index = rng.gen_range(0..CATEGORIES.len());
    let name = CATEGORIES[index];
    CategoryName::from_str(name).unwrap()
}

/// Gives the backend a random list of (sorted) entries of a particular size.
fn fill_entries(size: usize, backend: &mut DataManager) {
    let mut rng = rand::thread_rng();
    let mut entries = Vec::with_capacity(size);

    for i in 0..size {
        let year = rng.gen_range(2000..=2023);
        let month = rng.gen_range(1..=12);
        let day = match month {
            2 => rng.gen_range(1..=28),
            4 | 6 | 9 | 11 => rng.gen_range(1..=30),
            _ => rng.gen_range(1..=31),
        };

        let date = Date::new(year, month, day).unwrap();

        entries.push(Entry {
            name: format!("entry{}", i),
            cost: Cost::try_from(rng.gen_range(100..=50000)).unwrap(),
            date,
            category: random_category(),
        });
    }

    backend.entries = entries;
    backend.sort_entries(SortBy::Date);
}

fn to_chrono(d: &Date) -> NaiveDate {
    NaiveDate::from_ymd_opt(d.year(), d.month(), d.day()).unwrap()
}

#[test]
fn test_cost_map() {
    let mut backend = DataManager::default();
    fill_entries(1_000_000, &mut backend);

    let (first, last) = backend.entries_date_extremes();
    let first_day = to_chrono(&first.unwrap().date);
    let last_day = to_chrono(&last.unwrap().date);

    let mut categories = Vec::new();
    for cat in CATEGORIES.iter() {
        categories.push(CategoryName::from_str(cat).unwrap());
    }
    let map = backend.cost_map(GroupBy::Day, categories.clone());

    // map should have a key for every category
    assert!(categories.iter().all(|category| map.contains_key(category)));

    // each category should correspond to a key for every day in the date range
    for category in categories.iter() {
        let dates_map = map.get(category).expect("Category not found in map");
        let mut date = first_day;
        while date <= last_day {
            let key = Date::new(date.year(), date.month(), date.day()).unwrap();
            assert!(
                dates_map.contains_key(&key),
                "Date {:?} not found for category {:?}",
                date,
                category
            );
            date += Duration::days(1);
        }
    }
}

fn entry(n: &str, y: i32, m: u32, d: u32, cents: i64, cat: &str) -> Entry {
    Entry {
        name: n.to_string(),
        cost: Cost::try_from(cents).unwrap(),
        date: Date::new(y, m, d).unwrap(),
        category: CategoryName::from_str(cat).unwrap(),
    }
}

fn name(s: &str) -> CategoryName {
    CategoryName::from_str(s).unwrap()
}

fn example() -> DataManager {
    let mut dm = DataManager::default();
    dm.add_entry(entry("Coffee", 2024, 3, 1, 450, "misc"));
    dm.add_entry(entry("Rent", 2024, 3, 1, 150000, "rent"));
    dm
}

#[test]
fn example_month_cost_map() {
    let dm = example();
    let map = dm.cost_map(GroupBy::Month, vec![name("misc"), name("rent")]);
    assert_eq!(map.names.len(), 2);
    assert_eq!(map.names[0].display(), "misc");
    assert_eq!(map.names[1].display(), "rent");
    let march = Date::new(2024, 3, 1).unwrap();
    let misc = map.get(&name("misc")).unwrap();
    assert_eq!(misc.dates, vec![march]);
    assert_eq!(misc.totals, vec![450]);
    let rent = map.get(&name("rent")).unwrap();
    assert_eq!(rent.dates, vec![march]);
    assert_eq!(rent.get(&march), Some(150000));
}

#[test]
fn example_monthly_cost() {
    let dm = example();
    let rent = name("rent");
    assert_eq!(dm.monthly_cost(&rent, &Date::new(2024, 3, 15).unwrap()), 150000);
    assert_eq!(dm.monthly_cost(&rent, &Date::new(2024, 4, 1).unwrap()), 0);
    assert_eq!(dm.monthly_cost(&rent, &Date::new(2023, 3, 1).unwrap()), 0);
}

#[test]
fn cost_map_empty_collection() {
    let dm = DataManager::default();
    let map = dm.cost_map(GroupBy::Day, vec![name("misc")]);
    assert!(map.names.is_empty());
    assert!(map.series.is_empty());
}

#[test]
fn cost_map_zero_fills_and_shares_buckets() {
    let mut dm = DataManager::default();
    dm.add_entry(entry("A", 2023, 11, 20, 100, "food"));
    dm.add_entry(entry("B", 2024, 2, 3, 250, "food"));
    dm.add_entry(entry("C", 2024, 1, 15, 999, "misc"));
    let map = dm.cost_map(GroupBy::Month, vec![name("rent"), name("food"), name("food")]);
    // requested names come out once each, in name order
    assert_eq!(map.names.len(), 2);
    assert_eq!(map.names[0].display(), "food");
    assert_eq!(map.names[1].display(), "rent");
    let months: Vec<Date> = vec![
        Date::new(2023, 11, 1).unwrap(),
        Date::new(2023, 12, 1).unwrap(),
        Date::new(2024, 1, 1).unwrap(),
        Date::new(2024, 2, 1).unwrap(),
    ];
    assert_eq!(map.series[0].dates, months);
    assert_eq!(map.series[1].dates, months);
    assert_eq!(map.series[0].totals, vec![100, 0, 0, 250]);
    assert_eq!(map.series[1].totals, vec![0, 0, 0, 0]);

    let years = dm.cost_map(GroupBy::Year, vec![name("misc")]);
    assert_eq!(
        years.series[0].dates,
        vec![Date::new(2023, 1, 1).unwrap(), Date::new(2024, 1, 1).unwrap()]
    );
    assert_eq!(years.series[0].totals, vec![0, 999]);
}

#[test]
fn cost_map_day_sums_conserve_totals() {
    let mut dm = DataManager::default();
    dm.add_entry(entry("A", 2024, 2, 27, 100, "food"));
    dm.add_entry(entry("B", 2024, 3, 2, 250, "food"));
    dm.add_entry(entry("C", 2024, 2, 29, 40, "food"));
    dm.add_entry(entry("D", 2024, 2, 29, 60, "food"));
    dm.add_entry(entry("E", 2024, 3, 1, 7, "misc"));
    let map = dm.cost_map(GroupBy::Day, vec![name("food"), name("misc")]);
    let food = map.get(&name("food")).unwrap();
    assert_eq!(food.dates.len(), 5); // Feb 27, 28, 29, Mar 1, 2
    assert_eq!(food.totals, vec![100, 0, 100, 0, 250]);
    assert_eq!(food.totals.iter().sum::<u128>(), 450);
    let misc = map.get(&name("misc")).unwrap();
    assert_eq!(misc.totals.iter().sum::<u128>(), 7);
}

#[test]
fn sort_by_cost_then_remove_first() {
    let mut dm = DataManager::default();
    dm.add_entry(entry("Late cheap", 2024, 5, 1, 100, "misc"));
    dm.add_entry(entry("Early dear", 2024, 1, 1, 900, "misc"));
    dm.add_entry(entry("Mid", 2024, 3, 1, 500, "misc"));
    assert!(!dm.sort_entries(SortBy::Date));
    assert_eq!(dm.entries[0].name, "Early dear");
    assert!(dm.sort_entries(SortBy::Cost));
    assert_eq!(dm.remove_entry_pos(0, false), Ok(()));
    let names: Vec<&str> = dm.entries.iter().map(|e| e.name.as_str()).collect();
    assert_eq!(names, vec!["Mid", "Early dear"]);
}

#[test]
fn sort_is_stable() {
    let mut dm = DataManager::default();
    dm.add_entry(entry("first", 2024, 1, 3, 500, "misc"));
    dm.add_entry(entry("second", 2024, 1, 1, 500, "misc"));
    dm.add_entry(entry("third", 2024, 1, 2, 500, "misc"));
    dm.sort_entries(SortBy::Cost);
    let names: Vec<&str> = dm.entries.iter().map(|e| e.name.as_str()).collect();
    assert_eq!(names, vec!["second", "third", "first"]);
}

#[test]
fn remove_reversed_and_out_of_range() {
    let mut dm = example();
    assert_eq!(
        dm.remove_entry_pos(2, false),
        Err(IndexOutOfRange { index: 2, len: 2 })
    );
    // reversed view: position 0 is the last stored entry (by date order, ties keep insertion)
    assert_eq!(dm.remove_entry_pos(0, true), Ok(()));
    assert_eq!(dm.entries.len(), 1);
    assert_eq!(dm.entries[0].name, "Coffee");
    let view = dm.get_entries_iter(true);
    assert_eq!(view.len(), 1);
}

#[test]
fn set_entries_requests_reset() {
    let mut dm = DataManager::default();
    assert!(!dm.plot_reset_next_frame);
    dm.set_entries(vec![entry("X", 2024, 1, 1, 1, "misc")]);
    assert!(dm.plot_reset_next_frame);
    assert_eq!(dm.entries.len(), 1);
}

#[test]
fn extremes_of_entries() {
    let mut dm = DataManager::default();
    assert!(dm.entries_date_extremes().0.is_none());
    dm.add_entry(entry("b", 2024, 6, 1, 1, "misc"));
    dm.add_entry(entry("a", 2021, 6, 1, 1, "misc"));
    dm.add_entry(entry("c", 2025, 1, 1, 1, "misc"));
    dm.sort_entries(SortBy::Cost);
    let (lo, hi) = dm.entries_date_extremes();
    assert_eq!(lo.unwrap().name, "a");
    assert_eq!(hi.unwrap().name, "c");
}

#[test]
fn cost_rejects_negative() {
    assert_eq!(Cost::try_from(-1), Err(-1));
    assert_eq!(Cost::try_from(0).unwrap().as_number(), 0);
}

#[test]
fn day_buckets_cross_year_end() {
    let mut dm = DataManager::default();
    dm.add_entry(entry("a", 2023, 12, 30, 5, "misc"));
    dm.add_entry(entry("b", 2024, 1, 2, 6, "misc"));
    let map = dm.cost_map(GroupBy::Day, vec![name("misc")]);
    let expected: Vec<Date> = vec![
        Date::new(2023, 12, 30).unwrap(),
        Date::new(2023, 12, 31).unwrap(),
        Date::new(2024, 1, 1).unwrap(),
        Date::new(2024, 1, 2).unwrap(),
    ];
    assert_eq!(map.series[0].dates, expected);
}

#[test]
fn write_target_follows_active_file() {
    let mut dm = DataManager::default();
    assert_eq!(dm.resolve_write_path(None), None);
    assert_eq!(
        dm.resolve_write_path(Some("a.csv".to_string())),
        Some("a.csv".to_string())
    );
    assert_eq!(dm.active_file, Some("a.csv".to_string()));
    assert_eq!(dm.resolve_write_path(None), Some("a.csv".to_string()));
    assert_eq!(
        dm.resolve_write_path(Some("b.csv".to_string())),
        Some("b.csv".to_string())
    );
    assert_eq!(dm.active_file, Some("b.csv".to_string()));
}

#[test]
fn import_registers_categories() {
    let entries = vec![
        entry("a", 2024, 1, 1, 1, "rent"),
        entry("b", 2024, 1, 2, 1, "Food"),
        entry("c", 2024, 1, 3, 1, "rent"),
    ];
    let unique: Vec<String> = create_unique_category_set(&entries).iter().map(|c| c.display()).collect();
    assert_eq!(unique, vec!["food", "rent"]);
    let mut dm = DataManager::default();
    let mut cm = CategoryManager::default();
    assert_eq!(cm.add("misc".to_string()), Ok(()));
    assert_eq!(import_entry_vec(&mut dm, &mut cm, entries), Ok(()));
    assert_eq!(dm.entries.len(), 3);
    assert!(dm.plot_reset_next_frame);
    let all: Vec<String> = cm.categories().iter().map(|c| c.display()).collect();
    assert_eq!(all, vec!["food", "misc", "rent"]);
}

#[test]
fn labels() {
    assert_eq!(GroupBy::Month.label(), "Month");
    assert_eq!(SortBy::Cost.label(), "Cost");
    assert_eq!(pennypilot::organize::SortOrder::Decreasing.label(), "Decreasing");
    assert_eq!(GroupBy::all(), vec![GroupBy::Day, GroupBy::Month, GroupBy::Year]);
}
