use chrono::Datelike;
use pennypilot::category::{CategoryError, CategoryManager, CategoryName, LimitResult};
use pennypilot::date::Date;
use pennypilot::entry::{Cost, Entry};

fn name(s: &str) -> CategoryName {
    CategoryName::from_str(s).unwrap()
}

fn entry(n: &str, y: i32, m: u32, d: u32, cents: i64, cat: &str) -> Entry {
    Entry {
        name: n.to_string(),
        cost: Cost::try_from(cents).unwrap(),
        date: Date::new(y, m, d).unwrap(),
        category: name(cat),
    }
}

#[test]
fn add() {
    let mut manager = CategoryManager::default();

    assert_eq!(
        manager.add("".to_string()),
        Err(CategoryError::Invalid("".to_string()))
    );
    assert_eq!(
        manager.add(" ".to_string()),
        Err(CategoryError::Invalid(" ".to_string()))
    );

    assert_eq!(
        manager.add("_abcde!.eg/".to_string()),
        Err(CategoryError::Invalid("_abcde!.eg/".to_string()))
    );

    assert_eq!(manager.add("arsts".to_string()), Ok(()));
    assert_eq!(
        manager.add("ARSTS".to_string()),
        Err(CategoryError::Duplicate("arsts".to_string()))
    );
    assert_eq!(
        manager.add("ArsTS".to_string()),
        Err(CategoryError::Duplicate("arsts".to_string()))
    );

    assert_eq!(manager.add("validcategory".to_string()), Ok(()));
    assert_eq!(
        manager.add(" arsts ".to_string()),
        Err(CategoryError::Duplicate("arsts".to_string()))
    );
}

#[test]
fn parse_normalizes_case() {
    let a = name("Groceries");
    let b = name("GROCERIES");
    let c = name("groceries");
    assert_eq!(a.display(), "groceries");
    assert_eq!(a.display(), b.display());
    assert_eq!(b.display(), c.display());
}

#[test]
fn parse_trims_surrounding_whitespace() {
    assert_eq!(name(" rent ").display(), "rent");
    assert_eq!(name("\t RENT\n").display(), name("rent").display());
    assert_eq!(name("  eating  out ").display(), "eating  out");
}

#[test]
fn parse_rejects_bad_names() {
    for bad in ["", "   ", "\t\n", "rent2", "food!", "a-b", "12", "misc."] {
        assert_eq!(
            CategoryName::from_str(bad),
            Err(CategoryError::Invalid(bad.to_string()))
        );
    }
    assert!(CategoryName::from_str("eating out").is_ok());
}

#[test]
fn register_case_variant_is_duplicate() {
    let mut manager = CategoryManager::default();
    assert_eq!(manager.add("Travel".to_string()), Ok(()));
    assert_eq!(
        manager.add("tRAVEL".to_string()),
        Err(CategoryError::Duplicate("travel".to_string()))
    );
    let all = manager.categories();
    assert_eq!(all.len(), 1);
    assert_eq!(all[0].display(), "travel");
    assert_eq!(
        manager.add("  Travel ".to_string()),
        Err(CategoryError::Duplicate("travel".to_string()))
    );
    assert_eq!(manager.categories().len(), 1);
}

#[test]
fn categories_are_in_name_order() {
    let mut manager = CategoryManager::default();
    for n in ["rent", "misc", "food", "travel"] {
        assert_eq!(manager.add(n.to_string()), Ok(()));
    }
    let shown: Vec<String> = manager.categories().iter().map(|c| c.display()).collect();
    assert_eq!(shown, vec!["food", "misc", "rent", "travel"]);
}

#[test]
fn append_categories_skips_duplicates() {
    let mut manager = CategoryManager::default();
    assert_eq!(manager.add("misc".to_string()), Ok(()));
    let r = manager.append_categories(vec![name("rent"), name("MISC"), name("rent"), name("food")]);
    assert_eq!(r, Ok(()));
    let shown: Vec<String> = manager.categories().iter().map(|c| c.display()).collect();
    assert_eq!(shown, vec!["food", "misc", "rent"]);
}

#[test]
fn selected_and_toggle() {
    let mut manager = CategoryManager::default();
    for n in ["rent", "misc", "food"] {
        assert_eq!(manager.add(n.to_string()), Ok(()));
    }
    manager.toggle_displayed(&name("misc"), false);
    let shown: Vec<String> = manager.selected_categories().iter().map(|c| c.display()).collect();
    assert_eq!(shown, vec!["food", "rent"]);
    manager.set_all_displayed(false);
    assert!(manager.selected_categories().is_empty());
    manager.set_all_displayed(true);
    assert_eq!(manager.selected_categories().len(), 3);
}

#[test]
fn delete_removes_category() {
    let mut manager = CategoryManager::default();
    assert_eq!(manager.add("rent".to_string()), Ok(()));
    assert!(manager.delete(&name("rent")));
    assert!(!manager.delete(&name("rent")));
    assert!(manager.categories().is_empty());
}

#[test]
fn set_limit_zero_means_none() {
    let mut manager = CategoryManager::default();
    assert_eq!(manager.add("rent".to_string()), Ok(()));
    manager.set_limit(&name("rent"), Some(150000));
    assert_eq!(manager.info(&name("rent")).unwrap().limit, Some(150000));
    manager.set_limit(&name("rent"), Some(0));
    assert_eq!(manager.info(&name("rent")).unwrap().limit, None);
    manager.set_limit(&name("rent"), Some(-5));
    assert_eq!(manager.info(&name("rent")).unwrap().limit, None);
    manager.set_limit(&name("rent"), None);
    assert_eq!(manager.info(&name("rent")).unwrap().limit, None);
    assert!(manager.info(&name("rent")).unwrap().displayed);
}

#[test]
fn check_limit_outcomes() {
    let mut manager = CategoryManager::default();
    assert_eq!(manager.add("rent".to_string()), Ok(()));
    assert_eq!(manager.add("misc".to_string()), Ok(()));
    manager.set_limit(&name("rent"), Some(100000));
    let today = Date::new(2024, 3, 20).unwrap();
    let march = entry("Rent", 2024, 3, 1, 150000, "rent");
    let feb = entry("Rent", 2024, 2, 1, 150000, "rent");
    let coffee = entry("Coffee", 2024, 3, 1, 450, "misc");
    assert_eq!(manager.check_limit(&march, 150000, &today), LimitResult::Exceeded);
    assert_eq!(manager.check_limit(&march, 100000, &today), LimitResult::Exceeded);
    assert_eq!(manager.check_limit(&march, 99999, &today), LimitResult::UnderLimit);
    assert_eq!(manager.check_limit(&feb, 150000, &today), LimitResult::NotCurrentMonth);
    assert_eq!(manager.check_limit(&coffee, 450, &today), LimitResult::NoLimitSet);
    let unknown = entry("Gift", 2024, 3, 1, 100, "gifts");
    assert_eq!(manager.check_limit(&unknown, 100, &today), LimitResult::NoLimitSet);
}

#[test]
fn check_limit_against_clock() {
    let mut manager = CategoryManager::default();
    assert_eq!(manager.add("rent".to_string()), Ok(()));
    manager.set_limit(&name("rent"), Some(1000));
    let now = chrono::Local::now();
    let this_month = entry("Rent", now.year(), now.month(), 1, 2000, "rent");
    assert_eq!(manager.check_limit_today(&this_month, 2000), LimitResult::Exceeded);
    assert_eq!(manager.check_limit_today(&this_month, 999), LimitResult::UnderLimit);
    let old = entry("Rent", 1999, 1, 1, 2000, "rent");
    assert_eq!(manager.check_limit_today(&old, 2000), LimitResult::NotCurrentMonth);
    let other = entry("Gift", now.year(), now.month(), 1, 2000, "gifts");
    assert_eq!(manager.check_limit_today(&other, 2000), LimitResult::NoLimitSet);
    assert_eq!(manager.add("misc".to_string()), Ok(()));
    let misc = entry("Gum", now.year(), now.month(), 1, 2000, "misc");
    assert_eq!(manager.check_limit_today(&misc, 2000), LimitResult::NoLimitSet);
}

#[test]
fn error_messages() {
    assert_eq!(
        CategoryError::Duplicate("rent".to_string()).message(),
        "Category already exists: rent"
    );
    assert_eq!(
        CategoryError::Invalid("r3nt".to_string()).message(),
        "Invalid category name: r3nt"
    );
}
