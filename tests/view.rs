use pennypilot::organize::{SortBy, SortOrder};
use pennypilot::view::{Entries, SidePanelSelection, Theme, WindowState};

#[test]
fn view_defaults() {
    let w = WindowState::default();
    assert!(w.category_editor_open);
    assert!(!w.entry_open && !w.spending_limits_open && !w.graph_settings_open);
    let e = Entries::default();
    assert_eq!(e.sort_by, SortBy::Date);
    assert_eq!(e.sort_order, SortOrder::Increasing);
    assert!(!e.allow_deletion);
    assert!(!e.is_reversed());
    let r = Entries { sort_order: SortOrder::Decreasing, ..e };
    assert!(r.is_reversed());
}

#[test]
fn palettes() {
    assert_eq!(Theme::all().len(), 4);
    assert_eq!(Theme::Sunset.colors()[0], (252, 94, 77));
    assert_eq!(Theme::Gentle.colors()[11], (177, 89, 40));
    assert_eq!(SidePanelSelection::all(), vec![SidePanelSelection::Graph, SidePanelSelection::Entries]);
}
