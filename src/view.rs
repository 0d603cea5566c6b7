//! Settings of the views that present the collection: which panels are open,
//! how the entry list is ordered, and the chart palette.
use vstd::prelude::*;

use crate::organize::{SortBy, SortOrder};

verus! {

/// Panel shown beside the chart.
#[derive(Clone, Copy, PartialEq, Eq, Structural, Debug, Hash)]
pub enum SidePanelSelection {
    Graph,
    Entries,
}

impl SidePanelSelection {
    /// Every panel, in menu order.
    pub fn all() -> (r: Vec<SidePanelSelection>)
        ensures
            r@ == seq![SidePanelSelection::Graph, SidePanelSelection::Entries],
    {
        let r = vec![SidePanelSelection::Graph, SidePanelSelection::Entries];
        assert(r@ =~= seq![SidePanelSelection::Graph, SidePanelSelection::Entries]);
        r
    }
}

/// Which windows are open.
#[derive(Clone, Copy, PartialEq, Eq, Structural, Debug)]
pub struct WindowState {
    pub entry_open: bool,
    pub spending_limits_open: bool,
    pub graph_settings_open: bool,
    pub category_editor_open: bool,
}

impl Default for WindowState {
    /// Only the category editor starts open.
    fn default() -> (r: Self)
        ensures
            !r.entry_open && !r.spending_limits_open && !r.graph_settings_open,
            r.category_editor_open,
    {
        WindowState {
            entry_open: false,
            spending_limits_open: false,
            graph_settings_open: false,
            category_editor_open: true,
        }
    }
}

/// Settings of the entry list view.
#[derive(Clone, Copy, PartialEq, Eq, Structural, Debug)]
pub struct Entries {
    pub sort_by: SortBy,
    pub sort_order: SortOrder,
    /// Whether entries may be deleted from the view.
    pub allow_deletion: bool,
}

impl Default for Entries {
    fn default() -> (r: Self)
        ensures
            r.sort_by == SortBy::Date,
            r.sort_order == SortOrder::Increasing,
            !r.allow_deletion,
    {
        Entries { sort_by: SortBy::Date, sort_order: SortOrder::Increasing, allow_deletion: false }
    }
}

impl Entries {
    /// Whether the view walks the stored (ascending) collection backwards;
    /// display positions then map to storage as `len - 1 - index`.
    pub fn is_reversed(&self) -> (r: bool)
        ensures
            r == (self.sort_order == SortOrder::Decreasing),
    {
        match self.sort_order {
            SortOrder::Decreasing => true,
            SortOrder::Increasing => false,
        }
    }
}

/// Colour palette of the chart.
#[derive(Clone, Copy, PartialEq, Eq, Structural, Debug, Hash)]
pub enum Theme {
    Sunset,
    Desert,
    Harlequin,
    Gentle,
}

impl Theme {
    /// Every palette, in menu order.
    pub fn all() -> (r: Vec<Theme>)
        ensures
            r@ == seq![Theme::Sunset, Theme::Desert, Theme::Harlequin, Theme::Gentle],
    {
        let r = vec![Theme::Sunset, Theme::Desert, Theme::Harlequin, Theme::Gentle];
        assert(r@ =~= seq![Theme::Sunset, Theme::Desert, Theme::Harlequin, Theme::Gentle]);
        r
    }

    /// The palette's twelve colours as (red, green, blue).
    pub fn colors(&self) -> (r: [(u8, u8, u8); 12]) {
        match self {
            Theme::Sunset => [
                (252, 94, 77),
                (252, 163, 17),
                (107, 78, 113),
                (50, 115, 220),
                (3, 37, 108),
                (233, 68, 172),
                (252, 190, 50),
                (64, 63, 151),
                (252, 118, 106),
                (242, 85, 96),
                (76, 40, 130),
                (254, 207, 101),
            ],
            Theme::Desert => [
                (254, 221, 170),
                (87, 115, 34),
                (194, 58, 22),
                (255, 104, 31),
                (55, 71, 79),
                (255, 228, 196),
                (255, 222, 173),
                (210, 180, 140),
                (218, 165, 32),
                (184, 134, 11),
                (244, 164, 96),
                (210, 105, 30),
            ],
            Theme::Harlequin => [
                (2, 132, 130),
                (255, 0, 0),
                (255, 165, 0),
                (255, 255, 0),
                (0, 128, 0),
                (0, 0, 255),
                (128, 0, 128),
                (255, 192, 203),
                (128, 128, 0),
                (0, 255, 255),
                (165, 42, 42),
                (255, 215, 0),
            ],
            Theme::Gentle => [
                (166, 206, 227),
                (31, 120, 180),
                (178, 223, 138),
                (51, 160, 44),
                (251, 154, 153),
                (227, 26, 28),
                (253, 191, 111),
                (255, 127, 0),
                (202, 178, 214),
                (106, 61, 154),
                (255, 255, 153),
                (177, 89, 40),
            ],
        }
    }
}

} // verus!
