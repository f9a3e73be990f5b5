//! Tab selection for the per-instrument trade view.

use vstd::prelude::*;

verus! {

/// Which watchlist tab is shown. The numeric keys are bound to positions
/// starting at `1`; a position beyond the watchlist is a no-op.
#[derive(Clone, Copy, PartialEq, Eq, Structural, Debug)]
pub enum SelectedTab {
    /// The first watchlist instrument.
    Tab1,
    /// The second watchlist instrument.
    Tab2,
}

impl SelectedTab {
    /// Zero-based position of the tab, as the tab strip highlights it.
    pub fn tab_index(self) -> (r: usize)
        ensures
            r == match self {
                SelectedTab::Tab1 => 0int,
                SelectedTab::Tab2 => 1int,
            },
    {
        match self {
            SelectedTab::Tab1 => 0,
            SelectedTab::Tab2 => 1,
        }
    }
}

impl Default for SelectedTab {
    /// The dashboard starts on the first tab.
    fn default() -> (r: Self)
        ensures
            r == SelectedTab::Tab1,
    {
        SelectedTab::Tab1
    }
}

/// The tab strip: remembers which tab is selected.
pub struct TkrTabs {
    /// The tab currently shown.
    pub selected_tab: SelectedTab,
}

impl TkrTabs {
    /// Selects tab `i`, counted from `1`; any other number leaves the
    /// selection as it is.
    pub fn select(&mut self, i: usize)
        ensures
            final(self).selected_tab == if i == 1 {
                SelectedTab::Tab1
            } else if i == 2 {
                SelectedTab::Tab2
            } else {
                old(self).selected_tab
            },
    {
        match i {
            1 => self.selected_tab = SelectedTab::Tab1,
            2 => self.selected_tab = SelectedTab::Tab2,
            _ => {},
        }
    }
}

impl Default for TkrTabs {
    /// A fresh tab strip shows the first tab.
    fn default() -> (r: Self)
        ensures
            r.selected_tab == SelectedTab::Tab1,
    {
        TkrTabs { selected_tab: SelectedTab::Tab1 }
    }
}

} // verus!
