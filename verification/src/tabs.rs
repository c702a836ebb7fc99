//! Counting the tabs that the tab bar shows.
use vstd::prelude::*;
use crate::doc::sat_sub;

verus! {

/// How many tabs fit on screen when `view_count` views exist, the first
/// visible one is `tab_offset` (1-based) and at most `max_tabs` are shown.
pub open spec fn spec_visible_tabs(view_count: int, tab_offset: int, max_tabs: int) -> int {
    if view_count == 0 {
        0
    } else {
        let remaining = sat_sub(view_count, sat_sub(tab_offset, 1));
        let cap = if max_tabs >= 1 { max_tabs } else { 1 };
        if remaining <= cap { remaining } else { cap }
    }
}

/// Number of tabs visible in the tab bar.
pub fn visible_tabs(view_count: usize, tab_offset: usize, max_tabs: usize) -> (r: usize)
    ensures
        r == spec_visible_tabs(view_count as int, tab_offset as int, max_tabs as int),
{
    if view_count == 0 {
        return 0;
    }
    let remaining = view_count.saturating_sub(tab_offset.saturating_sub(1));
    let cap = if max_tabs >= 1 { max_tabs } else { 1 };
    if remaining <= cap { remaining } else { cap }
}

/// The tab bar never shows more than `max_tabs` tabs (at least one when
/// `max_tabs` is 0), nor more than the views from `tab_offset` on, and shows
/// as many as both allow; with no views it shows none.
pub proof fn lemma_visible_tabs_fit(view_count: usize, tab_offset: usize, max_tabs: usize)
    ensures
        ({
            let r = spec_visible_tabs(view_count as int, tab_offset as int, max_tabs as int);
            let cap: int = if max_tabs == 0 { 1 } else { max_tabs as int };
            let first: int = if tab_offset == 0 { 1 } else { tab_offset as int };
            let left: int = if view_count + 1 >= first { view_count + 1 - first } else { 0 };
            &&& view_count == 0 ==> r == 0
            &&& view_count > 0 ==> 0 <= r && r <= cap && r <= left && (r == cap || r == left)
        }),
{
}

} // verus!
