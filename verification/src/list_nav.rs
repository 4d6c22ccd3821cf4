//! Moving the selection of a picker list: Up and Down wrap around, a click picks a row that exists, and the
//! list scrolls just enough to keep the selection in view.

use vstd::prelude::*;

verus! {

pub open spec fn spec_select_next(selected: usize, count: usize) -> usize {
    if count == 0 {
        selected
    } else if selected + 1 == count {
        0
    } else {
        (selected + 1) as usize
    }
}

/// Down: the next row, wrapping from the last to the first; nothing changes in an empty list.
pub fn select_next(selected: usize, count: usize) -> (r: usize)
    requires
        count == 0 || selected < usize::MAX,
    ensures
        r == spec_select_next(selected, count),
        selected + 1 < count ==> r == selected + 1,
        selected + 1 == count ==> r == 0,
{
    if count > 0 {
        if selected + 1 == count {
            0
        } else {
            selected + 1
        }
    } else {
        selected
    }
}

pub open spec fn spec_select_previous(selected: usize, count: usize) -> usize {
    if count == 0 {
        selected
    } else if selected == 0 {
        (count - 1) as usize
    } else {
        (selected - 1) as usize
    }
}

/// Up: the previous row, wrapping from the first to the last; nothing changes in an empty list.
pub fn select_previous(selected: usize, count: usize) -> (r: usize)
    ensures
        r == spec_select_previous(selected, count),
        0 < selected < count ==> r == selected - 1,
        selected == 0 && count > 0 ==> r == count - 1,
{
    if count > 0 {
        if selected == 0 {
            count - 1
        } else {
            selected - 1
        }
    } else {
        selected
    }
}

/// A click on `row`: selected when the list has it.
pub fn select_row(selected: usize, row: usize, count: usize) -> (r: usize)
    ensures
        r == (if row < count {
            row
        } else {
            selected
        }),
{
    if row < count {
        row
    } else {
        selected
    }
}

/// The selection after the list changed to `count` rows: kept, but no further than the last row.
pub fn clamp_selection(selected: usize, count: usize) -> (r: usize)
    ensures
        r == (if count == 0 {
            0
        } else if selected < count {
            selected
        } else {
            (count - 1) as usize
        }),
{
    let last = if count == 0 {
        0
    } else {
        count - 1
    };
    if selected < last {
        selected
    } else {
        last
    }
}

pub open spec fn spec_scroll_to_selected(selected: usize, top: usize, visible: usize, count: usize) -> usize {
    let moved = if selected < top {
        selected as int
    } else if selected >= top + visible {
        selected + 1 - visible
    } else {
        top as int
    };
    let max_top = if count >= visible {
        count - visible
    } else {
        0
    };
    if moved < max_top {
        moved as usize
    } else {
        max_top as usize
    }
}

/// The first visible row after scrolling just enough to show `selected`, `visible` rows at a time, and no
/// further than the last page.
pub fn scroll_to_selected(selected: usize, top: usize, visible: usize, count: usize) -> (r: usize)
    requires
        top + visible <= usize::MAX,
        selected < usize::MAX,
    ensures
        r == spec_scroll_to_selected(selected, top, visible, count),
{
    let moved = if selected < top {
        selected
    } else if selected >= top + visible {
        selected + 1 - visible
    } else {
        top
    };
    let max_top = if count >= visible {
        count - visible
    } else {
        0
    };
    if moved < max_top {
        moved
    } else {
        max_top
    }
}

/// Down then Up, or Up then Down, comes back to the same row.
pub proof fn lemma_up_down_undo(selected: usize, count: usize)
    requires
        selected < count,
    ensures
        spec_select_previous(spec_select_next(selected, count), count) == selected,
        spec_select_next(spec_select_previous(selected, count), count) == selected,
{
}

/// Down moves one row on and wraps only from the last row to the first; Up moves one row back and wraps
/// only from the first row to the last.
pub proof fn lemma_steps_move_by_one(selected: usize, count: usize)
    requires
        selected < count,
    ensures
        selected + 1 < count ==> spec_select_next(selected, count) == selected + 1,
        selected + 1 == count ==> spec_select_next(selected, count) == 0,
        selected > 0 ==> spec_select_previous(selected, count) == selected - 1,
        selected == 0 ==> spec_select_previous(selected, count) == count - 1,
{
}

/// Up and Down keep a selection inside a non-empty list.
pub proof fn lemma_selection_stays_in_list(selected: usize, count: usize)
    requires
        selected < count,
    ensures
        spec_select_next(selected, count) < count,
        spec_select_previous(selected, count) < count,
{
}

/// After scrolling to it, the selection is on screen and the list does not scroll past its last page.
pub proof fn lemma_scroll_shows_selection(selected: usize, top: usize, visible: usize, count: usize)
    requires
        selected < count,
        0 < visible,
        top + visible <= usize::MAX,
    ensures
        ({
            let r = spec_scroll_to_selected(selected, top, visible, count);
            &&& r <= selected < r + visible
            &&& r + visible <= count || r == 0
        }),
{
}

} // verus!
