//! Moving between a file's changes: the line the caret jumps to for the next or previous change, wrapping
//! around the file, and the changes the selections touch, which staging and restoring act on.

use vstd::prelude::*;
use std::ops::Range;
use crate::palette_order::{sort_indices, sorted_permutation, strict_total_on};
use crate::split_diff::DiffHunk;

verus! {

/// The first hunk from index `i` on that starts below `row`.
pub open spec fn first_starting_below(hunks: Seq<DiffHunk>, row: usize, i: nat) -> Option<int>
    decreases hunks.len() - i,
{
    if i >= hunks.len() {
        None
    } else if hunks[i as int].rows.start > row {
        Some(i as int)
    } else {
        first_starting_below(hunks, row, i + 1)
    }
}

/// The first hunk from index `i` on that ends above `row`.
pub open spec fn first_ending_above(hunks: Seq<DiffHunk>, row: usize, i: nat) -> Option<int>
    decreases hunks.len() - i,
{
    if i >= hunks.len() {
        None
    } else if hunks[i as int].rows.end < row {
        Some(i as int)
    } else {
        first_ending_above(hunks, row, i + 1)
    }
}

/// The last of the first `n` hunks whose end lies before the caret `head`; `ends[i]` is where hunk `i`'s
/// end line starts, in chars.
pub open spec fn last_ending_before(ends: Seq<usize>, head: usize, n: nat) -> Option<int>
    decreases n,
{
    if n == 0 {
        None
    } else if ends[n - 1] < head {
        Some(n - 1)
    } else {
        last_ending_before(ends, head, (n - 1) as nat)
    }
}

/// The hunk the caret goes to: forward, the first starting below the caret's row, else (wrapping) the
/// first ending above it; backward, the last ending before the caret, else (wrapping) the last one.
pub open spec fn hunk_to_visit(hunks: Seq<DiffHunk>, row: usize, head: usize, ends: Seq<usize>, next: bool) -> Option<int> {
    if next {
        match first_starting_below(hunks, row, 0) {
            Some(i) => Some(i),
            None => first_ending_above(hunks, row, 0),
        }
    } else {
        match last_ending_before(ends, head, hunks.len()) {
            Some(i) => Some(i),
            None => if hunks.len() > 0 {
                Some(hunks.len() - 1)
            } else {
                None
            },
        }
    }
}

proof fn lemma_first_starting_below(hunks: Seq<DiffHunk>, row: usize, i: nat)
    ensures
        first_starting_below(hunks, row, i) matches Some(k) ==> i <= k < hunks.len() && hunks[k].rows.start > row
            && forall|j: int| i <= j < k ==> #[trigger] hunks[j].rows.start <= row,
        first_starting_below(hunks, row, i) is None ==> forall|j: int|
            i <= j < hunks.len() ==> #[trigger] hunks[j].rows.start <= row,
    decreases hunks.len() - i,
{
    if i < hunks.len() && hunks[i as int].rows.start <= row {
        lemma_first_starting_below(hunks, row, i + 1);
    }
}

proof fn lemma_last_ending_before(ends: Seq<usize>, head: usize, n: nat)
    requires
        n <= ends.len(),
    ensures
        last_ending_before(ends, head, n) matches Some(k) ==> 0 <= k < n && ends[k] < head && forall|j: int|
            k < j < n ==> #[trigger] ends[j] >= head,
        last_ending_before(ends, head, n) is None ==> forall|j: int| 0 <= j < n ==> #[trigger] ends[j] >= head,
    decreases n,
{
    if n > 0 && ends[n - 1] >= head {
        lemma_last_ending_before(ends, head, (n - 1) as nat);
    }
}

/// Going forward lands on the first change that starts below the caret's row, when there is one; going
/// back lands on the last change that ends before the caret, when there is one, and otherwise on the last
/// change of the file.
pub proof fn lemma_hunk_target_is_nearest(hunks: Seq<DiffHunk>, row: usize, head: usize, ends: Seq<usize>)
    requires
        ends.len() == hunks.len(),
    ensures
        (exists|i: int| 0 <= i < hunks.len() && #[trigger] hunks[i].rows.start > row) ==> {
            let k = hunk_to_visit(hunks, row, head, ends, true)->0;
            &&& hunk_to_visit(hunks, row, head, ends, true) is Some
            &&& hunks[k].rows.start > row
            &&& forall|j: int| 0 <= j < k ==> #[trigger] hunks[j].rows.start <= row
        },
        (exists|i: int| 0 <= i < ends.len() && #[trigger] ends[i] < head) ==> {
            let k = hunk_to_visit(hunks, row, head, ends, false)->0;
            &&& hunk_to_visit(hunks, row, head, ends, false) is Some
            &&& ends[k] < head
            &&& forall|j: int| k < j < ends.len() ==> #[trigger] ends[j] >= head
        },
        hunks.len() > 0 && (forall|i: int| 0 <= i < ends.len() ==> #[trigger] ends[i] >= head) ==> hunk_to_visit(
            hunks,
            row,
            head,
            ends,
            false,
        ) == Some(hunks.len() - 1),
{
    lemma_first_starting_below(hunks, row, 0);
    lemma_last_ending_before(ends, head, hunks.len());
}

/// The line the caret goes to for the next (or previous) change from the caret at char `head` on line
/// `row`: the first line of the change `hunk_to_visit` picks; none without changes. `ends[i]` is where the
/// line after hunk `i` starts, in chars (the text's length past its end).
pub fn hunk_target(hunks: &Vec<DiffHunk>, row: usize, head: usize, ends: &Vec<usize>, next: bool) -> (r: Option<usize>)
    requires
        ends.len() == hunks.len(),
    ensures
        match hunk_to_visit(hunks@, row, head, ends@, next) {
            Some(i) => r == Some(hunks@[i].rows.start),
            None => r is None,
        },
{
    let n = hunks.len();
    if next {
        let mut i: usize = 0;
        while i < n
            invariant
                next,
                n == hunks.len(),
                i <= n,
                first_starting_below(hunks@, row, i as nat) == first_starting_below(hunks@, row, 0),
            decreases n - i,
        {
            if hunks[i].rows.start > row {
                assert(first_starting_below(hunks@, row, i as nat) == Some(i as int));
                return Some(hunks[i].rows.start);
            }
            i += 1;
        }
        let mut j: usize = 0;
        while j < n
            invariant
                next,
                n == hunks.len(),
                j <= n,
                first_starting_below(hunks@, row, 0) is None,
                first_ending_above(hunks@, row, j as nat) == first_ending_above(hunks@, row, 0),
            decreases n - j,
        {
            if hunks[j].rows.end < row {
                assert(first_ending_above(hunks@, row, j as nat) == Some(j as int));
                return Some(hunks[j].rows.start);
            }
            j += 1;
        }
        None
    } else {
        let mut k: usize = n;
        while k > 0
            invariant
                !next,
                n == hunks.len() == ends.len(),
                k <= n,
                last_ending_before(ends@, head, k as nat) == last_ending_before(ends@, head, n as nat),
            decreases k,
        {
            if ends[k - 1] < head {
                assert(last_ending_before(ends@, head, k as nat) == Some(k - 1));
                return Some(hunks[k - 1].rows.start);
            }
            k -= 1;
        }
        if n > 0 {
            Some(hunks[n - 1].rows.start)
        } else {
            None
        }
    }
}

/// A hunk touches the lines `query`: a deletion (no lines of its own) when it sits right above or below
/// them, another when its lines overlap them.
pub open spec fn touches(hunk: DiffHunk, query: Range<usize>) -> bool {
    if hunk.rows.start >= hunk.rows.end {
        hunk.rows.start == query.start || hunk.rows.start == query.end
    } else {
        hunk.rows.start < query.end && query.start < hunk.rows.end
    }
}

/// Two hunks are the same change.
pub open spec fn same_hunk(a: DiffHunk, b: DiffHunk) -> bool {
    a.rows.start == b.rows.start && a.rows.end == b.rows.end && a.base_rows.start == b.base_rows.start
        && a.base_rows.end == b.base_rows.end
}

/// `picked` already holds a hunk that is the same change as `h`.
pub open spec fn holds_same(hunks: Seq<DiffHunk>, picked: Seq<usize>, h: DiffHunk) -> bool {
    exists|k: int| 0 <= k < picked.len() && same_hunk(hunks[#[trigger] picked[k] as int], h)
}

/// `picked` after the first `j` hunks were looked at for the lines `query`.
pub open spec fn pick_for(hunks: Seq<DiffHunk>, query: Range<usize>, picked: Seq<usize>, j: nat) -> Seq<usize>
    decreases j,
{
    if j == 0 || j > hunks.len() {
        picked
    } else {
        let before = pick_for(hunks, query, picked, (j - 1) as nat);
        let h = hunks[j - 1];
        if touches(h, query) && !holds_same(hunks, before, h) {
            before.push((j - 1) as usize)
        } else {
            before
        }
    }
}

/// The hunks the first `i` selections touch (`queries[s]` is the lines of selection `s`, its last line
/// included), each change once, in the order they were first touched.
pub open spec fn picked_for(hunks: Seq<DiffHunk>, queries: Seq<Range<usize>>, i: nat) -> Seq<usize>
    decreases i,
{
    if i == 0 || i > queries.len() {
        Seq::empty()
    } else {
        pick_for(hunks, queries[i - 1], picked_for(hunks, queries, (i - 1) as nat), hunks.len())
    }
}

/// Whether `picked` holds a hunk that is the same change as hunk `j`.
fn holds_same_hunk(hunks: &Vec<DiffHunk>, picked: &Vec<usize>, j: usize) -> (r: bool)
    requires
        j < hunks.len(),
        forall|k: int| 0 <= k < picked.len() ==> (#[trigger] picked@[k]) < hunks.len(),
    ensures
        r == holds_same(hunks@, picked@, hunks@[j as int]),
{
    let h = &hunks[j];
    let mut k: usize = 0;
    while k < picked.len()
        invariant
            j < hunks.len(),
            *h == hunks@[j as int],
            forall|m: int| 0 <= m < picked.len() ==> (#[trigger] picked@[m]) < hunks.len(),
            k <= picked.len(),
            forall|m: int| 0 <= m < k ==> !same_hunk(hunks@[#[trigger] picked@[m] as int], hunks@[j as int]),
        decreases picked.len() - k,
    {
        let o = &hunks[picked[k]];
        if o.rows.start == h.rows.start && o.rows.end == h.rows.end && o.base_rows.start == h.base_rows.start
            && o.base_rows.end == h.base_rows.end {
            assert(same_hunk(hunks@[picked@[k as int] as int], hunks@[j as int]));
            return true;
        }
        k += 1;
    }
    false
}

/// `order` sorts the picked hunks by their first line, ties in the order they were picked.
pub open spec fn by_first_line(hunks: Seq<DiffHunk>, picked: Seq<usize>, order: Seq<usize>) -> bool {
    sorted_permutation(
        order,
        picked.len() as int,
        |a: int, b: int|
            hunks[picked[a] as int].rows.start < hunks[picked[b] as int].rows.start || (hunks[picked[a] as int].rows.start
                == hunks[picked[b] as int].rows.start && a < b),
    )
}

/// The changes the selections touch (`queries[s]` holds the lines of selection `s`, its last line
/// included): each once, ordered by first line, as indices into `hunks`.
pub fn hunks_in_selections(hunks: &Vec<DiffHunk>, queries: &Vec<Range<usize>>) -> (r: Vec<usize>)
    ensures
        exists|order: Seq<usize>|
            #[trigger] by_first_line(hunks@, picked_for(hunks@, queries@, queries@.len()), order) && r@ == Seq::new(
                order.len(),
                |k: int| picked_for(hunks@, queries@, queries@.len())[order[k] as int],
            ),
{
    let mut picked: Vec<usize> = Vec::new();
    let mut i: usize = 0;
    while i < queries.len()
        invariant
            i <= queries.len(),
            picked@ == picked_for(hunks@, queries@, i as nat),
            forall|k: int| 0 <= k < picked.len() ==> (#[trigger] picked@[k]) < hunks.len(),
        decreases queries.len() - i,
    {
        let query = &queries[i];
        let ghost start = picked@;
        let mut j: usize = 0;
        while j < hunks.len()
            invariant
                i < queries.len(),
                *query == queries@[i as int],
                j <= hunks.len(),
                start == picked_for(hunks@, queries@, i as nat),
                picked@ == pick_for(hunks@, queries@[i as int], start, j as nat),
                forall|k: int| 0 <= k < picked.len() ==> (#[trigger] picked@[k]) < hunks.len(),
            decreases hunks.len() - j,
        {
            let h = &hunks[j];
            let touched = if h.rows.start >= h.rows.end {
                h.rows.start == query.start || h.rows.start == query.end
            } else {
                h.rows.start < query.end && query.start < h.rows.end
            };
            if touched && !holds_same_hunk(hunks, &picked, j) {
                picked.push(j);
            }
            j += 1;
        }
        i += 1;
    }
    let n = picked.len();
    let ghost before = |a: int, b: int|
        hunks@[picked@[a] as int].rows.start < hunks@[picked@[b] as int].rows.start || (
        hunks@[picked@[a] as int].rows.start == hunks@[picked@[b] as int].rows.start && a < b);
    let lt = |a: usize, b: usize| -> (res: bool)
        requires
            a < n && b < n,
        ensures
            res == before(a as int, b as int),
        {
            let x = hunks[picked[a]].rows.start;
            let y = hunks[picked[b]].rows.start;
            x < y || (x == y && a < b)
        };
    proof {
        assert(strict_total_on(before, n as int));
    }
    let order = sort_indices(n, lt, Ghost(before));
    let mut r: Vec<usize> = Vec::new();
    let mut k: usize = 0;
    while k < n
        invariant
            n == picked.len(),
            k <= n,
            sorted_permutation(order@, n as int, before),
            r@ == Seq::new(k as nat, |m: int| picked@[order@[m] as int]),
        decreases n - k,
    {
        r.push(picked[order[k]]);
        assert(r@ =~= Seq::new((k + 1) as nat, |m: int| picked@[order@[m] as int]));
        k += 1;
    }
    assert(by_first_line(hunks@, picked@, order@));
    r
}

} // verus!
