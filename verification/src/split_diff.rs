//! A split diff's rows: the new text's rows with, beside each, the old line shown on the left, and blank
//! spacer rows where a change removed more lines than it added, so both sides stay level.

use vstd::prelude::*;
use std::ops::Range;
use crate::display_rows::{range_len, starts_line};
use crate::file_view::DisplayRow;
use crate::palette_order::{sort_indices, sorted_permutation, strict_total_on};

verus! {

/// A change between the committed text and the file: the file's lines `rows` replaced the committed
/// lines `base_rows`.
#[derive(Debug)]
pub struct DiffHunk {
    pub rows: Range<usize>,
    pub base_rows: Range<usize>,
}

/// What the left side shows beside a row: a committed line, if any, and whether it is part of a change.
#[derive(Clone, Copy, Debug, PartialEq, Eq, Structural)]
pub struct SplitLeft {
    pub base: Option<usize>,
    pub changed: bool,
}

/// Hunk `i` comes before hunk `j`: it starts on an earlier line, or on the same one and came first.
pub open spec fn hunk_before(hunks: Seq<DiffHunk>, i: int, j: int) -> bool {
    hunks[i].rows.start < hunks[j].rows.start || (hunks[i].rows.start == hunks[j].rows.start && i < j)
}

/// The hunks taken in `order`.
pub open spec fn reorder(hunks: Seq<DiffHunk>, order: Seq<usize>) -> Seq<DiffHunk> {
    Seq::new(order.len(), |a: int| hunks[order[a] as int])
}

/// A blank row on the right, level with an extra removed line on the left.
pub open spec fn spacer(line: usize) -> DisplayRow {
    DisplayRow { line, start: 0, end: 0, indent: 0, deleted: None, block: None, spacer: true }
}

/// `true` when `v` fits an `isize`.
pub open spec fn fits_isize(v: int) -> bool {
    isize::MIN <= v <= isize::MAX
}

/// The split built so far: rows on the right, what the left shows beside each, how far the committed
/// line numbers run ahead of the file's, the next hunk, and whether every count so far fit an `isize`.
pub struct SplitState {
    pub out: Seq<DisplayRow>,
    pub left: Seq<SplitLeft>,
    pub delta: int,
    pub next: nat,
    pub ok: bool,
}

/// Place the hunks that end by `until`: a change's extra removed lines go beside spacer rows right after
/// its new lines (at its start when it only removed lines).
pub open spec fn flush(hunks: Seq<DiffHunk>, line_count: usize, until: nat, s: SplitState) -> SplitState
    decreases hunks.len() - s.next,
{
    if s.next < hunks.len() && hunks[s.next as int].rows.end <= until {
        let h = hunks[s.next as int];
        let added = range_len(h.rows);
        let removed = range_len(h.base_rows);
        let last_of_change: usize = if h.rows.end > 0 {
            (h.rows.end - 1) as usize
        } else {
            0
        };
        let last_line: usize = if line_count > 0 {
            (line_count - 1) as usize
        } else {
            0
        };
        let anchor = if last_of_change < last_line {
            last_of_change
        } else {
            last_line
        };
        let extra: nat = if removed > added {
            (removed - added) as nat
        } else {
            0
        };
        let delta = s.delta + removed - added;
        flush(
            hunks,
            line_count,
            until,
            SplitState {
                out: s.out + Seq::new(extra, |e: int| spacer(anchor)),
                left: s.left + Seq::new(
                    extra,
                    |e: int| SplitLeft { base: Some((h.base_rows.start + added + e) as usize), changed: true },
                ),
                delta,
                next: s.next + 1,
                ok: s.ok && added <= isize::MAX && removed <= isize::MAX && fits_isize(delta),
            },
        )
    } else {
        s
    }
}

pub open spec fn is_virtual(row: DisplayRow) -> bool {
    row.deleted is Some || row.block is Some || row.spacer
}

/// What the left shows beside `row`: nothing beside a virtual row or a wrapped continuation; beside a line of
/// the next change, the committed line at the same offset in it (if it has one); otherwise the committed
/// line `delta` away.
pub open spec fn left_of(hunks: Seq<DiffHunk>, s: SplitState, row: DisplayRow) -> SplitLeft {
    if is_virtual(row) || row.start > 0 {
        SplitLeft { base: None, changed: false }
    } else if s.next < hunks.len() && hunks[s.next as int].rows.start <= row.line < hunks[s.next as int].rows.end {
        let h = hunks[s.next as int];
        let index = row.line - h.rows.start;
        SplitLeft {
            base: if index < range_len(h.base_rows) {
                Some((h.base_rows.start + index) as usize)
            } else {
                None
            },
            changed: true,
        }
    } else {
        let v = row.line + s.delta;
        SplitLeft {
            base: if 0 <= v <= usize::MAX {
                Some(v as usize)
            } else {
                None
            },
            changed: false,
        }
    }
}

/// The split after one more row of the file's side.
pub open spec fn split_step(hunks: Seq<DiffHunk>, line_count: usize, s: SplitState, row: DisplayRow) -> SplitState {
    let s1 = if !is_virtual(row) && row.start == 0 {
        flush(hunks, line_count, row.line as nat, s)
    } else {
        s
    };
    let side = left_of(hunks, s1, row);
    let ok = s1.ok && (is_virtual(row) || row.start > 0 || (row.line <= isize::MAX && fits_isize(
        row.line + s1.delta,
    )));
    SplitState { out: s1.out.push(row), left: s1.left.push(side), ok, ..s1 }
}

/// The split after the first `n` rows.
pub open spec fn split_upto(hunks: Seq<DiffHunk>, line_count: usize, rows: Seq<DisplayRow>, n: nat) -> SplitState
    decreases n,
{
    if n == 0 {
        SplitState { out: Seq::empty(), left: Seq::empty(), delta: 0, next: 0, ok: true }
    } else {
        split_step(hunks, line_count, split_upto(hunks, line_count, rows, (n - 1) as nat), rows[n - 1])
    }
}

/// The whole split: every row, then the changes after the last line.
pub open spec fn split_of(hunks: Seq<DiffHunk>, line_count: usize, rows: Seq<DisplayRow>) -> SplitState {
    flush(hunks, line_count, usize::MAX as nat, split_upto(hunks, line_count, rows, rows.len()))
}

/// The first of the first `k` rows that starts line `l`.
pub open spec fn first_in(out: Seq<DisplayRow>, l: usize, k: nat) -> Option<nat>
    decreases k,
{
    if k == 0 || k > out.len() {
        None
    } else {
        match first_in(out, l, (k - 1) as nat) {
            Some(x) => Some(x),
            None => if starts_line(out[k - 1], l) {
                Some((k - 1) as nat)
            } else {
                None
            },
        }
    }
}

/// Where line `l` starts among the rows: its first row, or for a line without rows that of the nearest
/// line above that has one (0 when none does).
pub open spec fn line_row(out: Seq<DisplayRow>, l: nat) -> nat
    decreases l,
{
    match first_in(out, l as usize, out.len()) {
        Some(x) => x,
        None => if l == 0 {
            0
        } else {
            line_row(out, (l - 1) as nat)
        },
    }
}

proof fn lemma_flush_ok(hunks: Seq<DiffHunk>, line_count: usize, until: nat, s: SplitState)
    ensures
        flush(hunks, line_count, until, s).ok ==> s.ok,
        flush(hunks, line_count, until, s).next >= s.next,
    decreases hunks.len() - s.next,
{
    if s.next < hunks.len() && hunks[s.next as int].rows.end <= until {
        let h = hunks[s.next as int];
        let added = range_len(h.rows);
        let removed = range_len(h.base_rows);
        let last_of_change: usize = if h.rows.end > 0 { (h.rows.end - 1) as usize } else { 0 };
        let last_line: usize = if line_count > 0 { (line_count - 1) as usize } else { 0 };
        let anchor = if last_of_change < last_line { last_of_change } else { last_line };
        let extra: nat = if removed > added { (removed - added) as nat } else { 0 };
        let delta = s.delta + removed - added;
        lemma_flush_ok(
            hunks,
            line_count,
            until,
            SplitState {
                out: s.out + Seq::new(extra, |e: int| spacer(anchor)),
                left: s.left + Seq::new(
                    extra,
                    |e: int| SplitLeft { base: Some((h.base_rows.start + added + e) as usize), changed: true },
                ),
                delta,
                next: s.next + 1,
                ok: s.ok && added <= isize::MAX && removed <= isize::MAX && fits_isize(delta),
            },
        );
    }
}

proof fn lemma_split_ok(hunks: Seq<DiffHunk>, line_count: usize, rows: Seq<DisplayRow>, m: nat, n: nat)
    requires
        m <= n <= rows.len(),
    ensures
        split_upto(hunks, line_count, rows, n).ok ==> split_upto(hunks, line_count, rows, m).ok,
    decreases n,
{
    if m < n {
        let k = (n - 1) as nat;
        lemma_split_ok(hunks, line_count, rows, m, k);
        let prev = split_upto(hunks, line_count, rows, k);
        lemma_flush_ok(hunks, line_count, rows[k as int].line as nat, prev);
    }
}

/// Run `flush` on the exec state: `order[a]` is the index of the `a`-th hunk in order.
fn flush_exec(
    hunks: &Vec<DiffHunk>,
    order: &Vec<usize>,
    line_count: usize,
    until: usize,
    out: &mut Vec<DisplayRow>,
    left: &mut Vec<SplitLeft>,
    delta: &mut isize,
    next: &mut usize,
    Ghost(ok): Ghost<bool>,
)
    requires
        order.len() == hunks.len(),
        forall|a: int| 0 <= a < order.len() ==> #[trigger] order@[a] < hunks.len(),
        *old(next) <= order.len(),
        flush(
            reorder(hunks@, order@),
            line_count,
            until as nat,
            SplitState { out: old(out)@, left: old(left)@, delta: *old(delta) as int, next: *old(next) as nat, ok },
        ).ok,
    ensures
        ({
            let f = flush(
                reorder(hunks@, order@),
                line_count,
                until as nat,
                SplitState { out: old(out)@, left: old(left)@, delta: *old(delta) as int, next: *old(next) as nat, ok },
            );
            &&& final(out)@ == f.out
            &&& final(left)@ == f.left
            &&& *final(delta) as int == f.delta
            &&& *final(next) as nat == f.next
            &&& *final(next) <= order.len()
        }),
{
    let ghost hs = reorder(hunks@, order@);
    let ghost target = flush(
        hs,
        line_count,
        until as nat,
        SplitState { out: out@, left: left@, delta: *delta as int, next: *next as nat, ok },
    );
    let ghost mut cur_ok = ok;
    while *next < order.len() && hunks[order[*next]].rows.end <= until
        invariant
            order.len() == hunks.len(),
            forall|a: int| 0 <= a < order.len() ==> #[trigger] order@[a] < hunks.len(),
            hs == reorder(hunks@, order@),
            *next <= order.len(),
            target.ok,
            target == flush(
                hs,
                line_count,
                until as nat,
                SplitState { out: out@, left: left@, delta: *delta as int, next: *next as nat, ok: cur_ok },
            ),
        decreases order.len() - *next,
    {
        let h = &hunks[order[*next]];
        assert(hs[*next as int] == *h);
        let added = if h.rows.end > h.rows.start {
            h.rows.end - h.rows.start
        } else {
            0
        };
        let removed = if h.base_rows.end > h.base_rows.start {
            h.base_rows.end - h.base_rows.start
        } else {
            0
        };
        let last_of_change = if h.rows.end > 0 {
            h.rows.end - 1
        } else {
            0
        };
        let last_line = if line_count > 0 {
            line_count - 1
        } else {
            0
        };
        let anchor = if last_of_change < last_line {
            last_of_change
        } else {
            last_line
        };
        let ghost new_delta = *delta as int + removed - added;
        let ghost new_ok = cur_ok && added <= isize::MAX && removed <= isize::MAX && fits_isize(new_delta);
        let ghost out0 = out@;
        let ghost left0 = left@;
        let mut extra = added;
        while extra < removed
            invariant
                added <= extra <= removed || (removed <= added && extra == added),
                h.base_rows.start + removed <= usize::MAX,
                removed == range_len(h.base_rows),
                out@ == out0 + Seq::new((extra - added) as nat, |e: int| spacer(anchor)),
                left@ == left0 + Seq::new(
                    (extra - added) as nat,
                    |e: int| SplitLeft { base: Some((h.base_rows.start + added + e) as usize), changed: true },
                ),
            decreases removed - extra,
        {
            out.push(spacer_row(anchor));
            left.push(SplitLeft { base: Some(h.base_rows.start + extra), changed: true });
            extra += 1;
            assert(out@ =~= out0 + Seq::new((extra - added) as nat, |e: int| spacer(anchor)));
            assert(left@ =~= left0 + Seq::new(
                (extra - added) as nat,
                |e: int| SplitLeft { base: Some((h.base_rows.start + added + e) as usize), changed: true },
            ));
        }
        proof {
            lemma_flush_ok(
                hs,
                line_count,
                until as nat,
                SplitState {
                    out: out@,
                    left: left@,
                    delta: new_delta,
                    next: (*next + 1) as nat,
                    ok: new_ok,
                },
            );
            if removed <= added {
                assert(out@ =~= out0 + Seq::new(0, |e: int| spacer(anchor)));
                assert(left@ =~= left0 + Seq::new(
                    0,
                    |e: int| SplitLeft { base: Some((h.base_rows.start + added + e) as usize), changed: true },
                ));
            }
        }
        *delta = *delta + (removed as isize - added as isize);
        *next = *next + 1;
        proof {
            cur_ok = new_ok;
        }
    }
}

/// The blank row beside an extra removed line.
fn spacer_row(line: usize) -> (r: DisplayRow)
    ensures
        r == spacer(line),
{
    DisplayRow { line, start: 0, end: 0, indent: 0, deleted: None, block: None, spacer: true }
}

/// The split diff's rows, what the left side shows beside each, and where each line's rows start.
pub struct SplitRows {
    pub rows: Vec<DisplayRow>,
    pub left: Vec<SplitLeft>,
    pub line_rows: Vec<usize>,
}

/// The hunks in order of their first line (stable).
pub open spec fn in_order(hunks: Seq<DiffHunk>, order: Seq<usize>) -> bool {
    sorted_permutation(order, hunks.len() as int, |i: int, j: int| hunk_before(hunks, i, j))
}

/// Lay a file's rows out as a split diff against its `hunks` of change: beside each row the committed line
/// it corresponds to, spacer rows where a change removed more than it added, and for each of the
/// `line_count` lines the index of the row it starts on. The hunks are taken in order of their first line.
pub fn split_rows(rows: Vec<DisplayRow>, line_count: usize, hunks: &Vec<DiffHunk>) -> (r: SplitRows)
    requires
        forall|order: Seq<usize>|
            in_order(hunks@, order) ==> #[trigger] split_of(reorder(hunks@, order), line_count, rows@).ok,
    ensures
        exists|order: Seq<usize>|
            in_order(hunks@, order) && {
                let s = #[trigger] split_of(reorder(hunks@, order), line_count, rows@);
                &&& r.rows@ == s.out
                &&& r.left@ == s.left
                &&& r.line_rows@ == Seq::new(line_count as nat, |l: int| line_row(s.out, l as nat) as usize)
            },
{
    let n = hunks.len();
    let ghost before = |i: int, j: int| hunk_before(hunks@, i, j);
    let lt = |i: usize, j: usize| -> (b: bool)
        requires
            i < n && j < n,
        ensures
            b == hunk_before(hunks@, i as int, j as int),
        {
            hunks[i].rows.start < hunks[j].rows.start || (hunks[i].rows.start == hunks[j].rows.start && i < j)
        };
    proof {
        assert(strict_total_on(before, n as int));
    }
    let order = sort_indices(n, lt, Ghost(before));
    let ghost hs = reorder(hunks@, order@);
    assert(in_order(hunks@, order@));
    let ghost fin = split_of(hs, line_count, rows@);
    assert(fin.ok);
    proof {
        lemma_flush_ok(hs, line_count, usize::MAX as nat, split_upto(hs, line_count, rows@, rows.len() as nat));
    }
    let mut out: Vec<DisplayRow> = Vec::new();
    let mut left: Vec<SplitLeft> = Vec::new();
    let mut delta: isize = 0;
    let mut next: usize = 0;
    let mut i: usize = 0;
    while i < rows.len()
        invariant
            i <= rows.len(),
            order.len() == hunks.len() == n,
            forall|a: int| 0 <= a < order.len() ==> #[trigger] order@[a] < hunks.len(),
            hs == reorder(hunks@, order@),
            split_upto(hs, line_count, rows@, rows.len() as nat).ok,
            next <= order.len(),
            ({
                let s = split_upto(hs, line_count, rows@, i as nat);
                &&& out@ == s.out
                &&& left@ == s.left
                &&& delta as int == s.delta
                &&& next as nat == s.next
            }),
        decreases rows.len() - i,
    {
        let row = rows[i];
        let ghost s = split_upto(hs, line_count, rows@, i as nat);
        proof {
            lemma_split_ok(hs, line_count, rows@, (i + 1) as nat, rows.len() as nat);
            lemma_split_ok(hs, line_count, rows@, i as nat, rows.len() as nat);
        }
        let virtual_row = row.deleted.is_some() || row.block.is_some() || row.spacer;
        if !virtual_row && row.start == 0 {
            proof {
                lemma_flush_ok(hs, line_count, row.line as nat, s);
            }
            flush_exec(hunks, &order, line_count, row.line, &mut out, &mut left, &mut delta, &mut next, Ghost(s.ok));
        }
        let ghost s1 = if !virtual_row && row.start == 0 {
            flush(hs, line_count, row.line as nat, s)
        } else {
            s
        };
        let side = if virtual_row || row.start > 0 {
            SplitLeft { base: None, changed: false }
        } else if next < order.len() && hunks[order[next]].rows.start <= row.line && row.line
            < hunks[order[next]].rows.end {
            let h = &hunks[order[next]];
            assert(hs[next as int] == *h);
            let index = row.line - h.rows.start;
            let removed = if h.base_rows.end > h.base_rows.start {
                h.base_rows.end - h.base_rows.start
            } else {
                0
            };
            SplitLeft {
                base: if index < removed {
                    Some(h.base_rows.start + index)
                } else {
                    None
                },
                changed: true,
            }
        } else {
            let v = row.line as isize + delta;
            SplitLeft {
                base: if v >= 0 {
                    Some(v as usize)
                } else {
                    None
                },
                changed: false,
            }
        };
        assert(side == left_of(hs, s1, row));
        out.push(row);
        left.push(side);
        i += 1;
    }
    let ghost s = split_upto(hs, line_count, rows@, rows.len() as nat);
    flush_exec(hunks, &order, line_count, usize::MAX, &mut out, &mut left, &mut delta, &mut next, Ghost(s.ok));
    assert(out@ == fin.out);
    let line_rows = first_rows(&out, line_count);
    SplitRows { rows: out, left, line_rows }
}

/// Where each of `line_count` lines starts among `out`.
fn first_rows(out: &Vec<DisplayRow>, line_count: usize) -> (r: Vec<usize>)
    ensures
        r@ == Seq::new(line_count as nat, |l: int| line_row(out@, l as nat) as usize),
{
    let mut slots: Vec<usize> = Vec::new();
    let mut l: usize = 0;
    while l < line_count
        invariant
            l <= line_count,
            slots@ == Seq::new(l as nat, |x: int| usize::MAX),
        decreases line_count - l,
    {
        slots.push(usize::MAX);
        l += 1;
        assert(slots@ =~= Seq::new(l as nat, |x: int| usize::MAX));
    }
    let mut index: usize = 0;
    while index < out.len()
        invariant
            index <= out.len(),
            slots.len() == line_count,
            forall|x: int|
                0 <= x < line_count ==> #[trigger] slots@[x] == match first_in(out@, x as usize, index as nat) {
                    Some(f) => f as usize,
                    None => usize::MAX,
                },
        decreases out.len() - index,
    {
        let row = out[index];
        let starts = !(row.deleted.is_some() || row.block.is_some() || row.spacer) && row.start == 0;
        if starts && row.line < line_count && slots[row.line] == usize::MAX {
            slots.set(row.line, index);
        }
        assert forall|x: int| 0 <= x < line_count implies #[trigger] slots@[x] == match first_in(
            out@,
            x as usize,
            (index + 1) as nat,
        ) {
            Some(f) => f as usize,
            None => usize::MAX,
        } by {
            lemma_first_in_below(out@, x as usize, index as nat);
        }
        index += 1;
    }
    let mut last: usize = 0;
    let mut l: usize = 0;
    while l < line_count
        invariant
            l <= line_count == slots.len(),
            forall|x: int|
                l <= x < line_count ==> #[trigger] slots@[x] == match first_in(out@, x as usize, out.len() as nat) {
                    Some(f) => f as usize,
                    None => usize::MAX,
                },
            forall|x: int| 0 <= x < l ==> #[trigger] slots@[x] == line_row(out@, x as nat) as usize,
            last == (if l == 0 {
                0
            } else {
                line_row(out@, (l - 1) as nat) as usize
            }),
        decreases line_count - l,
    {
        proof {
            lemma_first_in_below(out@, l, out.len() as nat);
        }
        if slots[l] == usize::MAX {
            slots.set(l, last);
        } else {
            last = slots[l];
        }
        l += 1;
    }
    assert(slots@ =~= Seq::new(line_count as nat, |x: int| line_row(out@, x as nat) as usize));
    slots
}

proof fn lemma_first_in_below(out: Seq<DisplayRow>, l: usize, k: nat)
    ensures
        first_in(out, l, k) matches Some(f) ==> f < k && f < out.len(),
    decreases k,
{
    if k > 0 && k <= out.len() {
        lemma_first_in_below(out, l, (k - 1) as nat);
    }
}

proof fn lemma_flush_level(hunks: Seq<DiffHunk>, line_count: usize, until: nat, s: SplitState)
    requires
        s.out.len() == s.left.len(),
    ensures
        flush(hunks, line_count, until, s).out.len() == flush(hunks, line_count, until, s).left.len(),
    decreases hunks.len() - s.next,
{
    if s.next < hunks.len() && hunks[s.next as int].rows.end <= until {
        let h = hunks[s.next as int];
        let added = range_len(h.rows);
        let removed = range_len(h.base_rows);
        let last_of_change: usize = if h.rows.end > 0 { (h.rows.end - 1) as usize } else { 0 };
        let last_line: usize = if line_count > 0 { (line_count - 1) as usize } else { 0 };
        let anchor = if last_of_change < last_line { last_of_change } else { last_line };
        let extra: nat = if removed > added { (removed - added) as nat } else { 0 };
        let delta = s.delta + removed - added;
        lemma_flush_level(
            hunks,
            line_count,
            until,
            SplitState {
                out: s.out + Seq::new(extra, |e: int| spacer(anchor)),
                left: s.left + Seq::new(
                    extra,
                    |e: int| SplitLeft { base: Some((h.base_rows.start + added + e) as usize), changed: true },
                ),
                delta,
                next: s.next + 1,
                ok: s.ok && added <= isize::MAX && removed <= isize::MAX && fits_isize(delta),
            },
        );
    }
}

proof fn lemma_split_level(hunks: Seq<DiffHunk>, line_count: usize, rows: Seq<DisplayRow>, n: nat)
    requires
        n <= rows.len(),
    ensures
        split_upto(hunks, line_count, rows, n).out.len() == split_upto(hunks, line_count, rows, n).left.len(),
    decreases n,
{
    if n > 0 {
        let k = (n - 1) as nat;
        lemma_split_level(hunks, line_count, rows, k);
        lemma_flush_level(hunks, line_count, rows[k as int].line as nat, split_upto(hunks, line_count, rows, k));
    }
}

/// Both sides of a split diff stay level: there is one left-side entry for every row on the right.
pub proof fn lemma_split_sides_stay_level(hunks: Seq<DiffHunk>, line_count: usize, rows: Seq<DisplayRow>)
    ensures
        split_of(hunks, line_count, rows).out.len() == split_of(hunks, line_count, rows).left.len(),
{
    lemma_split_level(hunks, line_count, rows, rows.len());
    lemma_flush_level(hunks, line_count, usize::MAX as nat, split_upto(hunks, line_count, rows, rows.len()));
}

} // verus!
