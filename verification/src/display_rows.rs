//! The screen rows of a file view: each visible line cut at its soft-wrap breaks, with the lines an expanded
//! change removed shown above the line it starts at, a diagnostic's block rows under its line, and for each
//! line of the file the first row it (or the visible line above a fold) starts at.

use vstd::prelude::*;
use std::ops::Range;
use crate::file_view::DisplayRow;

verus! {

/// A soft-wrap break: the row ends at display column `index`, and the next row is drawn after `indent`
/// blank columns.
#[derive(Clone, Copy, Debug, PartialEq, Eq, Structural)]
pub struct Boundary {
    pub index: usize,
    pub indent: usize,
}

/// How many numbers a range holds.
pub open spec fn range_len(r: Range<usize>) -> nat {
    if r.end > r.start {
        (r.end - r.start) as nat
    } else {
        0
    }
}

pub open spec fn max_nat(a: nat, b: nat) -> nat {
    if a >= b {
        a
    } else {
        b
    }
}

/// The rows showing the committed lines `base` that a change removed above `line`.
pub open spec fn deleted_rows(line: usize, base: Range<usize>) -> Seq<DisplayRow> {
    Seq::new(
        range_len(base),
        |k: int|
            DisplayRow {
                line,
                start: 0,
                end: usize::MAX,
                indent: 0,
                deleted: Some((base.start + k) as usize),
                block: None,
                spacer: false,
            },
    )
}

/// The block rows a diagnostic takes under `line`.
pub open spec fn block_rows(line: usize, count: usize) -> Seq<DisplayRow> {
    Seq::new(
        count as nat,
        |k: int|
            DisplayRow { line, start: 0, end: 0, indent: 0, deleted: None, block: Some(k as usize), spacer: false },
    )
}

/// Cutting `line` at its first `k` breaks: the rows so far, and where the next row starts and how far it is
/// indented, and the widest row so far in columns.
pub open spec fn wrap_state(line: usize, bs: Seq<Boundary>, k: nat) -> (Seq<DisplayRow>, usize, usize, nat)
    decreases k,
{
    if k == 0 || k > bs.len() {
        (Seq::empty(), 0, 0, 0)
    } else {
        let (rows, start, indent, widest) = wrap_state(line, bs, (k - 1) as nat);
        let b = bs[k - 1];
        (
            rows.push(
                DisplayRow { line, start, end: b.index, indent, deleted: None, block: None, spacer: false },
            ),
            b.index,
            b.indent,
            max_nat(widest, (indent + b.index - start) as nat),
        )
    }
}

/// The breaks move forward and every row's width fits a `usize`, up to the line's last row.
pub open spec fn wraps_fit(line: usize, bs: Seq<Boundary>, full: usize) -> bool {
    &&& forall|k: nat|
        k < bs.len() ==> {
            let (_, start, indent, _) = #[trigger] wrap_state(line, bs, k);
            start <= bs[k as int].index && indent + bs[k as int].index - start <= usize::MAX
        }
    &&& {
        let (_, start, indent, _) = wrap_state(line, bs, bs.len());
        indent + (if full > start {
            full - start
        } else {
            0
        }) <= usize::MAX
    }
}

/// The layout built so far.
pub struct LayoutState {
    pub rows: Seq<DisplayRow>,
    pub line_rows: Seq<usize>,
    pub widest: nat,
    /// How many of the removed-line runs have been placed or passed.
    pub del: nat,
    pub has_block_rows: bool,
}

/// Place the removed-line runs that start at or before `line`: those at `line` go in, those before it sit
/// under a fold and stay hidden.
pub open spec fn place_deletions(dels: Seq<(usize, Range<usize>)>, line: usize, s: LayoutState) -> LayoutState
    decreases dels.len() - s.del,
{
    if s.del < dels.len() && dels[s.del as int].0 <= line {
        let (at, base) = dels[s.del as int];
        let rows = if at == line {
            s.rows + deleted_rows(line, base)
        } else {
            s.rows
        };
        place_deletions(dels, line, LayoutState { rows, del: s.del + 1, ..s })
    } else {
        s
    }
}

/// The layout after visible line `i`.
pub open spec fn layout_step(
    lines: Seq<usize>,
    wraps: Seq<Seq<Boundary>>,
    columns: Seq<usize>,
    full: Seq<usize>,
    dels: Seq<(usize, Range<usize>)>,
    block: Option<(usize, usize)>,
    line_count: usize,
    i: int,
    s: LayoutState,
) -> LayoutState {
    let line = lines[i];
    let s1 = place_deletions(dels, line, s);
    let next = if i + 1 < lines.len() {
        lines[i + 1]
    } else {
        line_count
    };
    let here = s1.rows.len();
    let line_rows = Seq::new(
        s1.line_rows.len(),
        |j: int|
            if line <= j < next {
                here as usize
            } else {
                s1.line_rows[j]
            },
    );
    let (wrapped, start, indent, widest) = wrap_state(line, wraps[i], wraps[i].len());
    let last = DisplayRow { line, start, end: usize::MAX, indent, deleted: None, block: None, spacer: false };
    let rows = s1.rows + wrapped.push(last);
    let last_cols: nat = if start == 0 {
        columns[line as int] as nat
    } else {
        (indent + (if full[line as int] > start {
            full[line as int] - start
        } else {
            0
        })) as nat
    };
    let (rows, has_block_rows) = match block {
        Some((at, count)) => if at == line {
            (rows + block_rows(line, count), true)
        } else {
            (rows, s1.has_block_rows)
        },
        None => (rows, s1.has_block_rows),
    };
    LayoutState {
        rows,
        line_rows,
        widest: max_nat(max_nat(s1.widest, widest), last_cols),
        del: s1.del,
        has_block_rows,
    }
}

/// The layout after the first `n` visible lines.
pub open spec fn layout_upto(
    lines: Seq<usize>,
    wraps: Seq<Seq<Boundary>>,
    columns: Seq<usize>,
    full: Seq<usize>,
    dels: Seq<(usize, Range<usize>)>,
    block: Option<(usize, usize)>,
    line_count: usize,
    n: nat,
) -> LayoutState
    decreases n,
{
    if n == 0 {
        LayoutState {
            rows: Seq::empty(),
            line_rows: Seq::new(line_count as nat, |j: int| 0usize),
            widest: 0,
            del: 0,
            has_block_rows: false,
        }
    } else {
        layout_step(
            lines,
            wraps,
            columns,
            full,
            dels,
            block,
            line_count,
            n - 1,
            layout_upto(lines, wraps, columns, full, dels, block, line_count, (n - 1) as nat),
        )
    }
}

/// The removed-line runs left after the last visible line that start past the end of the file, placed
/// above its last line.
pub open spec fn trailing_deletions(dels: Seq<(usize, Range<usize>)>, line_count: usize, k: nat) -> Seq<DisplayRow>
    decreases dels.len() - k,
{
    if k >= dels.len() {
        Seq::empty()
    } else {
        let (at, base) = dels[k as int];
        let line = if line_count > 0 {
            (line_count - 1) as usize
        } else {
            0
        };
        (if at >= line_count {
            deleted_rows(line, base)
        } else {
            Seq::empty()
        }) + trailing_deletions(dels, line_count, k + 1)
    }
}

/// The rows of a file view and where each line's rows start.
pub struct RowsLayout {
    pub rows: Vec<DisplayRow>,
    /// For each line of the file, the index of its first row (for a line under a fold, that of the visible
    /// line above it).
    pub line_rows: Vec<usize>,
    /// The widest row, in columns.
    pub max_row_cols: usize,
    /// Some rows belong to a diagnostic's block.
    pub has_block_rows: bool,
}

fn push_deleted(rows: &mut Vec<DisplayRow>, line: usize, base: &Range<usize>)
    ensures
        final(rows)@ == old(rows)@ + deleted_rows(line, *base),
{
    let ghost start = rows@;
    let mut k = base.start;
    while k < base.end
        invariant
            base.start <= k,
            k <= base.end || base.end <= base.start,
            k >= base.end ==> k == base.start || k == base.end,
            rows@ == start + Seq::new(
                (k - base.start) as nat,
                |j: int|
                    DisplayRow {
                        line,
                        start: 0,
                        end: usize::MAX,
                        indent: 0,
                        deleted: Some((base.start + j) as usize),
                        block: None,
                        spacer: false,
                    },
            ),
        decreases base.end - k,
    {
        rows.push(
            DisplayRow { line, start: 0, end: usize::MAX, indent: 0, deleted: Some(k), block: None, spacer: false },
        );
        k += 1;
        assert(rows@ =~= start + Seq::new(
            (k - base.start) as nat,
            |j: int|
                DisplayRow {
                    line,
                    start: 0,
                    end: usize::MAX,
                    indent: 0,
                    deleted: Some((base.start + j) as usize),
                    block: None,
                    spacer: false,
                },
        ));
    }
    assert(rows@ =~= start + deleted_rows(line, *base));
}

fn push_block(rows: &mut Vec<DisplayRow>, line: usize, count: usize)
    ensures
        final(rows)@ == old(rows)@ + block_rows(line, count),
{
    let ghost start = rows@;
    let mut k: usize = 0;
    while k < count
        invariant
            k <= count,
            rows@ == start + block_rows(line, k),
        decreases count - k,
    {
        rows.push(DisplayRow { line, start: 0, end: 0, indent: 0, deleted: None, block: Some(k), spacer: false });
        k += 1;
        assert(rows@ =~= start + block_rows(line, k));
    }
}

/// The screen rows for the visible `lines` of a file of `line_count` lines: `wraps[i]` are the soft-wrap
/// breaks of `lines[i]`, `columns` and `full` each line's cached and full width in columns, `dels` the runs
/// of removed lines of expanded changes (by the line they sit above, in order), and `block` the line and
/// row count of a diagnostic shown under its line.
pub fn layout_rows(
    lines: &Vec<usize>,
    wraps: &Vec<Vec<Boundary>>,
    columns: &Vec<usize>,
    full: &Vec<usize>,
    dels: &Vec<(usize, Range<usize>)>,
    block: Option<(usize, usize)>,
    line_count: usize,
) -> (r: RowsLayout)
    requires
        wraps.len() == lines.len(),
        columns.len() == line_count,
        full.len() == line_count,
        forall|i: int| 0 <= i < lines.len() ==> #[trigger] lines@[i] < line_count,
        forall|i: int|
            0 <= i < lines.len() ==> wraps_fit(lines@[i], #[trigger] wraps@[i]@, full@[lines@[i] as int]),
    ensures
        ({
            let s = layout_upto(
                lines@,
                wraps@.map_values(|w: Vec<Boundary>| w@),
                columns@,
                full@,
                dels@,
                block,
                line_count,
                lines.len() as nat,
            );
            &&& r.rows@ == s.rows + trailing_deletions(dels@, line_count, s.del)
            &&& r.line_rows@ == s.line_rows
            &&& r.max_row_cols == s.widest
            &&& r.has_block_rows == s.has_block_rows
        }),
{
    let ghost wv = wraps@.map_values(|w: Vec<Boundary>| w@);
    let mut rows: Vec<DisplayRow> = Vec::new();
    let mut line_rows: Vec<usize> = Vec::new();
    let mut j: usize = 0;
    while j < line_count
        invariant
            j <= line_count,
            line_rows@ == Seq::new(j as nat, |x: int| 0usize),
        decreases line_count - j,
    {
        line_rows.push(0);
        j += 1;
        assert(line_rows@ =~= Seq::new(j as nat, |x: int| 0usize));
    }
    let mut widest: usize = 0;
    let mut del: usize = 0;
    let mut has_block = false;
    let mut i: usize = 0;
    while i < lines.len()
        invariant
            i <= lines.len(),
            wraps.len() == lines.len(),
            columns.len() == line_count,
            full.len() == line_count,
            wv == wraps@.map_values(|w: Vec<Boundary>| w@),
            forall|q: int| 0 <= q < lines.len() ==> #[trigger] lines@[q] < line_count,
            forall|q: int|
                0 <= q < lines.len() ==> wraps_fit(lines@[q], #[trigger] wraps@[q]@, full@[lines@[q] as int]),
            (LayoutState { rows: rows@, line_rows: line_rows@, widest: widest as nat, del: del as nat, has_block_rows: has_block })
                == layout_upto(lines@, wv, columns@, full@, dels@, block, line_count, i as nat),
            line_rows.len() == line_count,
            del <= dels.len(),
        decreases lines.len() - i,
    {
        let line = lines[i];
        let ghost s0 = LayoutState { rows: rows@, line_rows: line_rows@, widest: widest as nat, del: del as nat, has_block_rows: has_block };
        while del < dels.len() && dels[del].0 <= line
            invariant
                del <= dels.len(),
                place_deletions(dels@, line, s0) == place_deletions(
                    dels@,
                    line,
                    LayoutState { rows: rows@, line_rows: line_rows@, widest: widest as nat, del: del as nat, has_block_rows: has_block },
                ),
                line_rows@ == s0.line_rows,
                widest == s0.widest,
                has_block == s0.has_block_rows,
            decreases dels.len() - del,
        {
            if dels[del].0 == line {
                push_deleted(&mut rows, line, &dels[del].1);
            }
            del += 1;
        }
        let ghost s1 = LayoutState { rows: rows@, line_rows: line_rows@, widest: widest as nat, del: del as nat, has_block_rows: has_block };
        assert(s1 == place_deletions(dels@, line, s0));
        let next = if i + 1 < lines.len() {
            lines[i + 1]
        } else {
            line_count
        };
        let here = rows.len();
        let end = if next < line_count {
            next
        } else {
            line_count
        };
        let mut j = line;
        while j < end
            invariant
                line <= j,
                end <= line_count == line_rows.len(),
                j <= end || j == line,
                forall|x: int|
                    0 <= x < line_count ==> #[trigger] line_rows@[x] == if line <= x < j {
                        here
                    } else {
                        s1.line_rows[x]
                    },
            decreases end - j,
        {
            line_rows.set(j, here);
            j += 1;
        }
        assert forall|x: int| 0 <= x < line_count implies #[trigger] line_rows@[x] == if line <= x < next {
            here as usize
        } else {
            s1.line_rows[x]
        } by {
            assert(line_rows@[x] == if line <= x < j {
                here
            } else {
                s1.line_rows[x]
            });
            if end > line {
                assert(j == end);
            } else {
                assert(j == line);
            }
        }
        assert(line_rows@ =~= Seq::new(
            s1.line_rows.len(),
            |x: int|
                if line <= x < next {
                    here as usize
                } else {
                    s1.line_rows[x]
                },
        ));
        let bs = &wraps[i];
        let ghost line_start = rows@;
        assert(wv[i as int] == bs@);
        let mut start: usize = 0;
        let mut indent: usize = 0;
        let mut line_widest: usize = 0;
        let mut k: usize = 0;
        while k < bs.len()
            invariant
                k <= bs.len(),
                line < line_count == full.len(),
                wraps_fit(line, bs@, full@[line as int]),
                ({
                    let (wr, st, ind, w) = wrap_state(line, bs@, k as nat);
                    &&& rows@ == line_start + wr
                    &&& start == st
                    &&& indent == ind
                    &&& line_widest as nat == w
                }),
            decreases bs.len() - k,
        {
            let b = bs[k];
            proof {
                let (_, st, ind, _) = wrap_state(line, bs@, k as nat);
                assert(st <= bs@[k as int].index && ind + bs@[k as int].index - st <= usize::MAX);
            }
            rows.push(DisplayRow { line, start, end: b.index, indent, deleted: None, block: None, spacer: false });
            let cols = indent + (b.index - start);
            if cols > line_widest {
                line_widest = cols;
            }
            start = b.index;
            indent = b.indent;
            k += 1;
        }
        rows.push(DisplayRow { line, start, end: usize::MAX, indent, deleted: None, block: None, spacer: false });
        let last_cols: usize = if start == 0 {
            columns[line]
        } else {
            indent + full[line].saturating_sub(start)
        };
        if line_widest > widest {
            widest = line_widest;
        }
        if last_cols > widest {
            widest = last_cols;
        }
        match block {
            Some((at, count)) => {
                if at == line {
                    push_block(&mut rows, line, count);
                    has_block = true;
                }
            },
            None => {},
        }
        i += 1;
    }
    let ghost s = layout_upto(lines@, wv, columns@, full@, dels@, block, line_count, lines.len() as nat);
    let ghost before = rows@;
    let first = del;
    let last_line = if line_count > 0 {
        line_count - 1
    } else {
        0
    };
    while del < dels.len()
        invariant
            first <= del <= dels.len(),
            last_line == (if line_count > 0 {
                (line_count - 1) as usize
            } else {
                0
            }),
            before + trailing_deletions(dels@, line_count, first as nat) == rows@ + trailing_deletions(
                dels@,
                line_count,
                del as nat,
            ),
        decreases dels.len() - del,
    {
        let ghost cur = rows@;
        if dels[del].0 >= line_count {
            push_deleted(&mut rows, last_line, &dels[del].1);
        }
        proof {
            let (at, base) = dels@[del as int];
            let piece = if at >= line_count {
                deleted_rows(last_line, base)
            } else {
                Seq::empty()
            };
            assert(trailing_deletions(dels@, line_count, del as nat) == piece + trailing_deletions(
                dels@,
                line_count,
                (del + 1) as nat,
            ));
            assert(rows@ == cur + piece);
            assert(cur + (piece + trailing_deletions(dels@, line_count, (del + 1) as nat)) =~= rows@
                + trailing_deletions(dels@, line_count, (del + 1) as nat));
        }
        del += 1;
    }
    assert(rows@ + trailing_deletions(dels@, line_count, del as nat) =~= rows@);
    RowsLayout { rows, line_rows, max_row_cols: widest, has_block_rows: has_block }
}

/// The row a line's text starts on: its first part, at column 0, showing the file's own text.
pub open spec fn starts_line(row: DisplayRow, line: usize) -> bool {
    row.line == line && row.start == 0 && row.deleted is None && row.block is None && !row.spacer
}

proof fn lemma_wrap_rows(line: usize, bs: Seq<Boundary>, k: nat)
    requires
        k <= bs.len(),
    ensures
        wrap_state(line, bs, k).0.len() == k,
        k > 0 ==> starts_line(wrap_state(line, bs, k).0[0], line),
        k == 0 ==> wrap_state(line, bs, k).1 == 0,
    decreases k,
{
    if k > 0 {
        lemma_wrap_rows(line, bs, (k - 1) as nat);
        if k > 1 {
            assert(wrap_state(line, bs, k).0[0] == wrap_state(line, bs, (k - 1) as nat).0[0]);
        }
    }
}

proof fn lemma_place_deletions_grows(dels: Seq<(usize, Range<usize>)>, line: usize, s: LayoutState)
    ensures
        place_deletions(dels, line, s).rows.len() >= s.rows.len(),
        place_deletions(dels, line, s).rows.subrange(0, s.rows.len() as int) == s.rows,
        place_deletions(dels, line, s).line_rows == s.line_rows,
    decreases dels.len() - s.del,
{
    if s.del < dels.len() && dels[s.del as int].0 <= line {
        let (at, base) = dels[s.del as int];
        let rows = if at == line {
            s.rows + deleted_rows(line, base)
        } else {
            s.rows
        };
        let t = LayoutState { rows, del: s.del + 1, ..s };
        lemma_place_deletions_grows(dels, line, t);
        assert(rows.subrange(0, s.rows.len() as int) =~= s.rows);
        assert(place_deletions(dels, line, t).rows.subrange(0, s.rows.len() as int) =~= place_deletions(
            dels,
            line,
            t,
        ).rows.subrange(0, rows.len() as int).subrange(0, s.rows.len() as int));
    }
}

/// The visible lines are in file order, each once, within the file.
pub open spec fn lines_ascending(lines: Seq<usize>, line_count: usize) -> bool {
    &&& forall|i: int, j: int| 0 <= i < j < lines.len() ==> lines[i] < lines[j]
    &&& forall|i: int| 0 <= i < lines.len() ==> #[trigger] lines[i] < line_count
}

proof fn lemma_rows_grow(
    lines: Seq<usize>,
    wraps: Seq<Seq<Boundary>>,
    columns: Seq<usize>,
    full: Seq<usize>,
    dels: Seq<(usize, Range<usize>)>,
    block: Option<(usize, usize)>,
    line_count: usize,
    m: nat,
    n: nat,
)
    requires
        m <= n,
    ensures
        layout_upto(lines, wraps, columns, full, dels, block, line_count, m).rows.len() <= layout_upto(
            lines,
            wraps,
            columns,
            full,
            dels,
            block,
            line_count,
            n,
        ).rows.len(),
    decreases n,
{
    if m < n {
        let k = (n - 1) as nat;
        lemma_rows_grow(lines, wraps, columns, full, dels, block, line_count, m, k);
        let prev = layout_upto(lines, wraps, columns, full, dels, block, line_count, k);
        lemma_place_deletions_grows(dels, lines[k as int], prev);
    }
}

proof fn lemma_layout_line_rows(
    lines: Seq<usize>,
    wraps: Seq<Seq<Boundary>>,
    columns: Seq<usize>,
    full: Seq<usize>,
    dels: Seq<(usize, Range<usize>)>,
    block: Option<(usize, usize)>,
    line_count: usize,
    n: nat,
)
    requires
        n <= lines.len(),
        wraps.len() == lines.len(),
        lines_ascending(lines, line_count),
        layout_upto(lines, wraps, columns, full, dels, block, line_count, n).rows.len() <= usize::MAX,
    ensures
        ({
            let s = layout_upto(lines, wraps, columns, full, dels, block, line_count, n);
            &&& s.line_rows.len() == line_count
            &&& forall|i: int|
                0 <= i < n ==> {
                    let r = #[trigger] s.line_rows[lines[i] as int];
                    r < s.rows.len() && starts_line(s.rows[r as int], lines[i])
                }
            &&& n < lines.len() ==> forall|x: int|
                lines[n as int] <= x < line_count ==> #[trigger] s.line_rows[x] == 0
        }),
    decreases n,
{
    let s = layout_upto(lines, wraps, columns, full, dels, block, line_count, n);
    if n == 0 {
    } else {
        let k = (n - 1) as nat;
        lemma_rows_grow(lines, wraps, columns, full, dels, block, line_count, k, n);
        lemma_layout_line_rows(lines, wraps, columns, full, dels, block, line_count, k);
        let prev = layout_upto(lines, wraps, columns, full, dels, block, line_count, k);
        let line = lines[k as int];
        lemma_place_deletions_grows(dels, line, prev);
        let s1 = place_deletions(dels, line, prev);
        let (wrapped, start, indent, w) = wrap_state(line, wraps[k as int], wraps[k as int].len());
        lemma_wrap_rows(line, wraps[k as int], wraps[k as int].len());
        let here = s1.rows.len();
        let last = DisplayRow { line, start, end: usize::MAX, indent, deleted: None, block: None, spacer: false };
        let body = s1.rows + wrapped.push(last);
        assert(s.rows.subrange(0, body.len() as int) =~= body) by {
            match block {
                Some((at, count)) => {
                    if at == line {
                        assert(s.rows == body + block_rows(line, count));
                    }
                },
                None => {},
            }
        }
        assert(starts_line(body[here as int], line)) by {
            if wrapped.len() > 0 {
                assert(body[here as int] == wrapped[0]);
            } else {
                assert(body[here as int] == last);
            }
        }
        let next = if n < lines.len() {
            lines[n as int]
        } else {
            line_count
        };
        assert forall|i: int| 0 <= i < n implies {
            let r = #[trigger] s.line_rows[lines[i] as int];
            r < s.rows.len() && starts_line(s.rows[r as int], lines[i])
        } by {
            if i < k {
                assert(lines[i] < line);
                let r = prev.line_rows[lines[i] as int];
                assert(s.line_rows[lines[i] as int] == r);
                assert(s1.rows[r as int] == prev.rows[r as int]);
                assert(body[r as int] == s1.rows[r as int]);
                assert(s.rows[r as int] == body[r as int]);
            } else {
                assert(line < line_count);
                if n < lines.len() {
                    assert(line < lines[n as int]);
                }
                assert(line < next);
                assert(s1.line_rows.len() == line_count);
                assert(s.line_rows[line as int] == here);
                assert(s.rows[here as int] == body[here as int]);
            }
        }
        if n < lines.len() {
            assert forall|x: int| lines[n as int] <= x < line_count implies #[trigger] s.line_rows[x] == 0 by {
                assert(line < lines[n as int]);
                assert(prev.line_rows[x] == 0);
            }
        }
    }
}

/// The rows of `line` cut at its breaks `bs`: one per break, then its last row.
pub open spec fn wrapped_line(line: usize, bs: Seq<Boundary>) -> Seq<DisplayRow> {
    let (wrapped, start, indent, _) = wrap_state(line, bs, bs.len());
    wrapped.push(DisplayRow { line, start, end: usize::MAX, indent, deleted: None, block: None, spacer: false })
}

/// The rows of a line follow on each other: each a row of the line holding its text, the first from
/// column 0, each next one starting where the one before ended, the last running to the line's end.
pub open spec fn rows_follow_on(rows: Seq<DisplayRow>, line: usize) -> bool {
    &&& rows.len() > 0
    &&& rows[0].start == 0
    &&& rows.last().end == usize::MAX
    &&& forall|k: int| 0 <= k && k + 1 < rows.len() ==> #[trigger] rows[k].end == rows[k + 1].start
    &&& forall|k: int|
        0 <= k < rows.len() ==> (#[trigger] rows[k]).line == line && rows[k].deleted is None && rows[k].block is None
            && !rows[k].spacer
}

proof fn lemma_wrap_state_shape(line: usize, bs: Seq<Boundary>, k: nat)
    requires
        k <= bs.len(),
    ensures
        ({
            let (rows, start, _, _) = wrap_state(line, bs, k);
            &&& rows.len() == k
            &&& start == (if k == 0 { 0 } else { bs[k - 1].index })
            &&& forall|j: int| 0 <= j < k ==> (#[trigger] rows[j]).end == bs[j].index
            &&& forall|j: int| 0 <= j < k ==> (#[trigger] rows[j]).start == (if j == 0 { 0 } else { bs[j - 1].index })
            &&& forall|j: int|
                0 <= j < k ==> (#[trigger] rows[j]).line == line && rows[j].deleted is None && rows[j].block is None
                    && !rows[j].spacer
        }),
    decreases k,
{
    if k > 0 {
        lemma_wrap_state_shape(line, bs, (k - 1) as nat);
        let (prev, _, _, _) = wrap_state(line, bs, (k - 1) as nat);
        let (rows, _, _, _) = wrap_state(line, bs, k);
        assert forall|j: int| 0 <= j < k - 1 implies #[trigger] rows[j] == prev[j] by {}
    }
}

/// A line's rows follow on each other.
pub proof fn lemma_wrapped_line_follows_on(line: usize, bs: Seq<Boundary>)
    ensures
        rows_follow_on(wrapped_line(line, bs), line),
{
    lemma_wrap_state_shape(line, bs, bs.len());
    let w = wrapped_line(line, bs);
    let (wrapped, start, _, _) = wrap_state(line, bs, bs.len());
    assert forall|k: int| 0 <= k && k + 1 < w.len() implies #[trigger] w[k].end == w[k + 1].start by {
        assert(w[k] == wrapped[k]);
        if k + 1 < wrapped.len() {
            assert(w[k + 1] == wrapped[k + 1]);
        }
    }
    assert forall|k: int| 0 <= k < w.len() implies (#[trigger] w[k]).line == line && w[k].deleted is None
        && w[k].block is None && !w[k].spacer by {
        if k < wrapped.len() {
            assert(w[k] == wrapped[k]);
        }
    }
    if wrapped.len() > 0 {
        assert(w[0] == wrapped[0]);
    }
}

/// The rows of the first `l` lines of a file with no fold, nothing expanded and no diagnostic block.
pub open spec fn rows_before(wraps: Seq<Seq<Boundary>>, l: nat) -> Seq<DisplayRow>
    decreases l,
{
    if l == 0 {
        Seq::empty()
    } else {
        rows_before(wraps, (l - 1) as nat) + wrapped_line((l - 1) as usize, wraps[l - 1])
    }
}

/// Every line of the file visible, in order.
pub open spec fn all_lines(line_count: usize) -> Seq<usize> {
    Seq::new(line_count as nat, |i: int| i as usize)
}

proof fn lemma_rows_before_grow(wraps: Seq<Seq<Boundary>>, a: nat, b: nat)
    requires
        a <= b,
    ensures
        rows_before(wraps, a).len() <= rows_before(wraps, b).len(),
        rows_before(wraps, b).subrange(0, rows_before(wraps, a).len() as int) == rows_before(wraps, a),
    decreases b - a,
{
    if a < b {
        lemma_rows_before_grow(wraps, a, (b - 1) as nat);
        let x = rows_before(wraps, (b - 1) as nat);
        assert(rows_before(wraps, b).subrange(0, x.len() as int) =~= x);
        assert(rows_before(wraps, b).subrange(0, rows_before(wraps, a).len() as int) =~= x.subrange(
            0,
            rows_before(wraps, a).len() as int,
        ));
    }
}

proof fn lemma_plain_layout(
    wraps: Seq<Seq<Boundary>>,
    columns: Seq<usize>,
    full: Seq<usize>,
    line_count: usize,
    n: nat,
)
    requires
        wraps.len() == line_count,
        n <= line_count,
        rows_before(wraps, line_count as nat).len() <= usize::MAX,
    ensures
        ({
            let s = layout_upto(all_lines(line_count), wraps, columns, full, Seq::empty(), None, line_count, n);
            &&& s.rows == rows_before(wraps, n)
            &&& s.del == 0
            &&& s.line_rows.len() == line_count
            &&& forall|j: int| 0 <= j < n ==> #[trigger] s.line_rows[j] as int == rows_before(wraps, j as nat).len()
        }),
    decreases n,
{
    if n > 0 {
        lemma_plain_layout(wraps, columns, full, line_count, (n - 1) as nat);
        lemma_rows_before_grow(wraps, (n - 1) as nat, line_count as nat);
        let lines = all_lines(line_count);
        let prev = layout_upto(lines, wraps, columns, full, Seq::empty(), None, line_count, (n - 1) as nat);
        let line = lines[n - 1];
        assert(line == (n - 1) as usize);
        assert(place_deletions(Seq::empty(), line, prev) == prev);
        let s = layout_upto(lines, wraps, columns, full, Seq::empty(), None, line_count, n);
        assert(s.rows =~= rows_before(wraps, n));
        assert forall|j: int| 0 <= j < n implies #[trigger] s.line_rows[j] as int == rows_before(wraps, j as nat).len() by {
            if j < n - 1 {
                assert(s.line_rows[j] == prev.line_rows[j]);
            } else {
                assert(s.line_rows[j] == prev.rows.len() as usize);
            }
        }
    }
}

/// With every line shown and nothing expanded, folded or blocked, each line's rows follow on each other
/// and take the place `line_rows` gives it, up to where the next line's rows begin (or the end).
pub proof fn lemma_each_line_rows_are_contiguous(
    wraps: Seq<Seq<Boundary>>,
    columns: Seq<usize>,
    full: Seq<usize>,
    line_count: usize,
)
    requires
        wraps.len() == line_count,
        rows_before(wraps, line_count as nat).len() <= usize::MAX,
    ensures
        ({
            let s = layout_upto(
                all_lines(line_count),
                wraps,
                columns,
                full,
                Seq::empty(),
                None,
                line_count,
                line_count as nat,
            );
            let rows = s.rows + trailing_deletions(Seq::empty(), line_count, s.del);
            &&& s.line_rows.len() == line_count
            &&& forall|l: int|
                0 <= l < line_count ==> {
                    let r = #[trigger] s.line_rows[l] as int;
                    let w = wrapped_line(l as usize, wraps[l]);
                    &&& r + w.len() <= rows.len()
                    &&& rows.subrange(r, r + w.len()) == w
                    &&& rows_follow_on(w, l as usize)
                    &&& (l + 1 < line_count ==> s.line_rows[l + 1] as int == r + w.len())
                    &&& (l + 1 == line_count ==> rows.len() == r + w.len())
                }
        }),
{
    lemma_plain_layout(wraps, columns, full, line_count, line_count as nat);
    let s = layout_upto(all_lines(line_count), wraps, columns, full, Seq::empty(), None, line_count, line_count as nat);
    assert(trailing_deletions(Seq::<(usize, Range<usize>)>::empty(), line_count, s.del) =~= Seq::empty());
    let rows = s.rows + trailing_deletions(Seq::empty(), line_count, s.del);
    assert(rows =~= s.rows);
    assert forall|l: int| 0 <= l < line_count implies {
        let r = #[trigger] s.line_rows[l] as int;
        let w = wrapped_line(l as usize, wraps[l]);
        &&& r + w.len() <= rows.len()
        &&& rows.subrange(r, r + w.len()) == w
        &&& rows_follow_on(w, l as usize)
        &&& (l + 1 < line_count ==> s.line_rows[l + 1] as int == r + w.len())
        &&& (l + 1 == line_count ==> rows.len() == r + w.len())
    } by {
        let w = wrapped_line(l as usize, wraps[l]);
        let before = rows_before(wraps, l as nat);
        let upto = rows_before(wraps, (l + 1) as nat);
        assert(upto == before + w);
        lemma_rows_before_grow(wraps, (l + 1) as nat, line_count as nat);
        assert(rows.subrange(0, upto.len() as int) == upto);
        assert(rows.subrange(before.len() as int, (before.len() + w.len()) as int) =~= w) by {
            assert forall|k: int| 0 <= k < w.len() implies rows.subrange(before.len() as int, (before.len() + w.len()) as int)[k]
                == w[k] by {
                assert(rows[before.len() + k] == rows.subrange(0, upto.len() as int)[before.len() + k]);
                assert(upto[before.len() + k] == w[k]);
            }
        }
        lemma_wrapped_line_follows_on(l as usize, wraps[l]);
        if l + 1 < line_count {
            assert(s.line_rows[l + 1] as int == upto.len());
        }
    }
}

/// Every visible line's first screen row is where `line_rows` says its line starts: a row of that line, at
/// column 0, holding the file's text.
pub proof fn lemma_each_visible_line_starts_at_its_row(
    lines: Seq<usize>,
    wraps: Seq<Seq<Boundary>>,
    columns: Seq<usize>,
    full: Seq<usize>,
    dels: Seq<(usize, Range<usize>)>,
    block: Option<(usize, usize)>,
    line_count: usize,
)
    requires
        wraps.len() == lines.len(),
        lines_ascending(lines, line_count),
        layout_upto(lines, wraps, columns, full, dels, block, line_count, lines.len() as nat).rows.len()
            <= usize::MAX,
    ensures
        ({
            let s = layout_upto(lines, wraps, columns, full, dels, block, line_count, lines.len() as nat);
            let rows = s.rows + trailing_deletions(dels, line_count, s.del);
            forall|i: int|
                0 <= i < lines.len() ==> {
                    let r = #[trigger] s.line_rows[lines[i] as int];
                    r < rows.len() && starts_line(rows[r as int], lines[i])
                }
        }),
{
    lemma_layout_line_rows(lines, wraps, columns, full, dels, block, line_count, lines.len() as nat);
}

} // verus!
