//! Indent guides: each line's leading width in columns, the vertical guides that run down each indented
//! block (through blank lines inside it), and the block around the caret whose guide is highlighted.
//! A file is its lines, each with its line break, the last one after the final break.

use vstd::prelude::*;

verus! {

/// A tab reaches the next multiple of this many columns; one guide stands per this many columns.
pub const TAB_COLS: usize = 4;

/// How far the block search looks up and down from its row.
pub const SEARCH_ROW_LIMIT: usize = 25_000;

/// How far a blank row looks for a non-blank neighbour.
pub const SEARCH_WHITESPACE_ROW_LIMIT: usize = 2_500;

/// The leading width of `line` from char `i` on, `cols` columns already counted: spaces count one, a tab
/// reaches the next tab stop; none when only whitespace is left.
pub open spec fn indent_from(line: Seq<char>, i: nat, cols: nat) -> Option<nat>
    decreases line.len() - i,
{
    if i >= line.len() {
        None
    } else if line[i as int] == ' ' {
        indent_from(line, i + 1, cols + 1)
    } else if line[i as int] == '\t' {
        indent_from(line, i + 1, (cols + TAB_COLS - cols % (TAB_COLS as nat)) as nat)
    } else if line[i as int] == '\n' || line[i as int] == '\r' {
        None
    } else {
        Some(cols)
    }
}

/// The leading width of line `row` in columns; none for a blank line or past the end.
pub open spec fn indent_of(lines: Seq<Vec<char>>, row: int) -> Option<nat> {
    if 0 <= row < lines.len() {
        indent_from(lines[row]@, 0, 0)
    } else {
        None
    }
}

/// The leading width of `line` in columns: spaces count one, a tab reaches the next tab stop; none when the
/// line is blank (only whitespace), for blank lines have no indent of their own and guides span them.
pub fn indent_cols(line: &Vec<char>) -> (r: Option<usize>)
    requires
        line.len() * TAB_COLS <= usize::MAX,
    ensures
        r matches Some(w) ==> indent_from(line@, 0, 0) == Some(w as nat),
        r is None ==> indent_from(line@, 0, 0) is None,
{
    let mut cols: usize = 0;
    let mut i: usize = 0;
    while i < line.len()
        invariant
            i <= line.len(),
            line.len() * TAB_COLS <= usize::MAX,
            cols <= i * TAB_COLS,
            indent_from(line@, i as nat, cols as nat) == indent_from(line@, 0, 0),
        decreases line.len() - i,
    {
        let c = line[i];
        if c == ' ' {
            cols = cols + 1;
        } else if c == '\t' {
            cols = cols + (TAB_COLS - cols % TAB_COLS);
        } else if c == '\n' || c == '\r' {
            return None;
        } else {
            return Some(cols);
        }
        assert(cols <= (i + 1) * TAB_COLS) by (nonlinear_arith)
            requires
                cols <= i * TAB_COLS + TAB_COLS,
        ;
        proof {
            assert((i + 1) * TAB_COLS <= line.len() * TAB_COLS) by (nonlinear_arith)
                requires
                    i < line.len(),
            ;
        }
        i += 1;
    }
    None
}

/// Every line is short enough for its width to be counted in a `usize`.
pub open spec fn lines_fit(lines: Seq<Vec<char>>) -> bool {
    forall|i: int| 0 <= i < lines.len() ==> (#[trigger] lines[i])@.len() * TAB_COLS <= usize::MAX
}

/// The leading width of line `row`; none for a blank line or past the end.
fn indent_at(lines: &Vec<Vec<char>>, row: usize) -> (r: Option<usize>)
    requires
        lines_fit(lines@),
    ensures
        r matches Some(w) ==> indent_of(lines@, row as int) == Some(w as nat),
        r is None ==> indent_of(lines@, row as int) is None,
{
    if row < lines.len() {
        indent_cols(&lines[row])
    } else {
        None
    }
}

/// Row `r` is not blank, and when a `bound` is given its width is under it.
pub open spec fn qualifies(lines: Seq<Vec<char>>, r: int, bound: Option<nat>) -> bool {
    indent_of(lines, r) is Some && (bound is None || indent_of(lines, r)->0 < bound->0)
}

/// The last row in `lo..hi` that qualifies.
pub open spec fn find_back(lines: Seq<Vec<char>>, lo: int, hi: int, bound: Option<nat>) -> Option<int>
    decreases hi - lo,
{
    if hi <= lo {
        None
    } else if qualifies(lines, hi - 1, bound) {
        Some(hi - 1)
    } else {
        find_back(lines, lo, hi - 1, bound)
    }
}

/// The first row in `lo..=hi` that qualifies.
pub open spec fn find_fwd(lines: Seq<Vec<char>>, lo: int, hi: int, bound: Option<nat>) -> Option<int>
    decreases hi - lo + 1,
{
    if lo > hi {
        None
    } else if qualifies(lines, lo, bound) {
        Some(lo)
    } else {
        find_fwd(lines, lo + 1, hi, bound)
    }
}

/// The last row in `lo..hi` that is not blank and, with a `bound`, narrower than it; with its width.
fn search_back(lines: &Vec<Vec<char>>, lo: usize, hi: usize, bound: Option<usize>) -> (r: Option<(usize, usize)>)
    requires
        lines_fit(lines@),
    ensures
        match r {
            Some((row, w)) => find_back(
                lines@,
                lo as int,
                hi as int,
                match bound {
                    Some(b) => Some(b as nat),
                    None => None,
                },
            ) == Some(row as int) && indent_of(lines@, row as int) == Some(w as nat),
            None => find_back(
                lines@,
                lo as int,
                hi as int,
                match bound {
                    Some(b) => Some(b as nat),
                    None => None,
                },
            ) is None,
        },
{
    let ghost b = match bound {
        Some(b) => Some(b as nat),
        None => None,
    };
    let mut h = hi;
    while h > lo
        invariant
            lines_fit(lines@),
            b == match bound {
                Some(x) => Some(x as nat),
                None => None::<nat>,
            },
            lo < h ==> h <= hi,
            h <= hi || h <= lo,
            find_back(lines@, lo as int, h as int, b) == find_back(lines@, lo as int, hi as int, b),
        decreases h,
    {
        if let Some(w) = indent_at(lines, h - 1) {
            let ok = match bound {
                Some(limit) => w < limit,
                None => true,
            };
            if ok {
                return Some((h - 1, w));
            }
        }
        h -= 1;
    }
    None
}

/// The first row in `lo..=hi` that is not blank and, with a `bound`, narrower than it; with its width.
fn search_fwd(lines: &Vec<Vec<char>>, lo: usize, hi: usize, bound: Option<usize>) -> (r: Option<(usize, usize)>)
    requires
        lines_fit(lines@),
        hi < usize::MAX,
    ensures
        match r {
            Some((row, w)) => find_fwd(
                lines@,
                lo as int,
                hi as int,
                match bound {
                    Some(b) => Some(b as nat),
                    None => None,
                },
            ) == Some(row as int) && indent_of(lines@, row as int) == Some(w as nat),
            None => find_fwd(
                lines@,
                lo as int,
                hi as int,
                match bound {
                    Some(b) => Some(b as nat),
                    None => None,
                },
            ) is None,
        },
{
    let ghost b = match bound {
        Some(b) => Some(b as nat),
        None => None,
    };
    let mut l = lo;
    while l <= hi
        invariant
            lines_fit(lines@),
            b == match bound {
                Some(x) => Some(x as nat),
                None => None::<nat>,
            },
            hi < usize::MAX,
            lo <= l,
            l <= hi + 1 || l == lo,
            find_fwd(lines@, l as int, hi as int, b) == find_fwd(lines@, lo as int, hi as int, b),
        decreases hi + 1 - l,
    {
        if let Some(w) = indent_at(lines, l) {
            let ok = match bound {
                Some(limit) => w < limit,
                None => true,
            };
            if ok {
                return Some((l, w));
            }
        }
        l += 1;
    }
    None
}

/// The last row's index: one less than the number of lines (none for no lines).
pub open spec fn last_row(lines: Seq<Vec<char>>) -> int {
    if lines.len() > 0 {
        lines.len() - 1
    } else {
        0
    }
}

pub open spec fn sat_sub(a: int, b: int) -> int {
    if a >= b {
        a - b
    } else {
        0
    }
}

pub open spec fn min_of(a: int, b: int) -> int {
    if a <= b {
        a
    } else {
        b
    }
}

/// The row and width a block search starts from: `row` itself, or the next row when that opens a deeper
/// block; for a blank row, the deeper of its nearest non-blank neighbours (the one above on a tie).
pub open spec fn block_anchor(lines: Seq<Vec<char>>, row: int) -> Option<(int, nat)> {
    let deeper = indent_of(lines, row) is Some && indent_of(lines, row + 1) is Some && indent_of(lines, row)->0
        < indent_of(lines, row + 1)->0;
    let r = if deeper {
        row + 1
    } else {
        row
    };
    match indent_of(lines, r) {
        Some(t) => Some((r, t)),
        None => {
            let above = find_back(lines, sat_sub(r, SEARCH_WHITESPACE_ROW_LIMIT as int), r, None);
            let below = find_fwd(lines, r, min_of(r + SEARCH_WHITESPACE_ROW_LIMIT, last_row(lines)), None);
            match (above, below) {
                (Some(a), Some(b)) => if indent_of(lines, a)->0 >= indent_of(lines, b)->0 {
                    Some((a, indent_of(lines, a)->0))
                } else {
                    Some((b, indent_of(lines, b)->0))
                },
                (Some(a), None) => Some((a, indent_of(lines, a)->0)),
                (None, Some(b)) => Some((b, indent_of(lines, b)->0)),
                (None, None) => None,
            }
        },
    }
}

/// The block around `row`, as its first row, its last row and its guide's column: it runs between the
/// nearest narrower lines above and below its anchor (each search going at most `SEARCH_ROW_LIMIT` rows,
/// the block ending at the limit when nothing below is narrower); its guide stands at the lower line's
/// width when that is at least the upper line's, else at the upper line's. None from the last row on, with
/// no non-blank row to anchor to, or when nothing above is narrower.
pub open spec fn enclosing_block(lines: Seq<Vec<char>>, row: int) -> Option<(int, int, int)> {
    if row >= last_row(lines) {
        None
    } else {
        match block_anchor(lines, row) {
            None => None,
            Some((r, t)) => match find_back(lines, sat_sub(r, SEARCH_ROW_LIMIT as int), r, Some(t)) {
                None => None,
                Some(s) => {
                    let si = indent_of(lines, s)->0;
                    let limit = min_of(r + SEARCH_ROW_LIMIT, last_row(lines));
                    match find_fwd(lines, r, limit, Some(t)) {
                        Some(e) => {
                            let ei = indent_of(lines, e)->0;
                            Some((s, sat_sub(e, 1), if si <= ei { ei as int } else { si as int }))
                        },
                        None => Some((s, limit, si as int)),
                    }
                },
            },
        }
    }
}

/// The block around buffer row `row` whose indent guide is highlighted: the rows between the nearest
/// narrower lines above and below (a row that opens a deeper block counts as inside it; a blank row takes
/// the deeper of its non-blank neighbours), with the guide's column.
pub fn enclosing_indent(lines: &Vec<Vec<char>>, row: usize) -> (r: Option<(usize, usize, usize)>)
    requires
        lines_fit(lines@),
    ensures
        match r {
            Some((s, e, c)) => enclosing_block(lines@, row as int) == Some((s as int, e as int, c as int)),
            None => enclosing_block(lines@, row as int) is None,
        },
{
    let max_row = if lines.len() > 0 {
        lines.len() - 1
    } else {
        0
    };
    if row >= max_row {
        return None;
    }
    let mut row = row;
    let mut indent = indent_at(lines, row);
    if let (Some(current), Some(next)) = (indent, indent_at(lines, row + 1)) {
        if current < next {
            indent = Some(next);
            row += 1;
        }
    }
    let target = match indent {
        Some(t) => t,
        None => {
            let lo = if row >= SEARCH_WHITESPACE_ROW_LIMIT {
                row - SEARCH_WHITESPACE_ROW_LIMIT
            } else {
                0
            };
            let hi = if max_row - row > SEARCH_WHITESPACE_ROW_LIMIT {
                row + SEARCH_WHITESPACE_ROW_LIMIT
            } else {
                max_row
            };
            let above = search_back(lines, lo, row, None);
            let below = search_fwd(lines, row, hi, None);
            let (found_row, found) = match (above, below) {
                (Some(a), Some(b)) => if a.1 >= b.1 {
                    a
                } else {
                    b
                },
                (Some(a), None) => a,
                (None, Some(b)) => b,
                (None, None) => return None,
            };
            row = found_row;
            found
        },
    };
    let lo = if row >= SEARCH_ROW_LIMIT {
        row - SEARCH_ROW_LIMIT
    } else {
        0
    };
    let (start_row, start_indent) = match search_back(lines, lo, row, Some(target)) {
        Some(found) => found,
        None => return None,
    };
    let limit = if max_row - row > SEARCH_ROW_LIMIT {
        row + SEARCH_ROW_LIMIT
    } else {
        max_row
    };
    let (end_row, end_indent) = match search_fwd(lines, row, limit, Some(target)) {
        Some((r, i)) => (if r >= 1 {
            r - 1
        } else {
            0
        }, Some(i)),
        None => (limit, None),
    };
    let column = match end_indent {
        Some(end) => if start_indent <= end {
            end
        } else {
            start_indent
        },
        None => start_indent,
    };
    Some((start_row, end_row, column))
}

/// How far past the visible rows a blank row looks for the next non-blank line.
pub const TRAILING_LIMIT: usize = 25;

/// A guide: its first row, its last row (inclusive) and its depth.
pub type Guide = (usize, usize, usize);

/// Where the guide scan is: the next row, the guides still open (shallowest first), and those closed.
pub struct GuideScan {
    pub row: int,
    pub open: Seq<(int, int, int)>,
    pub closed: Seq<(int, int, int)>,
}

/// The first non-blank row in `lo..=hi`, with all its properties.
proof fn lemma_find_fwd(lines: Seq<Vec<char>>, lo: int, hi: int, bound: Option<nat>)
    ensures
        find_fwd(lines, lo, hi, bound) matches Some(f) ==> lo <= f <= hi && qualifies(lines, f, bound),
    decreases hi - lo + 1,
{
    if lo <= hi && !qualifies(lines, lo, bound) {
        lemma_find_fwd(lines, lo + 1, hi, bound);
    }
}

/// What row `row` contributes: its guide depth, the last row the guides it opens reach, and the row the
/// scan has reached. A blank row takes the depth of the next non-blank line (looked for up to
/// `TRAILING_LIMIT` rows past the last visible one), and the scan skips to that line; with none, depth none.
pub open spec fn row_scan(lines: Seq<Vec<char>>, end_row: int, row: int) -> (nat, int, int) {
    match indent_of(lines, row) {
        Some(c) => (c / (TAB_COLS as nat), row, row),
        None => match find_fwd(lines, row + 1, min_of(lines.len() - 1, end_row + TRAILING_LIMIT), None) {
            Some(f) => (indent_of(lines, f)->0 / (TAB_COLS as nat), min_of(f, end_row), f),
            None => (0, row, min_of(lines.len() as int, end_row + TRAILING_LIMIT + 1)),
        },
    }
}

/// The open guides from depth `depth` up, closed innermost first; when the row reaches further, they end
/// on the row before it.
pub open spec fn closing(open: Seq<(int, int, int)>, depth: nat, first_row: int, last_row: int) -> Seq<(int, int, int)> {
    Seq::new(
        (open.len() - depth) as nat,
        |k: int|
            {
                let g = open[open.len() - 1 - k];
                if last_row != first_row {
                    (g.0, sat_sub(first_row, 1), g.2)
                } else {
                    g
                }
            },
    )
}

/// The scan after one more row: guides deeper than the row's depth close, missing levels open at the row,
/// and every open guide reaches the row's last row.
pub open spec fn scan_step(lines: Seq<Vec<char>>, end_row: int, s: GuideScan) -> GuideScan {
    let first_row = s.row;
    let (depth, last_row, reached) = row_scan(lines, end_row, first_row);
    let cur = s.open.len();
    let open = if depth < cur {
        s.open.take(depth as int)
    } else {
        s.open + Seq::new((depth - cur) as nat, |k: int| (first_row, last_row, cur + k))
    };
    let closed = if depth < cur {
        s.closed + closing(s.open, depth, first_row, last_row)
    } else {
        s.closed
    };
    GuideScan { row: reached + 1, open: open.map_values(|g: (int, int, int)| (g.0, last_row, g.2)), closed }
}

/// The scan run on until it passes `end_row`.
pub open spec fn scan_run(lines: Seq<Vec<char>>, end_row: int, s: GuideScan) -> GuideScan
    decreases (if s.row <= end_row { end_row + 1 - s.row } else { 0 }),
{
    if s.row > end_row {
        s
    } else {
        let t = scan_step(lines, end_row, s);
        if t.row <= s.row {
            s
        } else {
            scan_run(lines, end_row, t)
        }
    }
}

/// The indent guides over rows `first..last`: the closed ones in the order they closed, then those still
/// open, shallowest first.
pub open spec fn guides_of(lines: Seq<Vec<char>>, first: int, last: int) -> Seq<(int, int, int)> {
    let n = lines.len() as int;
    if n == 0 || first >= n {
        Seq::empty()
    } else {
        let end_row = sat_sub(min_of(last, n), 1);
        let fin = scan_run(lines, end_row, GuideScan { row: first, open: Seq::empty(), closed: Seq::empty() });
        fin.closed + fin.open
    }
}

pub open spec fn guides_view(gs: Seq<Guide>) -> Seq<(int, int, int)> {
    gs.map_values(|g: Guide| (g.0 as int, g.1 as int, g.2 as int))
}

pub open spec fn scan_of(row: usize, open: Seq<Guide>, closed: Seq<Guide>) -> GuideScan {
    GuideScan { row: row as int, open: guides_view(open), closed: guides_view(closed) }
}

/// Indent-guide segments `(first row, last row, depth)` over rows `first..last`: one guide per indent
/// level of a block, continuing through the blank lines inside it (a blank line takes the depth of the
/// next non-blank one), and closing when the indent drops below its level.
pub fn indent_guides(lines: &Vec<Vec<char>>, first: usize, last: usize) -> (r: Vec<Guide>)
    requires
        lines_fit(lines@),
        lines.len() < usize::MAX,
    ensures
        guides_view(r@) == guides_of(lines@, first as int, last as int),
{
    let n = lines.len();
    if n == 0 || first >= n {
        let none: Vec<Guide> = Vec::new();
        assert(guides_view(none@) =~= Seq::empty());
        return none;
    }
    let end_row = if last < n {
        if last > 0 { last - 1 } else { 0 }
    } else {
        n - 1
    };
    let scan_hi = if n - 1 - end_row > TRAILING_LIMIT {
        end_row + TRAILING_LIMIT
    } else {
        n - 1
    };
    let give_up = if n - end_row > TRAILING_LIMIT + 1 {
        end_row + TRAILING_LIMIT + 1
    } else {
        n
    };
    let mut closed: Vec<Guide> = Vec::new();
    let mut open: Vec<Guide> = Vec::new();
    let mut row = first;
    let ghost init = scan_of(first, open@, closed@);
    let ghost fin = scan_run(lines@, end_row as int, init);
    assert(init == GuideScan { row: first as int, open: Seq::empty(), closed: Seq::empty() }) by {
        assert(guides_view(open@) =~= Seq::empty());
        assert(guides_view(closed@) =~= Seq::empty());
    }
    while row <= end_row
        invariant
            lines_fit(lines@),
            n == lines.len() < usize::MAX,
            end_row < n,
            scan_hi as int == min_of(n - 1, end_row + TRAILING_LIMIT),
            give_up as int == min_of(n as int, end_row + TRAILING_LIMIT + 1),
            row <= n + 1,
            scan_run(lines@, end_row as int, scan_of(row, open@, closed@)) == fin,
        decreases n + 1 - row,
    {
        let ghost s = scan_of(row, open@, closed@);
        let ghost t = scan_step(lines@, end_row as int, s);
        let first_row = row;
        let mut last_row = row;
        let depth = match indent_at(lines, row) {
            Some(c) => c / TAB_COLS,
            None => {
                proof {
                    lemma_find_fwd(lines@, row + 1, scan_hi as int, None);
                }
                match search_fwd(lines, row + 1, scan_hi, None) {
                    Some((f, c)) => {
                        last_row = if f < end_row { f } else { end_row };
                        row = f;
                        c / TAB_COLS
                    },
                    None => {
                        row = give_up;
                        0
                    },
                }
            },
        };
        assert(row_scan(lines@, end_row as int, first_row as int) == (depth as nat, last_row as int, row as int));
        let cur = open.len();
        let ghost before = open@;
        let ghost closed0 = closed@;
        if depth < cur {
            let mut k: usize = 0;
            while k < cur - depth
                invariant
                    depth < cur == before.len(),
                    k <= cur - depth,
                    open@ == before.take(cur - k),
                    guides_view(closed@) == guides_view(closed0) + closing(guides_view(before), depth as nat, first_row as int, last_row as int).take(k as int),
                decreases cur - depth - k,
            {
                let ghost closed1 = closed@;
                let g = open.pop().unwrap();
                let ind = if last_row != first_row {
                    (g.0, if first_row >= 1 { first_row - 1 } else { 0 }, g.2)
                } else {
                    g
                };
                closed.push(ind);
                proof {
                    let c = closing(guides_view(before), depth as nat, first_row as int, last_row as int);
                    assert(g == before[cur - k - 1]);
                    assert(c.take(k + 1) =~= c.take(k as int).push(c[k as int]));
                    assert(guides_view(closed@) =~= guides_view(closed1).push((ind.0 as int, ind.1 as int, ind.2 as int)));
                    assert(open@ =~= before.take(cur - (k + 1)));
                }
                k += 1;
            }
        } else if depth > cur {
            let mut nd = cur;
            while nd < depth
                invariant
                    cur <= nd <= depth,
                    cur == before.len(),
                    guides_view(open@) == guides_view(before) + Seq::new((nd - cur) as nat, |k: int| (first_row as int, last_row as int, cur + k)),
                    closed@ == closed0,
                decreases depth - nd,
            {
                let ghost open1 = open@;
                open.push((first_row, last_row, nd));
                proof {
                    assert(guides_view(open@) =~= guides_view(open1).push((first_row as int, last_row as int, nd as int)));
                    assert(Seq::new((nd + 1 - cur) as nat, |k: int| (first_row as int, last_row as int, cur + k)) =~= Seq::new(
                        (nd - cur) as nat,
                        |k: int| (first_row as int, last_row as int, cur + k),
                    ).push((first_row as int, last_row as int, nd as int)));
                }
                nd += 1;
            }
        }
        let ghost grown = open@;
        let mut i: usize = 0;
        while i < open.len()
            invariant
                i <= open.len() == grown.len(),
                forall|j: int| 0 <= j < i ==> #[trigger] open@[j] == (grown[j].0, last_row, grown[j].2),
                forall|j: int| i <= j < open.len() ==> #[trigger] open@[j] == grown[j],
            decreases open.len() - i,
        {
            let g = open[i];
            open.set(i, (g.0, last_row, g.2));
            i += 1;
        }
        row += 1;
        proof {
            if depth < cur {
                assert(guides_view(grown) =~= guides_view(before).take(depth as int));
            } else if depth == cur {
                assert(guides_view(grown) =~= guides_view(before) + Seq::new(0, |k: int| (first_row as int, last_row as int, cur + k)));
                assert(closed@ == closed0);
            }
            assert(guides_view(open@) =~= t.open);
            assert(guides_view(closed@) =~= t.closed);
            assert(scan_of(row, open@, closed@) == t);
        }
    }
    let mut i: usize = 0;
    let ghost kept = closed@;
    while i < open.len()
        invariant
            i <= open.len(),
            closed@ == kept + open@.take(i as int),
        decreases open.len() - i,
    {
        closed.push(open[i]);
        i += 1;
    }
    closed
}

/// Every guide lies in rows `first..=end_row` and starts no later than it ends; open guides start before
/// the scan's row.
pub open spec fn scan_ok(s: GuideScan, first: int, end_row: int) -> bool {
    &&& 0 <= first <= s.row
    &&& forall|i: int|
        0 <= i < s.open.len() ==> {
            let g = #[trigger] s.open[i];
            first <= g.0 < s.row && g.0 <= g.1 <= end_row
        }
    &&& forall|i: int|
        0 <= i < s.closed.len() ==> {
            let g = #[trigger] s.closed[i];
            first <= g.0 <= g.1 <= end_row
        }
}

proof fn lemma_scan_step_ok(lines: Seq<Vec<char>>, first: int, end_row: int, s: GuideScan)
    requires
        scan_ok(s, first, end_row),
        s.row <= end_row,
        end_row < lines.len(),
    ensures
        scan_ok(scan_step(lines, end_row, s), first, end_row),
        scan_step(lines, end_row, s).row > s.row,
{
    let first_row = s.row;
    let (depth, last_row, reached) = row_scan(lines, end_row, first_row);
    lemma_find_fwd(lines, first_row + 1, min_of(lines.len() - 1, end_row + TRAILING_LIMIT), None);
    assert(first_row <= last_row <= end_row);
    assert(reached >= first_row);
    let t = scan_step(lines, end_row, s);
    let cur = s.open.len();
    if depth < cur {
        let c = closing(s.open, depth, first_row, last_row);
        assert forall|i: int| 0 <= i < c.len() implies first <= (#[trigger] c[i]).0 <= c[i].1 <= end_row by {
            let g = s.open[s.open.len() - 1 - i];
            assert(first <= g.0 < first_row && g.0 <= g.1 <= end_row);
            assert(c[i] == (if last_row != first_row {
                (g.0, sat_sub(first_row, 1), g.2)
            } else {
                g
            }));
        }
        assert forall|i: int| 0 <= i < t.closed.len() implies first <= (#[trigger] t.closed[i]).0 <= t.closed[i].1 <= end_row by {
            if i >= s.closed.len() {
                assert(t.closed[i] == c[i - s.closed.len()]);
            }
        }
    } else {
        let pushed = s.open + Seq::new((depth - cur) as nat, |k: int| (first_row, last_row, cur + k));
        assert forall|i: int| 0 <= i < pushed.len() implies first <= (#[trigger] pushed[i]).0 <= first_row by {
            if i >= cur {
                assert(pushed[i] == (first_row, last_row, cur + (i - cur)));
            }
        }
    }
}

proof fn lemma_scan_run_ok(lines: Seq<Vec<char>>, first: int, end_row: int, s: GuideScan)
    requires
        scan_ok(s, first, end_row),
        end_row < lines.len(),
    ensures
        scan_ok(scan_run(lines, end_row, s), first, end_row),
    decreases (if s.row <= end_row { end_row + 1 - s.row } else { 0 }),
{
    if s.row <= end_row {
        lemma_scan_step_ok(lines, first, end_row, s);
        lemma_scan_run_ok(lines, first, end_row, scan_step(lines, end_row, s));
    }
}

/// The guides lie in the rows asked for: each starts at or after `first`, ends no earlier than it starts,
/// and ends on a row of the file before `last` (on row 0 when `last` is 0).
pub proof fn lemma_guides_lie_in_view(lines: Seq<Vec<char>>, first: int, last: int)
    requires
        0 <= first,
        0 <= last,
    ensures
        forall|i: int|
            0 <= i < guides_of(lines, first, last).len() ==> {
                let g = #[trigger] guides_of(lines, first, last)[i];
                &&& first <= g.0 <= g.1 < lines.len()
                &&& g.1 < last || g.1 == 0
            },
{
    let n = lines.len() as int;
    if n > 0 && first < n {
        let end_row = sat_sub(min_of(last, n), 1);
        let init = GuideScan { row: first, open: Seq::empty(), closed: Seq::empty() };
        lemma_scan_run_ok(lines, first, end_row, init);
        let fin = scan_run(lines, end_row, init);
        let all = fin.closed + fin.open;
        assert forall|i: int| 0 <= i < all.len() implies first <= (#[trigger] all[i]).0 <= all[i].1 <= end_row by {
            if i >= fin.closed.len() {
                assert(all[i] == fin.open[i - fin.closed.len()]);
            }
        }
    }
}

/// Whether a guide is the highlighted one: it stands at the column of the caret's block and shares a row
/// with it.
pub fn guide_is_active(guide: Guide, block: Option<(usize, usize, usize)>) -> (r: bool)
    ensures
        r == match block {
            Some((start, end, column)) => guide.2 * TAB_COLS == column && start <= guide.1 && guide.0 <= end,
            None => false,
        },
{
    match block {
        Some((start, end, column)) => column % TAB_COLS == 0 && column / TAB_COLS == guide.2 && start <= guide.1
            && guide.0 <= end,
        None => false,
    }
}

} // verus!
