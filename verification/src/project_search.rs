//! Project search: files kept in path order as they arrive, the rows and the list of matches they give,
//! stepping through the matches, what opening a row asks for, replacing the hits in a text, the panel's
//! title, and what its keys do.

use vstd::prelude::*;
use std::ops::Range;
use crate::fuzzy::{utf8_len, utf8_len_of};
use crate::palette_order::text_lt;
use crate::text::{chars_of, same_text, string_of_range};

verus! {

/// One line of a result excerpt: its 0-based number in the file, its text, and the byte ranges that matched.
pub struct LineResult {
    pub number: usize,
    pub text: String,
    pub hits: Vec<Range<usize>>,
}

/// The matches in one file: runs of nearby lines.
pub struct FileResult {
    pub path: String,
    pub excerpts: Vec<Vec<LineResult>>,
}

pub struct LineView {
    pub number: usize,
    pub text: Seq<char>,
    pub hits: Seq<Range<usize>>,
}

pub struct FileResultView {
    pub path: Seq<char>,
    pub excerpts: Seq<Seq<LineView>>,
}

impl View for LineResult {
    type V = LineView;

    open spec fn view(&self) -> LineView {
        LineView { number: self.number, text: self.text@, hits: self.hits@ }
    }
}

pub open spec fn lines_view(lines: Seq<LineResult>) -> Seq<LineView> {
    lines.map_values(|l: LineResult| l@)
}

impl View for FileResult {
    type V = FileResultView;

    open spec fn view(&self) -> FileResultView {
        FileResultView {
            path: self.path@,
            excerpts: self.excerpts@.map_values(|e: Vec<LineResult>| lines_view(e@)),
        }
    }
}

pub open spec fn results_view(results: Seq<FileResult>) -> Seq<FileResultView> {
    results.map_values(|f: FileResult| f@)
}

/// A row of the results list.
#[derive(Clone, Copy, Debug, PartialEq, Eq, Structural)]
pub enum Row {
    /// A file's header.
    Header(usize),
    /// A line of one of a file's excerpts.
    Line { file: usize, excerpt: usize, line: usize },
    /// The gap between two excerpts of a file.
    Separator,
}

/// Where opening a row goes: a file, and a 1-based line and column.
#[derive(Clone, Debug, PartialEq, Eq)]
pub struct OpenRequest {
    pub path: String,
    pub row: u32,
    pub column: u32,
}

/// The files are in path order.
pub open spec fn in_path_order(results: Seq<FileResultView>) -> bool {
    forall|i: int, j: int| 0 <= i < j < results.len() ==> !text_lt(results[j].path, results[i].path)
}

/// How many files sort before `path`.
pub open spec fn insert_point(results: Seq<FileResultView>, path: Seq<char>, k: nat) -> nat
    decreases results.len() - k,
{
    if k < results.len() && text_lt(results[k as int].path, path) {
        insert_point(results, path, k + 1)
    } else {
        k
    }
}

/// Add a file that arrived to the results, keeping them in path order (before files with the same path).
pub fn insert_result(results: &mut Vec<FileResult>, file: FileResult)
    requires
        in_path_order(results_view(old(results)@)),
    ensures
        results_view(final(results)@) == results_view(old(results)@).insert(
            insert_point(results_view(old(results)@), file@.path, 0) as int,
            file@,
        ),
        in_path_order(results_view(final(results)@)),
{
    let ghost before = results_view(results@);
    let path = chars_of(file.path.as_str());
    let mut at: usize = 0;
    while at < results.len() && crate::palette_order::text_less(&chars_of(results[at].path.as_str()), &path)
        invariant
            at <= results.len(),
            results_view(results@) == before,
            path@ == file@.path,
            insert_point(before, file@.path, at as nat) == insert_point(before, file@.path, 0),
            forall|q: int| 0 <= q < at ==> text_lt(#[trigger] before[q].path, file@.path),
        decreases results.len() - at,
    {
        at += 1;
    }
    let ghost fv = file@;
    results.insert(at, file);
    proof {
        let after = results_view(results@);
        assert(after =~= before.insert(at as int, fv));
        assert forall|i: int, j: int| 0 <= i < j < after.len() implies !text_lt(after[j].path, after[i].path) by {
            crate::palette_order::lemma_text_order_facts();
            if j < at {
                assert(after[i] == before[i] && after[j] == before[j]);
            } else if j == at {
                assert(after[i] == before[i]);
                assert(text_lt(before[i].path, fv.path));
            } else if i < at {
                assert(after[i] == before[i] && after[j] == before[j - 1]);
            } else if i == at {
                assert(after[j] == before[j - 1]);
                if at < before.len() {
                    assert(!text_lt(before[at as int].path, fv.path));
                    if (at as int) < j - 1 {
                        assert(!text_lt(before[j - 1].path, before[at as int].path));
                    }
                }
            } else {
                assert(after[i] == before[i - 1] && after[j] == before[j - 1]);
            }
        }
    }
}

/// One match: file, excerpt, line and hit, as indices.
pub type MatchAt = (usize, usize, usize, usize);

/// The rows of excerpt `e` of file `f`, which has `n` lines: a separator unless it is the first, then its lines.
pub open spec fn excerpt_rows(f: nat, e: nat, n: nat) -> Seq<Row> {
    (if e > 0 {
        seq![Row::Separator]
    } else {
        Seq::empty()
    }) + Seq::new(n, |l: int| Row::Line { file: f as usize, excerpt: e as usize, line: l as usize })
}

/// The rows of file `f`: its header, then its first `k` excerpts.
pub open spec fn file_rows(f: nat, ex: Seq<Seq<LineView>>, k: nat) -> Seq<Row>
    decreases k,
{
    if k == 0 {
        seq![Row::Header(f as usize)]
    } else {
        file_rows(f, ex, (k - 1) as nat) + excerpt_rows(f, (k - 1) as nat, ex[k - 1].len())
    }
}

/// The rows of the first `n` files.
pub open spec fn rows_of(results: Seq<FileResultView>, n: nat) -> Seq<Row>
    decreases n,
{
    if n == 0 {
        Seq::empty()
    } else {
        let f = (n - 1) as nat;
        rows_of(results, f) + file_rows(f, results[f as int].excerpts, results[f as int].excerpts.len())
    }
}

/// The matches of the first `m` lines of excerpt `e` of file `f`, hit by hit.
pub open spec fn excerpt_matches(f: nat, e: nat, lines: Seq<LineView>, m: nat) -> Seq<MatchAt>
    decreases m,
{
    if m == 0 {
        Seq::empty()
    } else {
        let l = (m - 1) as nat;
        excerpt_matches(f, e, lines, l) + Seq::new(
            lines[l as int].hits.len(),
            |h: int| (f as usize, e as usize, l as usize, h as usize),
        )
    }
}

/// The matches of the first `k` excerpts of file `f`.
pub open spec fn file_matches(f: nat, ex: Seq<Seq<LineView>>, k: nat) -> Seq<MatchAt>
    decreases k,
{
    if k == 0 {
        Seq::empty()
    } else {
        let e = (k - 1) as nat;
        file_matches(f, ex, e) + excerpt_matches(f, e, ex[e as int], ex[e as int].len())
    }
}

/// The matches of the first `n` files, in result order.
pub open spec fn matches_of(results: Seq<FileResultView>, n: nat) -> Seq<MatchAt>
    decreases n,
{
    if n == 0 {
        Seq::empty()
    } else {
        let f = (n - 1) as nat;
        matches_of(results, f) + file_matches(f, results[f as int].excerpts, results[f as int].excerpts.len())
    }
}

fn push_excerpt(rows: &mut Vec<Row>, found: &mut Vec<MatchAt>, f: usize, e: usize, lines: &Vec<LineResult>)
    ensures
        final(rows)@ == old(rows)@ + excerpt_rows(f as nat, e as nat, lines.len() as nat),
        final(found)@ == old(found)@ + excerpt_matches(f as nat, e as nat, lines_view(lines@), lines.len() as nat),
{
    let ghost rows0 = rows@;
    let ghost found0 = found@;
    let ghost lv = lines_view(lines@);
    if e > 0 {
        rows.push(Row::Separator);
    }
    let ghost sep = rows@;
    let mut l: usize = 0;
    while l < lines.len()
        invariant
            l <= lines.len(),
            lv == lines_view(lines@),
            sep == rows0 + (if e > 0 { seq![Row::Separator] } else { Seq::<Row>::empty() }),
            rows@ == sep + Seq::new(l as nat, |x: int| Row::Line { file: f, excerpt: e, line: x as usize }),
            found@ == found0 + excerpt_matches(f as nat, e as nat, lv, l as nat),
        decreases lines.len() - l,
    {
        rows.push(Row::Line { file: f, excerpt: e, line: l });
        assert(rows@ =~= sep + Seq::new((l + 1) as nat, |x: int| Row::Line { file: f, excerpt: e, line: x as usize }));
        let ghost before = found@;
        let hits = lines[l].hits.len();
        let mut h: usize = 0;
        while h < hits
            invariant
                h <= hits,
                hits == lv[l as int].hits.len(),
                found@ == before + Seq::new(h as nat, |x: int| (f, e, l, x as usize)),
            decreases hits - h,
        {
            found.push((f, e, l, h));
            assert(found@ =~= before + Seq::new((h + 1) as nat, |x: int| (f, e, l, x as usize)));
            h += 1;
        }
        assert(found@ =~= found0 + excerpt_matches(f as nat, e as nat, lv, (l + 1) as nat));
        l += 1;
    }
    assert(rows@ =~= rows0 + excerpt_rows(f as nat, e as nat, lines.len() as nat));
}

/// The rows of the results list and all their matches, in order.
pub fn rows_and_matches(results: &Vec<FileResult>) -> (r: (Vec<Row>, Vec<MatchAt>))
    ensures
        r.0@ == rows_of(results_view(results@), results.len() as nat),
        r.1@ == matches_of(results_view(results@), results.len() as nat),
{
    let ghost rv = results_view(results@);
    let mut rows: Vec<Row> = Vec::new();
    let mut found: Vec<MatchAt> = Vec::new();
    let mut f: usize = 0;
    while f < results.len()
        invariant
            f <= results.len(),
            rv == results_view(results@),
            rows@ == rows_of(rv, f as nat),
            found@ == matches_of(rv, f as nat),
        decreases results.len() - f,
    {
        let ghost ex = rv[f as int].excerpts;
        let ghost rows_before = rows@;
        let ghost found_before = found@;
        rows.push(Row::Header(f));
        let excerpts = &results[f].excerpts;
        let mut e: usize = 0;
        while e < excerpts.len()
            invariant
                e <= excerpts.len(),
                ex == excerpts@.map_values(|x: Vec<LineResult>| lines_view(x@)),
                rows@ == rows_before + file_rows(f as nat, ex, e as nat),
                found@ == found_before + file_matches(f as nat, ex, e as nat),
            decreases excerpts.len() - e,
        {
            push_excerpt(&mut rows, &mut found, f, e, &excerpts[e]);
            assert(rows@ =~= rows_before + file_rows(f as nat, ex, (e + 1) as nat));
            assert(found@ =~= found_before + file_matches(f as nat, ex, (e + 1) as nat));
            e += 1;
        }
        f += 1;
    }
    (rows, found)
}

/// The active match after the rows were rebuilt: the first one when none was active, and none when the one
/// that was is gone.
pub open spec fn refreshed_active(active: Option<usize>, count: usize) -> Option<usize> {
    match active {
        None => if count > 0 {
            Some(0)
        } else {
            None
        },
        Some(a) => if a < count {
            Some(a)
        } else {
            None
        },
    }
}

pub fn refresh_active(active: Option<usize>, count: usize) -> (r: Option<usize>)
    ensures
        r == refreshed_active(active, count),
{
    match active {
        None => if count > 0 {
            Some(0)
        } else {
            None
        },
        Some(a) => if a < count {
            Some(a)
        } else {
            None
        },
    }
}

/// The active match after stepping forward or back through `count` matches, wrapping around (the next one
/// modulo `count`); the first one when none was active, and unchanged when there are none.
pub open spec fn stepped(active: Option<usize>, count: usize, forward: bool) -> Option<usize> {
    if count == 0 {
        active
    } else {
        match active {
            Some(a) => Some(
                if forward {
                    if a + 1 >= count {
                        0
                    } else {
                        (a + 1) as usize
                    }
                } else {
                    if a == 0 {
                        (count - 1) as usize
                    } else {
                        (a - 1) as usize
                    }
                },
            ),
            None => Some(0),
        }
    }
}

pub fn step_match(active: Option<usize>, count: usize, forward: bool) -> (r: Option<usize>)
    requires
        active matches Some(a) ==> a < count,
    ensures
        r == stepped(active, count, forward),
        r matches Some(a) ==> a < count,
        active is Some && forward && active->0 + 1 < count ==> r == Some((active->0 + 1) as usize),
        active is Some && !forward && 0 < active->0 ==> r == Some((active->0 - 1) as usize),
{
    if count == 0 {
        return active;
    }
    match active {
        Some(a) => Some(
            if forward {
                if a + 1 == count {
                    0
                } else {
                    a + 1
                }
            } else {
                if a == 0 {
                    count - 1
                } else {
                    a - 1
                }
            },
        ),
        None => Some(0),
    }
}

/// Stepping moves to the next (or previous) match and wraps only past the last (or first) one; with no
/// active match it starts at the first.
pub proof fn lemma_step_moves_by_one(a: usize, count: usize)
    requires
        a < count,
    ensures
        a + 1 < count ==> stepped(Some(a), count, true) == Some((a + 1) as usize),
        a + 1 == count ==> stepped(Some(a), count, true) == Some(0usize),
        0 < a ==> stepped(Some(a), count, false) == Some((a - 1) as usize),
        a == 0 ==> stepped(Some(a), count, false) == Some((count - 1) as usize),
        stepped(None, count, true) == Some(0usize) && stepped(None, count, false) == Some(0usize),
{
}

/// Stepping back after stepping forward returns to the same match.
pub proof fn lemma_step_back_undoes_step(a: usize, count: usize)
    requires
        a < count,
    ensures
        stepped(stepped(Some(a), count, true), count, false) == Some(a),
{
}

/// All the lines of a file's excerpts, in order.
pub open spec fn flat_lines(ex: Seq<Seq<LineView>>) -> Seq<LineView>
    decreases ex.len(),
{
    if ex.len() == 0 {
        Seq::empty()
    } else {
        flat_lines(ex.drop_last()) + ex.last()
    }
}

/// The line looked for: one with a hit (`None`), or the one with the given number.
pub open spec fn wanted(line: LineView, want: Option<usize>) -> bool {
    match want {
        None => line.hits.len() > 0,
        Some(n) => line.number == n,
    }
}

/// The first line that is wanted.
pub open spec fn first_where(lines: Seq<LineView>, want: Option<usize>) -> Option<LineView>
    decreases lines.len(),
{
    if lines.len() == 0 {
        None
    } else if wanted(lines[0], want) {
        Some(lines[0])
    } else {
        first_where(lines.drop_first(), want)
    }
}

proof fn lemma_first_where_append(a: Seq<LineView>, b: Seq<LineView>, want: Option<usize>)
    ensures
        first_where(a + b, want) == (match first_where(a, want) {
            Some(x) => Some(x),
            None => first_where(b, want),
        }),
    decreases a.len(),
{
    if a.len() > 0 {
        assert((a + b).drop_first() == a.drop_first() + b);
        lemma_first_where_append(a.drop_first(), b, want);
    } else {
        assert(a + b == b);
    }
}

pub open spec fn excerpts_view(ex: Seq<Vec<LineResult>>) -> Seq<Seq<LineView>> {
    ex.map_values(|x: Vec<LineResult>| lines_view(x@))
}

/// Where the first wanted line of a file's excerpts is.
fn find_line(ex: &Vec<Vec<LineResult>>, want: Option<usize>) -> (r: Option<(usize, usize)>)
    ensures
        match r {
            Some((e, l)) => e < ex.len() && l < ex@[e as int].len() && first_where(
                flat_lines(excerpts_view(ex@)),
                want,
            ) == Some(ex@[e as int]@[l as int]@),
            None => first_where(flat_lines(excerpts_view(ex@)), want) is None,
        },
{
    let ghost exv = excerpts_view(ex@);
    let mut e: usize = 0;
    while e < ex.len()
        invariant
            e <= ex.len(),
            exv == excerpts_view(ex@),
            first_where(flat_lines(exv.take(e as int)), want) is None,
        decreases ex.len() - e,
    {
        let lines = &ex[e];
        let ghost lv = exv[e as int];
        proof {
            assert(exv.take(e + 1).drop_last() == exv.take(e as int));
            assert(flat_lines(exv.take(e + 1)) == flat_lines(exv.take(e as int)) + lv);
            lemma_first_where_append(flat_lines(exv.take(e as int)), lv, want);
            assert(lv.skip(0) == lv);
        }
        let mut l: usize = 0;
        while l < lines.len()
            invariant
                l <= lines.len(),
                e < ex.len(),
                exv == excerpts_view(ex@),
                lines@ == ex@[e as int]@,
                lv == exv[e as int],
                lv == lines_view(lines@),
                flat_lines(exv.take(e as int)) + lv == flat_lines(exv.take(e + 1)),
                first_where(flat_lines(exv.take(e as int)), want) is None,
                first_where(lv, want) == first_where(lv.skip(l as int), want),
            decreases lines.len() - l,
        {
            let line = &lines[l];
            let hit = match want {
                None => line.hits.len() > 0,
                Some(n) => line.number == n,
            };
            if hit {
                proof {
                    assert(lv.skip(l as int)[0] == line@);
                    assert(wanted(line@, want));
                    assert(first_where(lv, want) == Some(line@));
                    lemma_first_where_append(flat_lines(exv.take(e as int)), lv, want);
                    assert(first_where(flat_lines(exv.take(e + 1)), want) == Some(line@));
                    let rest = exv.skip(e + 1);
                    assert(exv =~= exv.take(e + 1) + rest);
                    lemma_flat_split(exv.take(e + 1), rest);
                    lemma_first_where_append(flat_lines(exv.take(e + 1)), flat_lines(rest), want);
                }
                return Some((e, l));
            }
            assert(lv.skip(l as int).drop_first() == lv.skip(l + 1));
            l += 1;
        }
        e += 1;
    }
    assert(exv.take(e as int) == exv);
    None
}

proof fn lemma_flat_split(a: Seq<Seq<LineView>>, b: Seq<Seq<LineView>>)
    ensures
        flat_lines(a + b) == flat_lines(a) + flat_lines(b),
    decreases b.len(),
{
    if b.len() == 0 {
        assert(a + b == a);
        assert(flat_lines(a) + flat_lines(b) == flat_lines(a));
    } else {
        assert((a + b).drop_last() == a + b.drop_last());
        lemma_flat_split(a, b.drop_last());
        assert(flat_lines(a) + flat_lines(b.drop_last()) + b.last() == flat_lines(a) + (flat_lines(
            b.drop_last(),
        ) + b.last()));
    }
}

/// How many chars of `t` come before byte `b`, when `b` falls between two chars (or at the end); 0 when it
/// falls inside a char or past the end, as `str::get(..b)` fails there.
pub open spec fn chars_before_byte(t: Seq<char>, b: nat, k: nat) -> nat
    decreases t.len() - k,
{
    if utf8_len_of(t.take(k as int)) == b {
        k
    } else if k >= t.len() || utf8_len_of(t.take(k as int)) > b {
        0
    } else {
        chars_before_byte(t, b, k + 1)
    }
}

/// The char column of byte `b` of `text`.
fn char_column(text: &str, b: usize) -> (r: usize)
    ensures
        r == chars_before_byte(text@, b as nat, 0),
        r <= text@.len(),
{
    let t = chars_of(text);
    let mut k: usize = 0;
    let mut bytes: usize = 0;
    while k < t.len() && bytes < b
        invariant
            k <= t.len(),
            t@ == text@,
            bytes <= b,
            bytes == utf8_len_of(t@.take(k as int)),
            chars_before_byte(t@, b as nat, 0) == chars_before_byte(t@, b as nat, k as nat),
        decreases t.len() - k,
    {
        let n = t[k] as u32;
        let w: usize = if n < 0x80 {
            1
        } else if n < 0x800 {
            2
        } else if n < 0x10000 {
            3
        } else {
            4
        };
        assert(t@.take(k + 1).drop_last() == t@.take(k as int));
        assert(w == utf8_len(t@[k as int]));
        if w > b - bytes {
            assert(utf8_len_of(t@.take(k + 1)) > b);
            assert(chars_before_byte(t@, b as nat, (k + 1) as nat) == 0);
            return 0;
        }
        bytes = bytes + w;
        k += 1;
    }
    if bytes == b {
        k
    } else {
        0
    }
}

/// The line and byte column that opening a row goes to, in file `file`: for a header, the first line with a
/// hit (line 0 when there is none); for a line, that line; at its first hit's start, or column 0.
pub open spec fn open_target(results: Seq<FileResultView>, row: Row) -> Option<(int, usize, usize)> {
    match row {
        Row::Header(f) => {
            let first = first_where(flat_lines(results[f as int].excerpts), None);
            Some(
                (
                    f as int,
                    match first {
                        Some(line) => line.number,
                        None => 0,
                    },
                    match first {
                        Some(line) => if line.hits.len() > 0 {
                            line.hits[0].start
                        } else {
                            0
                        },
                        None => 0,
                    },
                ),
            )
        },
        Row::Line { file, excerpt, line } => {
            let l = results[file as int].excerpts[excerpt as int][line as int];
            Some(
                (
                    file as int,
                    l.number,
                    if l.hits.len() > 0 {
                        l.hits[0].start
                    } else {
                        0
                    },
                ),
            )
        },
        Row::Separator => None,
    }
}

/// What opening a row asks for: the file's path, the 1-based line, and the 1-based char column, counted
/// in the text of that line as the file's excerpts have it (no text, so column 1, when they lack it).
pub open spec fn opened(results: Seq<FileResultView>, row: Row) -> Option<(Seq<char>, int, int)> {
    match open_target(results, row) {
        None => None,
        Some((f, number, column)) => {
            let text = match first_where(flat_lines(results[f].excerpts), Some(number)) {
                Some(line) => line.text,
                None => Seq::empty(),
            };
            Some((results[f].path, number + 1, (chars_before_byte(text, column as nat, 0) + 1) as int))
        },
    }
}

/// The row exists in the results.
pub open spec fn row_in(results: Seq<FileResultView>, row: Row) -> bool {
    match row {
        Row::Header(f) => f < results.len(),
        Row::Line { file, excerpt, line } => file < results.len() && excerpt < results[file as int].excerpts.len()
            && line < results[file as int].excerpts[excerpt as int].len(),
        Row::Separator => true,
    }
}

/// Every line number and line length of the file fits a 1-based `u32`.
pub open spec fn fits_u32(file: FileResultView) -> bool {
    forall|e: int, l: int|
        0 <= e < file.excerpts.len() && 0 <= l < file.excerpts[e].len() ==> #[trigger] file.excerpts[e][l].number
            < u32::MAX && file.excerpts[e][l].text.len() < u32::MAX
}

proof fn lemma_first_where_is_a_line(ex: Seq<Seq<LineView>>, want: Option<usize>)
    ensures
        first_where(flat_lines(ex), want) matches Some(line) ==> exists|e: int, l: int|
            0 <= e < ex.len() && 0 <= l < ex[e].len() && #[trigger] ex[e][l] == line,
    decreases ex.len(),
{
    if ex.len() > 0 {
        let init = ex.drop_last();
        lemma_first_where_is_a_line(init, want);
        lemma_first_where_append(flat_lines(init), ex.last(), want);
        match first_where(flat_lines(init), want) {
            Some(line) => {
                let (e, l) = choose|e: int, l: int|
                    0 <= e < init.len() && 0 <= l < init[e].len() && #[trigger] init[e][l] == line;
                assert(ex[e][l] == line);
            },
            None => {
                lemma_first_where_in(ex.last(), want);
                if first_where(ex.last(), want) is Some {
                    let l = choose|l: int| 0 <= l < ex.last().len() && ex.last()[l] == first_where(ex.last(), want)->0;
                    assert(ex[ex.len() - 1][l] == ex.last()[l]);
                }
            },
        }
    }
}

proof fn lemma_first_where_in(lines: Seq<LineView>, want: Option<usize>)
    ensures
        first_where(lines, want) matches Some(line) ==> exists|l: int| 0 <= l < lines.len() && lines[l] == line,
    decreases lines.len(),
{
    if lines.len() > 0 && !wanted(lines[0], want) {
        lemma_first_where_in(lines.drop_first(), want);
        if first_where(lines.drop_first(), want) is Some {
            let l = choose|l: int| 0 <= l < lines.drop_first().len() && lines.drop_first()[l] == first_where(
                lines.drop_first(),
                want,
            )->0;
            assert(lines[l + 1] == lines.drop_first()[l]);
        }
    }
}

/// What opening `row` asks for; nothing for a separator.
pub fn open_request(results: &Vec<FileResult>, row: Row) -> (r: Option<OpenRequest>)
    requires
        row_in(results_view(results@), row),
        forall|f: int| 0 <= f < results.len() ==> fits_u32(#[trigger] results@[f]@),
    ensures
        match r {
            Some(req) => opened(results_view(results@), row) == Some((req.path@, req.row as int, req.column as int)),
            None => opened(results_view(results@), row) is None,
        },
{
    let ghost rv = results_view(results@);
    let (f, number, column) = match row {
        Row::Header(f) => {
            let ex = &results[f].excerpts;
            match find_line(ex, None) {
                Some((e, l)) => {
                    let line = &ex[e][l];
                    let column = if line.hits.len() > 0 {
                        line.hits[0].start
                    } else {
                        0
                    };
                    (f, line.number, column)
                },
                None => (f, 0, 0),
            }
        },
        Row::Line { file, excerpt, line } => {
            let l = &results[file].excerpts[excerpt][line];
            let column = if l.hits.len() > 0 {
                l.hits[0].start
            } else {
                0
            };
            (file, l.number, column)
        },
        Row::Separator => {
            return None;
        },
    };
    assert(results@[f as int]@.excerpts == excerpts_view(results@[f as int].excerpts@));
    assert(open_target(rv, row) == Some((f as int, number, column)));
    let ex = &results[f].excerpts;
    let chars: usize = match find_line(ex, Some(number)) {
        Some((e, l)) => {
            let c = char_column(ex[e][l].text.as_str(), column);
            proof {
                assert(rv[f as int].excerpts[e as int][l as int] == ex@[e as int]@[l as int]@);
                assert(rv[f as int].excerpts[e as int][l as int].number < u32::MAX);
            }
            c
        },
        None => 0,
    };
    proof {
        lemma_first_where_is_a_line(rv[f as int].excerpts, None);
        lemma_first_where_is_a_line(rv[f as int].excerpts, Some(number));
        assert(fits_u32(rv[f as int]));
    }
    Some(OpenRequest { path: results[f].path.clone(), row: number as u32 + 1, column: chars as u32 + 1 })
}

/// The search tab's title: the query searched for, or the panel's name before anything is typed.
pub fn search_title(query: &str) -> (r: String)
    ensures
        r@ == if query@.len() == 0 {
            "Project Search"@
        } else {
            "Search: "@ + query@
        },
{
    proof {
        reveal_strlit("Project Search");
        reveal_strlit("Search: ");
    }
    if query.is_empty() {
        String::from_str("Project Search")
    } else {
        let mut title = String::from_str("Search: ");
        title.append(query);
        title
    }
}

/// Where the line holding chars `from..to` of `text` starts: just after the last line break before `from`.
pub open spec fn line_start_before(text: Seq<char>, from: int) -> int
    decreases from,
{
    if from <= 0 {
        0
    } else if text[from - 1] == '\n' {
        from
    } else {
        line_start_before(text, from - 1)
    }
}

/// Where that line ends: at the first line break from `to` on, or at the end of the text.
pub open spec fn line_end_after(text: Seq<char>, to: int) -> int
    decreases text.len() - to,
{
    if to >= text.len() {
        text.len() as int
    } else if text[to] == '\n' {
        to
    } else {
        line_end_after(text, to + 1)
    }
}

/// The line around a hit at chars `hit` of `text`, without its line break, as a char range: the
/// replacement of a hit may depend on its line.
pub fn line_around(text: &Vec<char>, hit: Range<usize>) -> (r: Range<usize>)
    requires
        hit.start <= hit.end <= text.len(),
    ensures
        r.start == line_start_before(text@, hit.start as int),
        r.end == line_end_after(text@, hit.end as int),
        r.start <= hit.start <= hit.end <= r.end <= text.len(),
{
    let mut start = hit.start;
    while start > 0 && text[start - 1] != '\n'
        invariant
            start <= hit.start <= text.len(),
            line_start_before(text@, start as int) == line_start_before(text@, hit.start as int),
        decreases start,
    {
        start -= 1;
    }
    let mut end = hit.end;
    while end < text.len() && text[end] != '\n'
        invariant
            hit.end <= end <= text.len(),
            line_end_after(text@, end as int) == line_end_after(text@, hit.end as int),
        decreases text.len() - end,
    {
        end += 1;
    }
    start..end
}

/// The hits come in order and do not overlap, and each lies in the text.
pub open spec fn hits_in_order(text_len: int, hits: Seq<Range<usize>>) -> bool {
    &&& forall|i: int| 0 <= i < hits.len() ==> (#[trigger] hits[i]).start <= hits[i].end <= text_len
    &&& forall|i: int| 0 < i < hits.len() ==> hits[i - 1].end <= (#[trigger] hits[i]).start
}

/// The text up to the end of hit `n - 1` with the first `n` hits replaced.
pub open spec fn replaced_upto(text: Seq<char>, hits: Seq<Range<usize>>, replacements: Seq<String>, n: nat) -> Seq<char>
    decreases n,
{
    if n == 0 {
        Seq::empty()
    } else {
        let k = (n - 1) as int;
        let at = if k == 0 { 0 } else { hits[k - 1].end as int };
        replaced_upto(text, hits, replacements, (n - 1) as nat) + text.subrange(at, hits[k].start as int)
            + replacements[k]@
    }
}

/// The whole text with every hit replaced.
pub open spec fn replaced_text(text: Seq<char>, hits: Seq<Range<usize>>, replacements: Seq<String>) -> Seq<char> {
    let at = if hits.len() == 0 { 0 } else { hits[hits.len() - 1].end as int };
    replaced_upto(text, hits, replacements, hits.len()) + text.subrange(at, text.len() as int)
}

/// How much longer the text has grown once the first `k` hits were replaced.
pub open spec fn growth_before(hits: Seq<Range<usize>>, replacements: Seq<String>, k: nat) -> int
    decreases k,
{
    if k == 0 {
        0
    } else {
        growth_before(hits, replacements, (k - 1) as nat) + replacements[k - 1]@.len() - (hits[k - 1].end
            - hits[k - 1].start)
    }
}

/// Where the text between hit `k - 1` and hit `k` starts (the text's start for the first hit).
pub open spec fn gap_start(hits: Seq<Range<usize>>, k: int) -> int {
    if k == 0 {
        0
    } else {
        hits[k - 1].end as int
    }
}

proof fn lemma_replaced_upto_len(text: Seq<char>, hits: Seq<Range<usize>>, replacements: Seq<String>, n: nat)
    requires
        hits_in_order(text.len() as int, hits),
        n <= hits.len(),
    ensures
        replaced_upto(text, hits, replacements, n).len() == gap_start(hits, n as int) + growth_before(
            hits,
            replacements,
            n,
        ),
    decreases n,
{
    if n > 0 {
        lemma_replaced_upto_len(text, hits, replacements, (n - 1) as nat);
        let k = n - 1;
        if k > 0 {
            assert(hits[k - 1].end <= hits[k as int].start);
        }
    }
}

proof fn lemma_replaced_upto_prefix(
    text: Seq<char>,
    hits: Seq<Range<usize>>,
    replacements: Seq<String>,
    n: nat,
    m: nat,
)
    requires
        n <= m <= hits.len(),
    ensures
        replaced_upto(text, hits, replacements, m).len() >= replaced_upto(text, hits, replacements, n).len(),
        replaced_upto(text, hits, replacements, m).subrange(
            0,
            replaced_upto(text, hits, replacements, n).len() as int,
        ) == replaced_upto(text, hits, replacements, n),
    decreases m - n,
{
    if n < m {
        lemma_replaced_upto_prefix(text, hits, replacements, n, (m - 1) as nat);
        let a = replaced_upto(text, hits, replacements, (m - 1) as nat);
        let b = replaced_upto(text, hits, replacements, m);
        let c = replaced_upto(text, hits, replacements, n);
        assert(b.subrange(0, a.len() as int) =~= a);
        assert(b.subrange(0, c.len() as int) =~= a.subrange(0, c.len() as int));
    }
}

/// Replacing the hits puts each hit's replacement in its place and keeps the text between them: in the
/// result, after the text has grown by what the earlier replacements added, the text before hit `k` stands
/// as it was, then hit `k`'s replacement; after the last hit the rest of the text follows unchanged.
pub proof fn lemma_each_hit_is_replaced(text: Seq<char>, hits: Seq<Range<usize>>, replacements: Seq<String>)
    requires
        hits_in_order(text.len() as int, hits),
        replacements.len() == hits.len(),
    ensures
        ({
            let out = replaced_text(text, hits, replacements);
            let n = hits.len() as int;
            &&& out.len() == text.len() + growth_before(hits, replacements, n as nat)
            &&& forall|k: int|
                #![trigger hits[k]]
                0 <= k < n ==> {
                    let g = growth_before(hits, replacements, k as nat);
                    let at = gap_start(hits, k);
                    &&& out.subrange(at + g, hits[k].start + g) == text.subrange(at, hits[k].start as int)
                    &&& out.subrange(hits[k].start + g, hits[k].start + g + replacements[k]@.len())
                        == replacements[k]@
                }
            &&& out.subrange(gap_start(hits, n) + growth_before(hits, replacements, n as nat), out.len() as int)
                == text.subrange(gap_start(hits, n), text.len() as int)
        }),
{
    let n = hits.len();
    let out = replaced_text(text, hits, replacements);
    let all = replaced_upto(text, hits, replacements, n);
    lemma_replaced_upto_len(text, hits, replacements, n);
    let last = if n == 0 {
        0
    } else {
        hits[n - 1].end as int
    };
    assert(last == gap_start(hits, n as int));
    if n > 0 {
        assert(hits[n - 1].start <= hits[n - 1].end <= text.len());
    }
    assert(out.len() == text.len() + growth_before(hits, replacements, n as nat));
    assert(out.subrange(0, all.len() as int) =~= all);
    assert(out.subrange(all.len() as int, out.len() as int) =~= text.subrange(last, text.len() as int));
    assert forall|k: int| #![trigger hits[k]] 0 <= k < n implies {
        let g = growth_before(hits, replacements, k as nat);
        let at = gap_start(hits, k);
        &&& out.subrange(at + g, hits[k].start + g) == text.subrange(at, hits[k].start as int)
        &&& out.subrange(hits[k].start + g, hits[k].start + g + replacements[k]@.len()) == replacements[k]@
    } by {
        let g = growth_before(hits, replacements, k as nat);
        let at = gap_start(hits, k);
        lemma_replaced_upto_len(text, hits, replacements, k as nat);
        lemma_replaced_upto_len(text, hits, replacements, (k + 1) as nat);
        lemma_replaced_upto_prefix(text, hits, replacements, (k + 1) as nat, n);
        let before = replaced_upto(text, hits, replacements, k as nat);
        let upto = replaced_upto(text, hits, replacements, (k + 1) as nat);
        let gap = text.subrange(at, hits[k].start as int);
        assert(upto == before + gap + replacements[k]@);
        assert(before.len() == at + g);
        if k > 0 {
            assert(hits[k - 1].end <= hits[k].start);
        }
        assert(out.subrange(0, upto.len() as int) == upto) by {
            assert(out.subrange(0, upto.len() as int) =~= all.subrange(0, upto.len() as int));
        }
        assert(out.subrange(at + g, hits[k].start + g) =~= gap) by {
            assert forall|x: int| 0 <= x < gap.len() implies out.subrange(at + g, hits[k].start + g)[x] == gap[x] by {
                assert(out[at + g + x] == out.subrange(0, upto.len() as int)[at + g + x]);
                assert(upto[at + g + x] == gap[x]);
            }
        }
        assert(out.subrange(hits[k].start + g, hits[k].start + g + replacements[k]@.len()) =~= replacements[k]@)
            by {
            assert forall|x: int| 0 <= x < replacements[k]@.len() implies out.subrange(
                hits[k].start + g,
                hits[k].start + g + replacements[k]@.len(),
            )[x] == replacements[k]@[x] by {
                assert(out[hits[k].start + g + x] == out.subrange(0, upto.len() as int)[hits[k].start + g + x]);
                assert(upto[hits[k].start + g + x] == replacements[k]@[x]);
            }
        }
    }
}

/// `text` with each hit replaced by its replacement.
fn splice_hits(text: &Vec<char>, hits: &Vec<Range<usize>>, replacements: &Vec<String>) -> (r: String)
    requires
        hits_in_order(text.len() as int, hits@),
        replacements.len() == hits.len(),
    ensures
        r@ == replaced_text(text@, hits@, replacements@),
{
    let mut out = String::new();
    let mut at: usize = 0;
    let mut i: usize = 0;
    while i < hits.len()
        invariant
            i <= hits.len() == replacements.len(),
            hits_in_order(text.len() as int, hits@),
            at == (if i == 0 { 0 } else { hits@[i - 1].end as int }),
            at <= text.len(),
            out@ == replaced_upto(text@, hits@, replacements@, i as nat),
        decreases hits.len() - i,
    {
        let hit = &hits[i];
        assert(at <= hit.start) by {
            if i > 0 {
                assert(hits@[i as int - 1].end <= hits@[i as int].start);
            }
        }
        let before = string_of_range(text, at, hit.start);
        out.append(before.as_str());
        out.append(replacements[i].as_str());
        at = hit.end;
        i += 1;
    }
    let rest = string_of_range(text, at, text.len());
    out.append(rest.as_str());
    out
}

/// `text` with each hit (a char range, in order) replaced by its replacement; none when nothing matched.
pub fn replace_in_text(text: &Vec<char>, hits: &Vec<Range<usize>>, replacements: &Vec<String>) -> (r: Option<String>)
    requires
        hits_in_order(text.len() as int, hits@),
        replacements.len() == hits.len(),
    ensures
        hits.len() == 0 <==> r is None,
        r matches Some(s) ==> s@ == replaced_text(text@, hits@, replacements@),
        r matches Some(s) ==> forall|k: int|
            #![trigger hits@[k]]
            0 <= k < hits.len() ==> s@.subrange(
                hits@[k].start + growth_before(hits@, replacements@, k as nat),
                hits@[k].start + growth_before(hits@, replacements@, k as nat) + replacements@[k]@.len(),
            ) == replacements@[k]@,
{
    if hits.len() == 0 {
        return None;
    }
    let out = splice_hits(text, hits, replacements);
    proof {
        lemma_each_hit_is_replaced(text@, hits@, replacements@);
    }
    Some(out)
}

/// The search panel's text fields.
#[derive(Clone, Copy, Debug, PartialEq, Eq, Structural)]
pub enum PanelField {
    Query,
    Replacement,
    Include,
    Exclude,
}

/// The panel's option buttons a shortcut presses.
#[derive(Clone, Copy, Debug, PartialEq, Eq, Structural)]
pub enum PanelToggle {
    Case,
    Word,
    Regex,
    Filters,
    Replace,
}

/// An editing key for the focused field.
#[derive(Clone, Copy, Debug, PartialEq, Eq, Structural)]
pub enum FieldEdit {
    Home,
    End,
    WordLeft,
    WordRight,
    Left,
    Right,
    DeleteToLineStart,
    DeleteWordLeft,
    Backspace,
    Delete,
    SelectAll,
    Redo,
    Undo,
}

/// What a key press in the search panel does.
#[derive(Clone, Copy, Debug, PartialEq, Eq, Structural)]
pub enum PanelKey {
    /// Replace every match.
    ReplaceAll,
    /// Run the search again.
    Search,
    /// Step to the next match (`true`) or the previous one.
    Step(bool),
    /// Move the focus to this field.
    Focus(Option<PanelField>),
    /// Press an option button.
    Toggle(PanelToggle),
    /// Focus the query with all of it selected.
    FocusQuery,
    /// Copy the focused field's selection.
    Copy,
    /// Paste into the focused field.
    Paste,
    /// Edit the focused field, with shift or not.
    Edit(FieldEdit, bool),
    /// Not the panel's key.
    Ignored,
}

/// The fields Tab walks through: the query, the replacement when replacing, and the filters when shown.
pub open spec fn field_order(replace_enabled: bool, filters_enabled: bool) -> Seq<PanelField> {
    seq![PanelField::Query] + (if replace_enabled {
        seq![PanelField::Replacement]
    } else {
        Seq::empty()
    }) + (if filters_enabled {
        seq![PanelField::Include, PanelField::Exclude]
    } else {
        Seq::empty()
    })
}

/// The fields Tab walks through, in order.
pub fn fields_in_order(replace_enabled: bool, filters_enabled: bool) -> (r: Vec<PanelField>)
    ensures
        r@ == field_order(replace_enabled, filters_enabled),
{
    let mut fields: Vec<PanelField> = Vec::new();
    fields.push(PanelField::Query);
    if replace_enabled {
        fields.push(PanelField::Replacement);
    }
    if filters_enabled {
        fields.push(PanelField::Include);
        fields.push(PanelField::Exclude);
    }
    assert(fields@ =~= field_order(replace_enabled, filters_enabled));
    fields
}

/// Where the focus is among `fields`: the first place holding it, or the start.
pub open spec fn focus_index(fields: Seq<PanelField>, focus: Option<PanelField>) -> int {
    match focus {
        Some(f) => if exists|i: int| 0 <= i < fields.len() && fields[i] == f {
            choose|i: int| 0 <= i < fields.len() && fields[i] == f && forall|j: int| 0 <= j < i ==> fields[j] != f
        } else {
            0
        },
        None => 0,
    }
}

/// The field Tab (or Shift-Tab, `back`) moves the focus to, wrapping around.
pub open spec fn field_after(fields: Seq<PanelField>, focus: Option<PanelField>, back: bool) -> Option<PanelField> {
    let at = focus_index(fields, focus);
    let n = fields.len() as int;
    let next = if back {
        (at + n - 1) % n
    } else {
        (at + 1) % n
    };
    if 0 <= next < n {
        Some(fields[next])
    } else {
        None
    }
}

/// Tab moves the focus to the field after the one it is on and wraps only from the last to the first;
/// Shift-Tab moves to the one before and wraps only from the first to the last.
pub proof fn lemma_tab_moves_by_one(fields: Seq<PanelField>, at: int)
    requires
        0 <= at < fields.len(),
        forall|j: int| 0 <= j < at ==> fields[j] != fields[at],
    ensures
        at + 1 < fields.len() ==> field_after(fields, Some(fields[at]), false) == Some(fields[at + 1]),
        at + 1 == fields.len() ==> field_after(fields, Some(fields[at]), false) == Some(fields[0]),
        0 < at ==> field_after(fields, Some(fields[at]), true) == Some(fields[at - 1]),
        at == 0 ==> field_after(fields, Some(fields[at]), true) == Some(fields[fields.len() - 1]),
{
    let f = fields[at];
    assert(exists|i: int| 0 <= i < fields.len() && fields[i] == f);
    let c = choose|i: int| 0 <= i < fields.len() && fields[i] == f && forall|j: int| 0 <= j < i ==> fields[j] != f;
    assert(c == at) by {
        if c < at {
        } else if c > at {
            assert(fields[at] == f);
        }
    }
    assert(focus_index(fields, Some(f)) == at);
    let n = fields.len() as int;
    assert((at + 1) % n == (if at + 1 < n { at + 1 } else { 0 })) by (nonlinear_arith)
        requires
            0 <= at < n,
    ;
    assert((at + n - 1) % n == (if 0 < at { at - 1 } else { n - 1 })) by (nonlinear_arith)
        requires
            0 <= at < n,
    ;
}

/// The field Tab (or Shift-Tab) moves the focus to among `fields`, wrapping around; focus elsewhere
/// counts as being on the first.
pub fn next_field(fields: &Vec<PanelField>, focus: Option<PanelField>, back: bool) -> (r: Option<PanelField>)
    requires
        fields.len() > 0,
    ensures
        r == field_after(fields@, focus, back),
{
    let n = fields.len();
    let mut at: usize = 0;
    if let Some(f) = focus {
        let mut i: usize = 0;
        while i < n && fields[i] != f
            invariant
                n == fields.len(),
                i <= n,
                forall|j: int| 0 <= j < i ==> fields@[j] != f,
            decreases n - i,
        {
            i += 1;
        }
        if i < n {
            at = i;
            proof {
                let c = choose|c: int| 0 <= c < n && fields@[c] == f && forall|j: int| 0 <= j < c ==> fields@[j] != f;
                assert(c == i as int);
            }
        }
    }
    let next = if back {
        if at == 0 {
            n - 1
        } else {
            at - 1
        }
    } else if at + 1 == n {
        0
    } else {
        at + 1
    };
    assert(next == (if back { (at + n - 1) % (n as int) } else { (at + 1) % (n as int) })) by (nonlinear_arith)
        requires
            at < n,
            next == (if back { if at == 0 { n - 1 } else { at - 1 } } else if at + 1 == n { 0 } else { at + 1 }),
    ;
    Some(fields[next])
}

/// The editing key a key press is for the focused field, if any.
pub open spec fn edit_key_of(key: Seq<char>, cmd: bool, alt: bool, shift: bool) -> Option<FieldEdit> {
    if key == "left"@ && cmd {
        Some(FieldEdit::Home)
    } else if key == "right"@ && cmd {
        Some(FieldEdit::End)
    } else if key == "left"@ && alt {
        Some(FieldEdit::WordLeft)
    } else if key == "right"@ && alt {
        Some(FieldEdit::WordRight)
    } else if key == "left"@ {
        Some(FieldEdit::Left)
    } else if key == "right"@ {
        Some(FieldEdit::Right)
    } else if key == "home"@ {
        Some(FieldEdit::Home)
    } else if key == "end"@ {
        Some(FieldEdit::End)
    } else if key == "backspace"@ && cmd {
        Some(FieldEdit::DeleteToLineStart)
    } else if key == "backspace"@ && alt {
        Some(FieldEdit::DeleteWordLeft)
    } else if key == "backspace"@ {
        Some(FieldEdit::Backspace)
    } else if key == "delete"@ {
        Some(FieldEdit::Delete)
    } else if key == "a"@ && cmd {
        Some(FieldEdit::SelectAll)
    } else if key == "z"@ && cmd && shift {
        Some(FieldEdit::Redo)
    } else if key == "z"@ && cmd {
        Some(FieldEdit::Undo)
    } else {
        None
    }
}

/// What a key press does in the search panel, the focus on `focus`; `stale` says whether the results are
/// not those of the query and options as they stand (or a search is still running).
pub open spec fn panel_key_of(
    key: Seq<char>,
    cmd: bool,
    shift: bool,
    alt: bool,
    focus: Option<PanelField>,
    replace_enabled: bool,
    filters_enabled: bool,
    stale: bool,
) -> PanelKey {
    if key == "enter"@ && cmd && focus == Some(PanelField::Replacement) {
        PanelKey::ReplaceAll
    } else if key == "enter"@ {
        if stale {
            PanelKey::Search
        } else {
            PanelKey::Step(!shift)
        }
    } else if key == "tab"@ {
        PanelKey::Focus(field_after(field_order(replace_enabled, filters_enabled), focus, shift))
    } else if key == "g"@ && cmd {
        PanelKey::Step(!shift)
    } else if key == "c"@ && alt && cmd {
        PanelKey::Toggle(PanelToggle::Case)
    } else if key == "w"@ && alt && cmd {
        PanelKey::Toggle(PanelToggle::Word)
    } else if key == "x"@ && alt && cmd {
        PanelKey::Toggle(PanelToggle::Regex)
    } else if key == "j"@ && cmd && shift {
        PanelKey::Toggle(PanelToggle::Filters)
    } else if key == "h"@ && cmd && shift {
        PanelKey::Toggle(PanelToggle::Replace)
    } else if key == "f"@ && cmd && shift {
        PanelKey::FocusQuery
    } else if key == "c"@ && cmd {
        PanelKey::Copy
    } else if key == "v"@ && cmd {
        PanelKey::Paste
    } else {
        match edit_key_of(key, cmd, alt, shift) {
            Some(e) => PanelKey::Edit(e, shift),
            None => PanelKey::Ignored,
        }
    }
}

/// The editing key a key press is for the focused field, if any.
fn edit_key(key: &Vec<char>, cmd: bool, alt: bool, shift: bool) -> (r: Option<FieldEdit>)
    ensures
        r == edit_key_of(key@, cmd, alt, shift),
{
    proof {
        reveal_strlit("left");
        reveal_strlit("right");
        reveal_strlit("home");
        reveal_strlit("end");
        reveal_strlit("backspace");
        reveal_strlit("delete");
        reveal_strlit("a");
        reveal_strlit("z");
    }
    let left = same_text(key, "left");
    let right = same_text(key, "right");
    let backspace = same_text(key, "backspace");
    let z = same_text(key, "z");
    if left && cmd {
        Some(FieldEdit::Home)
    } else if right && cmd {
        Some(FieldEdit::End)
    } else if left && alt {
        Some(FieldEdit::WordLeft)
    } else if right && alt {
        Some(FieldEdit::WordRight)
    } else if left {
        Some(FieldEdit::Left)
    } else if right {
        Some(FieldEdit::Right)
    } else if same_text(key, "home") {
        Some(FieldEdit::Home)
    } else if same_text(key, "end") {
        Some(FieldEdit::End)
    } else if backspace && cmd {
        Some(FieldEdit::DeleteToLineStart)
    } else if backspace && alt {
        Some(FieldEdit::DeleteWordLeft)
    } else if backspace {
        Some(FieldEdit::Backspace)
    } else if same_text(key, "delete") {
        Some(FieldEdit::Delete)
    } else if same_text(key, "a") && cmd {
        Some(FieldEdit::SelectAll)
    } else if z && cmd && shift {
        Some(FieldEdit::Redo)
    } else if z && cmd {
        Some(FieldEdit::Undo)
    } else {
        None
    }
}

/// What the key `key` (with these modifiers) does in the search panel, the focus on `focus`, the
/// replacement field shown when `replace_enabled` and the filters when `filters_enabled`; `stale` says
/// whether the results are not those of the query and options as they stand, or a search still runs.
pub fn panel_key(
    key: &str,
    cmd: bool,
    shift: bool,
    alt: bool,
    focus: Option<PanelField>,
    replace_enabled: bool,
    filters_enabled: bool,
    stale: bool,
) -> (r: PanelKey)
    ensures
        r == panel_key_of(key@, cmd, shift, alt, focus, replace_enabled, filters_enabled, stale),
{
    proof {
        reveal_strlit("enter");
        reveal_strlit("tab");
        reveal_strlit("g");
        reveal_strlit("c");
        reveal_strlit("w");
        reveal_strlit("x");
        reveal_strlit("j");
        reveal_strlit("h");
        reveal_strlit("f");
        reveal_strlit("v");
    }
    let k = chars_of(key);
    let enter = same_text(&k, "enter");
    let c = same_text(&k, "c");
    if enter && cmd && focus == Some(PanelField::Replacement) {
        PanelKey::ReplaceAll
    } else if enter {
        if stale {
            PanelKey::Search
        } else {
            PanelKey::Step(!shift)
        }
    } else if same_text(&k, "tab") {
        let fields = fields_in_order(replace_enabled, filters_enabled);
        PanelKey::Focus(next_field(&fields, focus, shift))
    } else if same_text(&k, "g") && cmd {
        PanelKey::Step(!shift)
    } else if c && alt && cmd {
        PanelKey::Toggle(PanelToggle::Case)
    } else if same_text(&k, "w") && alt && cmd {
        PanelKey::Toggle(PanelToggle::Word)
    } else if same_text(&k, "x") && alt && cmd {
        PanelKey::Toggle(PanelToggle::Regex)
    } else if same_text(&k, "j") && cmd && shift {
        PanelKey::Toggle(PanelToggle::Filters)
    } else if same_text(&k, "h") && cmd && shift {
        PanelKey::Toggle(PanelToggle::Replace)
    } else if same_text(&k, "f") && cmd && shift {
        PanelKey::FocusQuery
    } else if c && cmd {
        PanelKey::Copy
    } else if same_text(&k, "v") && cmd {
        PanelKey::Paste
    } else {
        match edit_key(&k, cmd, alt, shift) {
            Some(e) => PanelKey::Edit(e, shift),
            None => PanelKey::Ignored,
        }
    }
}

} // verus!
