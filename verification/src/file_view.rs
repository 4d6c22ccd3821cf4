//! Small decisions of the file views: which display rows hold no text of the file, which files open as
//! images, the icon a file gets in the tree, the word around a caret, and the caret's status text.

use vstd::prelude::*;
use std::ops::Range;
use crate::text::{
    ascii_lowercase, ascii_lowered, decimal, is_alphanumeric, push_char, push_decimal, same_text, sub_vec,
    unicode_alphanumeric,
};

verus! {

/// One screen row: a slice `[start, end)` of `line`'s tab-expanded text (`end` is `usize::MAX` on a line's
/// last row), drawn after `indent` blank columns.
#[derive(Clone, Copy, Debug, PartialEq, Eq, Structural)]
pub struct DisplayRow {
    pub line: usize,
    pub start: usize,
    pub end: usize,
    pub indent: usize,
    /// A committed line an expanded change removed, shown above `line` and never holding the caret.
    pub deleted: Option<usize>,
    pub block: Option<usize>,
    /// A blank row keeping a split diff's two sides level.
    pub spacer: bool,
}

impl DisplayRow {
    /// The row shows something other than the file's own text: a removed line, a block or a spacer.
    pub fn is_virtual(&self) -> (r: bool)
        ensures
            r == (self.deleted is Some || self.block is Some || self.spacer),
    {
        self.deleted.is_some() || self.block.is_some() || self.spacer
    }
}

/// The raster image extensions, in lowercase.
pub open spec fn image_ext(lower: Seq<char>) -> bool {
    lower == "png"@ || lower == "jpg"@ || lower == "jpeg"@ || lower == "gif"@ || lower == "webp"@ || lower
        == "bmp"@
}

/// Whether a file extension is a viewable raster image, in any case.
pub fn is_image_ext(ext: &str) -> (r: bool)
    ensures
        r == image_ext(ascii_lowered(ext@)),
{
    let lower = ascii_lowercase(ext);
    same_text(&lower, "png") || same_text(&lower, "jpg") || same_text(&lower, "jpeg") || same_text(
        &lower,
        "gif",
    ) || same_text(&lower, "webp") || same_text(&lower, "bmp")
}

/// The file-type icons of the tree.
#[derive(Clone, Copy, Debug, PartialEq, Eq, Structural)]
pub enum FileIcon {
    Lock,
    NodeJs,
    Git,
    Rust,
    Go,
    TypeScript,
    React,
    JavaScript,
    Json,
    Markdown,
    Toml,
    Yaml,
    Html,
    Css,
    Sass,
    Python,
    Console,
    Image,
    Document,
}

/// The icon a whole (lowercase) file name calls for, if any.
pub open spec fn name_icon(lower: Seq<char>) -> Option<FileIcon> {
    if lower == "cargo.lock"@ || lower == "package-lock.json"@ || lower == "yarn.lock"@ || lower
        == "pnpm-lock.yaml"@ {
        Some(FileIcon::Lock)
    } else if lower == "package.json"@ {
        Some(FileIcon::NodeJs)
    } else if lower == ".gitignore"@ || lower == ".gitattributes"@ || lower == ".gitmodules"@ {
        Some(FileIcon::Git)
    } else {
        None
    }
}

/// The icon a (lowercase) extension calls for.
pub open spec fn ext_icon(ext: Seq<char>) -> FileIcon {
    if ext == "rs"@ {
        FileIcon::Rust
    } else if ext == "go"@ {
        FileIcon::Go
    } else if ext == "ts"@ || ext == "mts"@ || ext == "cts"@ {
        FileIcon::TypeScript
    } else if ext == "tsx"@ || ext == "jsx"@ {
        FileIcon::React
    } else if ext == "js"@ || ext == "mjs"@ || ext == "cjs"@ {
        FileIcon::JavaScript
    } else if ext == "json"@ {
        FileIcon::Json
    } else if ext == "md"@ || ext == "markdown"@ || ext == "mdx"@ {
        FileIcon::Markdown
    } else if ext == "toml"@ {
        FileIcon::Toml
    } else if ext == "yaml"@ || ext == "yml"@ {
        FileIcon::Yaml
    } else if ext == "html"@ || ext == "htm"@ {
        FileIcon::Html
    } else if ext == "css"@ {
        FileIcon::Css
    } else if ext == "scss"@ || ext == "sass"@ {
        FileIcon::Sass
    } else if ext == "py"@ || ext == "pyi"@ {
        FileIcon::Python
    } else if ext == "lock"@ {
        FileIcon::Lock
    } else if ext == "sh"@ || ext == "bash"@ || ext == "zsh"@ || ext == "fish"@ {
        FileIcon::Console
    } else if ext == "png"@ || ext == "jpg"@ || ext == "jpeg"@ || ext == "gif"@ || ext == "webp"@ || ext
        == "svg"@ || ext == "ico"@ {
        FileIcon::Image
    } else {
        FileIcon::Document
    }
}

/// Where the text after the last `.` starts (0 when there is none).
pub open spec fn after_last_dot(s: Seq<char>, i: nat) -> nat
    decreases i,
{
    if i == 0 {
        0
    } else if s[i - 1] == '.' {
        i
    } else {
        after_last_dot(s, (i - 1) as nat)
    }
}

/// The text after the last `.`, or all of it.
pub open spec fn last_ext(s: Seq<char>) -> Seq<char> {
    s.skip(after_last_dot(s, s.len()) as int)
}

/// A file's icon: by its whole name, then by its extension, in any case.
pub open spec fn icon_for(name: Seq<char>) -> FileIcon {
    let lower = ascii_lowered(name);
    match name_icon(lower) {
        Some(icon) => icon,
        None => ext_icon(last_ext(lower)),
    }
}

fn ext_icon_of(ext: &Vec<char>) -> (r: FileIcon)
    ensures
        r == ext_icon(ext@),
{
    if same_text(ext, "rs") {
        FileIcon::Rust
    } else if same_text(ext, "go") {
        FileIcon::Go
    } else if same_text(ext, "ts") || same_text(ext, "mts") || same_text(ext, "cts") {
        FileIcon::TypeScript
    } else if same_text(ext, "tsx") || same_text(ext, "jsx") {
        FileIcon::React
    } else if same_text(ext, "js") || same_text(ext, "mjs") || same_text(ext, "cjs") {
        FileIcon::JavaScript
    } else if same_text(ext, "json") {
        FileIcon::Json
    } else if same_text(ext, "md") || same_text(ext, "markdown") || same_text(ext, "mdx") {
        FileIcon::Markdown
    } else if same_text(ext, "toml") {
        FileIcon::Toml
    } else if same_text(ext, "yaml") || same_text(ext, "yml") {
        FileIcon::Yaml
    } else if same_text(ext, "html") || same_text(ext, "htm") {
        FileIcon::Html
    } else if same_text(ext, "css") {
        FileIcon::Css
    } else if same_text(ext, "scss") || same_text(ext, "sass") {
        FileIcon::Sass
    } else if same_text(ext, "py") || same_text(ext, "pyi") {
        FileIcon::Python
    } else if same_text(ext, "lock") {
        FileIcon::Lock
    } else if same_text(ext, "sh") || same_text(ext, "bash") || same_text(ext, "zsh") || same_text(
        ext,
        "fish",
    ) {
        FileIcon::Console
    } else if same_text(ext, "png") || same_text(ext, "jpg") || same_text(ext, "jpeg") || same_text(
        ext,
        "gif",
    ) || same_text(ext, "webp") || same_text(ext, "svg") || same_text(ext, "ico") {
        FileIcon::Image
    } else {
        FileIcon::Document
    }
}

/// The file-type icon for a file name, by full name then extension; a generic document otherwise.
pub fn file_icon(name: &str) -> (r: FileIcon)
    ensures
        r == icon_for(name@),
{
    let lower = ascii_lowercase(name);
    if same_text(&lower, "cargo.lock") || same_text(&lower, "package-lock.json") || same_text(
        &lower,
        "yarn.lock",
    ) || same_text(&lower, "pnpm-lock.yaml") {
        return FileIcon::Lock;
    }
    if same_text(&lower, "package.json") {
        return FileIcon::NodeJs;
    }
    if same_text(&lower, ".gitignore") || same_text(&lower, ".gitattributes") || same_text(
        &lower,
        ".gitmodules",
    ) {
        return FileIcon::Git;
    }
    let mut i = lower.len();
    while i > 0 && lower[i - 1] != '.'
        invariant
            i <= lower.len(),
            after_last_dot(lower@, i as nat) == after_last_dot(lower@, lower@.len()),
        decreases i,
    {
        i -= 1;
    }
    let ext = sub_vec(&lower, i, lower.len());
    assert(ext@ == last_ext(lower@));
    ext_icon_of(&ext)
}

/// A char that can be part of an identifier: alphanumeric or `_`.
pub open spec fn word_char(c: char) -> bool {
    unicode_alphanumeric(c) || c == '_'
}

pub fn is_word_char(c: char) -> (r: bool)
    ensures
        r == word_char(c),
{
    is_alphanumeric(c) || c == '_'
}

/// Where the run of word chars ending at `i` starts.
pub open spec fn word_start(t: Seq<char>, i: nat) -> nat
    decreases i,
{
    if i > 0 && i <= t.len() && word_char(t[i - 1]) {
        word_start(t, (i - 1) as nat)
    } else {
        i
    }
}

/// Where the run of word chars starting at `i` ends.
pub open spec fn word_end(t: Seq<char>, i: nat) -> nat
    decreases t.len() - i,
{
    if i < t.len() && word_char(t[i as int]) {
        word_end(t, i + 1)
    } else {
        i
    }
}

/// The word around char `offset` of `text`: the word chars on either side of it, if there are any.
pub fn surrounding_word(text: &Vec<char>, offset: usize) -> (r: Option<Range<usize>>)
    requires
        offset <= text.len(),
    ensures
        match r {
            Some(range) => word_start(text@, offset as nat) < word_end(text@, offset as nat) && range.start
                == word_start(text@, offset as nat) && range.end == word_end(text@, offset as nat),
            None => word_start(text@, offset as nat) >= word_end(text@, offset as nat),
        },
{
    let mut start = offset;
    while start > 0 && is_word_char(text[start - 1])
        invariant
            start <= offset <= text.len(),
            word_start(text@, start as nat) == word_start(text@, offset as nat),
        decreases start,
    {
        start -= 1;
    }
    let mut end = offset;
    while end < text.len() && is_word_char(text[end])
        invariant
            offset <= end <= text.len(),
            word_end(text@, end as nat) == word_end(text@, offset as nat),
        decreases text.len() - end,
    {
        end += 1;
    }
    if start < end {
        Some(start..end)
    } else {
        None
    }
}

/// Some of the selections' row spans (`(first, last, selected)`, both rows included) holds `row`; only
/// those of non-empty selections when `selected_only`.
pub open spec fn spans_hold(active: Seq<(usize, usize, bool)>, row: usize, selected_only: bool) -> bool {
    exists|i: int|
        0 <= i < active.len() && (#[trigger] active[i]).0 <= row && row <= active[i].1 && (!selected_only
            || active[i].2)
}

/// The rows of `first..n` that get the active-line background, in order.
pub open spec fn active_rows_upto(active: Seq<(usize, usize, bool)>, first: usize, n: int) -> Seq<usize>
    decreases n - first,
{
    if n <= first {
        Seq::empty()
    } else {
        let rest = active_rows_upto(active, first, n - 1);
        let row = (n - 1) as usize;
        if spans_hold(active, row, false) && !spans_hold(active, row, true) {
            rest.push(row)
        } else {
            rest
        }
    }
}

fn spans_hold_exec(active: &Vec<(usize, usize, bool)>, row: usize, selected_only: bool) -> (r: bool)
    ensures
        r == spans_hold(active@, row, selected_only),
{
    let mut i: usize = 0;
    while i < active.len()
        invariant
            i <= active.len(),
            forall|j: int|
                0 <= j < i ==> !((#[trigger] active@[j]).0 <= row && row <= active@[j].1 && (!selected_only
                    || active@[j].2)),
        decreases active.len() - i,
    {
        let (a, b, selected) = active[i];
        if a <= row && row <= b && (!selected_only || selected) {
            return true;
        }
        i += 1;
    }
    false
}

/// The rows of `first..last` drawn with the active-line background: those a caret's lines cover
/// (`active` holds each selection's first and last display row and whether it is non-empty), except rows
/// a non-empty selection also covers.
pub fn active_line_rows(active: &Vec<(usize, usize, bool)>, first: usize, last: usize) -> (r: Vec<usize>)
    ensures
        r@ == active_rows_upto(active@, first, last as int),
{
    let mut r: Vec<usize> = Vec::new();
    let mut row = first;
    while row < last
        invariant
            first <= row,
            row <= last || row == first,
            r@ == active_rows_upto(active@, first, row as int),
        decreases last - row,
    {
        if spans_hold_exec(active, row, false) && !spans_hold_exec(active, row, true) {
            r.push(row);
        }
        row += 1;
    }
    proof {
        if last <= first {
            assert(active_rows_upto(active@, first, last as int) == Seq::<usize>::empty());
            assert(active_rows_upto(active@, first, first as int) == Seq::<usize>::empty());
        } else {
            assert(row == last);
        }
    }
    r
}

/// A selection as the status text counts it: its char range, and the rows of its ends with the end's
/// column.
pub struct SelectionSpan {
    pub start: usize,
    pub end: usize,
    pub start_row: usize,
    pub end_row: usize,
    pub end_col: usize,
}

/// The lines a selection covers: none when empty; else its rows, the last one only when the selection
/// reaches into it.
pub open spec fn span_lines(s: SelectionSpan) -> int {
    if s.start == s.end {
        0
    } else {
        s.end_row - s.start_row + if s.end_col != 0 {
            1int
        } else {
            0int
        }
    }
}

/// The chars the first `n` selections hold.
pub open spec fn total_chars(sels: Seq<SelectionSpan>, n: nat) -> int
    decreases n,
{
    if n == 0 || n > sels.len() {
        0
    } else {
        total_chars(sels, (n - 1) as nat) + sels[n - 1].end - sels[n - 1].start
    }
}

/// The lines the first `n` selections cover.
pub open spec fn total_lines(sels: Seq<SelectionSpan>, n: nat) -> int
    decreases n,
{
    if n == 0 || n > sels.len() {
        0
    } else {
        total_lines(sels, (n - 1) as nat) + span_lines(sels[n - 1])
    }
}

/// `count name`, with an `s` for more than one.
pub open spec fn counted(count: nat, name: Seq<char>) -> Seq<char> {
    decimal(count) + seq![' '] + name + if count > 1 {
        seq!['s']
    } else {
        Seq::empty()
    }
}

/// `parts` joined by `, `.
pub open spec fn joined(parts: Seq<Seq<char>>) -> Seq<char>
    decreases parts.len(),
{
    if parts.len() == 0 {
        Seq::empty()
    } else if parts.len() == 1 {
        parts[0]
    } else {
        joined(parts.drop_last()) + seq![',', ' '] + parts.last()
    }
}

/// What the status text counts: several selections, several lines, and any chars selected.
pub open spec fn status_parts(selections: nat, lines: nat, chars: nat) -> Seq<Seq<char>> {
    let a = if selections > 1 {
        seq![counted(selections, "selection"@)]
    } else {
        Seq::empty()
    };
    let b = if lines > 1 {
        seq![counted(lines, "line"@)]
    } else {
        Seq::empty()
    };
    let c = if chars > 0 {
        seq![counted(chars, "character"@)]
    } else {
        Seq::empty()
    };
    a + b + c
}

/// The caret's status text: its 1-based line and column, then in parentheses how many selections,
/// lines and chars are selected, where there is something to say.
pub open spec fn status_text(line: nat, column: nat, sels: Seq<SelectionSpan>) -> Seq<char> {
    let parts = status_parts(
        sels.len(),
        total_lines(sels, sels.len()) as nat,
        total_chars(sels, sels.len()) as nat,
    );
    decimal(line + 1) + seq![':'] + decimal(column + 1) + if parts.len() > 0 {
        seq![' ', '('] + joined(parts) + seq![')']
    } else {
        Seq::empty()
    }
}

/// The selections are well formed and their counts fit in a `usize`.
pub open spec fn spans_fit(sels: Seq<SelectionSpan>) -> bool {
    &&& forall|i: int|
        0 <= i < sels.len() ==> (#[trigger] sels[i]).start <= sels[i].end && (sels[i].start < sels[i].end
            ==> sels[i].start_row <= sels[i].end_row)
    &&& forall|n: nat| n <= sels.len() ==> #[trigger] total_chars(sels, n) <= usize::MAX
    &&& forall|n: nat| n <= sels.len() ==> #[trigger] total_lines(sels, n) <= usize::MAX
}

proof fn lemma_totals_grow(sels: Seq<SelectionSpan>, n: nat)
    requires
        spans_fit(sels),
        n <= sels.len(),
    ensures
        total_chars(sels, n) >= 0,
        total_lines(sels, n) >= 0,
    decreases n,
{
    if n > 0 {
        lemma_totals_grow(sels, (n - 1) as nat);
        assert(sels[n - 1].start <= sels[n - 1].end);
    }
}

/// Append `part` to `parts`, after `, ` unless it is the first.
fn add_part(parts: &mut String, count: usize, name: &str)
    ensures
        final(parts)@ == if old(parts)@.len() == 0 {
            counted(count as nat, name@)
        } else {
            old(parts)@ + seq![',', ' '] + counted(count as nat, name@)
        },
{
    if !parts.as_str().is_empty() {
        push_char(parts, ',');
        push_char(parts, ' ');
    }
    push_decimal(parts, count as u64);
    push_char(parts, ' ');
    parts.append(name);
    if count > 1 {
        push_char(parts, 's');
    }
    proof {
        let tail = if count > 1 {
            seq!['s']
        } else {
            Seq::<char>::empty()
        };
        assert(counted(count as nat, name@) =~= decimal(count as nat) + seq![' '] + name@ + tail);
    }
}

/// How many chars and lines the selections hold.
fn selection_totals(selections: &Vec<SelectionSpan>) -> (r: (usize, usize))
    requires
        spans_fit(selections@),
    ensures
        r.0 == total_chars(selections@, selections@.len()),
        r.1 == total_lines(selections@, selections@.len()),
{
    let mut lines: usize = 0;
    let mut characters: usize = 0;
    let mut i: usize = 0;
    while i < selections.len()
        invariant
            i <= selections.len(),
            spans_fit(selections@),
            characters == total_chars(selections@, i as nat),
            lines == total_lines(selections@, i as nat),
        decreases selections.len() - i,
    {
        let s = &selections[i];
        proof {
            lemma_totals_grow(selections@, (i + 1) as nat);
            assert(total_chars(selections@, (i + 1) as nat) <= usize::MAX);
            assert(total_lines(selections@, (i + 1) as nat) <= usize::MAX);
        }
        characters = characters + (s.end - s.start);
        if s.start != s.end {
            lines = lines + (s.end_row - s.start_row) + if s.end_col != 0 {
                1
            } else {
                0
            };
        }
        i += 1;
    }
    (characters, lines)
}

/// The counted parts of the status text, joined.
fn status_counts(count: usize, lines: usize, characters: usize) -> (r: String)
    ensures
        r@ == joined(status_parts(count as nat, lines as nat, characters as nat)),
{
    let mut parts = String::new();
    proof {
        reveal_strlit("selection");
        reveal_strlit("line");
        reveal_strlit("character");
    }
    let ghost ps = status_parts(count as nat, lines as nat, characters as nat);
    let ghost a = if count > 1 { seq![counted(count as nat, "selection"@)] } else { Seq::<Seq<char>>::empty() };
    let ghost b = if lines > 1 { seq![counted(lines as nat, "line"@)] } else { Seq::<Seq<char>>::empty() };
    let ghost c = if characters > 0 { seq![counted(characters as nat, "character"@)] } else { Seq::<Seq<char>>::empty() };
    if count > 1 {
        add_part(&mut parts, count, "selection");
    }
    assert(parts@ == joined(a));
    if lines > 1 {
        add_part(&mut parts, lines, "line");
        assert((a + b).drop_last() =~= a);
    }
    assert(parts@ == joined(a + b)) by {
        if lines <= 1 {
            assert(a + b =~= a);
        }
    }
    if characters > 0 {
        add_part(&mut parts, characters, "character");
        assert((a + b + c).drop_last() =~= a + b);
    }
    assert(parts@ == joined(ps)) by {
        if characters == 0 {
            assert(a + b + c =~= a + b);
        }
        assert(ps == a + b + c);
    }
    parts
}

/// The status bar's text for the caret at `line` and `column` (0-based) with these selections: the
/// caret's 1-based line and column, then how many selections, lines and chars are selected.
pub fn cursor_status_text(line: usize, column: usize, selections: &Vec<SelectionSpan>) -> (r: String)
    requires
        line < usize::MAX,
        column < usize::MAX,
        spans_fit(selections@),
    ensures
        r@ == status_text(line as nat, column as nat, selections@),
{
    let (characters, lines) = selection_totals(selections);
    proof {
        lemma_totals_grow(selections@, selections@.len());
    }
    let ghost ps = status_parts(selections@.len(), lines as nat, characters as nat);
    let parts = status_counts(selections.len(), lines, characters);
    let mut text = String::new();
    push_decimal(&mut text, (line + 1) as u64);
    push_char(&mut text, ':');
    push_decimal(&mut text, (column + 1) as u64);
    if !parts.as_str().is_empty() {
        push_char(&mut text, ' ');
        push_char(&mut text, '(');
        text.append(parts.as_str());
        push_char(&mut text, ')');
    }
    proof {
        if ps.len() > 0 {
            lemma_joined_nonempty(ps);
        }
        if parts@.len() > 0 {
            assert(text@ =~= decimal((line + 1) as nat) + seq![':'] + decimal((column + 1) as nat) + (seq![' ', '(']
                + joined(ps) + seq![')']));
        } else {
            assert(text@ =~= decimal((line + 1) as nat) + seq![':'] + decimal((column + 1) as nat));
        }
    }
    text
}

/// Joined parts that end with a non-empty one are not empty.
proof fn lemma_joined_nonempty(parts: Seq<Seq<char>>)
    requires
        parts.len() > 0,
        forall|i: int| 0 <= i < parts.len() ==> (#[trigger] parts[i]).len() > 0,
    ensures
        joined(parts).len() > 0,
{
}

} // verus!
