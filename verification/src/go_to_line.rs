//! Ctrl+G: jump to `line[:column]`, or `+n`/`-n` lines from the current one (`f`/`b` work too), with a help
//! line describing what the query asks for.

use vstd::prelude::*;
use crate::text::{
    all_digits, chars_of, decimal, is_ws, lemma_decimal_digits, lemma_digits_trim, parse_i64, parse_i64_range,
    parse_unsigned, parse_usize_range, push_decimal, trim, trim_bounds, trim_start, trim_start_index,
};

verus! {

/// The modal's state: the query typed and where the caret was (1-based) when it opened.
pub struct GoToLine {
    pub query: String,
    pub current_line: usize,
    pub current_column: usize,
    pub line_count: usize,
}

/// A char that gives a direction: `+`, `f`, `F` forward, `-`, `b`, `B` back.
pub open spec fn is_direction(c: char) -> bool {
    c == '+' || c == 'f' || c == 'F' || c == '-' || c == 'b' || c == 'B'
}

pub open spec fn is_forward(c: char) -> bool {
    c == '+' || c == 'f' || c == 'F'
}

/// The end of the run of direction chars at the start of `t`, from `i`.
pub open spec fn direction_run_end(t: Seq<char>, i: nat) -> nat
    decreases t.len() - i,
{
    if i < t.len() && is_direction(t[i as int]) {
        direction_run_end(t, i + 1)
    } else {
        i
    }
}

/// `s` up to its first `:`.
pub open spec fn before_colon(s: Seq<char>, i: nat) -> Seq<char>
    decreases s.len() - i,
{
    if i >= s.len() {
        s
    } else if s[i as int] == ':' {
        s.subrange(0, i as int)
    } else {
        before_colon(s, i + 1)
    }
}

/// `-v`, where the negation of `i64::MIN` wraps to itself.
pub open spec fn negated(v: int) -> int {
    if v == i64::MIN {
        v
    } else {
        -v
    }
}

/// The relative move a query asks for: after trimming, a run of direction chars (the last one counts), then
/// a number up to any `:`; `None` when there is no direction or no number.
pub open spec fn spec_relative_offset(query: Seq<char>) -> Option<int> {
    let t = trim(query);
    let e = direction_run_end(t, 0);
    if e == 0 {
        None
    } else {
        match parse_i64(trim(before_colon(t.subrange(e as int, t.len() as int), 0))) {
            Some(v) => Some(
                if is_forward(t[e - 1]) {
                    v
                } else {
                    negated(v)
                },
            ),
            None => None,
        }
    }
}

/// The index of the first `:` in `s` from `i`, if any.
pub open spec fn first_colon(s: Seq<char>, i: nat) -> Option<nat>
    decreases s.len() - i,
{
    if i >= s.len() {
        None
    } else if s[i as int] == ':' {
        Some(i)
    } else {
        first_colon(s, i + 1)
    }
}

/// `line[:column]`: the line is the trimmed text before the first `:`, the column the trimmed text after it
/// when that parses.
pub open spec fn spec_line_and_column(query: Seq<char>) -> Option<(nat, Option<nat>)> {
    let (before, after) = match first_colon(query, 0) {
        Some(i) => (query.subrange(0, i as int), Some(query.subrange(i + 1int, query.len() as int))),
        None => (query, None),
    };
    match parse_unsigned(trim(before), usize::MAX as nat) {
        Some(line) => Some(
            (
                line,
                match after {
                    Some(a) => parse_unsigned(trim(a), usize::MAX as nat),
                    None => None,
                },
            ),
        ),
        None => None,
    }
}

/// `line` moved by `offset` (its magnitude taken as a `usize`), kept within `0..=usize::MAX`.
pub open spec fn spec_relative_target(line: usize, offset: int) -> nat {
    if offset >= 0 {
        let t = line + (offset as usize);
        if t > usize::MAX {
            usize::MAX as nat
        } else {
            t as nat
        }
    } else {
        let t = line - ((-offset) as usize);
        if t < 0 {
            0
        } else {
            t as nat
        }
    }
}

/// `n - 1`, or 0.
pub open spec fn minus_one(n: nat) -> nat {
    if n > 0 {
        (n - 1) as nat
    } else {
        0
    }
}

/// `n` with its sign always shown, as `{n:+}` formats it.
pub open spec fn signed_decimal(n: int) -> Seq<char> {
    if n >= 0 {
        "+"@ + decimal(n as nat)
    } else {
        "-"@ + decimal((-n) as nat)
    }
}

impl GoToLine {
    /// The 0-based row and char column the query points at, if it parses.
    pub open spec fn spec_target(&self) -> Option<(nat, nat)> {
        match spec_relative_offset(self.query@) {
            Some(o) => Some((minus_one(spec_relative_target(self.current_line, o)), 0)),
            None => match spec_line_and_column(self.query@) {
                Some((line, column)) => Some(
                    (
                        minus_one(line),
                        minus_one(
                            match column {
                                Some(c) => c,
                                None => 0,
                            },
                        ),
                    ),
                ),
                None => None,
            },
        }
    }

    /// `line:column` of the caret.
    pub open spec fn spec_placeholder(&self) -> Seq<char> {
        decimal(self.current_line as nat) + ":"@ + decimal(self.current_column as nat)
    }

    /// The help line under the query.
    pub open spec fn spec_help_text(&self) -> Seq<char> {
        match spec_relative_offset(self.query@) {
            Some(o) => "Go to line "@ + decimal(spec_relative_target(self.current_line, o)) + " ("@
                + signed_decimal(o) + " from current)"@,
            None => match spec_line_and_column(self.query@) {
                Some((line, Some(column))) => "Go to line "@ + decimal(line) + ", character "@ + decimal(
                    column,
                ),
                Some((line, None)) => "Go to line "@ + decimal(line),
                None => "Current Line: "@ + decimal(self.current_line as nat) + " of "@ + decimal(
                    self.line_count as nat,
                ) + " (column "@ + decimal(self.current_column as nat) + ")"@,
            },
        }
    }

    pub fn new(line: usize, column: usize, line_count: usize) -> (r: Self)
        ensures
            r.query@ == Seq::<char>::empty(),
            r.current_line == line,
            r.current_column == column,
            r.line_count == line_count,
    {
        GoToLine { query: String::new(), current_line: line, current_column: column, line_count }
    }

    pub fn placeholder(&self) -> (r: String)
        ensures
            r@ == self.spec_placeholder(),
    {
        let mut s = String::new();
        push_decimal(&mut s, self.current_line as u64);
        s.append(":");
        push_decimal(&mut s, self.current_column as u64);
        proof {
            reveal_strlit(":");
        }
        s
    }

    /// Tab fills an empty field with the placeholder.
    pub fn accept_placeholder(&mut self)
        ensures
            final(self).current_line == old(self).current_line,
            final(self).current_column == old(self).current_column,
            final(self).line_count == old(self).line_count,
            final(self).query@ == (if old(self).query@.len() == 0 {
                old(self).spec_placeholder()
            } else {
                old(self).query@
            }),
    {
        if self.query.as_str().unicode_len() == 0 {
            self.query = self.placeholder();
        }
    }

    /// `+n`/`f n` forward or `-n`/`b n` back from the current line.
    pub fn relative_offset(&self) -> (r: Option<i64>)
        ensures
            r == (match spec_relative_offset(self.query@) {
                Some(v) => Some(v as i64),
                None => None,
            }),
    {
        let chars = chars_of(self.query.as_str());
        let (start, end) = trim_bounds(&chars);
        let t = crate::text::sub_vec(&chars, start, end);
        let mut e: usize = 0;
        while e < t.len() && (t[e] == '+' || t[e] == 'f' || t[e] == 'F' || t[e] == '-' || t[e] == 'b' || t[e] == 'B')
            invariant
                e <= t.len(),
                direction_run_end(t@, e as nat) == direction_run_end(t@, 0),
            decreases t.len() - e,
        {
            e += 1;
        }
        if e == 0 {
            return None;
        }
        let rest = crate::text::sub_vec(&t, e, t.len());
        let mut colon: usize = 0;
        while colon < rest.len() && rest[colon] != ':'
            invariant
                colon <= rest.len(),
                before_colon(rest@, colon as nat) == before_colon(rest@, 0),
            decreases rest.len() - colon,
        {
            colon += 1;
        }
        if colon < rest.len() {
            assert(before_colon(rest@, colon as nat) == rest@.subrange(0, colon as int));
        } else {
            assert(rest@.subrange(0, colon as int) == rest@);
        }
        let part = crate::text::sub_vec(&rest, 0, colon);
        let (ps, pe) = trim_bounds(&part);
        match parse_i64_range(&part, ps, pe) {
            Some(v) => {
                let forward = t[e - 1] == '+' || t[e - 1] == 'f' || t[e - 1] == 'F';
                if forward {
                    Some(v)
                } else if v == i64::MIN {
                    Some(v)
                } else {
                    Some(-v)
                }
            },
            None => None,
        }
    }

    /// The line and optional column of a `line[:column]` query.
    pub fn line_and_column(&self) -> (r: Option<(usize, Option<usize>)>)
        ensures
            r == (match spec_line_and_column(self.query@) {
                Some((line, column)) => Some(
                    (
                        line as usize,
                        match column {
                            Some(c) => Some(c as usize),
                            None => None,
                        },
                    ),
                ),
                None => None,
            }),
    {
        let chars = chars_of(self.query.as_str());
        let mut colon: usize = 0;
        while colon < chars.len() && chars[colon] != ':'
            invariant
                colon <= chars.len(),
                first_colon(chars@, colon as nat) == first_colon(chars@, 0),
            decreases chars.len() - colon,
        {
            colon += 1;
        }
        let before = crate::text::sub_vec(&chars, 0, colon);
        let (bs, be) = trim_bounds(&before);
        let line = match parse_usize_range(&before, bs, be) {
            Some(line) => line,
            None => {
                if colon == chars.len() {
                    assert(before@ =~= chars@);
                }
                return None;
            },
        };
        if colon < chars.len() {
            let after = crate::text::sub_vec(&chars, colon + 1, chars.len());
            let (as_, ae) = trim_bounds(&after);
            let column = parse_usize_range(&after, as_, ae);
            Some((line, column))
        } else {
            assert(before@ =~= chars@);
            Some((line, None))
        }
    }

    /// The line `offset` lines from the current one, kept within the integers.
    pub fn relative_target(&self, offset: i64) -> (r: usize)
        ensures
            r == spec_relative_target(self.current_line, offset as int),
    {
        if offset >= 0 {
            self.current_line.saturating_add(offset as usize)
        } else {
            let back: u64 = if offset == i64::MIN {
                0x8000_0000_0000_0000
            } else {
                (-offset) as u64
            };
            self.current_line.saturating_sub(back as usize)
        }
    }

    /// The 0-based (row, char column) the query points at, if it parses.
    pub fn target(&self) -> (r: Option<(usize, usize)>)
        ensures
            r == (match self.spec_target() {
                Some((row, column)) => Some((row as usize, column as usize)),
                None => None,
            }),
    {
        let (line, column) = match self.relative_offset() {
            Some(offset) => (self.relative_target(offset), None),
            None => match self.line_and_column() {
                Some(found) => found,
                None => return None,
            },
        };
        let column = match column {
            Some(c) => c,
            None => 0,
        };
        Some((line.saturating_sub(1), column.saturating_sub(1)))
    }

    /// What the query asks for, in words.
    pub fn help_text(&self) -> (r: String)
        ensures
            r@ == self.spec_help_text(),
    {
        proof {
            reveal_strlit("Go to line ");
            reveal_strlit(" (");
            reveal_strlit(" from current)");
            reveal_strlit(", character ");
            reveal_strlit("Current Line: ");
            reveal_strlit(" of ");
            reveal_strlit(" (column ");
            reveal_strlit(")");
            reveal_strlit("+");
            reveal_strlit("-");
        }
        if let Some(offset) = self.relative_offset() {
            let mut s = String::from_str("Go to line ");
            push_decimal(&mut s, self.relative_target(offset) as u64);
            s.append(" (");
            if offset >= 0 {
                s.append("+");
                push_decimal(&mut s, offset as u64);
            } else {
                s.append("-");
                let magnitude: u64 = if offset == i64::MIN {
                    0x8000_0000_0000_0000
                } else {
                    (-offset) as u64
                };
                push_decimal(&mut s, magnitude);
            }
            s.append(" from current)");
            return s;
        }
        match self.line_and_column() {
            Some((line, Some(column))) => {
                let mut s = String::from_str("Go to line ");
                push_decimal(&mut s, line as u64);
                s.append(", character ");
                push_decimal(&mut s, column as u64);
                s
            },
            Some((line, None)) => {
                let mut s = String::from_str("Go to line ");
                push_decimal(&mut s, line as u64);
                s
            },
            None => {
                let mut s = String::from_str("Current Line: ");
                push_decimal(&mut s, self.current_line as u64);
                s.append(" of ");
                push_decimal(&mut s, self.line_count as u64);
                s.append(" (column ");
                push_decimal(&mut s, self.current_column as u64);
                s.append(")");
                s
            },
        }
    }
}

proof fn lemma_first_colon_after_digits(a: Seq<char>, b: Seq<char>, i: nat)
    requires
        all_digits(a),
        i <= a.len(),
    ensures
        first_colon(a + seq![':'] + b, i) == Some(a.len()),
    decreases a.len() - i,
{
    let q = a + seq![':'] + b;
    if i < a.len() {
        assert(q[i as int] == a[i as int]);
        lemma_first_colon_after_digits(a, b, i + 1);
    } else {
        assert(q[i as int] == ':');
    }
}

/// Tab on an empty query aims at the caret: once the query is the placeholder, the target is the current
/// line and column (0-based).
pub proof fn lemma_placeholder_targets_the_caret(g: GoToLine)
    requires
        g.query@ == g.spec_placeholder(),
    ensures
        g.spec_target() == Some((minus_one(g.current_line as nat), minus_one(g.current_column as nat))),
{
    let a = decimal(g.current_line as nat);
    let b = decimal(g.current_column as nat);
    let q = g.query@;
    lemma_decimal_digits(g.current_line as nat);
    lemma_decimal_digits(g.current_column as nat);
    reveal_strlit(":");
    assert(q =~= a + seq![':'] + b);
    assert(!is_ws(q[0]) && q[0] == a[0]);
    assert(trim_start_index(q) == 0);
    assert(trim_start(q) =~= q);
    assert(q.last() == b.last());
    assert(!is_ws(q.last()));
    assert(trim(q) =~= q);
    assert(!is_direction(q[0]));
    assert(direction_run_end(q, 0) == 0);
    lemma_first_colon_after_digits(a, b, 0);
    assert(q.subrange(0, a.len() as int) =~= a);
    assert(q.subrange(a.len() + 1int, q.len() as int) =~= b);
    lemma_digits_trim(a);
    lemma_digits_trim(b);
    assert(a[0] != '+' && b[0] != '+');
}

} // verus!
