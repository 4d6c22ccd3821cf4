//! The command palette's logic: human names for actions, query normalization, click ids, keystroke labels,
//! and what it remembers between openings (usage counts and a walkable query history).

use vstd::prelude::*;
use crate::text::{
    chars_of, seq_starts_with, starts_with, is_lowercase, is_uppercase, is_whitespace, is_ws, string_of, to_lowercase, to_uppercase, trim,
    trim_bounds, trim_start_index, unicode_lower, unicode_to_lower, unicode_to_upper, unicode_upper, lemma_trim_clean,
    lemma_trim_ends, lemma_trim_within,
};

verus! {

/// Click targets inside the palette, as offsets from the view's palette id base.
#[derive(Clone, Copy, Debug, PartialEq, Eq, Structural)]
pub enum PaletteClick {
    Row(usize),
    Run,
}

impl PaletteClick {
    /// `Run` is offset 0; row `i` is offset `i + 1`.
    pub open spec fn spec_offset(self) -> int {
        match self {
            PaletteClick::Run => 0,
            PaletteClick::Row(index) => index + 1,
        }
    }

    pub fn offset(self) -> (r: u64)
        requires
            self matches PaletteClick::Row(index) ==> index < u64::MAX,
        ensures
            r == self.spec_offset(),
    {
        match self {
            PaletteClick::Run => 0,
            PaletteClick::Row(index) => index as u64 + 1,
        }
    }

    pub open spec fn spec_from_offset(offset: u64) -> PaletteClick {
        if offset == 0 {
            PaletteClick::Run
        } else {
            PaletteClick::Row((offset - 1) as usize)
        }
    }

    pub fn from_offset(offset: u64) -> (r: PaletteClick)
        ensures
            r == Self::spec_from_offset(offset),
    {
        if offset == 0 {
            PaletteClick::Run
        } else {
            PaletteClick::Row((offset - 1) as usize)
        }
    }
}

/// A click target survives the trip through its offset.
pub proof fn lemma_palette_click_round_trip(click: PaletteClick)
    requires
        click matches PaletteClick::Row(index) ==> index < u64::MAX,
    ensures
        PaletteClick::spec_from_offset(click.spec_offset() as u64) == click,
{
}

/// An offset that names a row the platform can index survives the trip through its click target.
pub proof fn lemma_palette_offset_round_trip(offset: u64)
    requires
        offset <= usize::MAX + 1,
    ensures
        PaletteClick::spec_from_offset(offset).spec_offset() == offset,
{
}

/// `out` with a space appended unless it already ends with one.
pub open spec fn with_space(out: Seq<char>) -> Seq<char> {
    if out.len() > 0 && out.last() == ' ' {
        out
    } else {
        out.push(' ')
    }
}

/// The end of the run of upper-case chars starting at `j`.
pub open spec fn upper_run_end(chars: Seq<char>, j: nat) -> nat
    decreases chars.len() - j,
{
    if j < chars.len() && unicode_upper(chars[j as int]) {
        upper_run_end(chars, j + 1)
    } else {
        j
    }
}

/// The rest of an action name from `i`, humanized onto `out`: `::` becomes `: `, `_` a space, a single
/// upper-case letter starts a lower-case word, and a run of upper-case letters stays together as an acronym,
/// except for its last letter when a lower-case letter follows (that one starts the next word).
pub open spec fn humanize_from(chars: Seq<char>, i: nat, out: Seq<char>) -> Seq<char>
    decreases chars.len() - i, 1nat,
{
    if i >= chars.len() {
        out
    } else {
        let c = chars[i as int];
        if c == ':' {
            humanize_from(
                chars,
                i + 1,
                out.push(
                    if out.len() > 0 && out.last() == ':' {
                        ' '
                    } else {
                        ':'
                    },
                ),
            )
        } else if c == '_' {
            humanize_from(chars, i + 1, out.push(' '))
        } else if unicode_upper(c) {
            humanize_upper(chars, i, out)
        } else {
            humanize_from(chars, i + 1, out.push(c))
        }
    }
}

/// The step of `humanize_from` at an upper-case char `chars[i]`.
pub open spec fn humanize_upper(chars: Seq<char>, i: nat, out: Seq<char>) -> Seq<char>
    decreases chars.len() - i, 0nat,
{
    if i < chars.len() {
        let end = upper_run_end(chars, i + 1);
        if i + 1 <= end <= chars.len() {
            let run_len = end - i;
            let splits = run_len > 1 && end < chars.len() && unicode_lower(chars[end as int]);
            if run_len > 1 {
                let acronym_end = if splits {
                    run_len - 1
                } else {
                    run_len
                };
                let out1 = with_space(out) + chars.subrange(i as int, i + acronym_end);
                let out2 = if splits {
                    with_space(out1) + unicode_to_lower(chars[i + acronym_end])
                } else {
                    out1
                };
                humanize_from(chars, end, out2)
            } else {
                humanize_from(chars, end, with_space(out) + unicode_to_lower(chars[i as int]))
            }
        } else {
            out
        }
    } else {
        out
    }
}

proof fn lemma_upper_run_end(chars: Seq<char>, j: nat)
    requires
        j <= chars.len(),
    ensures
        j <= upper_run_end(chars, j) <= chars.len(),
        forall|k: int| j <= k < upper_run_end(chars, j) ==> unicode_upper(#[trigger] chars[k]),
        upper_run_end(chars, j) < chars.len() ==> !unicode_upper(chars[upper_run_end(chars, j) as int]),
    decreases chars.len() - j,
{
    if j < chars.len() && unicode_upper(chars[j as int]) {
        lemma_upper_run_end(chars, j + 1);
    }
}

fn push_all(out: &mut Vec<char>, chars: &Vec<char>, from: usize, to: usize)
    requires
        from <= to <= chars.len(),
    ensures
        final(out)@ == old(out)@ + chars@.subrange(from as int, to as int),
{
    let mut i = from;
    while i < to
        invariant
            from <= i <= to <= chars.len(),
            out@ == old(out)@ + chars@.subrange(from as int, i as int),
        decreases to - i,
    {
        out.push(chars[i]);
        assert(chars@.subrange(from as int, i + 1) == chars@.subrange(from as int, i as int).push(
            chars@[i as int],
        ));
        i += 1;
    }
}

fn push_space(out: &mut Vec<char>)
    ensures
        final(out)@ == with_space(old(out)@),
{
    if out.len() == 0 || out[out.len() - 1] != ' ' {
        out.push(' ');
    }
}

/// `editor::ConvertToUpperCase` -> `editor: convert to upper case`; acronym runs stay together.
pub fn humanize_action_name(name: &str) -> (r: String)
    ensures
        r@ == humanize_from(name@, 0, seq![]),
{
    let chars = chars_of(name);
    let mut result: Vec<char> = Vec::new();
    let mut index: usize = 0;
    while index < chars.len()
        invariant
            chars@ == name@,
            index <= chars.len(),
            humanize_from(chars@, index as nat, result@) == humanize_from(name@, 0, seq![]),
        decreases chars.len() - index,
    {
        let c = chars[index];
        if c == ':' {
            let sep = if result.len() > 0 && result[result.len() - 1] == ':' {
                ' '
            } else {
                ':'
            };
            result.push(sep);
            index += 1;
        } else if c == '_' {
            result.push(' ');
            index += 1;
        } else if is_uppercase(c) {
            let ghost before = result@;
            let start = index;
            index += 1;
            while index < chars.len() && is_uppercase(chars[index])
                invariant
                    start < index <= chars.len(),
                    upper_run_end(chars@, (start + 1) as nat) == upper_run_end(chars@, index as nat),
                decreases chars.len() - index,
            {
                index += 1;
            }
            proof {
                lemma_upper_run_end(chars@, (start + 1) as nat);
            }
            let run_len = index - start;
            let splits = run_len > 1 && index < chars.len() && is_lowercase(chars[index]);
            if run_len > 1 {
                let acronym_end = if splits {
                    run_len - 1
                } else {
                    run_len
                };
                push_space(&mut result);
                push_all(&mut result, &chars, start, start + acronym_end);
                if splits {
                    push_space(&mut result);
                    let lower = to_lowercase(chars[start + acronym_end]);
                    push_all(&mut result, &lower, 0, lower.len());
                    assert(lower@.subrange(0, lower@.len() as int) == lower@);
                }
            } else {
                push_space(&mut result);
                let lower = to_lowercase(c);
                push_all(&mut result, &lower, 0, lower.len());
                assert(lower@.subrange(0, lower@.len() as int) == lower@);
            }
            assert(humanize_from(chars@, start as nat, before) == humanize_upper(chars@, start as nat, before));
            assert(humanize_upper(chars@, start as nat, before) == humanize_from(chars@, index as nat, result@));
        } else {
            result.push(c);
            index += 1;
        }
    }
    string_of(&result)
}

/// `c` with `_` read as a space.
pub open spec fn underscore_as_space(c: char) -> char {
    if c == '_' {
        ' '
    } else {
        c
    }
}

/// The rest of a trimmed query from `i` onto `out`, where `last` is the last char kept: a colon after a
/// colon and whitespace after whitespace are dropped.
pub open spec fn normalize_from(t: Seq<char>, i: nat, last: Option<char>, out: Seq<char>) -> Seq<char>
    decreases t.len() - i,
{
    if i >= t.len() {
        out
    } else {
        let c = underscore_as_space(t[i as int]);
        if (last == Some(':') && c == ':') || (last is Some && is_ws(last->0) && is_ws(c)) {
            normalize_from(t, i + 1, last, out)
        } else {
            normalize_from(t, i + 1, Some(c), out.push(c))
        }
    }
}

/// No `_`, no colon right after a colon, and no whitespace right after whitespace.
pub open spec fn settled(s: Seq<char>) -> bool {
    &&& forall|i: int| 0 <= i < s.len() ==> #[trigger] s[i] != '_'
    &&& forall|i: int|
        0 <= i && i + 1 < s.len() ==> !(#[trigger] s[i] == ':' && s[i + 1] == ':') && !(is_ws(s[i]) && is_ws(
            s[i + 1],
        ))
}

/// The last char of `s`, if any.
pub open spec fn last_char(s: Seq<char>) -> Option<char> {
    if s.len() == 0 {
        None
    } else {
        Some(s.last())
    }
}

/// Normalizing text without `_` onto a settled prefix keeps it settled and keeps that prefix.
proof fn lemma_normalize_settles(t: Seq<char>, i: nat, out: Seq<char>)
    requires
        settled(out),
        forall|j: int| 0 <= j < t.len() ==> #[trigger] t[j] != '_',
    ensures
        settled(normalize_from(t, i, last_char(out), out)),
        normalize_from(t, i, last_char(out), out).len() >= out.len(),
        normalize_from(t, i, last_char(out), out).subrange(0, out.len() as int) == out,
    decreases t.len() - i,
{
    if i < t.len() {
        let c = underscore_as_space(t[i as int]);
        let last = last_char(out);
        if (last == Some(':') && c == ':') || (last is Some && is_ws(last->0) && is_ws(c)) {
            lemma_normalize_settles(t, i + 1, out);
        } else {
            let o2 = out.push(c);
            assert(settled(o2)) by {
                assert forall|k: int| 0 <= k && k + 1 < o2.len() implies !(#[trigger] o2[k] == ':' && o2[k + 1] == ':')
                    && !(is_ws(o2[k]) && is_ws(o2[k + 1])) by {
                    if k + 1 < out.len() {
                        assert(o2[k] == out[k] && o2[k + 1] == out[k + 1]);
                    } else {
                        assert(o2[k] == out.last() && o2[k + 1] == c);
                    }
                }
                assert forall|k: int| 0 <= k < o2.len() implies #[trigger] o2[k] != '_' by {
                    if k < out.len() {
                        assert(o2[k] == out[k]);
                    }
                }
            }
            assert(last_char(o2) == Some(c));
            lemma_normalize_settles(t, i + 1, o2);
            let r = normalize_from(t, i, last, out);
            assert(r.subrange(0, o2.len() as int) == o2);
            assert(r.subrange(0, out.len() as int) =~= o2.subrange(0, out.len() as int));
        }
    }
}

/// Normalizing a settled text gives it back.
proof fn lemma_normalize_fixed(s: Seq<char>, i: nat)
    requires
        settled(s),
        i <= s.len(),
    ensures
        normalize_from(s, i, last_char(s.take(i as int)), s.take(i as int)) == s,
    decreases s.len() - i,
{
    if i < s.len() {
        let c = s[i as int];
        assert(underscore_as_space(c) == c);
        if i > 0 {
            assert(last_char(s.take(i as int)) == Some(s[i - 1]));
        }
        assert(s.take(i as int).push(c) =~= s.take(i + 1 as int));
        lemma_normalize_fixed(s, i + 1);
    } else {
        assert(s.take(i as int) =~= s);
    }
}

/// The last char a normalized text gets is not whitespace when the text's last char is not.
proof fn lemma_normalize_ends_clean(t: Seq<char>, i: nat, out: Seq<char>)
    requires
        t.len() > 0,
        i < t.len(),
        !is_ws(t.last()),
        t.last() != '_',
    ensures
        ({
            let r = normalize_from(t, i, last_char(out), out);
            r.len() > 0 && !is_ws(r.last())
        }),
    decreases t.len() - i,
{
    let c = underscore_as_space(t[i as int]);
    let last = last_char(out);
    if i + 1 == t.len() {
        assert(c == t.last());
        if (last == Some(':') && c == ':') || (last is Some && is_ws(last->0) && is_ws(c)) {
            assert(normalize_from(t, i + 1, last, out) == out);
            assert(out.last() == ':');
        } else {
            assert(normalize_from(t, i + 1, Some(c), out.push(c)) == out.push(c));
        }
    } else if (last == Some(':') && c == ':') || (last is Some && is_ws(last->0) && is_ws(c)) {
        lemma_normalize_ends_clean(t, i + 1, out);
    } else {
        assert(last_char(out.push(c)) == Some(c));
        lemma_normalize_ends_clean(t, i + 1, out.push(c));
    }
}

/// The normalized form of a query.
pub open spec fn normalized(q: Seq<char>) -> Seq<char> {
    normalize_from(trim(q), 0, None, seq![])
}

/// Normalizing a query without `_` twice gives what normalizing it once gives.
pub proof fn lemma_normalize_twice(q: Seq<char>)
    requires
        forall|j: int| 0 <= j < q.len() ==> #[trigger] q[j] != '_',
    ensures
        normalized(normalized(q)) == normalized(q),
{
    let t = trim(q);
    lemma_trim_ends(q);
    lemma_trim_within(q);
    assert(forall|j: int| 0 <= j < t.len() ==> #[trigger] t[j] != '_') by {
        assert forall|j: int| 0 <= j < t.len() implies #[trigger] t[j] != '_' by {
            assert(t[j] == q[trim_start_index(q) + j]);
        }
    }
    let e: Seq<char> = seq![];
    assert(settled(e));
    assert(last_char(e) is None);
    lemma_normalize_settles(t, 0, e);
    let n = normalize_from(t, 0, None, e);
    if t.len() > 0 {
        lemma_normalize_ends_clean(t, 0, e);
        // The first char of `t` is kept.
        assert(normalize_from(t, 0, None, e) == normalize_from(t, 1, Some(t[0]), e.push(t[0])));
        lemma_normalize_settles(t, 1, e.push(t[0]));
        assert(n.subrange(0, 1) =~= e.push(t[0]));
        assert(n[0] == t[0]);
    }
    lemma_trim_clean(n);
    lemma_normalize_fixed(n, 0);
    assert(n.take(0) =~= e);
}

/// Trim, treat `_` as a space, and collapse repeated spaces and colons, so `editor::sort_lines` and
/// `editor: sort lines` find the same commands.
pub fn normalize_action_query(input: &str) -> (r: String)
    ensures
        r@ == normalize_from(trim(input@), 0, None, seq![]),
{
    let chars = chars_of(input);
    let (start, end) = trim_bounds(&chars);
    let ghost t = chars@.subrange(start as int, end as int);
    let mut result: Vec<char> = Vec::new();
    let mut last: Option<char> = None;
    let mut i = start;
    while i < end
        invariant
            start <= i <= end <= chars.len(),
            t == chars@.subrange(start as int, end as int),
            normalize_from(t, (i - start) as nat, last, result@) == normalize_from(t, 0, None, seq![]),
        decreases end - i,
    {
        let c = if chars[i] == '_' {
            ' '
        } else {
            chars[i]
        };
        assert(t[i - start] == chars@[i as int]);
        let skip = match last {
            Some(l) => (l == ':' && c == ':') || (is_whitespace(l) && is_whitespace(c)),
            None => false,
        };
        if !skip {
            last = Some(c);
            result.push(c);
        }
        i += 1;
    }
    string_of(&result)
}

/// One of the modifier names a keystroke may start with.
pub open spec fn is_modifier(head: Seq<char>) -> bool {
    head == "ctrl"@ || head == "alt"@ || head == "cmd"@ || head == "shift"@
}

/// The index of the first `-` in `s` at or after `from`, if any.
pub open spec fn dash_from(s: Seq<char>, from: nat) -> Option<nat>
    decreases s.len() - from,
{
    if from >= s.len() {
        None
    } else if s[from as int] == '-' {
        Some(from)
    } else {
        dash_from(s, from + 1)
    }
}

/// Modifiers found in `s` from `pos` on (appended to `mods`), and where the key starts: a modifier is a
/// known modifier name followed by `-` and something more.
pub open spec fn keystroke_from(s: Seq<char>, pos: nat, mods: Seq<Seq<char>>) -> (Seq<Seq<char>>, nat)
    decreases s.len() - pos,
{
    match dash_from(s, pos) {
        Some(j) => {
            if j < s.len() && pos <= j && j + 1 < s.len() && is_modifier(s.subrange(pos as int, j as int)) {
                keystroke_from(s, j + 1, mods.push(s.subrange(pos as int, j as int)))
            } else {
                (mods, pos)
            }
        },
        None => (mods, pos),
    }
}

proof fn lemma_dash_from(s: Seq<char>, from: nat)
    ensures
        dash_from(s, from) matches Some(j) ==> from <= j < s.len() && s[j as int] == '-' && forall|
            k: int,
        | from <= k < j ==> s[k] != '-',
        dash_from(s, from) is None ==> forall|k: int| from <= k < s.len() ==> s[k] != '-',
    decreases s.len() - from,
{
    if from < s.len() && s[from as int] != '-' {
        lemma_dash_from(s, from + 1);
    }
}

fn range_is(chars: &Vec<char>, from: usize, to: usize, word: &str) -> (r: bool)
    requires
        from <= to <= chars.len(),
    ensures
        r == (chars@.subrange(from as int, to as int) == word@),
{
    let w = chars_of(word);
    if w.len() != to - from {
        return false;
    }
    let mut i: usize = 0;
    while i < w.len()
        invariant
            w@ == word@,
            w.len() == to - from,
            from <= to <= chars.len(),
            i <= w.len(),
            forall|k: int| 0 <= k < i ==> chars@[from + k] == w@[k],
        decreases w.len() - i,
    {
        if chars[from + i] != w[i] {
            assert(chars@.subrange(from as int, to as int)[i as int] != w@[i as int]);
            return false;
        }
        i += 1;
    }
    assert(chars@.subrange(from as int, to as int) =~= w@);
    true
}

/// Split `cmd-shift-k` into its modifiers and key; the key may itself be `-` (`ctrl--`).
pub fn parse_keystroke(keystroke: &str) -> (r: (Vec<&str>, &str))
    ensures
        r.0@.map_values(|m: &str| m@) == keystroke_from(keystroke@, 0, seq![]).0,
        r.1@ == keystroke@.subrange(
            keystroke_from(keystroke@, 0, seq![]).1 as int,
            keystroke@.len() as int,
        ),
{
    let chars = chars_of(keystroke);
    let mut modifiers: Vec<&str> = Vec::new();
    let mut pos: usize = 0;
    assert(modifiers@.map_values(|m: &str| m@) =~= Seq::<Seq<char>>::empty());
    loop
        invariant
            chars@ == keystroke@,
            pos <= chars.len(),
            keystroke_from(keystroke@, pos as nat, modifiers@.map_values(|m: &str| m@))
                == keystroke_from(keystroke@, 0, seq![]),
        ensures
            pos <= chars.len(),
            keystroke_from(keystroke@, 0, seq![]) == (modifiers@.map_values(|m: &str| m@), pos as nat),
        decreases chars.len() - pos,
    {
        proof {
            lemma_dash_from(chars@, pos as nat);
        }
        let mut j = pos;
        while j < chars.len() && chars[j] != '-'
            invariant
                pos <= j <= chars.len(),
                dash_from(chars@, pos as nat) == dash_from(chars@, j as nat),
            decreases chars.len() - j,
        {
            j += 1;
        }
        if j == chars.len() || j + 1 == chars.len() {
            break;
        }
        let modifier = range_is(&chars, pos, j, "ctrl") || range_is(&chars, pos, j, "alt")
            || range_is(&chars, pos, j, "cmd") || range_is(&chars, pos, j, "shift");
        if !modifier {
            break;
        }
        let head = keystroke.substring_char(pos, j);
        let ghost before = modifiers@;
        modifiers.push(head);
        assert(modifiers@.map_values(|m: &str| m@) =~= before.map_values(|m: &str| m@).push(head@));
        pos = j + 1;
    }
    let key = keystroke.substring_char(pos, chars.len());
    (modifiers, key)
}

/// The label a key shows: `PageUp` and `PageDown` by name, any other key with its first char upper-cased.
pub open spec fn spec_key_label(key: Seq<char>) -> Seq<char> {
    if key == "pageup"@ {
        "PageUp"@
    } else if key == "pagedown"@ {
        "PageDown"@
    } else if key.len() == 0 {
        seq![]
    } else {
        unicode_to_upper(key[0]) + key.drop_first()
    }
}

pub fn key_label(key: &str) -> (r: String)
    ensures
        r@ == spec_key_label(key@),
{
    let chars = chars_of(key);
    if range_is(&chars, 0, chars.len(), "pageup") {
        assert(chars@.subrange(0, chars@.len() as int) == chars@);
        return String::from_str("PageUp");
    }
    if range_is(&chars, 0, chars.len(), "pagedown") {
        assert(chars@.subrange(0, chars@.len() as int) == chars@);
        return String::from_str("PageDown");
    }
    assert(chars@.subrange(0, chars@.len() as int) == chars@);
    if chars.len() == 0 {
        return String::new();
    }
    let mut label = to_uppercase(chars[0]);
    let first_len = label.len();
    push_all(&mut label, &chars, 1, chars.len());
    assert(chars@.subrange(1, chars@.len() as int) == chars@.drop_first());
    string_of(&label)
}

} // verus!

verus! {

/// `entries` without the ones equal to `q`, in order.
pub open spec fn without(entries: Seq<Seq<char>>, q: Seq<char>) -> Seq<Seq<char>>
    decreases entries.len(),
{
    if entries.len() == 0 {
        entries
    } else {
        let rest = without(entries.drop_last(), q);
        if entries.last() == q {
            rest
        } else {
            rest.push(entries.last())
        }
    }
}

/// The newest index below `start` whose entry starts with `prefix`.
pub open spec fn last_match_before(entries: Seq<Seq<char>>, prefix: Seq<char>, start: nat) -> Option<nat>
    decreases start,
{
    if start == 0 {
        None
    } else if starts_with(entries[start - 1], prefix) {
        Some((start - 1) as nat)
    } else {
        last_match_before(entries, prefix, (start - 1) as nat)
    }
}

/// The oldest index from `from` on whose entry starts with `prefix`.
pub open spec fn first_match_from(entries: Seq<Seq<char>>, prefix: Seq<char>, from: nat) -> Option<nat>
    decreases entries.len() - from,
{
    if from >= entries.len() {
        None
    } else if starts_with(entries[from as int], prefix) {
        Some(from)
    } else {
        first_match_from(entries, prefix, from + 1)
    }
}

/// A query history as values: past queries oldest first, the entry being shown while walking, and the query
/// typed before the walk began.
#[verifier::ext_equal]
pub struct HistoryView {
    pub entries: Seq<Seq<char>>,
    pub cursor: Option<usize>,
    pub prefix: Option<Seq<char>>,
}

/// The history after `q` was run: `q` moves to (or joins at) the newest end and any walk ends.
pub open spec fn history_add(h: HistoryView, q: Seq<char>) -> HistoryView {
    HistoryView { entries: without(h.entries, q).push(q), cursor: None, prefix: None }
}

/// The history with no walk.
pub open spec fn history_reset(h: HistoryView) -> HistoryView {
    HistoryView { entries: h.entries, cursor: None, prefix: None }
}

/// A walk ends once the query no longer shows the entry it is at (it was edited by hand).
pub open spec fn history_validated(h: HistoryView, current: Seq<char>) -> HistoryView {
    match h.cursor {
        Some(p) => if p < h.entries.len() && h.entries[p as int] == current {
            h
        } else {
            history_reset(h)
        },
        None => h,
    }
}

pub open spec fn prefix_or_empty(h: HistoryView) -> Seq<char> {
    match h.prefix {
        Some(p) => p,
        None => seq![],
    }
}

/// Up: the next older entry that starts with the query typed before walking (which a new walk takes from
/// `current`), and the history showing it; `None` when there is none.
pub open spec fn history_previous(h: HistoryView, current: Seq<char>) -> (HistoryView, Option<Seq<char>>) {
    let v = history_validated(h, current);
    let v1 = if v.cursor is None {
        HistoryView { entries: v.entries, cursor: v.cursor, prefix: Some(current) }
    } else {
        v
    };
    let start = match v1.cursor {
        Some(c) => c as nat,
        None => v1.entries.len(),
    };
    match last_match_before(v1.entries, prefix_or_empty(v1), start) {
        Some(f) => (
            HistoryView { entries: v1.entries, cursor: Some(f as usize), prefix: v1.prefix },
            Some(v1.entries[f as int]),
        ),
        None => (v1, None),
    }
}

/// Down: during a walk, the next newer entry with the walk's prefix, and the history showing it; `None` when
/// not walking or there is none.
pub open spec fn history_next(h: HistoryView, current: Seq<char>) -> (HistoryView, Option<Seq<char>>) {
    let v = history_validated(h, current);
    match v.cursor {
        None => (v, None),
        Some(sel) => match first_match_from(v.entries, prefix_or_empty(v), sel as nat + 1) {
            Some(f) => (
                HistoryView { entries: v.entries, cursor: Some(f as usize), prefix: v.prefix },
                Some(v.entries[f as int]),
            ),
            None => (v, None),
        },
    }
}

/// Past queries, walked with Up/Down; only entries starting with what was typed before walking are visited.
pub struct QueryHistory {
    entries: Vec<String>,
    cursor: Option<usize>,
    prefix: Option<String>,
}

pub open spec fn opt_view(o: Option<String>) -> Option<Seq<char>> {
    match o {
        Some(s) => Some(s@),
        None => None,
    }
}

impl View for QueryHistory {
    type V = HistoryView;

    closed spec fn view(&self) -> HistoryView {
        HistoryView { entries: self.entries.deep_view(), cursor: self.cursor, prefix: opt_view(self.prefix) }
    }
}

impl Default for QueryHistory {
    fn default() -> (r: Self)
        ensures
            r@.entries == Seq::<Seq<char>>::empty(),
            r@.cursor is None,
            r@.prefix is None,
    {
        QueryHistory::new()
    }
}

proof fn lemma_last_match_before(entries: Seq<Seq<char>>, prefix: Seq<char>, start: nat)
    requires
        start <= entries.len(),
    ensures
        last_match_before(entries, prefix, start) matches Some(f) ==> f < start && starts_with(
            entries[f as int],
            prefix,
        ) && forall|k: int| f < k < start ==> !starts_with(#[trigger] entries[k], prefix),
        last_match_before(entries, prefix, start) is None ==> forall|k: int|
            0 <= k < start ==> !starts_with(#[trigger] entries[k], prefix),
    decreases start,
{
    if start > 0 && !starts_with(entries[start - 1], prefix) {
        lemma_last_match_before(entries, prefix, (start - 1) as nat);
    }
}

proof fn lemma_first_match_from(entries: Seq<Seq<char>>, prefix: Seq<char>, from: nat)
    ensures
        first_match_from(entries, prefix, from) matches Some(f) ==> from <= f < entries.len()
            && starts_with(entries[f as int], prefix) && forall|k: int|
            from <= k < f ==> !starts_with(#[trigger] entries[k], prefix),
        first_match_from(entries, prefix, from) is None ==> forall|k: int|
            from <= k < entries.len() ==> !starts_with(#[trigger] entries[k], prefix),
    decreases entries.len() - from,
{
    if from < entries.len() && !starts_with(entries[from as int], prefix) {
        lemma_first_match_from(entries, prefix, from + 1);
    }
}

/// The first index at or after `from` that matches is the one below which, from `from`, none does.
proof fn lemma_first_match_is(entries: Seq<Seq<char>>, prefix: Seq<char>, from: nat, m: nat)
    requires
        from <= m < entries.len(),
        starts_with(entries[m as int], prefix),
        forall|k: int| from <= k < m ==> !starts_with(#[trigger] entries[k], prefix),
    ensures
        first_match_from(entries, prefix, from) == Some(m),
    decreases m - from,
{
    if from < m {
        assert(!starts_with(entries[from as int], prefix));
        lemma_first_match_is(entries, prefix, from + 1, m);
    }
}

fn vec_str_starts_with(s: &String, prefix: &String) -> (r: bool)
    ensures
        r == starts_with(s@, prefix@),
{
    let a = chars_of(s.as_str());
    let b = chars_of(prefix.as_str());
    seq_starts_with(&a, &b)
}

impl QueryHistory {
    pub fn new() -> (r: Self)
        ensures
            r@.entries == Seq::<Seq<char>>::empty(),
            r@.cursor is None,
            r@.prefix is None,
    {
        let r = QueryHistory { entries: Vec::new(), cursor: None, prefix: None };
        assert(r.entries.deep_view() =~= Seq::<Seq<char>>::empty());
        r
    }

    /// Record `query` as the newest entry, dropping an older copy, and end any walk.
    pub fn add(&mut self, query: String)
        ensures
            final(self)@ == history_add(old(self)@, query@),
    {
        let mut kept: Vec<String> = Vec::new();
        let mut i: usize = 0;
        while i < self.entries.len()
            invariant
                i <= self.entries.len(),
                self.entries.deep_view() == old(self).entries.deep_view(),
                kept.deep_view() == without(self.entries.deep_view().take(i as int), query@),
            decreases self.entries.len() - i,
        {
            let ghost prev = kept.deep_view();
            assert(self.entries.deep_view().take(i + 1).drop_last() == self.entries.deep_view().take(
                i as int,
            ));
            if !(self.entries[i] == query) {
                kept.push(self.entries[i].clone());
                assert(kept.deep_view() =~= prev.push(self.entries.deep_view()[i as int]));
            }
            i += 1;
        }
        assert(self.entries.deep_view().take(i as int) == self.entries.deep_view());
        let ghost before = kept.deep_view();
        kept.push(query);
        assert(kept.deep_view() =~= before.push(query@));
        self.entries = kept;
        self.reset_cursor();
    }

    /// End any walk.
    pub fn reset_cursor(&mut self)
        ensures
            final(self)@ == history_reset(old(self)@),
    {
        self.cursor = None;
        self.prefix = None;
    }

    /// Whether Up/Down are walking the history.
    pub fn is_navigating(&self) -> (r: bool)
        ensures
            r == self@.cursor is Some,
    {
        self.cursor.is_some()
    }

    /// Editing the query by hand ends a walk.
    pub fn validate_cursor(&mut self, current: &str) -> (r: Option<usize>)
        ensures
            final(self)@ == history_validated(old(self)@, current@),
            r == final(self)@.cursor,
    {
        if let Some(position) = self.cursor {
            let same = if position < self.entries.len() {
                let cur = String::from_str(current);
                self.entries[position] == cur
            } else {
                false
            };
            if !same {
                self.reset_cursor();
            }
        }
        self.cursor
    }

    /// Up: the next older entry starting with the query typed before walking.
    pub fn previous(&mut self, current: &str) -> (r: Option<String>)
        ensures
            (final(self)@, opt_view(r)) == history_previous(old(self)@, current@),
    {
        if self.validate_cursor(current).is_none() {
            self.prefix = Some(String::from_str(current));
        }
        let prefix = match &self.prefix {
            Some(p) => p.clone(),
            None => String::new(),
        };
        let start = match self.cursor {
            Some(c) => c,
            None => self.entries.len(),
        };
        let ghost v1 = self@;
        proof {
            let v = history_validated(old(self)@, current@);
            let w = if v.cursor is None {
                HistoryView { entries: v.entries, cursor: v.cursor, prefix: Some(current@) }
            } else {
                v
            };
            assert(v1 == w);
            assert(start as nat == match w.cursor { Some(c) => c as nat, None => w.entries.len() });
        }
        let ghost expected = history_previous(old(self)@, current@);
        assert(expected == match last_match_before(v1.entries, prefix@, start as nat) {
            Some(f) => (
                HistoryView { entries: v1.entries, cursor: Some(f as usize), prefix: v1.prefix },
                Some(v1.entries[f as int]),
            ),
            None => (v1, None),
        });
        let mut i = start;
        while i > 0
            invariant
                self@ == v1,
                expected == history_previous(old(self)@, current@),
                expected == match last_match_before(v1.entries, prefix@, start as nat) {
                    Some(f) => (
                        HistoryView { entries: v1.entries, cursor: Some(f as usize), prefix: v1.prefix },
                        Some(v1.entries[f as int]),
                    ),
                    None => (v1, None),
                },
                prefix@ == prefix_or_empty(v1),
                start <= self.entries.len(),
                i <= start,
                last_match_before(v1.entries, prefix@, i as nat) == last_match_before(
                    v1.entries,
                    prefix@,
                    start as nat,
                ),
            decreases i,
        {
            if vec_str_starts_with(&self.entries[i - 1], &prefix) {
                assert(self.entries.deep_view()[i - 1] == self.entries[i - 1]@);
                assert(last_match_before(v1.entries, prefix@, i as nat) == Some((i - 1) as nat));
                self.cursor = Some(i - 1);
                let e = self.entries[i - 1].clone();
                assert(self@ == HistoryView { entries: v1.entries, cursor: Some((i - 1) as usize), prefix: v1.prefix });
                assert(opt_view(Some(e)) == Some(v1.entries[i - 1]));
                assert(expected == (self@, opt_view(Some(e))));
                return Some(e);
            }
            assert(self.entries.deep_view()[i - 1] == self.entries[i - 1]@);
            i -= 1;
        }
        None
    }

    /// Down: during a walk, the next newer entry with the walk's prefix.
    pub fn next(&mut self, current: &str) -> (r: Option<String>)
        ensures
            (final(self)@, opt_view(r)) == history_next(old(self)@, current@),
    {
        let selected = match self.validate_cursor(current) {
            Some(s) => s,
            None => return None,
        };
        let prefix = match &self.prefix {
            Some(p) => p.clone(),
            None => String::new(),
        };
        let ghost v = self@;
        assert(selected < self.entries.len());
        let ghost expected = history_next(old(self)@, current@);
        assert(expected == match first_match_from(v.entries, prefix@, selected as nat + 1) {
            Some(f) => (
                HistoryView { entries: v.entries, cursor: Some(f as usize), prefix: v.prefix },
                Some(v.entries[f as int]),
            ),
            None => (v, None),
        });
        let mut i = selected + 1;
        while i < self.entries.len()
            invariant
                self@ == v,
                expected == history_next(old(self)@, current@),
                expected == match first_match_from(v.entries, prefix@, selected as nat + 1) {
                    Some(f) => (
                        HistoryView { entries: v.entries, cursor: Some(f as usize), prefix: v.prefix },
                        Some(v.entries[f as int]),
                    ),
                    None => (v, None),
                },
                v.cursor == Some(selected),
                selected < self.entries.len(),
                prefix@ == prefix_or_empty(v),
                selected + 1 <= i <= self.entries.len(),
                first_match_from(v.entries, prefix@, i as nat) == first_match_from(
                    v.entries,
                    prefix@,
                    selected as nat + 1,
                ),
            decreases self.entries.len() - i,
        {
            assert(self.entries.deep_view()[i as int] == self.entries[i as int]@);
            if vec_str_starts_with(&self.entries[i], &prefix) {
                assert(first_match_from(v.entries, prefix@, i as nat) == Some(i as nat));
                self.cursor = Some(i);
                let e = self.entries[i].clone();
                assert(self@ == HistoryView { entries: v.entries, cursor: Some(i), prefix: v.prefix });
                assert(opt_view(Some(e)) == Some(v.entries[i as int]));
                assert(expected == (self@, opt_view(Some(e))));
                return Some(e);
            }
            i += 1;
        }
        None
    }

    /// The query typed before the walk, ending the walk (what Down past the newest match restores).
    pub fn finish_walk(&mut self) -> (r: String)
        ensures
            r@ == prefix_or_empty(old(self)@),
            final(self)@ == history_reset(old(self)@),
    {
        let prefix = match &self.prefix {
            Some(p) => p.clone(),
            None => String::new(),
        };
        self.reset_cursor();
        prefix
    }
}

/// Down after Up-Up gives back what the first Up showed: walking is undone step by step.
pub proof fn lemma_history_down_undoes_up(h: HistoryView, current: Seq<char>)
    requires
        h.cursor matches Some(p) ==> p < h.entries.len(),
        h.entries.len() <= usize::MAX,
        history_previous(h, current).1 is Some,
        history_previous(
            history_previous(h, current).0,
            history_previous(h, current).1->0,
        ).1 is Some,
    ensures
        ({
            let (h1, e1) = history_previous(h, current);
            let (h2, e2) = history_previous(h1, e1->0);
            let (h3, e3) = history_next(h2, e2->0);
            e3 == e1 && h3 == h1
        }),
{
    let v = history_validated(h, current);
    let v1 = if v.cursor is None {
        HistoryView { entries: v.entries, cursor: v.cursor, prefix: Some(current) }
    } else {
        v
    };
    let start = match v1.cursor {
        Some(c) => c as nat,
        None => v1.entries.len(),
    };
    let p = prefix_or_empty(v1);
    lemma_last_match_before(v1.entries, p, start);
    let (h1, e1) = history_previous(h, current);
    let f1 = h1.cursor->0 as nat;
    lemma_last_match_before(h1.entries, p, f1);
    let (h2, e2) = history_previous(h1, e1->0);
    let f2 = h2.cursor->0 as nat;
    assert(history_validated(h2, e2->0) == h2);
    lemma_first_match_is(h2.entries, p, f2 + 1, f1);
}

/// Every entry a walk shows starts with the walk's prefix, which a fresh walk takes from the query typed.
pub proof fn lemma_history_shows_prefixed(h: HistoryView, current: Seq<char>)
    requires
        h.cursor matches Some(p) ==> p < h.entries.len(),
    ensures
        history_previous(h, current).1 matches Some(e) ==> starts_with(
            e,
            prefix_or_empty(history_previous(h, current).0),
        ),
        h.cursor is None ==> history_previous(h, current).0.prefix == Some(current),
        history_next(h, current).1 matches Some(e) ==> starts_with(
            e,
            prefix_or_empty(history_next(h, current).0),
        ),
{
    let v = history_validated(h, current);
    let v1 = if v.cursor is None {
        HistoryView { entries: v.entries, cursor: v.cursor, prefix: Some(current) }
    } else {
        v
    };
    let start = match v1.cursor {
        Some(c) => c as nat,
        None => v1.entries.len(),
    };
    lemma_last_match_before(v1.entries, prefix_or_empty(v1), start);
    match v.cursor {
        Some(sel) => lemma_first_match_from(v.entries, prefix_or_empty(v), sel as nat + 1),
        None => {},
    }
}

} // verus!

verus! {

/// The first index of `name` in a usage list.
pub open spec fn usage_index(usage: Seq<(Seq<char>, u32)>, name: Seq<char>) -> Option<nat>
    decreases usage.len(),
{
    if usage.len() == 0 {
        None
    } else if usage.last().0 == name && usage_index(usage.drop_last(), name) is None {
        Some((usage.len() - 1) as nat)
    } else {
        usage_index(usage.drop_last(), name)
    }
}

/// How often `name` ran from the palette, if ever.
pub open spec fn usage_of(usage: Seq<(Seq<char>, u32)>, name: Seq<char>) -> Option<u32> {
    match usage_index(usage, name) {
        Some(i) => Some(usage[i as int].1),
        None => None,
    }
}

/// The usage list after `name` ran once more.
pub open spec fn usage_bumped(usage: Seq<(Seq<char>, u32)>, name: Seq<char>) -> Seq<(Seq<char>, u32)> {
    match usage_index(usage, name) {
        Some(i) => usage.update(i as int, (name, (usage[i as int].1 + 1) as u32)),
        None => usage.push((name, 1u32)),
    }
}

proof fn lemma_usage_index(usage: Seq<(Seq<char>, u32)>, name: Seq<char>)
    ensures
        usage_index(usage, name) matches Some(i) ==> i < usage.len() && usage[i as int].0 == name
            && forall|k: int| 0 <= k < i ==> (#[trigger] usage[k]).0 != name,
        usage_index(usage, name) is None ==> forall|k: int|
            0 <= k < usage.len() ==> (#[trigger] usage[k]).0 != name,
    decreases usage.len(),
{
    if usage.len() > 0 {
        lemma_usage_index(usage.drop_last(), name);
        assert forall|k: int| 0 <= k < usage.len() - 1 implies usage[k] == usage.drop_last()[k] by {}
    }
}

proof fn lemma_usage_index_is(usage: Seq<(Seq<char>, u32)>, name: Seq<char>, i: nat)
    requires
        i < usage.len(),
        usage[i as int].0 == name,
        forall|k: int| 0 <= k < i ==> (#[trigger] usage[k]).0 != name,
    ensures
        usage_index(usage, name) == Some(i),
    decreases usage.len(),
{
    lemma_usage_index(usage, name);
    if i < usage.len() - 1 {
        lemma_usage_index_is(usage.drop_last(), name, i);
    } else {
        lemma_usage_index(usage.drop_last(), name);
        if let Some(j) = usage_index(usage.drop_last(), name) {
            assert(usage.drop_last()[j as int] == usage[j as int]);
        }
    }
}

/// What the palette remembers between openings: how often each command ran from it, and past queries.
pub struct PaletteMemory {
    usage: Vec<(String, u32)>,
    history: QueryHistory,
}

impl PaletteMemory {
    /// The usage counts, oldest command first.
    pub closed spec fn usage(&self) -> Seq<(Seq<char>, u32)> {
        self.usage.deep_view()
    }

    /// The query history.
    pub closed spec fn history(&self) -> HistoryView {
        self.history@
    }

    /// The query history, to walk it.
    pub fn history_mut(&mut self) -> (r: &mut QueryHistory)
        ensures
            (*r)@ == old(self).history(),
            final(self).history() == (*final(r))@,
            final(self).usage() == old(self).usage(),
    {
        &mut self.history
    }

    pub fn new() -> (r: Self)
        ensures
            r.usage() == Seq::<(Seq<char>, u32)>::empty(),
            r.history().entries == Seq::<Seq<char>>::empty(),
            r.history().cursor is None,
            r.history().prefix is None,
    {
        let r = PaletteMemory { usage: Vec::new(), history: QueryHistory::new() };
        assert(r.usage.deep_view() =~= Seq::<(Seq<char>, u32)>::empty());
        r
    }

    /// How often the command named `name` ran from the palette; `None` when never.
    pub fn usage_count(&self, name: &str) -> (r: Option<u32>)
        ensures
            r == usage_of(self.usage(), name@),
    {
        proof {
            lemma_usage_index(self.usage(), name@);
        }
        let mut i: usize = 0;
        while i < self.usage.len()
            invariant
                i <= self.usage.len(),
                forall|k: int| 0 <= k < i ==> (#[trigger] self.usage()[k]).0 != name@,
            decreases self.usage.len() - i,
        {
            assert(self.usage()[i as int] == self.usage[i as int].deep_view());
            if self.usage[i].0 == String::from_str(name) {
                proof {
                    lemma_usage_index_is(self.usage(), name@, i as nat);
                }
                return Some(self.usage[i].1);
            }
            i += 1;
        }
        None
    }

    /// Record that the command named `name` ran from the palette with `query` typed: a non-empty query joins
    /// the history, and the command's count goes up by one.
    pub fn record_run(&mut self, query: &str, name: &str)
        requires
            usage_of(old(self).usage(), name@) matches Some(n) ==> n < u32::MAX,
        ensures
            final(self).usage() == usage_bumped(old(self).usage(), name@),
            final(self).history() == (if query@.len() == 0 {
                old(self).history()
            } else {
                history_add(old(self).history(), query@)
            }),
    {
        if query.unicode_len() != 0 {
            self.history.add(String::from_str(query));
        }
        let found = self.usage_count_index(name);
        match found {
            Some(i) => {
                let count = self.usage[i].1;
                let ghost before = self.usage.deep_view();
                self.usage.set(i, (String::from_str(name), count + 1));
                assert(self.usage.deep_view() =~= before.update(i as int, (name@, (count + 1) as u32)));
            },
            None => {
                let ghost before = self.usage.deep_view();
                self.usage.push((String::from_str(name), 1));
                assert(self.usage.deep_view() =~= before.push((name@, 1u32)));
            },
        }
    }

    fn usage_count_index(&self, name: &str) -> (r: Option<usize>)
        ensures
            r matches Some(i) ==> i < self.usage.len() && usage_index(self.usage(), name@) == Some(i as nat),
            r is None ==> usage_index(self.usage(), name@) is None,
    {
        proof {
            lemma_usage_index(self.usage(), name@);
        }
        let mut i: usize = 0;
        while i < self.usage.len()
            invariant
                i <= self.usage.len(),
                forall|k: int| 0 <= k < i ==> (#[trigger] self.usage()[k]).0 != name@,
            decreases self.usage.len() - i,
        {
            assert(self.usage()[i as int] == self.usage[i as int].deep_view());
            if self.usage[i].0 == String::from_str(name) {
                proof {
                    lemma_usage_index_is(self.usage(), name@, i as nat);
                }
                return Some(i);
            }
            i += 1;
        }
        None
    }
}

impl Default for PaletteMemory {
    fn default() -> (r: Self)
        ensures
            r.usage() == Seq::<(Seq<char>, u32)>::empty(),
            r.history().entries == Seq::<Seq<char>>::empty(),
            r.history().cursor is None,
            r.history().prefix is None,
    {
        PaletteMemory::new()
    }
}

/// A run counts once for the command that ran and for no other.
pub proof fn lemma_run_counts_once(usage: Seq<(Seq<char>, u32)>, name: Seq<char>, other: Seq<char>)
    requires
        usage_of(usage, name) matches Some(n) ==> n < u32::MAX,
    ensures
        usage_of(usage_bumped(usage, name), name) == Some(
            (match usage_of(usage, name) {
                Some(n) => n + 1,
                None => 1,
            }) as u32,
        ),
        other != name ==> usage_of(usage_bumped(usage, name), other) == usage_of(usage, other),
{
    lemma_usage_index(usage, name);
    lemma_usage_index(usage, other);
    let bumped = usage_bumped(usage, name);
    lemma_usage_index(bumped, name);
    lemma_usage_index(bumped, other);
    match usage_index(usage, name) {
        Some(i) => {
            lemma_usage_index_is(bumped, name, i);
            if other != name {
                match usage_index(usage, other) {
                    Some(j) => {
                        lemma_usage_index_is(bumped, other, j);
                    },
                    None => {
                        assert forall|k: int| 0 <= k < bumped.len() implies (#[trigger] bumped[k]).0
                            != other by {
                            if k != i {
                                assert(bumped[k] == usage[k]);
                            }
                        }
                    },
                }
            }
        },
        None => {
            lemma_usage_index_is(bumped, name, usage.len());
            if other != name {
                match usage_index(usage, other) {
                    Some(j) => {
                        lemma_usage_index_is(bumped, other, j);
                    },
                    None => {
                        assert forall|k: int| 0 <= k < bumped.len() implies (#[trigger] bumped[k]).0
                            != other by {
                            if k < usage.len() {
                                assert(bumped[k] == usage[k]);
                            }
                        }
                    },
                }
            }
        },
    }
}

/// What Up or Down does in the palette: show a query from the history, select a row, or nothing.
#[derive(Debug, PartialEq, Eq)]
pub enum PaletteMove {
    Query(String),
    Select(usize),
    Stay,
}

pub enum PaletteStep {
    Query(Seq<char>),
    Select(usize),
    Stay,
}

pub open spec fn step_view(m: PaletteMove) -> PaletteStep {
    match m {
        PaletteMove::Query(q) => PaletteStep::Query(q@),
        PaletteMove::Select(i) => PaletteStep::Select(i),
        PaletteMove::Stay => PaletteStep::Stay,
    }
}

/// Up in the palette: from the top row, or while walking the history, the next older query with the same
/// start; otherwise (or when there is none) the row above, wrapping to the last.
pub open spec fn palette_up_spec(h: HistoryView, current: Seq<char>, selected: usize, count: usize) -> (
    HistoryView,
    PaletteStep,
) {
    let wrap = if count > 0 {
        PaletteStep::Select(
            if selected == 0 {
                (count - 1) as usize
            } else {
                (selected - 1) as usize
            },
        )
    } else {
        PaletteStep::Stay
    };
    if selected == 0 || h.cursor is Some {
        let (h2, q) = history_previous(h, current);
        match q {
            Some(q) => (h2, PaletteStep::Query(q)),
            None => (h2, wrap),
        }
    } else {
        (h, wrap)
    }
}

/// Down in the palette: while walking the history, the next newer query with the same start, or, past the
/// newest, what was typed before the walk; otherwise the row below, wrapping to the first.
pub open spec fn palette_down_spec(h: HistoryView, current: Seq<char>, selected: usize, count: usize) -> (
    HistoryView,
    PaletteStep,
) {
    if h.cursor is Some {
        let (h2, q) = history_next(h, current);
        match q {
            Some(q) => (h2, PaletteStep::Query(q)),
            None => (history_reset(h2), PaletteStep::Query(prefix_or_empty(h2))),
        }
    } else if count > 0 {
        (
            h,
            PaletteStep::Select(
                if selected + 1 == count {
                    0
                } else {
                    (selected + 1) as usize
                },
            ),
        )
    } else {
        (h, PaletteStep::Stay)
    }
}

/// Away from a history walk, Down selects the next row and wraps to the first only from the last row;
/// Up, from any row but the top one, selects the row above. Neither touches the history then.
pub proof fn lemma_palette_rows_move_by_one(h: HistoryView, current: Seq<char>, selected: usize, count: usize)
    requires
        h.cursor is None,
        selected < count,
    ensures
        selected + 1 < count ==> palette_down_spec(h, current, selected, count) == (h, PaletteStep::Select(
            (selected + 1) as usize,
        )),
        selected + 1 == count ==> palette_down_spec(h, current, selected, count) == (h, PaletteStep::Select(0)),
        selected > 0 ==> palette_up_spec(h, current, selected, count) == (h, PaletteStep::Select(
            (selected - 1) as usize,
        )),
{
}

/// Up in the palette with `count` matching rows and row `selected` selected.
pub fn palette_up(history: &mut QueryHistory, current: &str, selected: usize, count: usize) -> (r: PaletteMove)
    ensures
        (final(history)@, step_view(r)) == palette_up_spec(old(history)@, current@, selected, count),
        old(history)@.cursor is None && 0 < selected < count ==> r == PaletteMove::Select((selected - 1) as usize)
            && final(history)@ == old(history)@,
{
    if selected == 0 || history.is_navigating() {
        if let Some(query) = history.previous(current) {
            return PaletteMove::Query(query);
        }
    }
    if count > 0 {
        PaletteMove::Select(
            if selected == 0 {
                count - 1
            } else {
                selected - 1
            },
        )
    } else {
        PaletteMove::Stay
    }
}

/// Down in the palette with `count` matching rows and row `selected` selected.
pub fn palette_down(history: &mut QueryHistory, current: &str, selected: usize, count: usize) -> (r: PaletteMove)
    requires
        count > 0 ==> selected < count,
    ensures
        (final(history)@, step_view(r)) == palette_down_spec(old(history)@, current@, selected, count),
        old(history)@.cursor is None && selected + 1 < count ==> r == PaletteMove::Select((selected + 1) as usize)
            && final(history)@ == old(history)@,
        old(history)@.cursor is None && selected + 1 == count ==> r == PaletteMove::Select(0),
{
    if history.is_navigating() {
        return match history.next(current) {
            Some(query) => PaletteMove::Query(query),
            None => PaletteMove::Query(history.finish_walk()),
        };
    }
    if count > 0 {
        PaletteMove::Select(
            if selected + 1 == count {
                0
            } else {
                selected + 1
            },
        )
    } else {
        PaletteMove::Stay
    }
}

} // verus!
