//! Where a completion from the language server goes: its replace range when what follows the caret ends
//! its label, else its insert range, stretched to hold the caret; the same edit at each other caret that has
//! the same text around it; and where the carets land once the ranges were replaced.

use vstd::prelude::*;
use std::ops::Range;
use crate::palette_order::{sort_indices, sorted_permutation, strict_total_on};
use crate::text::{chars_of, ends_with, seq_ends_with, str_to_lowercase, string_of_range, unicode_str_lower};

verus! {

/// The replace range wins over the insert range: it ends at or before the caret, or what lies between the
/// caret and its end ends the label, case aside.
pub open spec fn replace_wins(text: Seq<char>, head: usize, replace: Range<usize>, label: Seq<char>) -> bool {
    replace.end <= head || ends_with(
        unicode_str_lower(label),
        unicode_str_lower(text.subrange(head as int, replace.end as int)),
    )
}

/// The range the item's edit replaces, before it is stretched to the caret.
pub open spec fn chosen_range(
    text: Seq<char>,
    head: usize,
    replace: Range<usize>,
    insert: Option<Range<usize>>,
    label: Seq<char>,
) -> Range<usize> {
    match insert {
        Some(ins) => if replace_wins(text, head, replace, label) {
            replace
        } else {
            ins
        },
        None => replace,
    }
}

/// `r` stretched so that it holds the caret `head`.
pub open spec fn around_head(r: Range<usize>, head: usize) -> Range<usize> {
    Range {
        start: if r.start < head { r.start } else { head },
        end: if r.end < head { head } else { r.end },
    }
}

/// The range a server completion replaces at the caret `head` of `text`: of its `replace` and `insert`
/// ranges (already carried over the edits since the server saw the text), the replace range when there is
/// no insert range or when the text from the caret to the replace range's end ends the item's `label`, case
/// aside; else the insert range. Either way stretched to hold the caret.
pub fn completion_range(
    text: &Vec<char>,
    head: usize,
    replace: Range<usize>,
    insert: Option<Range<usize>>,
    label: &str,
) -> (r: Range<usize>)
    requires
        head <= text.len(),
        insert is Some && replace.end > head ==> replace.end <= text.len(),
    ensures
        r == around_head(chosen_range(text@, head, replace, insert, label@), head),
        r.start <= head <= r.end,
{
    let range = match insert {
        Some(ins) => {
            let wins = if replace.end > head {
                let after = str_to_lowercase(string_of_range(text, head, replace.end).as_str());
                let lowered = str_to_lowercase(label);
                seq_ends_with(&chars_of(lowered.as_str()), &chars_of(after.as_str()))
            } else {
                true
            };
            if wins {
                replace
            } else {
                ins
            }
        },
        None => replace,
    };
    let start = if range.start < head {
        range.start
    } else {
        head
    };
    let end = if range.end < head {
        head
    } else {
        range.end
    };
    start..end
}

/// The `len` chars from `a` equal those from `b`.
fn same_run(text: &Vec<char>, a: usize, b: usize, len: usize) -> (r: bool)
    requires
        a + len <= text.len(),
        b + len <= text.len(),
    ensures
        r == (text@.subrange(a as int, a + len) == text@.subrange(b as int, b + len)),
{
    let mut i: usize = 0;
    while i < len
        invariant
            i <= len,
            a + len <= text.len(),
            b + len <= text.len(),
            text@.subrange(a as int, a + i) == text@.subrange(b as int, b + i),
        decreases len - i,
    {
        if text[a + i] != text[b + i] {
            assert(text@.subrange(a as int, a + len)[i as int] != text@.subrange(b as int, b + len)[i as int]);
            return false;
        }
        assert(text@.subrange(a as int, a + i + 1) =~= text@.subrange(a as int, a + i).push(text@[a + i]));
        assert(text@.subrange(b as int, b + i + 1) =~= text@.subrange(b as int, b + i).push(text@[b + i]));
        i += 1;
    }
    true
}

/// The selection `sel` at another caret, grown by the edit's reach: when the text before it is what lies
/// between the edit's start and the caret, it takes that in, and then also what follows it when that is
/// what lies between the caret and the edit's end.
pub open spec fn grown(text: Seq<char>, sel: Range<usize>, range: Range<usize>, head: usize) -> Range<usize> {
    let behind = head - range.start;
    let ahead = range.end - head;
    if sel.start >= behind && text.subrange(sel.start - behind, sel.start as int) == text.subrange(
        range.start as int,
        head as int,
    ) {
        if sel.end + ahead <= text.len() && text.subrange(sel.end as int, sel.end + ahead) == text.subrange(
            head as int,
            range.end as int,
        ) {
            Range { start: (sel.start - behind) as usize, end: (sel.end + ahead) as usize }
        } else {
            Range { start: (sel.start - behind) as usize, end: sel.end }
        }
    } else {
        sel
    }
}

/// The ranges a server completion replaces, one per selection: `range` for the newest selection (index
/// `newest`), and each other selection grown by the same reach where the text around it matches.
pub fn completion_ranges(
    text: &Vec<char>,
    head: usize,
    range: Range<usize>,
    selections: &Vec<Range<usize>>,
    newest: usize,
) -> (r: Vec<Range<usize>>)
    requires
        range.start <= head <= range.end <= text.len(),
        forall|i: int| 0 <= i < selections.len() ==> (#[trigger] selections@[i]).start <= text.len(),
    ensures
        r@.len() == selections@.len(),
        forall|i: int|
            0 <= i < selections.len() ==> #[trigger] r@[i] == if i == newest {
                range
            } else {
                grown(text@, selections@[i], range, head)
            },
{
    let behind = head - range.start;
    let ahead = range.end - head;
    let mut r: Vec<Range<usize>> = Vec::new();
    let mut i: usize = 0;
    while i < selections.len()
        invariant
            i <= selections.len(),
            range.start <= head <= range.end <= text.len(),
            behind == head - range.start,
            ahead == range.end - head,
            forall|k: int| 0 <= k < selections.len() ==> (#[trigger] selections@[k]).start <= text.len(),
            r@.len() == i,
            forall|k: int|
                0 <= k < i ==> #[trigger] r@[k] == if k == newest {
                    range
                } else {
                    grown(text@, selections@[k], range, head)
                },
        decreases selections.len() - i,
    {
        let sel = &selections[i];
        if i == newest {
            r.push(range.start..range.end);
        } else {
            let mut start = sel.start;
            let mut end = sel.end;
            if start >= behind && same_run(text, start - behind, range.start, behind) {
                start = start - behind;
                if sel.end <= text.len() && ahead <= text.len() - sel.end && same_run(text, sel.end, head, ahead) {
                    end = sel.end + ahead;
                }
            }
            r.push(start..end);
        }
        i += 1;
    }
    r
}

/// Range `i` comes before range `j` when it starts earlier, or at the same place and is listed first.
pub open spec fn by_start(ranges: Seq<Range<usize>>, i: int, j: int) -> bool {
    ranges[i].start < ranges[j].start || (ranges[i].start == ranges[j].start && i < j)
}

/// `order` lists the ranges by where they start, ties in their order.
pub open spec fn in_start_order(ranges: Seq<Range<usize>>, order: Seq<usize>) -> bool {
    sorted_permutation(order, ranges.len() as int, |i: int, j: int| by_start(ranges, i, j))
}

/// How many chars a range holds; none when it ends before it starts.
pub open spec fn range_len(r: Range<usize>) -> int {
    if r.start < r.end {
        r.end - r.start
    } else {
        0
    }
}

/// How far the first `k` ranges in `order` move what follows them once each holds `inserted` chars.
pub open spec fn shift_before(ranges: Seq<Range<usize>>, order: Seq<usize>, inserted: int, k: nat) -> int
    decreases k,
{
    if k == 0 {
        0
    } else {
        shift_before(ranges, order, inserted, (k - 1) as nat) + inserted - range_len(ranges[order[k - 1] as int])
    }
}

/// Where the caret of the `k`-th range in `order` lands: after the text inserted in its place.
pub open spec fn caret_at(ranges: Seq<Range<usize>>, order: Seq<usize>, inserted: int, k: int) -> int {
    ranges[order[k] as int].start + shift_before(ranges, order, inserted, k as nat) + inserted
}

/// Every caret, and the running shift, can be worked out in machine integers.
pub open spec fn carets_fit(ranges: Seq<Range<usize>>, order: Seq<usize>, inserted: int) -> bool {
    forall|k: int|
        0 <= k < ranges.len() ==> {
            let rg = #[trigger] ranges[order[k] as int];
            &&& rg.start <= isize::MAX
            &&& range_len(rg) <= isize::MAX
            &&& isize::MIN <= shift_before(ranges, order, inserted, (k + 1) as nat) <= isize::MAX
            &&& 0 <= rg.start + shift_before(ranges, order, inserted, k as nat) <= isize::MAX
            &&& caret_at(ranges, order, inserted, k) <= usize::MAX
        }
}

/// Where the carets land once each of `ranges` was replaced by text of `inserted` chars, in the order the
/// ranges start (ties in their order): each just after its own inserted text, moved by what the edits
/// before it added or took away.
pub fn carets_after(ranges: &Vec<Range<usize>>, inserted: usize) -> (r: Vec<usize>)
    requires
        inserted <= isize::MAX,
        forall|order: Seq<usize>|
            in_start_order(ranges@, order) ==> #[trigger] carets_fit(ranges@, order, inserted as int),
    ensures
        exists|order: Seq<usize>|
            #[trigger] in_start_order(ranges@, order) && r@.len() == ranges@.len() && forall|k: int|
                0 <= k < ranges@.len() ==> #[trigger] r@[k] == caret_at(ranges@, order, inserted as int, k),
{
    let n = ranges.len();
    let ghost before = |i: int, j: int| by_start(ranges@, i, j);
    let lt = |i: usize, j: usize| -> (b: bool)
        requires
            i < n && j < n,
        ensures
            b == by_start(ranges@, i as int, j as int),
        { ranges[i].start < ranges[j].start || (ranges[i].start == ranges[j].start && i < j) };
    proof {
        assert(strict_total_on(before, n as int));
    }
    let order = sort_indices(n, lt, Ghost(before));
    assert(in_start_order(ranges@, order@));
    assert(carets_fit(ranges@, order@, inserted as int));
    let mut carets: Vec<usize> = Vec::new();
    let mut delta: isize = 0;
    let mut k: usize = 0;
    while k < n
        invariant
            n == ranges.len(),
            k <= n,
            inserted <= isize::MAX,
            in_start_order(ranges@, order@),
            carets_fit(ranges@, order@, inserted as int),
            delta == shift_before(ranges@, order@, inserted as int, k as nat),
            carets@.len() == k,
            forall|j: int| 0 <= j < k ==> #[trigger] carets@[j] == caret_at(ranges@, order@, inserted as int, j),
        decreases n - k,
    {
        let range = &ranges[order[k]];
        let caret = (range.start as isize + delta) as usize + inserted;
        let len: usize = if range.start < range.end {
            range.end - range.start
        } else {
            0
        };
        delta = delta + (inserted as isize - len as isize);
        carets.push(caret);
        k += 1;
    }
    carets
}

/// Of the first `n` selections, the ranges a snippet completion replaces: for each caret (an empty
/// selection) with `replaced` chars before it that match the `replaced` chars before the newest caret
/// `head` (as many as there are), those chars.
pub open spec fn snippet_ranges_of(
    text: Seq<char>,
    head: usize,
    replaced: usize,
    selections: Seq<Range<usize>>,
    n: nat,
) -> Seq<Range<usize>>
    decreases n,
{
    if n == 0 || n > selections.len() {
        Seq::empty()
    } else {
        let k = (n - 1) as nat;
        let rest = snippet_ranges_of(text, head, replaced, selections, k);
        let sel = selections[k as int];
        let matched = text.subrange(if head >= replaced { head - replaced } else { 0 }, head as int);
        if sel.start == sel.end && sel.start >= replaced && text.subrange(sel.start - replaced, sel.start as int)
            == matched {
            rest.push(Range { start: (sel.start - replaced) as usize, end: sel.start })
        } else {
            rest
        }
    }
}

/// The ranges a snippet completion replaces, in the order of the selections: at each caret whose
/// `replaced` chars before it are the same as those before the newest caret `head`, those chars.
pub fn snippet_ranges(text: &Vec<char>, head: usize, replaced: usize, selections: &Vec<Range<usize>>) -> (r: Vec<
    Range<usize>,
>)
    requires
        head <= text.len(),
        forall|i: int| 0 <= i < selections.len() ==> (#[trigger] selections@[i]).start <= text.len(),
    ensures
        r@ == snippet_ranges_of(text@, head, replaced, selections@, selections@.len()),
{
    let from = if head >= replaced {
        head - replaced
    } else {
        0
    };
    let matched_len = head - from;
    let mut r: Vec<Range<usize>> = Vec::new();
    let mut i: usize = 0;
    while i < selections.len()
        invariant
            i <= selections.len(),
            head <= text.len(),
            from == (if head >= replaced { head - replaced } else { 0 }),
            matched_len == head - from,
            forall|k: int| 0 <= k < selections.len() ==> (#[trigger] selections@[k]).start <= text.len(),
            r@ == snippet_ranges_of(text@, head, replaced, selections@, i as nat),
        decreases selections.len() - i,
    {
        let sel = &selections[i];
        if sel.start == sel.end && sel.start >= replaced {
            let same = matched_len == replaced && same_run(text, sel.start - replaced, from, replaced);
            proof {
                if matched_len != replaced {
                    assert(text@.subrange(sel.start - replaced, sel.start as int).len() != text@.subrange(
                        from as int,
                        head as int,
                    ).len());
                }
            }
            if same {
                r.push((sel.start - replaced)..sel.start);
            }
        }
        i += 1;
    }
    r
}

} // verus!
