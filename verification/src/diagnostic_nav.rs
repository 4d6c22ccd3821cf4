//! Moving between a file's diagnostics: F8 goes to the diagnostic under the caret unless it is the one
//! already open, else to the next (or previous) one, wrapping around the file; the status bar shows the
//! most severe diagnostic at the caret; an open message closes once the server drops its diagnostic.

use vstd::prelude::*;
use std::ops::Range;

verus! {

/// A diagnostic the server reported: its char range, its severity (1 is an error, larger is milder), its
/// message, the tool that reported it (such as `rustc`) and its code (such as `E0425`).
pub struct Diagnostic {
    pub range: Range<usize>,
    pub severity: i32,
    pub message: String,
    pub source: Option<String>,
    pub code: Option<String>,
}

pub struct DiagnosticView {
    pub start: usize,
    pub end: usize,
    pub severity: i32,
    pub message: Seq<char>,
}

impl View for Diagnostic {
    type V = DiagnosticView;

    open spec fn view(&self) -> DiagnosticView {
        DiagnosticView {
            start: self.range.start,
            end: self.range.end,
            severity: self.severity,
            message: self.message@,
        }
    }
}

pub open spec fn diagnostics_view(ds: Seq<Diagnostic>) -> Seq<DiagnosticView> {
    ds.map_values(|d: Diagnostic| d@)
}

/// The open diagnostic message: where it starts and ends, and its text.
pub struct OpenDiagnostic {
    pub start: usize,
    pub end: usize,
    pub message: String,
}

/// The diagnostic covers some text.
pub open spec fn covers_text(d: DiagnosticView) -> bool {
    d.start < d.end
}

/// The indices of the first `n` diagnostics that cover text and start before (`before`) or after the
/// caret, the caret's own position counting as both.
pub open spec fn around(ds: Seq<DiagnosticView>, cursor: usize, before: bool, n: nat) -> Seq<usize>
    decreases n,
{
    if n == 0 || n > ds.len() {
        Seq::empty()
    } else {
        let rest = around(ds, cursor, before, (n - 1) as nat);
        let d = ds[n - 1];
        if covers_text(d) && (if before {
            d.start <= cursor
        } else {
            d.start >= cursor
        }) {
            rest.push((n - 1) as usize)
        } else {
            rest
        }
    }
}

/// The caret is in the diagnostic, or at its end.
pub open spec fn at_caret(d: DiagnosticView, cursor: usize, head: usize) -> bool {
    (d.start <= cursor < d.end) || d.end == head
}

/// The diagnostic is the open one.
pub open spec fn is_open(d: DiagnosticView, open: Option<(usize, usize, Seq<char>)>) -> bool {
    match open {
        Some((start, end, message)) => start == d.start && end == d.end && message == d.message,
        None => false,
    }
}

/// Scanning `order`'s first `k` diagnostics at the caret: the first that is not the open one, and whether
/// the open one is among them.
pub open spec fn scan_caret(
    ds: Seq<DiagnosticView>,
    order: Seq<usize>,
    cursor: usize,
    head: usize,
    open: Option<(usize, usize, Seq<char>)>,
    k: nat,
) -> (Option<usize>, bool)
    decreases k,
{
    if k == 0 || k > order.len() {
        (None, false)
    } else {
        let (found, on_open) = scan_caret(ds, order, cursor, head, open, (k - 1) as nat);
        let i = order[k - 1];
        let d = ds[i as int];
        if !at_caret(d, cursor, head) {
            (found, on_open)
        } else if is_open(d, open) {
            (found, true)
        } else if found is None {
            (Some(i), on_open)
        } else {
            (found, on_open)
        }
    }
}

/// The first diagnostic in `order` that does not start at the caret.
pub open spec fn first_elsewhere(ds: Seq<DiagnosticView>, order: Seq<usize>, cursor: usize) -> Option<usize>
    decreases order.len(),
{
    if order.len() == 0 {
        None
    } else if ds[order[0] as int].start != cursor {
        Some(order[0])
    } else {
        first_elsewhere(ds, order.drop_first(), cursor)
    }
}

/// Where F8 (`forward`) or Shift+F8 goes: the diagnostic at the caret unless the open one is there, else
/// the next one after the caret (wrapping to the first) or the last one before it (wrapping to the last),
/// skipping any that start right at the caret.
pub open spec fn diagnostic_target(
    ds: Seq<DiagnosticView>,
    open: Option<(usize, usize, Seq<char>)>,
    cursor: usize,
    head: usize,
    forward: bool,
) -> Option<usize> {
    let before = around(ds, cursor, true, ds.len());
    let after = around(ds, cursor, false, ds.len());
    let order = after + before;
    let (found, on_open) = scan_caret(ds, order, cursor, head, open, order.len());
    if found is Some && !on_open {
        found
    } else if forward {
        first_elsewhere(ds, order, cursor)
    } else {
        first_elsewhere(ds, before.reverse() + after.reverse(), cursor)
    }
}

fn around_exec(ds: &Vec<Diagnostic>, cursor: usize, before: bool) -> (r: Vec<usize>)
    ensures
        r@ == around(diagnostics_view(ds@), cursor, before, ds.len() as nat),
        forall|a: int| 0 <= a < r.len() ==> #[trigger] r@[a] < ds.len(),
{
    let ghost dv = diagnostics_view(ds@);
    let mut r: Vec<usize> = Vec::new();
    let mut i: usize = 0;
    while i < ds.len()
        invariant
            i <= ds.len(),
            dv == diagnostics_view(ds@),
            r@ == around(dv, cursor, before, i as nat),
            forall|a: int| 0 <= a < r.len() ==> #[trigger] r@[a] < i,
        decreases ds.len() - i,
    {
        let d = &ds[i];
        let side = if before {
            d.range.start <= cursor
        } else {
            d.range.start >= cursor
        };
        if d.range.start < d.range.end && side {
            r.push(i);
        }
        i += 1;
    }
    r
}

fn first_elsewhere_exec(ds: &Vec<Diagnostic>, order: &Vec<usize>, cursor: usize) -> (r: Option<usize>)
    requires
        forall|a: int| 0 <= a < order.len() ==> #[trigger] order@[a] < ds.len(),
    ensures
        r == first_elsewhere(diagnostics_view(ds@), order@, cursor),
        r matches Some(i) ==> i < ds.len(),
{
    let ghost dv = diagnostics_view(ds@);
    let mut a: usize = 0;
    assert(order@.skip(0) == order@);
    while a < order.len()
        invariant
            a <= order.len(),
            dv == diagnostics_view(ds@),
            forall|q: int| 0 <= q < order.len() ==> #[trigger] order@[q] < ds.len(),
            first_elsewhere(dv, order@, cursor) == first_elsewhere(dv, order@.skip(a as int), cursor),
        decreases order.len() - a,
    {
        assert(order@.skip(a as int)[0] == order@[a as int]);
        assert(dv[order@[a as int] as int] == ds@[order@[a as int] as int]@);
        if ds[order[a]].range.start != cursor {
            return Some(order[a]);
        }
        assert(order@.skip(a as int).drop_first() == order@.skip(a + 1));
        a += 1;
    }
    None
}

fn reversed(v: &Vec<usize>) -> (r: Vec<usize>)
    ensures
        r@ == v@.reverse(),
{
    let mut r: Vec<usize> = Vec::new();
    let mut i = v.len();
    while i > 0
        invariant
            i <= v.len(),
            r@ == v@.skip(i as int).reverse(),
        decreases i,
    {
        i -= 1;
        r.push(v[i]);
        assert(r@ =~= v@.skip(i as int).reverse());
    }
    assert(v@.skip(0) == v@);
    r
}

/// Where F8 (`forward`) or Shift+F8 goes from the caret (`cursor` where its selection starts, `head`
/// where it ends), as an index into `ds`; `None` when there is nowhere to go.
pub fn go_to_diagnostic(
    ds: &Vec<Diagnostic>,
    open: &Option<OpenDiagnostic>,
    cursor: usize,
    head: usize,
    forward: bool,
) -> (r: Option<usize>)
    ensures
        r == diagnostic_target(
            diagnostics_view(ds@),
            match open {
                Some(o) => Some((o.start, o.end, o.message@)),
                None => None,
            },
            cursor,
            head,
            forward,
        ),
        r matches Some(i) ==> i < ds.len(),
{
    let ghost dv = diagnostics_view(ds@);
    let ghost ov = match open {
        Some(o) => Some((o.start, o.end, o.message@)),
        None => None,
    };
    let before = around_exec(ds, cursor, true);
    let after = around_exec(ds, cursor, false);
    let mut order: Vec<usize> = Vec::new();
    let mut a: usize = 0;
    while a < after.len()
        invariant
            a <= after.len(),
            order@ == after@.take(a as int),
        decreases after.len() - a,
    {
        order.push(after[a]);
        a += 1;
        assert(order@ =~= after@.take(a as int));
    }
    let mut b: usize = 0;
    while b < before.len()
        invariant
            b <= before.len(),
            order@ == after@ + before@.take(b as int),
        decreases before.len() - b,
    {
        order.push(before[b]);
        b += 1;
        assert(order@ =~= after@ + before@.take(b as int));
    }
    assert(before@.take(before.len() as int) == before@);
    assert(after@.take(after.len() as int) == after@);
    assert forall|q: int| 0 <= q < order.len() implies #[trigger] order@[q] < ds.len() by {
        if q < after.len() {
            assert(order@[q] == after@[q]);
        } else {
            assert(order@[q] == before@[q - after.len()]);
        }
    }
    let mut found: Option<usize> = None;
    let mut on_open = false;
    let mut k: usize = 0;
    while k < order.len()
        invariant
            k <= order.len(),
            dv == diagnostics_view(ds@),
            forall|q: int| 0 <= q < order.len() ==> #[trigger] order@[q] < ds.len(),
            (found, on_open) == scan_caret(dv, order@, cursor, head, ov, k as nat),
            found matches Some(f) ==> f < ds.len(),
            ov == (match open {
                Some(o) => Some((o.start, o.end, o.message@)),
                None => None,
            }),
        decreases order.len() - k,
    {
        let i = order[k];
        let d = &ds[i];
        assert(dv[i as int] == d@);
        let here = (d.range.start <= cursor && cursor < d.range.end) || d.range.end == head;
        if here {
            let opened = match open {
                Some(o) => o.start == d.range.start && o.end == d.range.end && o.message == d.message,
                None => false,
            };
            if opened {
                on_open = true;
            } else if found.is_none() {
                found = Some(i);
            }
        }
        k += 1;
    }
    if found.is_some() && !on_open {
        return found;
    }
    if forward {
        first_elsewhere_exec(ds, &order, cursor)
    } else {
        let rb = reversed(&before);
        let ra = reversed(&after);
        let mut back = rb;
        let mut c: usize = 0;
        let ghost base = back@;
        while c < ra.len()
            invariant
                c <= ra.len(),
                back@ == base + ra@.take(c as int),
            decreases ra.len() - c,
        {
            back.push(ra[c]);
            c += 1;
            assert(back@ =~= base + ra@.take(c as int));
        }
        assert(ra@.take(ra.len() as int) == ra@);
        assert forall|q: int| 0 <= q < back.len() implies #[trigger] back@[q] < ds.len() by {
            if q < base.len() {
                assert(back@[q] == before@[before.len() - 1 - q]);
            } else {
                assert(back@[q] == after@[after.len() - 1 - (q - base.len())]);
            }
        }
        first_elsewhere_exec(ds, &back, cursor)
    }
}

/// The caret is inside the diagnostic or at either end of it.
pub open spec fn caret_in(d: DiagnosticView, head: usize) -> bool {
    covers_text(d) && d.start <= head <= d.end
}

/// `a` outranks `b` for the status bar: more severe, or as severe and shorter.
pub open spec fn outranks(a: DiagnosticView, b: DiagnosticView) -> bool {
    a.severity < b.severity || (a.severity == b.severity && a.end - a.start < b.end - b.start)
}

/// Among the first `n` diagnostics at the caret, the one the status bar shows: the most severe, then the
/// shortest, then the first.
pub open spec fn best_at_caret(ds: Seq<DiagnosticView>, head: usize, n: nat) -> Option<usize>
    decreases n,
{
    if n == 0 || n > ds.len() {
        None
    } else {
        let best = best_at_caret(ds, head, (n - 1) as nat);
        let d = ds[n - 1];
        if !caret_in(d, head) {
            best
        } else {
            match best {
                None => Some((n - 1) as usize),
                Some(b) => if outranks(d, ds[b as int]) {
                    Some((n - 1) as usize)
                } else {
                    best
                },
            }
        }
    }
}

/// The diagnostic the status bar shows for a caret at `head`, as an index into `ds`.
pub fn diagnostic_at_caret(ds: &Vec<Diagnostic>, head: usize) -> (r: Option<usize>)
    ensures
        r == best_at_caret(diagnostics_view(ds@), head, ds.len() as nat),
        r matches Some(i) ==> i < ds.len(),
{
    let ghost dv = diagnostics_view(ds@);
    let mut best: Option<usize> = None;
    let mut i: usize = 0;
    while i < ds.len()
        invariant
            i <= ds.len(),
            dv == diagnostics_view(ds@),
            best == best_at_caret(dv, head, i as nat),
            best matches Some(b) ==> b < i && caret_in(dv[b as int], head),
        decreases ds.len() - i,
    {
        let d = &ds[i];
        assert(dv[i as int] == d@);
        if d.range.start < d.range.end && d.range.start <= head && head <= d.range.end {
            match best {
                None => {
                    best = Some(i);
                },
                Some(b) => {
                    let e = &ds[b];
                    assert(dv[b as int] == e@);
                    if d.severity < e.severity || (d.severity == e.severity && d.range.end - d.range.start
                        < e.range.end - e.range.start) {
                        best = Some(i);
                    }
                },
            }
        }
        i += 1;
    }
    best
}

/// The open message still has its diagnostic: one that covers text, starts where it does and says the same.
pub open spec fn still_reported_spec(ds: Seq<DiagnosticView>, open: Option<(usize, Seq<char>)>) -> bool {
    match open {
        None => true,
        Some((start, message)) => exists|i: int|
            0 <= i < ds.len() && covers_text(#[trigger] ds[i]) && ds[i].start == start && ds[i].message == message,
    }
}

/// Whether the open message should stay open after the server's diagnostics changed to `ds`.
pub fn still_reported(ds: &Vec<Diagnostic>, open: &Option<OpenDiagnostic>) -> (r: bool)
    ensures
        r == still_reported_spec(
            diagnostics_view(ds@),
            match open {
                Some(o) => Some((o.start, o.message@)),
                None => None,
            },
        ),
{
    let o = match open {
        Some(o) => o,
        None => return true,
    };
    let ghost dv = diagnostics_view(ds@);
    let mut i: usize = 0;
    while i < ds.len()
        invariant
            i <= ds.len(),
            dv == diagnostics_view(ds@),
            *open == Some(*o),
            forall|j: int|
                0 <= j < i ==> !(covers_text(#[trigger] dv[j]) && dv[j].start == o.start && dv[j].message
                    == o.message@),
        decreases ds.len() - i,
    {
        let d = &ds[i];
        assert(dv[i as int] == d@);
        if d.range.start < d.range.end && d.range.start == o.start && d.message == o.message {
            assert(covers_text(dv[i as int]) && dv[i as int].start == o.start && dv[i as int].message == o.message@);
            return true;
        }
        i += 1;
    }
    false
}

} // verus!
