//! Popovers about what the pointer rests on: the diagnostic under it and what the language server says
//! about the symbol. They appear once the pointer has been still for a moment (the server is asked halfway
//! through, so its answer is usually back in time), stay while the pointer heads toward them, and go when
//! it leaves. Times are nanoseconds on the caller's monotonic clock.

use vstd::prelude::*;
use std::ops::Range;
use crate::diagnostic_nav::Diagnostic;
use crate::markdown_view::{blocks_of, cmark_events, escape, escaped, opt_text, Markdown};
use crate::text::push_char;

verus! {

/// The popover text: the escaped message, then ` (source code)` with whichever of the two it has.
pub open spec fn diagnostic_markdown_of(
    message: Seq<char>,
    source: Option<Seq<char>>,
    code: Option<Seq<char>>,
) -> Seq<char> {
    let tail = if source is Some || code is Some {
        let s = match source {
            Some(s) => escaped(s),
            None => Seq::empty(),
        };
        let gap = if source is Some && code is Some {
            seq![' ']
        } else {
            Seq::empty()
        };
        let c = match code {
            Some(c) => escaped(c),
            None => Seq::empty(),
        };
        seq![' ', '('] + s + gap + c + seq![')']
    } else {
        Seq::empty()
    };
    escaped(message) + tail
}

/// A diagnostic as markdown: its message, then its source and code in parentheses.
pub fn diagnostic_markdown(entry: &Diagnostic) -> (r: String)
    ensures
        r@ == diagnostic_markdown_of(entry.message@, opt_text(entry.source), opt_text(entry.code)),
{
    let mut markdown = escape(entry.message.as_str());
    let has_source = entry.source.is_some();
    let has_code = entry.code.is_some();
    if has_source || has_code {
        push_char(&mut markdown, ' ');
        push_char(&mut markdown, '(');
        if let Some(source) = &entry.source {
            let s = escape(source.as_str());
            markdown.append(s.as_str());
        }
        if has_source && has_code {
            push_char(&mut markdown, ' ');
        }
        if let Some(code) = &entry.code {
            let c = escape(code.as_str());
            markdown.append(c.as_str());
        }
        push_char(&mut markdown, ')');
        proof {
            let s = match opt_text(entry.source) {
                Some(s) => escaped(s),
                None => Seq::empty(),
            };
            let gap = if has_source && has_code {
                seq![' ']
            } else {
                Seq::<char>::empty()
            };
            let c = match opt_text(entry.code) {
                Some(c) => escaped(c),
                None => Seq::empty(),
            };
            assert(markdown@ =~= escaped(entry.message@) + (seq![' ', '('] + s + gap + c + seq![')']));
        }
    }
    markdown
}

/// How long the pointer rests before the popovers show.
pub const HOVER_DELAY_NANOS: u64 = 300_000_000;

/// How long popovers stay once the pointer left them.
pub const HIDING_DELAY_NANOS: u64 = 300_000_000;

/// Where the server's hover answer is: not asked yet, asked under a token, or in (its markdown and the
/// range it is about; none when the server had nothing to say or could not be asked).
pub enum HoverRequest {
    Unsent,
    Sent(u64),
    Answered(Option<(String, Range<usize>)>),
}

/// A hover on its way: where, since when, whether the keyboard asked for it (then it shows at once), the
/// server's answer, and whether the diagnostic popover was placed yet.
pub struct PendingHover {
    pub offset: usize,
    pub started: u64,
    pub keyboard: bool,
    pub request: HoverRequest,
    pub diagnostic_placed: bool,
}

/// The popover of a diagnostic: its range, severity and text, how far it is scrolled, and whether the
/// keyboard opened it.
pub struct DiagnosticPopover {
    pub range: Range<usize>,
    pub severity: i32,
    pub markdown: Markdown,
    pub scroll: usize,
    pub keyboard: bool,
}

/// A popover of what the server says of the symbol at `range`.
pub struct InfoPopover {
    pub range: Range<usize>,
    pub markdown: Markdown,
    pub scroll: usize,
    pub keyboard: bool,
}

/// A file view's hover: the hover on its way, the popovers shown, and when they go.
pub struct HoverState {
    pub pending: Option<PendingHover>,
    pub diagnostic: Option<DiagnosticPopover>,
    pub info: Vec<InfoPopover>,
    pub hide_at: Option<u64>,
}

/// Time from `started` to `now`, none when `now` is earlier.
pub open spec fn elapsed(now: u64, started: u64) -> u64 {
    if now >= started {
        (now - started) as u64
    } else {
        0
    }
}

/// The range holds `offset`, its ends included.
pub open spec fn covers(range: Range<usize>, offset: usize) -> bool {
    range.start <= offset && offset <= range.end
}

pub open spec fn span_len(range: Range<usize>) -> int {
    range.end - range.start
}

/// Diagnostic `i` is the one most tightly around `offset`: it holds the offset, none holding it is
/// shorter, and every one before it holding it is longer.
pub open spec fn tightest(ds: Seq<Diagnostic>, offset: usize, i: int) -> bool {
    &&& 0 <= i < ds.len()
    &&& covers(ds[i].range, offset)
    &&& forall|j: int| 0 <= j < ds.len() && covers(ds[j].range, offset) ==> span_len(ds[i].range) <= span_len(ds[j].range)
    &&& forall|j: int| 0 <= j < i && covers(ds[j].range, offset) ==> span_len(ds[i].range) < span_len(ds[j].range)
}

/// Some diagnostic holds `offset`.
pub open spec fn any_covers(ds: Seq<Diagnostic>, offset: usize) -> bool {
    exists|j: int| 0 <= j < ds.len() && covers(#[trigger] ds[j].range, offset)
}

/// The diagnostic most tightly around `offset`, the first of the shortest.
pub fn diagnostic_at(diagnostics: &Vec<Diagnostic>, offset: usize) -> (r: Option<usize>)
    ensures
        match r {
            Some(i) => tightest(diagnostics@, offset, i as int),
            None => !any_covers(diagnostics@, offset),
        },
{
    let mut best: Option<usize> = None;
    let mut i: usize = 0;
    while i < diagnostics.len()
        invariant
            i <= diagnostics.len(),
            match best {
                Some(b) => {
                    &&& b < i
                    &&& covers(diagnostics@[b as int].range, offset)
                    &&& forall|j: int| 0 <= j < i && covers(diagnostics@[j].range, offset) ==> span_len(
                        diagnostics@[b as int].range,
                    ) <= span_len(diagnostics@[j].range)
                    &&& forall|j: int| 0 <= j < b && covers(diagnostics@[j].range, offset) ==> span_len(
                        diagnostics@[b as int].range,
                    ) < span_len(diagnostics@[j].range)
                },
                None => forall|j: int| 0 <= j < i ==> !covers(#[trigger] diagnostics@[j].range, offset),
            },
        decreases diagnostics.len() - i,
    {
        let d = &diagnostics[i];
        if d.range.start <= offset && offset <= d.range.end {
            let better = match best {
                Some(b) => {
                    let e = &diagnostics[b];
                    d.range.end - d.range.start < e.range.end - e.range.start
                },
                None => true,
            };
            if better {
                best = Some(i);
            }
        }
        i += 1;
    }
    best
}

/// Some popover about the symbol holds `offset`.
pub open spec fn info_covers(info: Seq<InfoPopover>, offset: usize) -> bool {
    exists|i: int| 0 <= i < info.len() && covers(#[trigger] info[i].range, offset)
}

/// Something is shown.
pub open spec fn is_visible(s: HoverState) -> bool {
    s.info@.len() > 0 || s.diagnostic is Some
}

/// A hover is on its way or the popovers are about to go.
pub open spec fn is_busy(s: HoverState) -> bool {
    s.pending is Some || s.hide_at is Some
}

/// A popover the keyboard opened, which the pointer leaves alone.
pub open spec fn keyboard_anchored(s: HoverState) -> bool {
    (exists|i: int| 0 <= i < s.info@.len() && (#[trigger] s.info@[i]).keyboard) || (s.diagnostic is Some
        && s.diagnostic->0.keyboard)
}

/// Nothing shown, on its way or about to go.
pub open spec fn is_hidden(t: HoverState) -> bool {
    t.info@.len() == 0 && t.diagnostic is None && t.pending is None && t.hide_at is None
}

/// A hover just started at `offset` at time `now`.
pub open spec fn fresh_pending(p: Option<PendingHover>, offset: usize, keyboard: bool, now: u64) -> bool {
    p == Some(
        PendingHover { offset, started: now, keyboard, request: HoverRequest::Unsent, diagnostic_placed: false },
    )
}

/// `t` is `s` after a hover was started at `offset`: unless the pointer asks it and the popovers already
/// describe it, the popovers go and a new hover begins.
pub open spec fn hover_shown(s: HoverState, offset: usize, keyboard: bool, now: u64, t: HoverState) -> bool {
    if !keyboard && (info_covers(s.info@, offset) || s.diagnostic is Some) {
        t == HoverState { hide_at: None, ..s }
    } else {
        t.info@.len() == 0 && t.diagnostic is None && t.hide_at is None && fresh_pending(t.pending, offset, keyboard, now)
    }
}

/// The offset whose server hover is due at `now`: halfway into the delay, at once from the keyboard, and
/// only while not asked yet.
pub open spec fn hover_due(s: HoverState, now: u64) -> Option<usize> {
    match s.pending {
        Some(p) => if (p.keyboard || elapsed(now, p.started) >= HOVER_DELAY_NANOS / 2) && p.request is Unsent {
            Some(p.offset)
        } else {
            None
        },
        None => None,
    }
}

/// `t` is `s` once its hover was asked under `token`, or found no server to ask.
pub open spec fn hover_asked(s: HoverState, token: Option<u64>, t: HoverState) -> bool {
    match s.pending {
        Some(p) => t == HoverState {
            pending: Some(
                PendingHover {
                    request: match token {
                        Some(k) => HoverRequest::Sent(k),
                        None => HoverRequest::Answered(None),
                    },
                    ..p
                },
            ),
            ..s
        },
        None => t == s,
    }
}

/// The popover `d` is the one for the diagnostic most tightly around `offset`, or none when no diagnostic
/// holds it.
pub open spec fn diagnostic_popover_for(
    d: Option<DiagnosticPopover>,
    ds: Seq<Diagnostic>,
    offset: usize,
    keyboard: bool,
) -> bool {
    if any_covers(ds, offset) {
        exists|i: int|
            #![trigger ds[i]]
            tightest(ds, offset, i) && d is Some && d->0.range == ds[i].range && d->0.severity == ds[i].severity
                && d->0.markdown@ == blocks_of(
                cmark_events(diagnostic_markdown_of(ds[i].message@, opt_text(ds[i].source), opt_text(ds[i].code))),
            ) && d->0.scroll == 0 && d->0.keyboard == keyboard
    } else {
        d is None
    }
}

/// The popovers `info` are those the server's answer gives: one, unless it had nothing to say or its
/// markdown shows nothing.
pub open spec fn info_popovers_for(info: Seq<InfoPopover>, answer: Option<(String, Range<usize>)>, keyboard: bool) -> bool {
    match answer {
        Some((markdown, range)) => if blocks_of(cmark_events(markdown@)).len() > 0 {
            &&& info.len() == 1
            &&& info[0].range == range
            &&& info[0].markdown@ == blocks_of(cmark_events(markdown@))
            &&& info[0].scroll == 0
            &&& info[0].keyboard == keyboard
        } else {
            info.len() == 0
        },
        None => info.len() == 0,
    }
}

/// `t` is `s` after the timers were advanced to `now`, with the file's diagnostics `ds`; `changed` says
/// whether anything shown changed. When the hiding time is reached everything goes. Otherwise, once the
/// delay is over (at once from the keyboard) the diagnostic popover is placed, and once it was placed and
/// the server's answer is in, the answer's popover shows and the hover is done.
pub open spec fn hover_ticked(s: HoverState, now: u64, ds: Seq<Diagnostic>, t: HoverState, changed: bool) -> bool {
    if s.hide_at is Some && now >= s.hide_at->0 {
        is_hidden(t) && changed == is_visible(s)
    } else if s.pending is None {
        t == s && !changed
    } else {
        let p = s.pending->0;
        let place = (p.keyboard || elapsed(now, p.started) >= HOVER_DELAY_NANOS) && !p.diagnostic_placed;
        let placed = p.diagnostic_placed || place;
        let adopt = placed && p.request is Answered;
        &&& t.hide_at == s.hide_at
        &&& if place {
            diagnostic_popover_for(t.diagnostic, ds, p.offset, p.keyboard)
        } else {
            t.diagnostic == s.diagnostic
        }
        &&& if adopt {
            t.pending is None && info_popovers_for(t.info@, p.request->Answered_0, p.keyboard)
        } else {
            t.info == s.info && t.pending == Some(PendingHover { diagnostic_placed: placed, ..p })
        }
        &&& changed == (place || adopt)
    }
}

/// `t` is `s` once the server's answer to request `request` came, with `markdown` to show (none: nothing
/// to say) about `range` (the range the server gave, carried over the edits since, or else the smallest
/// syntax node around the hover's offset; none when neither is known, and then the offset alone). It is
/// kept only for the hover that asked, and only while the file is `loaded`.
pub open spec fn hover_adopted(
    s: HoverState,
    request: u64,
    loaded: bool,
    markdown: Option<String>,
    range: Option<Range<usize>>,
    t: HoverState,
) -> bool {
    if loaded && s.pending is Some && s.pending->0.request == HoverRequest::Sent(request) {
        let p = s.pending->0;
        let answer = match markdown {
            Some(m) => Some(
                (
                    m,
                    match range {
                        Some(r) => r,
                        None => Range { start: p.offset, end: p.offset },
                    },
                ),
            ),
            None => None,
        };
        t == HoverState { pending: Some(PendingHover { request: HoverRequest::Answered(answer), ..p }), ..s }
    } else {
        t == s
    }
}

/// `t` is `s` after the pointer moved onto the char at `offset`, or off the text (`None`), where
/// `getting_closer` tells whether it heads toward the popovers. A keyboard popover stays put. Over text, a
/// hover starts there. Off the text, a hover on its way is dropped when nothing shows; else the popovers go
/// after the hiding delay, a deadline that heading toward them pushes back.
pub open spec fn pointer_moved(s: HoverState, offset: Option<usize>, getting_closer: bool, now: u64, t: HoverState) -> bool {
    if keyboard_anchored(s) {
        t == s
    } else {
        match offset {
            Some(o) => hover_shown(HoverState { hide_at: None, ..s }, o, false, now, t),
            None => if !is_visible(s) {
                t == HoverState { pending: None, ..s }
            } else if !getting_closer && s.hide_at is Some {
                t == s
            } else {
                t == HoverState { hide_at: Some((now + HIDING_DELAY_NANOS) as u64), ..s }
            },
        }
    }
}

/// The scroll offset that scrolling popover `index` moves: the diagnostic's when it is first, else that
/// of the server popover at that place; none past the last.
pub open spec fn scroll_target(s: HoverState, index: usize) -> Option<usize> {
    if index == 0 && s.diagnostic is Some {
        Some(s.diagnostic->0.scroll)
    } else {
        let k = if s.diagnostic is Some { index - 1 } else { index as int };
        if k < s.info@.len() {
            Some(s.info@[k].scroll)
        } else {
            None
        }
    }
}

/// A scroll offset moved by `rows`, stopping at the top.
pub open spec fn scrolled(scroll: usize, rows: isize) -> usize {
    if scroll + rows < 0 {
        0
    } else {
        (scroll + rows) as usize
    }
}

/// The ranges of the symbols the server popovers are about, but for empty ones.
pub open spec fn highlight_ranges(info: Seq<InfoPopover>, n: nat) -> Seq<Range<usize>>
    decreases n,
{
    if n == 0 || n > info.len() {
        Seq::empty()
    } else {
        let k = (n - 1) as nat;
        let rest = highlight_ranges(info, k);
        if info[k as int].range.start < info[k as int].range.end {
            rest.push(info[k as int].range)
        } else {
            rest
        }
    }
}

/// A hover the keyboard asks for, with no server to ask, shows at once: the next tick places the
/// diagnostic popover for the offset and ends the hover, with no server popover.
pub proof fn lemma_keyboard_hover_shows_at_once(
    s0: HoverState,
    offset: usize,
    started: u64,
    s1: HoverState,
    s2: HoverState,
    now: u64,
    ds: Seq<Diagnostic>,
    s3: HoverState,
    changed: bool,
)
    requires
        hover_shown(s0, offset, true, started, s1),
        hover_asked(s1, None, s2),
        hover_ticked(s2, now, ds, s3, changed),
    ensures
        changed,
        s3.pending is None,
        s3.info@.len() == 0,
        diagnostic_popover_for(s3.diagnostic, ds, offset, true),
{
}

/// A hover the pointer starts asks the server halfway into the delay, not before.
pub proof fn lemma_server_asked_halfway(s0: HoverState, offset: usize, started: u64, s1: HoverState, now: u64)
    requires
        !(info_covers(s0.info@, offset) || s0.diagnostic is Some),
        hover_shown(s0, offset, false, started, s1),
        started <= now,
    ensures
        hover_due(s1, now) == (if now - started >= HOVER_DELAY_NANOS / 2 {
            Some(offset)
        } else {
            None::<usize>
        }),
{
}

/// Once the server was asked, a tick before the delay is over shows nothing; one after it places the
/// diagnostic popover and waits on for the answer.
pub proof fn lemma_diagnostic_shows_after_delay(
    s0: HoverState,
    offset: usize,
    started: u64,
    s1: HoverState,
    token: u64,
    s2: HoverState,
    now: u64,
    ds: Seq<Diagnostic>,
    s3: HoverState,
    changed: bool,
)
    requires
        !(info_covers(s0.info@, offset) || s0.diagnostic is Some),
        hover_shown(s0, offset, false, started, s1),
        hover_asked(s1, Some(token), s2),
        hover_ticked(s2, now, ds, s3, changed),
        started <= now,
    ensures
        now - started < HOVER_DELAY_NANOS ==> !changed && !is_visible(s3) && s3.pending == s2.pending,
        now - started >= HOVER_DELAY_NANOS ==> {
            &&& changed
            &&& diagnostic_popover_for(s3.diagnostic, ds, offset, false)
            &&& s3.info@.len() == 0
            &&& s3.pending is Some && s3.pending->0.diagnostic_placed
        },
{
}

/// Popovers the pointer leaves, shown by the pointer, go once the hiding delay has run out.
pub proof fn lemma_leaving_hides_after_delay(
    s: HoverState,
    getting_closer: bool,
    now: u64,
    t: HoverState,
    later: u64,
    ds: Seq<Diagnostic>,
    u: HoverState,
    changed: bool,
)
    requires
        is_visible(s),
        !keyboard_anchored(s),
        s.hide_at is None,
        now <= u64::MAX - HIDING_DELAY_NANOS,
        pointer_moved(s, None, getting_closer, now, t),
        later >= now + HIDING_DELAY_NANOS,
        hover_ticked(t, later, ds, u, changed),
    ensures
        t.hide_at == Some((now + HIDING_DELAY_NANOS) as u64),
        changed,
        !is_visible(u),
        !is_busy(u),
{
}

impl HoverState {
    /// No hover and no popover.
    pub fn new() -> (r: Self)
        ensures
            is_hidden(r),
    {
        HoverState { pending: None, diagnostic: None, info: Vec::new(), hide_at: None }
    }

    /// Close the popovers and drop the hover on its way. Whether anything showed.
    pub fn hide_hover(&mut self) -> (r: bool)
        ensures
            is_hidden(*final(self)),
            r == is_visible(*old(self)),
    {
        let hidden = self.info.len() > 0 || self.diagnostic.is_some();
        self.info.clear();
        self.diagnostic = None;
        self.pending = None;
        self.hide_at = None;
        hidden
    }

    /// Start a hover at `offset` at time `now`, unless the pointer asks it and the popovers already describe
    /// it; `keyboard` shows it at once.
    pub fn show_hover(&mut self, offset: usize, keyboard: bool, now: u64)
        ensures
            hover_shown(*old(self), offset, keyboard, now, *final(self)),
    {
        self.hide_at = None;
        if !keyboard {
            let mut same_info = false;
            let mut i: usize = 0;
            while i < self.info.len()
                invariant
                    i <= self.info.len(),
                    same_info == exists|j: int| 0 <= j < i && covers(#[trigger] self.info@[j].range, offset),
                decreases self.info.len() - i,
            {
                let r = &self.info[i].range;
                if r.start <= offset && offset <= r.end {
                    same_info = true;
                }
                i += 1;
            }
            if same_info || self.diagnostic.is_some() {
                return ;
            }
        }
        self.hide_hover();
        self.pending = Some(
            PendingHover { offset, started: now, keyboard, request: HoverRequest::Unsent, diagnostic_placed: false },
        );
    }

    /// The offset whose server hover should be asked for at `now`: halfway into the delay, at once for a
    /// keyboard hover.
    pub fn hover_request_due(&self, now: u64) -> (r: Option<usize>)
        ensures
            r == hover_due(*self, now),
    {
        match &self.pending {
            Some(p) => {
                let waited = if now >= p.started {
                    now - p.started
                } else {
                    0
                };
                let due = p.keyboard || waited >= HOVER_DELAY_NANOS / 2;
                let unsent = match p.request {
                    HoverRequest::Unsent => true,
                    _ => false,
                };
                if due && unsent {
                    Some(p.offset)
                } else {
                    None
                }
            },
            None => None,
        }
    }

    /// Record that the request went out under `token`, or that no server can answer.
    pub fn hover_requested(&mut self, token: Option<u64>)
        ensures
            hover_asked(*old(self), token, *final(self)),
    {
        if let Some(p) = self.pending.take() {
            let request = match token {
                Some(k) => HoverRequest::Sent(k),
                None => HoverRequest::Answered(None),
            };
            self.pending = Some(PendingHover { request, ..p });
        }
    }

    /// Adopt the server's answer to request `request` if it is for the hover on its way and the file is
    /// `loaded`: `markdown` to show about `range` (see `hover_adopted`).
    pub fn hover_answered(&mut self, request: u64, loaded: bool, markdown: Option<String>, range: Option<Range<usize>>)
        ensures
            hover_adopted(*old(self), request, loaded, markdown, range, *final(self)),
    {
        let asked = match &self.pending {
            Some(p) => match p.request {
                HoverRequest::Sent(k) => k == request,
                _ => false,
            },
            None => false,
        };
        if !asked || !loaded {
            return ;
        }
        let p = self.pending.take().unwrap();
        let answer = match markdown {
            Some(m) => {
                let r = match range {
                    Some(r) => r,
                    None => p.offset..p.offset,
                };
                Some((m, r))
            },
            None => None,
        };
        self.pending = Some(PendingHover { request: HoverRequest::Answered(answer), ..p });
    }

    /// Advance the hover's timers to `now`, with the file's `diagnostics`: show the diagnostic once the
    /// delay is up, then the server's answer once it is in, and hide when the hiding delay ran out. Whether
    /// anything shown changed.
    pub fn tick_hover(&mut self, now: u64, diagnostics: &Vec<Diagnostic>) -> (r: bool)
        ensures
            hover_ticked(*old(self), now, diagnostics@, *final(self), r),
    {
        let mut changed = false;
        if let Some(at) = self.hide_at {
            if now >= at {
                changed = self.hide_hover();
            }
        }
        let mut p = match self.pending.take() {
            Some(p) => p,
            None => return changed,
        };
        let waited = if now >= p.started {
            now - p.started
        } else {
            0
        };
        let delay_over = p.keyboard || waited >= HOVER_DELAY_NANOS;
        if delay_over && !p.diagnostic_placed {
            self.diagnostic = match diagnostic_at(diagnostics, p.offset) {
                Some(i) => {
                    let e = &diagnostics[i];
                    let text = diagnostic_markdown(e);
                    let markdown = Markdown::parse(text.as_str());
                    Some(
                        DiagnosticPopover {
                            range: e.range.start..e.range.end,
                            severity: e.severity,
                            markdown,
                            scroll: 0,
                            keyboard: p.keyboard,
                        },
                    )
                },
                None => None,
            };
            p.diagnostic_placed = true;
            changed = true;
        }
        let answered = match p.request {
            HoverRequest::Answered(_) => true,
            _ => false,
        };
        if !(p.diagnostic_placed && answered) {
            self.pending = Some(p);
            return changed;
        }
        let keyboard = p.keyboard;
        let mut info: Vec<InfoPopover> = Vec::new();
        if let HoverRequest::Answered(Some((text, range))) = p.request {
            let markdown = Markdown::parse(text.as_str());
            if !markdown.is_empty() {
                info.push(InfoPopover { range, markdown, scroll: 0, keyboard });
            }
        }
        self.info = info;
        true
    }

    /// Whether `hover_at` with `offset` turns on where the pointer heads: no keyboard popover, the pointer
    /// off the text, and popovers showing. Only then does the caller measure it.
    pub fn tracks_approach(&self, offset: Option<usize>) -> (r: bool)
        ensures
            r == (!keyboard_anchored(*self) && offset is None && is_visible(*self)),
    {
        !self.keyboard_anchor() && offset.is_none() && self.visible()
    }

    /// The pointer moved onto the char at `offset`, or off the text, at `now`; `getting_closer` tells
    /// whether it heads toward the popovers (see `tracks_approach`).
    pub fn hover_at(&mut self, offset: Option<usize>, getting_closer: bool, now: u64)
        requires
            now <= u64::MAX - HIDING_DELAY_NANOS,
        ensures
            pointer_moved(*old(self), offset, getting_closer, now, *final(self)),
    {
        if self.keyboard_anchor() {
            return ;
        }
        match offset {
            Some(o) => {
                self.hide_at = None;
                self.show_hover(o, false, now);
            },
            None => {
                if !self.visible() {
                    self.pending = None;
                } else if getting_closer || self.hide_at.is_none() {
                    self.hide_at = Some(now + HIDING_DELAY_NANOS);
                }
            },
        }
    }

    /// The pointer is over a popover: the popovers stay.
    pub fn pointer_on_popover(&mut self)
        ensures
            *final(self) == (HoverState { hide_at: None, ..*old(self) }),
    {
        self.hide_at = None;
    }

    /// Scroll popover `index` (the diagnostic's first, when it shows) by `rows`, stopping at the top; this
    /// also keeps the popovers from going. Whether its scroll offset changed.
    pub fn scroll_hover_popover(&mut self, index: usize, rows: isize) -> (r: bool)
        requires
            match scroll_target(*old(self), index) {
                Some(sc) => sc <= isize::MAX && sc + rows <= isize::MAX,
                None => true,
            },
        ensures
            rows == 0 || scroll_target(*old(self), index) is None ==> *final(self) == *old(self) && !r,
            rows != 0 && scroll_target(*old(self), index) is Some ==> {
                let sc = scroll_target(*old(self), index)->0;
                let n = scrolled(sc, rows);
                &&& final(self).hide_at is None
                &&& final(self).pending == old(self).pending
                &&& r == (n != sc)
                &&& if index == 0 && old(self).diagnostic is Some {
                    final(self).info == old(self).info && final(self).diagnostic == Some(
                        DiagnosticPopover { scroll: n, ..old(self).diagnostic->0 },
                    )
                } else {
                    let k = if old(self).diagnostic is Some { index - 1 } else { index as int };
                    final(self).diagnostic == old(self).diagnostic && final(self).info@ == old(self).info@.update(
                        k,
                        InfoPopover { scroll: n, ..old(self).info@[k] },
                    )
                }
            },
    {
        if rows == 0 {
            return false;
        }
        let before: usize;
        let after: usize;
        if index == 0 && self.diagnostic.is_some() {
            let d = self.diagnostic.take().unwrap();
            before = d.scroll;
            let moved = d.scroll as isize + rows;
            after = if moved < 0 { 0 } else { moved as usize };
            self.diagnostic = Some(DiagnosticPopover { scroll: after, ..d });
        } else {
            let k = if self.diagnostic.is_some() { index - 1 } else { index };
            if k >= self.info.len() {
                return false;
            }
            before = self.info[k].scroll;
            let moved = before as isize + rows;
            after = if moved < 0 { 0 } else { moved as usize };
            self.info[k].scroll = after;
        }
        self.hide_at = None;
        after != before
    }

    /// The ranges of the symbols the server popovers are about, to tint behind their text; empty ones
    /// are left out.
    pub fn hover_highlight_ranges(&self) -> (r: Vec<Range<usize>>)
        ensures
            r@ == highlight_ranges(self.info@, self.info@.len()),
    {
        let mut r: Vec<Range<usize>> = Vec::new();
        let mut i: usize = 0;
        while i < self.info.len()
            invariant
                i <= self.info.len(),
                r@ == highlight_ranges(self.info@, i as nat),
            decreases self.info.len() - i,
        {
            let range = &self.info[i].range;
            if range.start < range.end {
                r.push(range.start..range.end);
            }
            i += 1;
        }
        r
    }

    /// Whether a popover shows.
    pub fn visible(&self) -> (r: bool)
        ensures
            r == is_visible(*self),
    {
        self.info.len() > 0 || self.diagnostic.is_some()
    }

    /// Whether a hover is on its way or the popovers are about to go, so time must keep being advanced.
    pub fn is_busy(&self) -> (r: bool)
        ensures
            r == is_busy(*self),
    {
        self.pending.is_some() || self.hide_at.is_some()
    }

    /// Whether a popover was opened from the keyboard, which keeps the pointer from moving or hiding it.
    pub fn keyboard_anchor(&self) -> (r: bool)
        ensures
            r == keyboard_anchored(*self),
    {
        let mut i: usize = 0;
        while i < self.info.len()
            invariant
                i <= self.info.len(),
                forall|j: int| 0 <= j < i ==> !(#[trigger] self.info@[j]).keyboard,
            decreases self.info.len() - i,
        {
            if self.info[i].keyboard {
                return true;
            }
            i += 1;
        }
        match &self.diagnostic {
            Some(d) => d.keyboard,
            None => false,
        }
    }

    /// A click on a popover keeps it from being a keyboard hover, so the pointer can dismiss it again.
    pub fn hover_clicked(&mut self)
        ensures
            !keyboard_anchored(*final(self)),
            final(self).pending == old(self).pending,
            final(self).hide_at == old(self).hide_at,
            final(self).info@.len() == old(self).info@.len(),
            forall|i: int|
                0 <= i < old(self).info@.len() ==> (#[trigger] final(self).info@[i]) == (InfoPopover {
                    keyboard: false,
                    ..old(self).info@[i]
                }),
            match old(self).diagnostic {
                Some(d) => final(self).diagnostic == Some(DiagnosticPopover { keyboard: false, ..d }),
                None => final(self).diagnostic is None,
            },
    {
        let mut i: usize = 0;
        while i < self.info.len()
            invariant
                i <= self.info.len(),
                self.info@.len() == old(self).info@.len(),
                self.pending == old(self).pending,
                self.hide_at == old(self).hide_at,
                self.diagnostic == old(self).diagnostic,
                forall|j: int|
                    0 <= j < i ==> (#[trigger] self.info@[j]) == (InfoPopover { keyboard: false, ..old(self).info@[j] }),
                forall|j: int| i <= j < self.info@.len() ==> (#[trigger] self.info@[j]) == old(self).info@[j],
            decreases self.info.len() - i,
        {
            self.info[i].keyboard = false;
            i += 1;
        }
        if let Some(d) = self.diagnostic.take() {
            self.diagnostic = Some(DiagnosticPopover { keyboard: false, ..d });
        }
    }
}

} // verus!
