//! Going to where a symbol is defined: F12 and its variants ask at the caret, and a held command key turns
//! the symbol under the pointer into a link that a click follows. This is the state both keep between the
//! language server's answers: what is waiting to be asked, what was asked, and what the answers left.

use vstd::prelude::*;
use std::ops::Range;
use crate::file_view::{surrounding_word, word_end, word_start};

verus! {

/// What a definition request asks for.
#[derive(Clone, Copy, Debug, PartialEq, Eq, Structural)]
pub enum DefinitionKind {
    Definition,
    Declaration,
    TypeDefinition,
    Implementation,
}

/// A line and a character in it, as the language server counts them.
#[derive(Clone, Copy, Debug, PartialEq, Eq, Structural)]
pub struct Position {
    pub line: u32,
    pub character: u32,
}

/// Where an answer leads: a file and a range in it.
#[derive(Clone, Debug, PartialEq, Eq)]
pub struct DefinitionTarget {
    pub path: String,
    pub start: Position,
    pub end: Position,
}

/// A request from the caret: where it was, what it asks, and the server's token once it was sent.
pub struct PendingDefinition {
    pub offset: usize,
    pub kind: DefinitionKind,
    pub request: Option<u64>,
}

/// The symbol under the pointer while the command key is held: the offset that asked, what it asks, the
/// symbol's range once known, the targets the answer gave, the request's token and whether it was sent.
pub struct LinkState {
    pub trigger: usize,
    pub kind: DefinitionKind,
    pub symbol_range: Option<Range<usize>>,
    pub targets: Vec<DefinitionTarget>,
    pub request: Option<u64>,
    pub sent: bool,
}

/// A file view's definition requests: one from the caret, and the hovered link.
pub struct DefinitionState {
    pub pending: Option<PendingDefinition>,
    pub link: Option<LinkState>,
}

/// What a command-click leads to.
#[derive(Debug, PartialEq, Eq)]
pub enum DefinitionClick {
    /// The hovered link's targets, but for those the click is already on.
    Go(Vec<DefinitionTarget>),
    /// Nothing: no text under the click, or the link only leads where the click already is.
    Stay,
    /// The caret goes to this offset and the definition there is asked for.
    Ask(usize),
}

/// The caret's request waits to be sent.
pub open spec fn caret_due(s: DefinitionState) -> bool {
    s.pending is Some && s.pending->0.request is None
}

/// The link's request waits to be sent.
pub open spec fn link_due(s: DefinitionState) -> bool {
    s.link is Some && !s.link->0.sent
}

/// The request to send next: the caret's first, then the link's.
pub open spec fn due(s: DefinitionState) -> Option<(usize, DefinitionKind)> {
    if caret_due(s) {
        Some((s.pending->0.offset, s.pending->0.kind))
    } else if link_due(s) {
        Some((s.link->0.trigger, s.link->0.kind))
    } else {
        None
    }
}

/// How many requests wait to be sent.
pub open spec fn unsent(s: DefinitionState) -> nat {
    (if caret_due(s) { 1nat } else { 0nat }) + (if link_due(s) { 1nat } else { 0nat })
}

/// `t` is `s` once the request due in `s` was handed to the server, which gave `token` (none: it could not
/// be sent). A caret request without a token is dropped; a link's is marked sent either way.
pub open spec fn requested(s: DefinitionState, token: Option<u64>, t: DefinitionState) -> bool {
    if caret_due(s) {
        &&& t.link == s.link
        &&& match token {
            Some(k) => t.pending == Some(PendingDefinition { request: Some(k), ..s.pending->0 }),
            None => t.pending is None,
        }
    } else {
        &&& t.pending == s.pending
        &&& match s.link {
            Some(l) => t.link == Some(LinkState { request: token, sent: true, ..l }),
            None => t.link is None,
        }
    }
}

/// Going to a target from `offset` would not move: it is in this file and its span holds the offset.
pub open spec fn is_here(span: Option<Range<usize>>, offset: usize) -> bool {
    span is Some && span->0.start <= offset && offset <= span->0.end
}

/// Of the first `n` targets, those not here, in their order; `spans[i]` is target `i`'s span in this file,
/// if it is in this file.
pub open spec fn away(
    targets: Seq<DefinitionTarget>,
    spans: Seq<Option<Range<usize>>>,
    offset: usize,
    n: nat,
) -> Seq<DefinitionTarget>
    decreases n,
{
    if n == 0 {
        Seq::empty()
    } else {
        let k = (n - 1) as nat;
        let rest = away(targets, spans, offset, k);
        if is_here(spans[k as int], offset) {
            rest
        } else {
            rest.push(targets[k as int])
        }
    }
}

/// The targets other than those `offset` is already on.
pub open spec fn away_from(
    targets: Seq<DefinitionTarget>,
    spans: Seq<Option<Range<usize>>>,
    offset: usize,
) -> Seq<DefinitionTarget> {
    away(targets, spans, offset, targets.len())
}

/// The targets other than those `offset` is already on, in their order. `spans[i]` is where target `i` lies
/// in this file, in chars, or nothing when it is in another file or this one is not loaded.
pub fn excluding_here(targets: Vec<DefinitionTarget>, spans: &Vec<Option<Range<usize>>>, offset: usize) -> (r:
    Vec<DefinitionTarget>)
    requires
        spans.len() == targets.len(),
    ensures
        r@ == away_from(targets@, spans@, offset),
{
    let ghost all = targets@;
    let mut rest = targets;
    let mut kept: Vec<DefinitionTarget> = Vec::new();
    let mut i: usize = 0;
    while rest.len() > 0
        invariant
            i + rest.len() == all.len(),
            spans.len() == all.len(),
            rest@ == all.skip(i as int),
            kept@ == away(all, spans@, offset, i as nat),
        decreases rest.len(),
    {
        let target = rest.remove(0);
        assert(target == all[i as int]);
        let here = match &spans[i] {
            Some(span) => span.start <= offset && offset <= span.end,
            None => false,
        };
        if !here {
            kept.push(target);
        }
        assert(rest@ == all.skip(i + 1));
        i += 1;
    }
    kept
}

/// What a held command key asks for: the type's definition with shift, else the symbol's.
pub open spec fn link_kind(type_definition: bool) -> DefinitionKind {
    if type_definition {
        DefinitionKind::TypeDefinition
    } else {
        DefinitionKind::Definition
    }
}

/// The link already stands for a pointer at `offset` asking `kind`: same kind, and the offset is the one
/// that asked or lies in the symbol.
pub open spec fn link_covers(link: Option<LinkState>, offset: usize, kind: DefinitionKind) -> bool {
    &&& link is Some
    &&& link->0.kind == kind
    &&& (link->0.trigger == offset || (link->0.symbol_range is Some && link->0.symbol_range->0.start <= offset
        && offset <= link->0.symbol_range->0.end))
}

/// A link that nothing was asked for yet, from `offset` asking `kind`.
pub open spec fn fresh_link(link: Option<LinkState>, offset: usize, kind: DefinitionKind) -> bool {
    &&& link is Some
    &&& link->0.trigger == offset
    &&& link->0.kind == kind
    &&& link->0.symbol_range is None
    &&& link->0.targets@.len() == 0
    &&& link->0.request is None
    &&& !link->0.sent
}

/// `t` is `s` after the pointer came to `offset` with the command key held.
pub open spec fn link_shown(s: DefinitionState, offset: usize, type_definition: bool, t: DefinitionState) -> bool {
    if link_covers(s.link, offset, link_kind(type_definition)) {
        t == s
    } else {
        t.pending == s.pending && fresh_link(t.link, offset, link_kind(type_definition))
    }
}

/// The range to underline: the link's symbol, once the server said it leads somewhere.
pub open spec fn underlined(s: DefinitionState) -> Option<Range<usize>> {
    match s.link {
        Some(l) => if l.targets@.len() == 0 {
            None
        } else {
            l.symbol_range
        },
        None => None,
    }
}

/// The answer with token `request` is the one the caret's request waits for.
pub open spec fn answers_caret(s: DefinitionState, request: u64) -> bool {
    s.pending is Some && s.pending->0.request == Some(request)
}

/// The answer with token `request` is the one the link's request waits for.
pub open spec fn answers_link(s: DefinitionState, request: u64) -> bool {
    s.link is Some && s.link->0.request == Some(request)
}

/// The word around `offset` in the file's text, if the file is loaded and there is one.
pub open spec fn word_around(text: Option<Seq<char>>, offset: usize) -> Option<Range<usize>> {
    match text {
        Some(t) => if word_start(t, offset as nat) < word_end(t, offset as nat) {
            Some(Range { start: word_start(t, offset as nat) as usize, end: word_end(t, offset as nat) as usize })
        } else {
            None
        },
        None => None,
    }
}

/// The symbol range a link answer leaves: where the server said the symbol is, or else the word around
/// the offset that asked; with no targets, only what the server said.
pub open spec fn answered_range(
    targets: Seq<DefinitionTarget>,
    origin: Option<Range<usize>>,
    text: Option<Seq<char>>,
    trigger: usize,
) -> Option<Range<usize>> {
    if targets.len() == 0 || origin is Some {
        origin
    } else {
        word_around(text, trigger)
    }
}

/// The answered targets, unless none is left.
pub open spec fn non_empty(r: Option<Vec<DefinitionTarget>>, targets: Seq<DefinitionTarget>) -> bool {
    if targets.len() == 0 {
        r is None
    } else {
        r is Some && r->0@ == targets
    }
}

/// Moving the pointer within the linked symbol, the command key held as before, keeps the link as it is
/// and asks nothing more of the server.
pub proof fn lemma_link_kept_within_symbol(
    s: DefinitionState,
    offset: usize,
    type_definition: bool,
    t: DefinitionState,
)
    requires
        s.link is Some,
        s.link->0.kind == link_kind(type_definition),
        s.link->0.sent,
        s.link->0.symbol_range is Some,
        s.link->0.symbol_range->0.start <= offset <= s.link->0.symbol_range->0.end,
        !caret_due(s),
        link_shown(s, offset, type_definition, t),
    ensures
        t == s,
        due(t) is None,
        underlined(t) == underlined(s),
{
}

/// A caret request answered leaves nothing of the caret's waiting.
pub proof fn lemma_answer_ends_caret_request(s: DefinitionState, request: u64, t: DefinitionState)
    requires
        answers_caret(s, request),
        t.pending is None,
        t.link == s.link,
    ensures
        !caret_due(t),
        due(t) == (if link_due(s) { Some((s.link->0.trigger, s.link->0.kind)) } else { None::<(usize, DefinitionKind)> }),
{
}

/// Marking a due request as sent leaves fewer waiting, so handing out requests while one is due comes to
/// an end.
pub proof fn lemma_requests_settle(s: DefinitionState, token: Option<u64>, t: DefinitionState)
    requires
        due(s) is Some,
        requested(s, token, t),
    ensures
        unsent(t) < unsent(s),
{
}

impl DefinitionState {
    /// Nothing asked and no link.
    pub fn new() -> (r: Self)
        ensures
            r.pending is None,
            r.link is None,
    {
        DefinitionState { pending: None, link: None }
    }

    /// F12 or a variant: ask for `kind` at the caret, when the file is loaded (`caret` is then where the
    /// caret is).
    pub fn go_to_definition(&mut self, caret: Option<usize>, kind: DefinitionKind)
        ensures
            match caret {
                Some(c) => final(self).pending == Some(PendingDefinition { offset: c, kind, request: None })
                    && final(self).link == old(self).link,
                None => *final(self) == *old(self),
            },
    {
        if let Some(c) = caret {
            self.pending = Some(PendingDefinition { offset: c, kind, request: None });
        }
    }

    /// With the command key held over text: ask where the symbol at `offset` leads, unless the link already
    /// covers it. Shift asks for its type instead.
    pub fn show_link_definition(&mut self, offset: usize, type_definition: bool)
        ensures
            link_shown(*old(self), offset, type_definition, *final(self)),
    {
        let kind = if type_definition {
            DefinitionKind::TypeDefinition
        } else {
            DefinitionKind::Definition
        };
        if let Some(link) = &self.link {
            let covers = match &link.symbol_range {
                Some(range) => range.start <= offset && offset <= range.end,
                None => false,
            };
            if link.kind == kind && (link.trigger == offset || covers) {
                return ;
            }
        }
        self.link = Some(
            LinkState {
                trigger: offset,
                kind,
                symbol_range: None,
                targets: Vec::new(),
                request: None,
                sent: false,
            },
        );
    }

    /// The command key was let go or the pointer left the text: drop the link. Whether there was one.
    pub fn hide_hovered_link(&mut self) -> (r: bool)
        ensures
            r == old(self).link is Some,
            final(self).link is None,
            final(self).pending == old(self).pending,
    {
        self.link.take().is_some()
    }

    /// The link to underline: the hovered symbol, once the server says it leads somewhere.
    pub fn link_range(&self) -> (r: Option<Range<usize>>)
        ensures
            r == underlined(*self),
    {
        match &self.link {
            Some(l) => if l.targets.len() == 0 {
                None
            } else {
                match &l.symbol_range {
                    Some(range) => Some(range.start..range.end),
                    None => None,
                }
            },
            None => None,
        }
    }

    /// The hovered link's targets, none without a link.
    pub fn link_targets(&self) -> (r: &[DefinitionTarget])
        ensures
            r@ == match self.link {
                Some(l) => l.targets@,
                None => Seq::empty(),
            },
    {
        match &self.link {
            Some(l) => l.targets.as_slice(),
            None => &[],
        }
    }

    /// The server answered request `request` with `targets` (`spans[i]`: where target `i` lies in this
    /// file, if it does) and, for a link, the symbol's range `origin`, already carried over the edits since.
    /// `text` is the file's text when it is loaded. An answer to the caret's request gives the targets to go
    /// to, but for those the caret is on; one to the link's request becomes the link's targets and symbol
    /// range (the word at the pointer when the server gave no range). Any other answer changes nothing.
    pub fn definitions_answered(
        &mut self,
        request: u64,
        targets: Vec<DefinitionTarget>,
        spans: &Vec<Option<Range<usize>>>,
        origin: Option<Range<usize>>,
        text: Option<&Vec<char>>,
    ) -> (r: Option<Vec<DefinitionTarget>>)
        requires
            spans.len() == targets.len(),
            !answers_caret(*old(self), request) && old(self).link is Some && text is Some ==> old(self).link->0.trigger
                <= text->0.len(),
        ensures
            answers_caret(*old(self), request) ==> {
                &&& final(self).pending is None
                &&& final(self).link == old(self).link
                &&& non_empty(r, away_from(targets@, spans@, old(self).pending->0.offset))
            },
            !answers_caret(*old(self), request) ==> r is None,
            !answers_caret(*old(self), request) && !answers_link(*old(self), request) ==> *final(self)
                == *old(self),
            !answers_caret(*old(self), request) && answers_link(*old(self), request) ==> {
                let l = old(self).link->0;
                &&& final(self).pending == old(self).pending
                &&& final(self).link is Some
                &&& final(self).link->0.trigger == l.trigger
                &&& final(self).link->0.kind == l.kind
                &&& final(self).link->0.request == l.request
                &&& final(self).link->0.sent == l.sent
                &&& final(self).link->0.targets@ == targets@
                &&& final(self).link->0.symbol_range == answered_range(
                    targets@,
                    origin,
                    match text {
                        Some(t) => Some(t@),
                        None => None,
                    },
                    l.trigger,
                )
            },
    {
        let caret = match &self.pending {
            Some(p) => p.request == Some(request),
            None => false,
        };
        if caret {
            let offset = self.pending.take().unwrap().offset;
            let kept = excluding_here(targets, spans, offset);
            return if kept.len() == 0 {
                None
            } else {
                Some(kept)
            };
        }
        let l = match self.link.take() {
            Some(l) => l,
            None => return None,
        };
        if l.request != Some(request) {
            self.link = Some(l);
            return None;
        }
        let fallback = match text {
            Some(t) => surrounding_word(t, l.trigger),
            None => None,
        };
        let symbol_range = if targets.len() == 0 || origin.is_some() {
            origin
        } else {
            fallback
        };
        self.link = Some(LinkState { targets, symbol_range, ..l });
        None
    }

    /// A command-click at char `offset` (none: not over text), shift held or not. `spans[i]` is where the
    /// link's target `i` lies in this file, if it does. The link goes either way. Where it had targets, the
    /// click goes to those it is not already on; else the caret moves to the click and its definition is
    /// asked for.
    pub fn definition_click(&mut self, offset: Option<usize>, spans: &Vec<Option<Range<usize>>>, type_definition: bool) -> (r:
        DefinitionClick)
        requires
            spans.len() == match old(self).link {
                Some(l) => l.targets@.len(),
                None => 0,
            },
        ensures
            final(self).link is None,
            match offset {
                None => r is Stay && final(self).pending == old(self).pending,
                Some(o) => if old(self).link is Some && old(self).link->0.targets@.len() > 0 {
                    let kept = away_from(old(self).link->0.targets@, spans@, o);
                    &&& final(self).pending == old(self).pending
                    &&& if kept.len() == 0 {
                        r is Stay
                    } else {
                        r is Go && r->Go_0@ == kept
                    }
                } else {
                    &&& r == DefinitionClick::Ask(o)
                    &&& final(self).pending == Some(
                        PendingDefinition { offset: o, kind: link_kind(type_definition), request: None },
                    )
                },
            },
    {
        let link = self.link.take();
        if let Some(o) = offset {
            if let Some(l) = link {
                if l.targets.len() > 0 {
                    let kept = excluding_here(l.targets, spans, o);
                    return if kept.len() == 0 {
                        DefinitionClick::Stay
                    } else {
                        DefinitionClick::Go(kept)
                    };
                }
            }
        }
        let o = match offset {
            Some(o) => o,
            None => return DefinitionClick::Stay,
        };
        let kind = if type_definition {
            DefinitionKind::TypeDefinition
        } else {
            DefinitionKind::Definition
        };
        self.pending = Some(PendingDefinition { offset: o, kind, request: None });
        DefinitionClick::Ask(o)
    }

    /// A definition request waiting to be sent: the caret's first, then the link's.
    pub fn definition_request_due(&self) -> (r: Option<(usize, DefinitionKind)>)
        ensures
            r == due(*self),
    {
        if let Some(p) = &self.pending {
            if p.request.is_none() {
                return Some((p.offset, p.kind));
            }
        }
        match &self.link {
            Some(l) => if l.sent {
                None
            } else {
                Some((l.trigger, l.kind))
            },
            None => None,
        }
    }

    /// The request due was handed to the server, which gave `token`, or nothing when it could not be sent.
    pub fn definition_requested(&mut self, token: Option<u64>)
        ensures
            requested(*old(self), token, *final(self)),
    {
        let caret = match &self.pending {
            Some(p) => p.request.is_none(),
            None => false,
        };
        if caret {
            match token {
                Some(k) => {
                    let p = self.pending.take().unwrap();
                    self.pending = Some(PendingDefinition { request: Some(k), ..p });
                },
                None => {
                    self.pending = None;
                },
            }
            return ;
        }
        match self.link.take() {
            Some(l) => {
                self.link = Some(LinkState { request: token, sent: true, ..l });
            },
            None => {},
        }
    }
}

} // verus!
