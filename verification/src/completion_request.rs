//! When typing asks the language server for completions: a word typed, a trigger character of the server,
//! or an explicit request asks; a menu whose complete answer still covers what is typed is filtered instead;
//! and the one request on its way is matched with its answer.

use vstd::prelude::*;
use crate::text::{chars_of, push_char, seq_starts_with, starts_with};

verus! {

/// What led to a completion update.
#[derive(Clone, Copy, Debug, PartialEq, Eq, Structural)]
pub enum CompletionTrigger {
    /// A word char typed.
    Typed,
    /// A single non-word char, which may be one of the server's trigger characters.
    Character(char),
    /// Typing that only filters an open menu.
    Refilter,
    /// An explicit request for completions.
    Show,
    /// An explicit request for the file's words alone.
    ShowWords,
}

/// What the update needs of an open menu: the word typed when it was asked for, whether the server said
/// its answer is incomplete, whether the caret is still where it was asked (having followed the typing
/// since), and whether the menu is empty once filtered by what is typed now.
pub struct MenuState {
    pub initial_query: Option<String>,
    pub is_incomplete: bool,
    pub at_initial_position: bool,
    pub filtered_empty: bool,
}

/// A completion request: where the caret was and in which buffer version, the trigger character, the word
/// typed, the server's token once sent, whether a menu was open, and whether a word char was typed.
pub struct CompletionRequest {
    pub offset: usize,
    pub version: u64,
    pub trigger: Option<String>,
    pub query: Option<String>,
    pub request: Option<u64>,
    pub menu_was_open: bool,
    pub typed_word: bool,
}

/// The completion request of a file view, if one is on its way.
pub struct CompletionRequests {
    pub pending: Option<CompletionRequest>,
}

pub open spec fn opt_chars(o: Option<String>) -> Option<Seq<char>> {
    match o {
        Some(s) => Some(s@),
        None => None,
    }
}

/// `ts` lists the char `c`.
pub open spec fn lists_char(ts: Seq<String>, c: char) -> bool {
    exists|i: int| 0 <= i < ts.len() && (#[trigger] ts[i])@ == seq![c]
}

/// The typed char, when it is one of the server's trigger characters.
pub open spec fn trigger_char(trigger: CompletionTrigger, triggers: Option<Seq<String>>) -> Option<Seq<char>> {
    match trigger {
        CompletionTrigger::Character(c) => match triggers {
            Some(ts) => if lists_char(ts, c) {
                Some(seq![c])
            } else {
                None
            },
            None => None,
        },
        _ => None,
    }
}

/// The trigger asks the server: a word typed, an explicit request, or a trigger character of the server.
pub open spec fn trigger_asks(trigger: CompletionTrigger, triggers: Option<Seq<String>>) -> bool {
    match trigger {
        CompletionTrigger::Typed | CompletionTrigger::Show => true,
        CompletionTrigger::Character(_) => trigger_char(trigger, triggers) is Some,
        _ => false,
    }
}

/// What is typed now goes on from the word the menu was asked with.
pub open spec fn extends_initial(initial: Option<Seq<char>>, query: Option<Seq<char>>) -> bool {
    match (initial, query) {
        (Some(i), Some(q)) => starts_with(q, i),
        (None, _) => true,
        _ => false,
    }
}

/// The open menu still holds everything the server could offer for what is typed.
pub open spec fn menu_covers(m: MenuState, query: Option<Seq<char>>) -> bool {
    !m.is_incomplete && extends_initial(opt_chars(m.initial_query), query) && m.at_initial_position
}

/// The request asked at caret `offset`.
pub open spec fn request_for(
    r: CompletionRequest,
    offset: usize,
    version: u64,
    query: Option<String>,
    trigger: CompletionTrigger,
    triggers: Option<Seq<String>>,
    menu_open: bool,
) -> bool {
    &&& r.offset == offset
    &&& r.version == version
    &&& opt_chars(r.trigger) == trigger_char(trigger, triggers)
    &&& r.query == query
    &&& r.request is None
    &&& r.menu_was_open == menu_open
    &&& r.typed_word == (trigger == CompletionTrigger::Typed)
}

/// Typing led to `trigger` with the caret at `caret` (none: no file, or text selected); `pending` was the
/// request on its way and `next` is the one after, and `close_menu` says whether the menu closes. Without a
/// caret the menu closes. A menu whose complete answer covers what is typed is kept, or closed once the
/// filter left it empty, and nothing is asked. Otherwise what does not ask leaves things be with no menu,
/// and closes a menu with a word typed but for a refilter; and the rest asks at the caret, closing the menu
/// first when no word is typed.
pub open spec fn completions_updated(
    pending: Option<CompletionRequest>,
    caret: Option<usize>,
    version: u64,
    query: Option<String>,
    trigger: CompletionTrigger,
    triggers: Option<Seq<String>>,
    menu: Option<MenuState>,
    close_menu: bool,
    next: Option<CompletionRequest>,
) -> bool {
    let asks = trigger_asks(trigger, triggers);
    let open = menu is Some;
    if caret is None {
        close_menu && next is None
    } else if open && menu_covers(menu->0, opt_chars(query)) && (asks || trigger == CompletionTrigger::Refilter) {
        if menu->0.filtered_empty {
            close_menu && next is None
        } else {
            !close_menu && next == pending
        }
    } else if !asks && !open {
        !close_menu && next == pending
    } else if !asks && query is Some && trigger != CompletionTrigger::Refilter {
        close_menu && next is None
    } else {
        &&& close_menu == (query is None && open)
        &&& next is Some
        &&& request_for(next->0, caret->0, version, query, trigger, triggers, open)
    }
}

/// While an open menu holds a complete answer that covers what is typed, typing a word filters it: the
/// menu stays and nothing new is asked.
pub proof fn lemma_complete_answer_is_filtered(
    pending: Option<CompletionRequest>,
    caret: usize,
    version: u64,
    query: Option<String>,
    triggers: Option<Seq<String>>,
    menu: MenuState,
    close_menu: bool,
    next: Option<CompletionRequest>,
)
    requires
        menu_covers(menu, opt_chars(query)),
        !menu.filtered_empty,
        completions_updated(
            pending,
            Some(caret),
            version,
            query,
            CompletionTrigger::Typed,
            triggers,
            Some(menu),
            close_menu,
            next,
        ),
    ensures
        !close_menu,
        next == pending,
{
}

/// Once the server said its answer is incomplete, each word char typed asks again at the caret, keeping
/// the menu open meanwhile.
pub proof fn lemma_incomplete_answer_asks_again(
    pending: Option<CompletionRequest>,
    caret: usize,
    version: u64,
    query: String,
    triggers: Option<Seq<String>>,
    menu: MenuState,
    close_menu: bool,
    next: Option<CompletionRequest>,
)
    requires
        menu.is_incomplete,
        completions_updated(
            pending,
            Some(caret),
            version,
            Some(query),
            CompletionTrigger::Typed,
            triggers,
            Some(menu),
            close_menu,
            next,
        ),
    ensures
        !close_menu,
        next is Some,
        next->0.offset == caret,
        next->0.request is None,
        next->0.trigger is None,
{
}

/// Whether `ts` holds the text `s`.
fn holds_text(ts: &Vec<String>, s: &String) -> (r: bool)
    ensures
        r == exists|i: int| 0 <= i < ts@.len() && (#[trigger] ts@[i])@ == s@,
{
    let mut i: usize = 0;
    while i < ts.len()
        invariant
            i <= ts.len(),
            forall|j: int| 0 <= j < i ==> (#[trigger] ts@[j])@ != s@,
        decreases ts.len() - i,
    {
        if ts[i] == *s {
            return true;
        }
        i += 1;
    }
    false
}

impl CompletionRequests {
    /// No request on its way.
    pub fn new() -> (r: Self)
        ensures
            r.pending is None,
    {
        CompletionRequests { pending: None }
    }

    /// The request waiting to be sent: where the caret was and the trigger character.
    pub fn completion_request_due(&self) -> (r: Option<(usize, Option<String>)>)
        ensures
            r == match self.pending {
                Some(p) => if p.request is None {
                    Some((p.offset, p.trigger))
                } else {
                    None
                },
                None => None,
            },
    {
        match &self.pending {
            Some(p) => if p.request.is_none() {
                let trigger = match &p.trigger {
                    Some(t) => Some(t.clone()),
                    None => None,
                };
                Some((p.offset, trigger))
            } else {
                None
            },
            None => None,
        }
    }

    /// The request was handed to the server, which gave `token`. Without one no server can answer, and the
    /// request comes back, to build the menu from the file's own words and snippets.
    pub fn completion_requested(&mut self, token: Option<u64>) -> (r: Option<CompletionRequest>)
        ensures
            match token {
                Some(k) => r is None && match old(self).pending {
                    Some(p) => final(self).pending == Some(CompletionRequest { request: Some(k), ..p }),
                    None => final(self).pending is None,
                },
                None => r == old(self).pending && final(self).pending is None,
            },
    {
        match token {
            Some(k) => {
                if let Some(p) = self.pending.take() {
                    self.pending = Some(CompletionRequest { request: Some(k), ..p });
                }
                None
            },
            None => self.pending.take(),
        }
    }

    /// The server answered request `request`: the request it answers, which is then no longer on its way;
    /// nothing when it answers another.
    pub fn completions_answered(&mut self, request: u64) -> (r: Option<CompletionRequest>)
        ensures
            if old(self).pending is Some && old(self).pending->0.request == Some(request) {
                r == old(self).pending && final(self).pending is None
            } else {
                r is None && final(self).pending == old(self).pending
            },
    {
        let matches = match &self.pending {
            Some(p) => p.request == Some(request),
            None => false,
        };
        if matches {
            self.pending.take()
        } else {
            None
        }
    }

    /// Decide what typing does to the server completions: `caret` is where the caret is (none: no file, or
    /// text selected), `version` the buffer's version, `query` the word before the caret, `triggers` the
    /// server's trigger characters, and `menu` the open menu, already filtered by `query`. A request may be
    /// set on its way; the result says whether the menu closes.
    pub fn update_server_completions(
        &mut self,
        caret: Option<usize>,
        version: u64,
        query: Option<String>,
        trigger: CompletionTrigger,
        triggers: Option<&Vec<String>>,
        menu: Option<&MenuState>,
    ) -> (close_menu: bool)
        ensures
            completions_updated(
                old(self).pending,
                caret,
                version,
                query,
                trigger,
                match triggers {
                    Some(t) => Some(t@),
                    None => None,
                },
                match menu {
                    Some(m) => Some(*m),
                    None => None,
                },
                close_menu,
                final(self).pending,
            ),
    {
        let head = match caret {
            Some(h) => h,
            None => {
                self.pending = None;
                return true;
            },
        };
        let trigger_character = match trigger {
            CompletionTrigger::Character(c) => {
                let mut typed = String::new();
                push_char(&mut typed, c);
                assert(typed@ =~= seq![c]);
                let known = match triggers {
                    Some(ts) => holds_text(ts, &typed),
                    None => false,
                };
                if known {
                    Some(typed)
                } else {
                    None
                }
            },
            _ => None,
        };
        let asks = match trigger {
            CompletionTrigger::Typed | CompletionTrigger::Show => true,
            CompletionTrigger::Character(_) => trigger_character.is_some(),
            CompletionTrigger::Refilter | CompletionTrigger::ShowWords => false,
        };
        let menu_open = menu.is_some();
        if let Some(m) = menu {
            let extends = match (&m.initial_query, &query) {
                (Some(initial), Some(q)) => seq_starts_with(&chars_of(q.as_str()), &chars_of(initial.as_str())),
                (None, _) => true,
                _ => false,
            };
            let covered = !m.is_incomplete && extends && m.at_initial_position;
            if covered && (asks || trigger == CompletionTrigger::Refilter) {
                if m.filtered_empty {
                    self.pending = None;
                    return true;
                }
                return false;
            }
        }
        let close_first = query.is_none() && menu_open;
        if close_first {
            self.pending = None;
        }
        if !asks && !menu_open {
            return false;
        }
        if !asks && !close_first && trigger != CompletionTrigger::Refilter {
            self.pending = None;
            return true;
        }
        self.pending = Some(
            CompletionRequest {
                offset: head,
                version,
                trigger: trigger_character,
                query,
                request: None,
                menu_was_open: menu_open,
                typed_word: trigger == CompletionTrigger::Typed,
            },
        );
        close_first
    }
}

} // verus!
