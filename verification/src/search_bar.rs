//! The in-file search bar's click targets, its fields, and the history of searched queries that Up and Down
//! step through.

use vstd::prelude::*;

verus! {

/// Click targets inside the bar, offset from the pane's base id.
#[derive(Clone, Copy, Debug, PartialEq, Eq, Structural)]
pub enum SearchClick {
    Query,
    Replacement,
    CaseSensitive,
    WholeWord,
    Regex,
    ToggleReplace,
    SelectAll,
    Previous,
    Next,
    Close,
    ReplaceNext,
    ReplaceAll,
}

/// Which of the bar's fields has focus.
#[derive(Clone, Copy, Debug, PartialEq, Eq, Structural)]
pub enum SearchField {
    Query,
    Replacement,
}

/// The click targets in id order.
pub open spec fn click_at(i: nat) -> SearchClick {
    if i == 0 {
        SearchClick::Query
    } else if i == 1 {
        SearchClick::Replacement
    } else if i == 2 {
        SearchClick::CaseSensitive
    } else if i == 3 {
        SearchClick::WholeWord
    } else if i == 4 {
        SearchClick::Regex
    } else if i == 5 {
        SearchClick::ToggleReplace
    } else if i == 6 {
        SearchClick::SelectAll
    } else if i == 7 {
        SearchClick::Previous
    } else if i == 8 {
        SearchClick::Next
    } else if i == 9 {
        SearchClick::Close
    } else if i == 10 {
        SearchClick::ReplaceNext
    } else {
        SearchClick::ReplaceAll
    }
}

/// How many click targets there are.
pub const CLICK_COUNT: u64 = 12;

impl SearchClick {
    /// A target's place in id order.
    pub open spec fn index(self) -> nat {
        match self {
            SearchClick::Query => 0,
            SearchClick::Replacement => 1,
            SearchClick::CaseSensitive => 2,
            SearchClick::WholeWord => 3,
            SearchClick::Regex => 4,
            SearchClick::ToggleReplace => 5,
            SearchClick::SelectAll => 6,
            SearchClick::Previous => 7,
            SearchClick::Next => 8,
            SearchClick::Close => 9,
            SearchClick::ReplaceNext => 10,
            SearchClick::ReplaceAll => 11,
        }
    }

    pub fn id(self, base: u64) -> (r: u64)
        requires
            base + self.index() <= u64::MAX,
        ensures
            r == base + self.index(),
    {
        let offset: u64 = match self {
            SearchClick::Query => 0,
            SearchClick::Replacement => 1,
            SearchClick::CaseSensitive => 2,
            SearchClick::WholeWord => 3,
            SearchClick::Regex => 4,
            SearchClick::ToggleReplace => 5,
            SearchClick::SelectAll => 6,
            SearchClick::Previous => 7,
            SearchClick::Next => 8,
            SearchClick::Close => 9,
            SearchClick::ReplaceNext => 10,
            SearchClick::ReplaceAll => 11,
        };
        base + offset
    }

    pub fn from_offset(offset: u64) -> (r: Option<SearchClick>)
        ensures
            r == (if (offset as usize) < CLICK_COUNT {
                Some(click_at((offset as usize) as nat))
            } else {
                None
            }),
    {
        let i = offset as usize;
        if i == 0 {
            Some(SearchClick::Query)
        } else if i == 1 {
            Some(SearchClick::Replacement)
        } else if i == 2 {
            Some(SearchClick::CaseSensitive)
        } else if i == 3 {
            Some(SearchClick::WholeWord)
        } else if i == 4 {
            Some(SearchClick::Regex)
        } else if i == 5 {
            Some(SearchClick::ToggleReplace)
        } else if i == 6 {
            Some(SearchClick::SelectAll)
        } else if i == 7 {
            Some(SearchClick::Previous)
        } else if i == 8 {
            Some(SearchClick::Next)
        } else if i == 9 {
            Some(SearchClick::Close)
        } else if i == 10 {
            Some(SearchClick::ReplaceNext)
        } else if i == 11 {
            Some(SearchClick::ReplaceAll)
        } else {
            None
        }
    }
}

/// Every target comes back from its offset, and no two targets share an id.
pub proof fn lemma_search_click_round_trip(click: SearchClick, other: SearchClick)
    ensures
        click.index() < CLICK_COUNT,
        click_at(click.index()) == click,
        click != other ==> click.index() != other.index(),
{
}

/// At most this many past queries are kept.
pub const MAX_HISTORY: usize = 50;

/// Queries searched before, oldest first, and the one Up/Down is showing.
pub struct SearchHistory {
    entries: Vec<String>,
    index: Option<usize>,
}

pub struct SearchHistoryView {
    pub entries: Seq<Seq<char>>,
    pub index: Option<usize>,
}

impl SearchHistory {
    /// The entry being shown, if any, is one of the entries.
    #[verifier::type_invariant]
    closed spec fn index_in_range(self) -> bool {
        match self.index {
            Some(i) => i < self.entries.len(),
            None => true,
        }
    }
}

impl View for SearchHistory {
    type V = SearchHistoryView;

    closed spec fn view(&self) -> SearchHistoryView {
        SearchHistoryView { entries: self.entries.deep_view(), index: self.index }
    }
}

/// `entries` without the ones equal to `q`, in order.
pub open spec fn queries_without(entries: Seq<Seq<char>>, q: Seq<char>) -> Seq<Seq<char>>
    decreases entries.len(),
{
    if entries.len() == 0 {
        entries
    } else if entries.last() == q {
        queries_without(entries.drop_last(), q)
    } else {
        queries_without(entries.drop_last(), q).push(entries.last())
    }
}

/// The history after searching for `text`: an empty query is not kept; otherwise it moves to the newest
/// end, the oldest entry goes when there are more than `MAX_HISTORY`, and stepping starts over.
pub open spec fn spec_remember(h: SearchHistoryView, text: Seq<char>) -> SearchHistoryView {
    if text.len() == 0 {
        h
    } else {
        let e = queries_without(h.entries, text).push(text);
        SearchHistoryView {
            entries: if e.len() > MAX_HISTORY {
                e.drop_first()
            } else {
                e
            },
            index: None,
        }
    }
}

/// Up (`older`) or Down: the entry to show and the history showing it; Up starts at the newest entry and
/// stops at the oldest, Down stops at the newest and does nothing before Up.
pub open spec fn spec_step(h: SearchHistoryView, older: bool) -> (SearchHistoryView, Option<Seq<char>>) {
    if h.entries.len() == 0 {
        (h, None)
    } else {
        let last = (h.entries.len() - 1) as nat;
        let next: Option<nat> = match (h.index, older) {
            (None, true) => Some(last),
            (None, false) => None,
            (Some(i), true) => Some(
                if i > 0 {
                    (i - 1) as nat
                } else {
                    0
                },
            ),
            (Some(i), false) => if i >= last {
                None
            } else {
                Some((i + 1) as nat)
            },
        };
        match next {
            Some(n) => (SearchHistoryView { entries: h.entries, index: Some(n as usize) }, Some(h.entries[n as int])),
            None => (h, None),
        }
    }
}

/// No query is kept twice.
pub open spec fn all_distinct(entries: Seq<Seq<char>>) -> bool {
    forall|i: int, j: int| 0 <= i < j < entries.len() ==> entries[i] != entries[j]
}

proof fn lemma_queries_without(entries: Seq<Seq<char>>, q: Seq<char>)
    ensures
        queries_without(entries, q).len() <= entries.len(),
        !queries_without(entries, q).contains(q),
        forall|x: Seq<char>| queries_without(entries, q).contains(x) ==> entries.contains(x),
        all_distinct(entries) ==> all_distinct(queries_without(entries, q)),
    decreases entries.len(),
{
    if entries.len() > 0 {
        let rest = entries.drop_last();
        lemma_queries_without(rest, q);
        assert forall|x: Seq<char>| rest.contains(x) implies entries.contains(x) by {
            let k = choose|k: int| 0 <= k < rest.len() && rest[k] == x;
            assert(entries[k] == x);
        }
        let w = queries_without(rest, q);
        if entries.last() != q {
            let e = entries.last();
            assert forall|x: Seq<char>| w.push(e).contains(x) implies entries.contains(x) by {
                let k = choose|k: int| 0 <= k < w.push(e).len() && w.push(e)[k] == x;
                if k < w.len() {
                    assert(w.contains(x));
                } else {
                    assert(entries[entries.len() - 1] == x);
                }
            }
            assert(!w.push(e).contains(q)) by {
                if w.push(e).contains(q) {
                    let k = choose|k: int| 0 <= k < w.push(e).len() && w.push(e)[k] == q;
                    if k < w.len() {
                        assert(w.contains(q));
                    }
                }
            }
            if all_distinct(entries) {
                assert(all_distinct(rest));
                assert(!w.contains(e)) by {
                    if w.contains(e) {
                        assert(rest.contains(e));
                        let k = choose|k: int| 0 <= k < rest.len() && rest[k] == e;
                        assert(entries[k] == entries[entries.len() - 1]);
                    }
                }
                assert forall|i: int, j: int| 0 <= i < j < w.push(e).len() implies w.push(e)[i] != w.push(e)[j] by {
                    if j == w.len() {
                        assert(w[i] == w.push(e)[i]);
                        assert(w.contains(w[i]));
                    }
                }
            }
        } else {
            if all_distinct(entries) {
                assert(all_distinct(rest));
            }
        }
    }
}

/// Searching keeps the history free of repeats and no longer than `MAX_HISTORY`, with the query just
/// searched at the newest end.
pub proof fn lemma_remember_keeps_history_bounded(h: SearchHistoryView, text: Seq<char>)
    requires
        h.entries.len() <= MAX_HISTORY,
        all_distinct(h.entries),
    ensures
        spec_remember(h, text).entries.len() <= MAX_HISTORY,
        all_distinct(spec_remember(h, text).entries),
        text.len() > 0 ==> spec_remember(h, text).entries.last() == text,
{
    if text.len() > 0 {
        lemma_queries_without(h.entries, text);
        let w = queries_without(h.entries, text);
        let e = w.push(text);
        assert forall|i: int, j: int| 0 <= i < j < e.len() implies e[i] != e[j] by {
            if j == w.len() {
                assert(w[i] == e[i]);
                assert(w.contains(w[i]));
            }
        }
        if e.len() > MAX_HISTORY {
            let d = e.drop_first();
            assert forall|i: int, j: int| 0 <= i < j < d.len() implies d[i] != d[j] by {
                assert(d[i] == e[i + 1]);
                assert(d[j] == e[j + 1]);
            }
        }
    }
}

/// Up right after a search shows that search.
pub proof fn lemma_up_recalls_last_search(h: SearchHistoryView, text: Seq<char>)
    requires
        text.len() > 0,
    ensures
        spec_step(spec_remember(h, text), true).1 == Some(text),
{
    let w = queries_without(h.entries, text);
    let e = w.push(text);
    if e.len() > MAX_HISTORY {
        assert(e.drop_first().last() == text);
    }
}

/// Down right after Up, from an entry that has a newer one, shows that entry again.
pub proof fn lemma_down_undoes_up(h: SearchHistoryView, i: usize)
    requires
        h.index == Some(i),
        0 < i < h.entries.len(),
    ensures
        spec_step(spec_step(h, true).0, false) == (h, Some(h.entries[i as int])),
{
}

impl SearchHistory {
    pub fn new() -> (r: SearchHistory)
        ensures
            r@.entries.len() == 0,
            r@.index is None,
    {
        SearchHistory { entries: Vec::new(), index: None }
    }

    /// Remember `text` as searched.
    pub fn remember(&mut self, text: &str)
        ensures
            final(self)@ == spec_remember(old(self)@, text@),
    {
        if text.unicode_len() == 0 {
            return;
        }
        let query = String::from_str(text);
        let mut kept: Vec<String> = Vec::new();
        let mut i: usize = 0;
        while i < self.entries.len()
            invariant
                i <= self.entries.len(),
                self@ == old(self)@,
                query@ == text@,
                kept.deep_view() == queries_without(self.entries.deep_view().take(i as int), text@),
            decreases self.entries.len() - i,
        {
            let ghost prev = kept.deep_view();
            assert(self.entries.deep_view().take(i + 1).drop_last() == self.entries.deep_view().take(i as int));
            if !(self.entries[i] == query) {
                kept.push(self.entries[i].clone());
                assert(kept.deep_view() =~= prev.push(self.entries.deep_view()[i as int]));
            }
            i += 1;
        }
        assert(self.entries.deep_view().take(i as int) == self.entries.deep_view());
        let ghost before = kept.deep_view();
        kept.push(query);
        assert(kept.deep_view() =~= before.push(text@));
        if kept.len() > MAX_HISTORY {
            let ghost full = kept.deep_view();
            kept.remove(0);
            assert(kept.deep_view() =~= full.drop_first());
        }
        self.index = None;
        self.entries = kept;
    }

    /// Up (`older`) or Down: the query to show, if it changes.
    pub fn step(&mut self, older: bool) -> (r: Option<String>)
        ensures
            (final(self)@, match r {
                Some(s) => Some(s@),
                None => None,
            }) == spec_step(old(self)@, older),
    {
        proof {
            use_type_invariant(&*self);
        }
        if self.entries.len() == 0 {
            return None;
        }
        let last = self.entries.len() - 1;
        let index = match (self.index, older) {
            (None, true) => last,
            (None, false) => return None,
            (Some(i), true) => if i > 0 {
                i - 1
            } else {
                0
            },
            (Some(i), false) => if i >= last {
                return None;
            } else {
                i + 1
            },
        };
        self.index = Some(index);
        let text = self.entries[index].clone();
        assert(self.entries.deep_view()[index as int] == self.entries[index as int]@);
        Some(text)
    }
}

/// The replace row toggled: shown when it was hidden and hidden when it was shown, with focus leaving the
/// replacement field for the query field when the row goes away.
pub fn toggle_replace(replace_enabled: bool, focus: Option<SearchField>) -> (r: (bool, Option<SearchField>))
    ensures
        r.0 == !replace_enabled,
        r.1 == (if replace_enabled && focus == Some(SearchField::Replacement) {
            Some(SearchField::Query)
        } else {
            focus
        }),
{
    let enabled = !replace_enabled;
    let on_replacement = match focus {
        Some(SearchField::Replacement) => true,
        _ => false,
    };
    if !enabled && on_replacement {
        (enabled, Some(SearchField::Query))
    } else {
        (enabled, focus)
    }
}

} // verus!
