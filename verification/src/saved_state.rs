//! What a file tab saves between sessions that needs working out: each fold with a few chars from either
//! end, so it can be found again when the file changed while the app was closed, and the disk time as
//! seconds and nanoseconds since the epoch.

use vstd::prelude::*;
use crate::text::{chars_of, string_of_range};
use std::time::{Duration, SystemTime, UNIX_EPOCH};

verus! {

#[verifier::external_type_specification]
#[verifier::external_body]
pub struct ExSystemTime(SystemTime);

/// Chars kept from each end of a fold.
pub const FOLD_FINGERPRINT_CHARS: usize = 32;

/// A fold as saved: its char range and the text at its two ends.
pub struct SavedFold {
    pub start: usize,
    pub end: usize,
    pub start_text: String,
    pub end_text: String,
}

pub struct SavedFoldView {
    pub start: nat,
    pub end: nat,
    pub start_text: Seq<char>,
    pub end_text: Seq<char>,
}

impl View for SavedFold {
    type V = SavedFoldView;

    open spec fn view(&self) -> SavedFoldView {
        SavedFoldView {
            start: self.start as nat,
            end: self.end as nat,
            start_text: self.start_text@,
            end_text: self.end_text@,
        }
    }
}

/// The fold `[start, end)` of `t` as saved: up to `FOLD_FINGERPRINT_CHARS` chars from its start, and as
/// many before its end, neither reaching past the other end.
pub open spec fn fingerprint(t: Seq<char>, start: nat, end: nat) -> SavedFoldView {
    let head_end = if start + FOLD_FINGERPRINT_CHARS < end {
        start + FOLD_FINGERPRINT_CHARS
    } else {
        end as int
    };
    let tail_start = if end >= start + FOLD_FINGERPRINT_CHARS {
        end - FOLD_FINGERPRINT_CHARS
    } else {
        start as int
    };
    SavedFoldView {
        start,
        end,
        start_text: t.subrange(start as int, head_end),
        end_text: t.subrange(tail_start, end as int),
    }
}

/// `needle` stands in `t` at char `at`.
pub open spec fn text_at(t: Seq<char>, at: int, needle: Seq<char>) -> bool {
    0 <= at && at + needle.len() <= t.len() && t.subrange(at, at + needle.len()) == needle
}

/// The first place at or after `k` where `needle` stands in `t`.
pub open spec fn find_from(t: Seq<char>, needle: Seq<char>, k: nat) -> Option<nat>
    decreases t.len() + 1 - k,
{
    if k > t.len() {
        None
    } else if text_at(t, k as int, needle) {
        Some(k)
    } else {
        find_from(t, needle, k + 1)
    }
}

proof fn lemma_find_from(t: Seq<char>, needle: Seq<char>, k: nat)
    ensures
        find_from(t, needle, k) matches Some(j) ==> k <= j && text_at(t, j as int, needle),
    decreases t.len() + 1 - k,
{
    if k <= t.len() && !text_at(t, k as int, needle) {
        lemma_find_from(t, needle, k + 1);
    }
}

/// The first place at or after `from` (or the end, if `from` is past it) where `needle` stands in `t`.
pub open spec fn find_text(t: Seq<char>, needle: Seq<char>, from: nat) -> Option<nat> {
    find_from(t, needle, if from < t.len() { from } else { t.len() })
}

/// Where a saved fold sits in `t`: at its old offsets when the text there still matches, else the next
/// place its start text appears from `from` followed by its end text (or, when both texts are the same,
/// as long as it was); nothing when that range would be empty or past the end.
pub open spec fn located(t: Seq<char>, f: SavedFoldView, from: nat) -> Option<(nat, nat)> {
    let end_at = if f.end >= f.end_text.len() {
        f.end - f.end_text.len()
    } else {
        0
    };
    if f.start < t.len() && text_at(t, f.start as int, f.start_text) && text_at(t, end_at, f.end_text) {
        Some((f.start, f.end))
    } else {
        match find_text(t, f.start_text, from) {
            None => None,
            Some(s) => {
                let e: Option<nat> = if f.start_text == f.end_text {
                    Some((s + (f.end - f.start)) as nat)
                } else {
                    match find_text(t, f.end_text, s + f.start_text.len()) {
                        Some(k) => Some(k + f.end_text.len()),
                        None => None,
                    }
                };
                match e {
                    Some(e) => if s < e && e <= t.len() {
                        Some((s, e))
                    } else {
                        None
                    },
                    None => None,
                }
            },
        }
    }
}

/// The saved folds found again in `t`, in order, each search starting where the last found fold ended.
pub open spec fn located_all(t: Seq<char>, folds: Seq<SavedFoldView>, from: nat) -> Seq<(nat, nat)>
    decreases folds.len(),
{
    if folds.len() == 0 {
        Seq::empty()
    } else {
        match located(t, folds[0], from) {
            Some(r) => seq![r] + located_all(t, folds.drop_first(), r.1),
            None => located_all(t, folds.drop_first(), from),
        }
    }
}

/// A fold can be looked for: when both its ends read the same, it does not run backwards (the search
/// would subtract its start from its end) and its length past the text's end fits a `usize`.
pub open spec fn fold_in_bounds(t: Seq<char>, f: SavedFoldView) -> bool {
    f.start_text == f.end_text ==> f.start <= f.end && t.len() + (f.end - f.start) <= usize::MAX
}

/// Whether `needle` stands in `t` at `at`.
fn matches_at(t: &Vec<char>, at: usize, needle: &Vec<char>) -> (r: bool)
    ensures
        r == text_at(t@, at as int, needle@),
{
    if needle.len() > t.len() || at > t.len() - needle.len() {
        return false;
    }
    let mut i: usize = 0;
    while i < needle.len()
        invariant
            i <= needle.len(),
            at + needle.len() <= t.len(),
            forall|j: int| 0 <= j < i ==> t@[at + j] == needle@[j],
        decreases needle.len() - i,
    {
        if t[at + i] != needle[i] {
            assert(t@.subrange(at as int, at + needle@.len())[i as int] != needle@[i as int]);
            return false;
        }
        i += 1;
    }
    assert(t@.subrange(at as int, at + needle@.len()) =~= needle@);
    true
}

/// The first place at or after `from` where `needle` stands in `t`.
fn find(t: &Vec<char>, needle: &Vec<char>, from: usize) -> (r: Option<usize>)
    ensures
        match r {
            Some(k) => find_text(t@, needle@, from as nat) == Some(k as nat),
            None => find_text(t@, needle@, from as nat) is None,
        },
{
    let mut k: usize = if from < t.len() {
        from
    } else {
        t.len()
    };
    while k <= t.len()
        invariant
            k <= t.len() + 1,
            find_text(t@, needle@, from as nat) == find_from(t@, needle@, k as nat),
        decreases t.len() + 1 - k,
    {
        if matches_at(t, k, needle) {
            return Some(k);
        }
        if k == t.len() {
            assert(find_from(t@, needle@, (k + 1) as nat) is None);
            return None;
        }
        k += 1;
    }
    None
}

/// The fold `[start, end)` of `text` as saved.
pub fn saved_fold(text: &str, start: usize, end: usize) -> (r: SavedFold)
    requires
        start <= end <= text@.len(),
    ensures
        r@ == fingerprint(text@, start as nat, end as nat),
{
    let t = chars_of(text);
    let head_end = if end - start > FOLD_FINGERPRINT_CHARS {
        start + FOLD_FINGERPRINT_CHARS
    } else {
        end
    };
    let tail_start = if end - start >= FOLD_FINGERPRINT_CHARS {
        end - FOLD_FINGERPRINT_CHARS
    } else {
        start
    };
    SavedFold {
        start,
        end,
        start_text: string_of_range(&t, start, head_end),
        end_text: string_of_range(&t, tail_start, end),
    }
}

/// Where a saved fold sits in `text` now, searching from char `search_from` when it moved.
pub fn locate_fold(text: &str, fold: &SavedFold, search_from: usize) -> (r: Option<(usize, usize)>)
    requires
        fold_in_bounds(text@, fold@),
    ensures
        match r {
            Some((s, e)) => located(text@, fold@, search_from as nat) == Some((s as nat, e as nat)),
            None => located(text@, fold@, search_from as nat) is None,
        },
{
    let t = chars_of(text);
    let start_text = chars_of(fold.start_text.as_str());
    let end_text = chars_of(fold.end_text.as_str());
    let len = t.len();
    let end_at = if fold.end >= end_text.len() {
        fold.end - end_text.len()
    } else {
        0
    };
    if fold.start < len && matches_at(&t, fold.start, &start_text) && matches_at(&t, end_at, &end_text) {
        return Some((fold.start, fold.end));
    }
    let s = match find(&t, &start_text, search_from) {
        Some(s) => s,
        None => return None,
    };
    proof {
        lemma_find_from(t@, start_text@, if search_from < len { search_from as nat } else { len as nat });
    }
    let same = fold.start_text == fold.end_text;
    let e = if same {
        s + (fold.end - fold.start)
    } else {
        match find(&t, &end_text, s + start_text.len()) {
            Some(k) => {
                proof {
                    let from = (s + start_text.len()) as nat;
                    lemma_find_from(t@, end_text@, if from < len { from } else { len as nat });
                }
                k + end_text.len()
            },
            None => return None,
        }
    };
    if s < e && e <= len {
        Some((s, e))
    } else {
        None
    }
}

/// A fold saved from a text comes back at the same place when the text has not changed, wherever the
/// search for moved folds would start.
pub proof fn lemma_unchanged_text_keeps_its_folds(t: Seq<char>, start: nat, end: nat, from: nat)
    requires
        start < t.len(),
        start <= end <= t.len(),
    ensures
        located(t, fingerprint(t, start, end), from) == Some((start, end)),
{
    let f = fingerprint(t, start, end);
    assert(t.subrange(start as int, (start + f.start_text.len()) as int) == f.start_text);
    let end_at = end - f.end_text.len();
    assert(t.subrange(end_at, end_at + f.end_text.len()) == f.end_text);
}

pub open spec fn folds_view(folds: Seq<SavedFold>) -> Seq<SavedFoldView> {
    folds.map_values(|f: SavedFold| f@)
}

pub open spec fn ranges_view(ranges: Seq<(usize, usize)>) -> Seq<(nat, nat)> {
    ranges.map_values(|r: (usize, usize)| (r.0 as nat, r.1 as nat))
}

/// The saved folds found again in `text`, in order; a fold that cannot be found is left out.
pub fn locate_folds(text: &str, folds: &Vec<SavedFold>) -> (r: Vec<(usize, usize)>)
    requires
        forall|i: int| 0 <= i < folds.len() ==> fold_in_bounds(text@, #[trigger] folds@[i]@),
    ensures
        ranges_view(r@) == located_all(text@, folds_view(folds@), 0),
{
    let mut found: Vec<(usize, usize)> = Vec::new();
    let mut search_from: usize = 0;
    let mut i: usize = 0;
    assert(folds_view(folds@).skip(0) == folds_view(folds@));
    assert(ranges_view(found@) + located_all(text@, folds_view(folds@), 0) =~= located_all(text@, folds_view(folds@), 0));
    while i < folds.len()
        invariant
            i <= folds.len(),
            forall|j: int| 0 <= j < folds.len() ==> fold_in_bounds(text@, #[trigger] folds@[j]@),
            ranges_view(found@) + located_all(text@, folds_view(folds@).skip(i as int), search_from as nat)
                == located_all(text@, folds_view(folds@), 0),
        decreases folds.len() - i,
    {
        let ghost rest = folds_view(folds@).skip(i as int);
        assert(rest[0] == folds@[i as int]@);
        assert(rest.drop_first() == folds_view(folds@).skip(i + 1));
        let ghost before = ranges_view(found@);
        match locate_fold(text, &folds[i], search_from) {
            Some(range) => {
                found.push(range);
                search_from = range.1;
                assert(ranges_view(found@) == before.push((range.0 as nat, range.1 as nat)));
                assert(ranges_view(found@) + located_all(text@, rest.drop_first(), search_from as nat)
                    =~= before + (seq![(range.0 as nat, range.1 as nat)] + located_all(text@, rest.drop_first(), search_from as nat)));
            },
            None => {},
        }
        i += 1;
    }
    assert(folds_view(folds@).skip(i as int) =~= Seq::<SavedFoldView>::empty());
    assert(ranges_view(found@) + Seq::<(nat, nat)>::empty() == ranges_view(found@));
    found
}

/// The time since the Unix epoch that `SystemTime::duration_since(UNIX_EPOCH)` gives for `t`; none for a
/// time before the epoch.
pub uninterp spec fn unix_duration(t: SystemTime) -> Option<Duration>;

/// What `Duration::as_secs` gives: the whole seconds.
pub uninterp spec fn duration_secs(d: Duration) -> u64;

/// What `Duration::subsec_nanos` gives: the fraction of a second in nanoseconds.
pub uninterp spec fn duration_nanos(d: Duration) -> u32;

/// `SystemTime::duration_since(UNIX_EPOCH)`, with `Err` (a time before the epoch) taken as `None`. Claimed:
/// the result is a function of the time (named `unix_duration`); nothing is claimed of its value.
#[verifier::external_body]
fn since_unix_epoch(time: &SystemTime) -> (r: Option<Duration>)
    ensures
        r == unix_duration(*time),
{
    time.duration_since(UNIX_EPOCH).ok()
}

/// `Duration::as_secs`: the whole seconds, named `duration_secs`.
#[verifier::external_body]
fn whole_secs(d: &Duration) -> (r: u64)
    ensures
        r == duration_secs(*d),
{
    d.as_secs()
}

/// `Duration::subsec_nanos`: the fraction of a second, named `duration_nanos`, which its documentation
/// says is under one billion.
#[verifier::external_body]
fn subsec_nanos(d: &Duration) -> (r: u32)
    ensures
        r == duration_nanos(*d),
        r < 1_000_000_000,
{
    d.subsec_nanos()
}

/// A disk time as whole seconds and nanoseconds since the Unix epoch; `None` for a time before it.
pub fn epoch(time: SystemTime) -> (r: Option<(u64, u32)>)
    ensures
        r == match unix_duration(time) {
            Some(d) => Some((duration_secs(d), duration_nanos(d))),
            None => None,
        },
        r matches Some((_, nanos)) ==> nanos < 1_000_000_000,
{
    match since_unix_epoch(&time) {
        Some(since) => Some((whole_secs(&since), subsec_nanos(&since))),
        None => None,
    }
}

} // verus!
