//! The symbol outline's list logic: each symbol's searchable path of names, the symbol around the caret that
//! an empty query selects, which matched letters count as the symbol's own, and the ancestors shown above
//! each match as context.

use vstd::prelude::*;
use std::ops::Range;
use crate::text::{chars_of, is_whitespace, is_ws, string_of};
use crate::palette_order::{sort_indices, sorted_permutation, strict_total_on};

verus! {

/// One outline entry: its nesting depth, its char range in the file and its text.
pub struct Symbol {
    pub depth: usize,
    pub range: Range<usize>,
    pub text: String,
}

/// A symbol's path builder: the path so far and where each open level's text ends in it.
pub struct PathState {
    pub path: Seq<char>,
    pub ends: Seq<nat>,
}

/// `p` cut to its first `n` chars.
pub open spec fn cut(p: Seq<char>, n: nat) -> Seq<char> {
    if n < p.len() {
        p.take(n as int)
    } else {
        p
    }
}

/// The path before a symbol's own text is added: levels at or below its depth closed, then a space when
/// anything is left.
pub open spec fn path_before(s: PathState, depth: nat) -> PathState {
    let closed = if depth < s.ends.len() {
        PathState {
            path: cut(s.path, if depth == 0 { 0 } else { s.ends[depth - 1] }),
            ends: s.ends.take(depth as int),
        }
    } else {
        s
    };
    PathState {
        path: if closed.path.len() > 0 { closed.path.push(' ') } else { closed.path },
        ends: closed.ends,
    }
}

/// The builder after a symbol of `depth` with `text`.
pub open spec fn path_after(s: PathState, depth: nat, text: Seq<char>) -> PathState {
    let b = path_before(s, depth);
    PathState { path: b.path + text, ends: b.ends.push((b.path + text).len()) }
}

pub open spec fn symbol_depths(symbols: Seq<Symbol>) -> Seq<nat> {
    symbols.map_values(|s: Symbol| s.depth as nat)
}

/// The builder after the first `n` symbols.
pub open spec fn paths_state(symbols: Seq<Symbol>, n: nat) -> PathState
    decreases n,
{
    if n == 0 {
        PathState { path: Seq::empty(), ends: Seq::empty() }
    } else {
        let k = (n - 1) as nat;
        path_after(paths_state(symbols, k), symbols[k as int].depth as nat, symbols[k as int].text@)
    }
}

/// Symbol `k`'s path: its ancestors' texts and its own, joined by spaces.
pub open spec fn symbol_path(symbols: Seq<Symbol>, k: nat) -> Seq<char> {
    paths_state(symbols, k + 1).path
}

/// Where symbol `k`'s own text starts in its path, in chars.
pub open spec fn leaf_offset(symbols: Seq<Symbol>, k: nat) -> nat {
    path_before(paths_state(symbols, k), symbols[k as int].depth as nat).path.len()
}

/// Each symbol's path and where its own text starts in it.
pub fn symbol_paths(symbols: &Vec<Symbol>) -> (r: (Vec<String>, Vec<usize>))
    ensures
        r.0.len() == symbols.len(),
        r.1.len() == symbols.len(),
        forall|k: int| 0 <= k < symbols.len() ==> #[trigger] r.0@[k]@ == symbol_path(symbols@, k as nat),
        forall|k: int| 0 <= k < symbols.len() ==> #[trigger] r.1@[k] == leaf_offset(symbols@, k as nat),
{
    let mut paths: Vec<String> = Vec::new();
    let mut leaves: Vec<usize> = Vec::new();
    let mut path: Vec<char> = Vec::new();
    let mut ends: Vec<usize> = Vec::new();
    let mut i: usize = 0;
    while i < symbols.len()
        invariant
            i <= symbols.len(),
            paths.len() == i,
            leaves.len() == i,
            path@ == paths_state(symbols@, i as nat).path,
            ends@.map_values(|e: usize| e as nat) == paths_state(symbols@, i as nat).ends,
            forall|k: int| 0 <= k < i ==> #[trigger] paths@[k]@ == symbol_path(symbols@, k as nat),
            forall|k: int| 0 <= k < i ==> #[trigger] leaves@[k] == leaf_offset(symbols@, k as nat),
        decreases symbols.len() - i,
    {
        let ghost s = paths_state(symbols@, i as nat);
        let depth = symbols[i].depth;
        if depth < ends.len() {
            let keep = if depth == 0 {
                0
            } else {
                ends[depth - 1]
            };
            ends.truncate(depth);
            if keep < path.len() {
                path.truncate(keep);
            }
        }
        assert(ends@.map_values(|e: usize| e as nat) =~= path_before(s, depth as nat).ends);
        if path.len() > 0 {
            path.push(' ');
        }
        assert(path@ == path_before(s, depth as nat).path);
        leaves.push(path.len());
        let own = chars_of(symbols[i].text.as_str());
        let mut j: usize = 0;
        let ghost base = path@;
        while j < own.len()
            invariant
                j <= own.len(),
                path@ == base + own@.take(j as int),
            decreases own.len() - j,
        {
            path.push(own[j]);
            assert(own@.take(j + 1) == own@.take(j as int).push(own@[j as int]));
            j += 1;
        }
        assert(own@.take(j as int) == own@);
        ends.push(path.len());
        paths.push(string_of(&path));
        assert(ends@.map_values(|e: usize| e as nat) =~= paths_state(symbols@, (i + 1) as nat).ends);
        i += 1;
    }
    (paths, leaves)
}

/// Symbol `i`'s range holds the caret.
pub open spec fn holds(symbols: Seq<Symbol>, i: int, cursor: usize) -> bool {
    symbols[i].range.start <= cursor < symbols[i].range.end
}

/// Symbol `i` holds the caret and beats every other symbol that does: it is deeper, or as deep and earlier.
pub open spec fn is_innermost(symbols: Seq<Symbol>, i: int, cursor: usize) -> bool {
    &&& 0 <= i < symbols.len()
    &&& holds(symbols, i, cursor)
    &&& forall|j: int|
        0 <= j < symbols.len() && j != i && #[trigger] holds(symbols, j, cursor) ==> symbols[j].depth
            < symbols[i].depth || (symbols[j].depth == symbols[i].depth && i < j)
}

/// The innermost symbol around the caret, which an empty query selects; the first row when none holds it.
pub fn innermost_at(symbols: &Vec<Symbol>, cursor: usize) -> (r: usize)
    ensures
        (exists|i: int| 0 <= i < symbols.len() && holds(symbols@, i, cursor)) ==> is_innermost(
            symbols@,
            r as int,
            cursor,
        ),
        !(exists|i: int| 0 <= i < symbols.len() && holds(symbols@, i, cursor)) ==> r == 0,
{
    let mut best: Option<usize> = None;
    let mut i: usize = 0;
    while i < symbols.len()
        invariant
            i <= symbols.len(),
            match best {
                Some(b) => b < i && holds(symbols@, b as int, cursor) && forall|j: int|
                    0 <= j < i && j != b && #[trigger] holds(symbols@, j, cursor) ==> symbols@[j].depth
                        < symbols@[b as int].depth || (symbols@[j].depth == symbols@[b as int].depth
                        && b < j),
                None => forall|j: int| 0 <= j < i ==> !#[trigger] holds(symbols@, j, cursor),
            },
        decreases symbols.len() - i,
    {
        let s = &symbols[i];
        if s.range.start <= cursor && cursor < s.range.end {
            match best {
                Some(b) => {
                    if s.depth > symbols[b].depth {
                        best = Some(i);
                    }
                },
                None => {
                    best = Some(i);
                },
            }
        }
        i += 1;
    }
    match best {
        Some(b) => b,
        None => 0,
    }
}

/// No char of the query is whitespace: it is one word.
pub open spec fn single_word(query: Seq<char>) -> bool {
    forall|i: int| 0 <= i < query.len() ==> !is_ws(#[trigger] query[i])
}

pub fn is_single_word(query: &str) -> (r: bool)
    ensures
        r == single_word(query@),
{
    let mut single = true;
    for c in it: query.chars()
        invariant
            it.seq() == query@,
            single == (forall|j: int| 0 <= j < it.index() ==> !is_ws(#[trigger] query@[j])),
    {
        if is_whitespace(c) {
            single = false;
        }
    }
    single
}

/// The matched positions in a symbol's own text, counted from its start.
pub open spec fn own_positions_of(positions: Seq<usize>, leaf: usize) -> Seq<usize>
    decreases positions.len(),
{
    if positions.len() == 0 {
        Seq::empty()
    } else {
        let rest = own_positions_of(positions.drop_last(), leaf);
        if positions.last() >= leaf {
            rest.push((positions.last() - leaf) as usize)
        } else {
            rest
        }
    }
}

/// Some position falls in the ancestors' part of the path.
pub open spec fn touches_ancestors(positions: Seq<usize>, leaf: usize) -> bool {
    exists|i: int| 0 <= i < positions.len() && #[trigger] positions[i] < leaf
}

/// Which of a match's positions are in the symbol's own text (shifted to count from it); `None` when the
/// query is one word and some of its letters matched in an ancestor's name, since one word must match
/// within the symbol itself.
pub fn own_positions(positions: &Vec<usize>, leaf: usize, one_word: bool) -> (r: Option<Vec<usize>>)
    ensures
        match r {
            Some(v) => !(one_word && touches_ancestors(positions@, leaf)) && v@ == own_positions_of(
                positions@,
                leaf,
            ),
            None => one_word && touches_ancestors(positions@, leaf),
        },
{
    let mut own: Vec<usize> = Vec::new();
    let mut dropped = false;
    let mut i: usize = 0;
    while i < positions.len()
        invariant
            i <= positions.len(),
            own@ == own_positions_of(positions@.take(i as int), leaf),
            dropped == touches_ancestors(positions@.take(i as int), leaf),
        decreases positions.len() - i,
    {
        let ghost prefix = positions@.take(i as int);
        assert(positions@.take(i + 1).drop_last() == prefix);
        let p = positions[i];
        if p >= leaf {
            own.push(p - leaf);
        } else {
            dropped = true;
            assert(positions@.take(i + 1)[i as int] < leaf);
        }
        proof {
            let next = positions@.take(i + 1);
            if touches_ancestors(next, leaf) && p >= leaf {
                let j = choose|j: int| 0 <= j < next.len() && #[trigger] next[j] < leaf;
                assert(prefix[j] == next[j]);
            }
            if touches_ancestors(prefix, leaf) {
                let j = choose|j: int| 0 <= j < prefix.len() && #[trigger] prefix[j] < leaf;
                assert(next[j] == prefix[j]);
            }
        }
        i += 1;
    }
    assert(positions@.take(i as int) == positions@);
    if one_word && dropped {
        None
    } else {
        Some(own)
    }
}

/// A symbol's depth; 0 past the end.
pub open spec fn depth_at(symbols: Seq<Symbol>, i: int) -> nat {
    if 0 <= i < symbols.len() {
        symbols[i].depth as nat
    } else {
        0
    }
}

/// The context rows for a match at depth `d` whose row comes at `hi`: scanning back from `hi - 1` to `lo`,
/// each symbol one level shallower than the last one taken, until depth 0; listed in file order.
pub open spec fn ancestors(symbols: Seq<Symbol>, lo: nat, hi: nat, d: nat) -> Seq<usize>
    decreases hi,
{
    if hi <= lo || d == 0 {
        Seq::empty()
    } else {
        let i = (hi - 1) as nat;
        if depth_at(symbols, i as int) == d - 1 {
            ancestors(symbols, lo, i, (d - 1) as nat).push(i as usize)
        } else {
            ancestors(symbols, lo, i, d)
        }
    }
}

pub open spec fn context_rows(a: Seq<usize>) -> Seq<(usize, Option<usize>)> {
    a.map_values(|i: usize| (i, None::<usize>))
}

/// The outline rows for `matches` (symbol indices, in order): before each match, its ancestors not listed
/// yet, as context rows (`None`); the match itself carries its place among the matches. Also where the next
/// unlisted symbol is.
pub open spec fn listed(symbols: Seq<Symbol>, matches: Seq<usize>) -> (Seq<(usize, Option<usize>)>, nat)
    decreases matches.len(),
{
    if matches.len() == 0 {
        (Seq::empty(), 0)
    } else {
        let (out, next) = listed(symbols, matches.drop_last());
        let k = (matches.len() - 1) as usize;
        let sym = matches.last();
        let a = ancestors(symbols, next, sym as nat, depth_at(symbols, sym as int));
        (out + context_rows(a) + seq![(sym, Some(k))], (sym + 1) as nat)
    }
}

/// The matches with their not-yet-listed ancestors inserted above them, so the tree shape stays readable.
pub fn with_ancestors(symbols: &Vec<Symbol>, matches: &Vec<usize>) -> (r: Vec<(usize, Option<usize>)>)
    requires
        forall|i: int| 0 <= i < matches.len() ==> #[trigger] matches@[i] < symbols.len(),
    ensures
        r@ == listed(symbols@, matches@).0,
{
    let mut out: Vec<(usize, Option<usize>)> = Vec::new();
    let mut next_unlisted: usize = 0;
    let mut k: usize = 0;
    while k < matches.len()
        invariant
            k <= matches.len(),
            forall|i: int| 0 <= i < matches.len() ==> #[trigger] matches@[i] < symbols.len(),
            (out@, next_unlisted as nat) == listed(symbols@, matches@.take(k as int)),
        decreases matches.len() - k,
    {
        assert(matches@.take(k + 1).drop_last() == matches@.take(k as int));
        let sym = matches[k];
        let insert_at = out.len();
        let ghost base = out@;
        let ghost d0 = depth_at(symbols@, sym as int);
        let mut depth = symbols[sym].depth;
        let mut index = sym;
        let ghost mut found: Seq<usize> = Seq::empty();
        while index > next_unlisted && depth > 0
            invariant
                insert_at == base.len(),
                out@ == base + context_rows(found),
                index <= sym < symbols.len(),
                ancestors(symbols@, next_unlisted as nat, sym as nat, d0) == ancestors(
                    symbols@,
                    next_unlisted as nat,
                    index as nat,
                    depth as nat,
                ) + found,
            decreases index,
        {
            index -= 1;
            if symbols[index].depth == depth - 1 {
                out.insert(insert_at, (index, None));
                proof {
                    assert(ancestors(symbols@, next_unlisted as nat, (index + 1) as nat, depth as nat)
                        == ancestors(symbols@, next_unlisted as nat, index as nat, (depth - 1) as nat).push(index));
                    assert(ancestors(symbols@, next_unlisted as nat, index as nat, (depth - 1) as nat).push(index) + found
                        =~= ancestors(symbols@, next_unlisted as nat, index as nat, (depth - 1) as nat) + (seq![index] + found));
                    found = seq![index] + found;
                    assert(out@ =~= base + context_rows(found));
                }
                depth -= 1;
            }
        }
        proof {
            assert(ancestors(symbols@, next_unlisted as nat, index as nat, depth as nat) =~= Seq::<usize>::empty());
            assert(ancestors(symbols@, next_unlisted as nat, sym as nat, d0) =~= found);
        }
        next_unlisted = sym + 1;
        out.push((sym, Some(k)));
        k += 1;
    }
    assert(matches@.take(k as int) == matches@);
    out
}

proof fn lemma_ancestors_chain(symbols: Seq<Symbol>, lo: nat, hi: nat, d: nat)
    requires
        hi <= usize::MAX,
    ensures
        ancestors(symbols, lo, hi, d).len() <= d,
        forall|t: int|
            0 <= t < ancestors(symbols, lo, hi, d).len() ==> lo <= #[trigger] ancestors(symbols, lo, hi, d)[t]
                < hi && depth_at(symbols, ancestors(symbols, lo, hi, d)[t] as int) + ancestors(
                symbols,
                lo,
                hi,
                d,
            ).len() == d + t,
        forall|t: int|
            0 <= t < ancestors(symbols, lo, hi, d).len() - 1 ==> #[trigger] ancestors(symbols, lo, hi, d)[t]
                < ancestors(symbols, lo, hi, d)[t + 1],
    decreases hi,
{
    if !(hi <= lo || d == 0) {
        let i = (hi - 1) as nat;
        if depth_at(symbols, i as int) == d - 1 {
            lemma_ancestors_chain(symbols, lo, i, (d - 1) as nat);
            let b = ancestors(symbols, lo, i, (d - 1) as nat);
            let a = b.push(i as usize);
            assert(ancestors(symbols, lo, hi, d) == a);
            assert forall|t: int| 0 <= t < a.len() implies lo <= #[trigger] a[t] < hi && depth_at(
                symbols,
                a[t] as int,
            ) + a.len() == d + t by {
                if t < b.len() {
                    assert(a[t] == b[t]);
                }
            }
            assert forall|t: int| 0 <= t < a.len() - 1 implies #[trigger] a[t] < a[t + 1] by {
                assert(a[t] == b[t]);
                if t + 1 < b.len() {
                    assert(a[t + 1] == b[t + 1]);
                }
            }
        } else {
            lemma_ancestors_chain(symbols, lo, i, d);
        }
    }
}

/// Row `r` is a context row and the row after it is one level deeper and later in the file.
pub open spec fn leads_to_next(rows: Seq<(usize, Option<usize>)>, symbols: Seq<Symbol>, r: int) -> bool {
    rows[r].1 is None ==> rows[r].0 < rows[r + 1].0 && depth_at(symbols, rows[r].0 as int) + 1 == depth_at(
        symbols,
        rows[r + 1].0 as int,
    )
}

/// Each context row sits right above its child: the next row is one level deeper and further down the
/// file, down to the match itself, and the last row is a match.
pub proof fn lemma_context_rows_lead_to_their_match(symbols: Seq<Symbol>, matches: Seq<usize>)
    ensures
        forall|r: int|
            0 <= r < listed(symbols, matches).0.len() - 1 ==> #[trigger] leads_to_next(
                listed(symbols, matches).0,
                symbols,
                r,
            ),
        listed(symbols, matches).0.len() > 0 ==> listed(symbols, matches).0.last().1 is Some,
    decreases matches.len(),
{
    if matches.len() > 0 {
        let (out, next) = listed(symbols, matches.drop_last());
        lemma_context_rows_lead_to_their_match(symbols, matches.drop_last());
        let k = (matches.len() - 1) as usize;
        let sym = matches.last();
        let d = depth_at(symbols, sym as int);
        let a = ancestors(symbols, next, sym as nat, d);
        lemma_ancestors_chain(symbols, next, sym as nat, d);
        let rows = out + context_rows(a) + seq![(sym, Some(k))];
        assert forall|r: int| 0 <= r < rows.len() - 1 implies #[trigger] leads_to_next(rows, symbols, r) by {
            if r < out.len() - 1 {
                assert(leads_to_next(out, symbols, r));
            } else if r == out.len() - 1 {
                assert(rows[r] == out.last());
            } else {
                let t = r - out.len();
                assert(rows[r] == context_rows(a)[t]);
                if t < a.len() - 1 {
                    assert(rows[r + 1] == context_rows(a)[t + 1]);
                    assert(a[t] < a[t + 1]);
                } else {
                    assert(rows[r + 1] == (sym, Some(k)));
                }
            }
        }
    }
}

/// At most this many matches are kept for the outline.
pub const MAX_OUTLINE_MATCHES: usize = 100;

/// Match `i` comes before match `j` when its symbol comes first, ties in the matcher's order.
pub open spec fn by_symbol(matches: Seq<(usize, Vec<usize>)>, i: int, j: int) -> bool {
    matches[i].0 < matches[j].0 || (matches[i].0 == matches[j].0 && i < j)
}

/// `order` lists the matcher's first `MAX_OUTLINE_MATCHES` matches by symbol, ties in the matcher's order.
pub open spec fn in_symbol_order(matches: Seq<(usize, Vec<usize>)>, order: Seq<usize>) -> bool {
    sorted_permutation(
        order,
        if matches.len() < MAX_OUTLINE_MATCHES {
            matches.len() as int
        } else {
            MAX_OUTLINE_MATCHES as int
        },
        |i: int, j: int| by_symbol(matches, i, j),
    )
}

/// The leaf offset of symbol `c`, none past the list.
pub open spec fn leaf_of(leaf_offsets: Seq<usize>, c: usize) -> usize {
    if c < leaf_offsets.len() {
        leaf_offsets[c as int]
    } else {
        0
    }
}

/// What the outline keeps of match `m`: its own positions, unless it names no symbol or a one-word query
/// matched in an ancestor.
pub open spec fn kept_positions(
    m: (usize, Vec<usize>),
    symbol_count: usize,
    leaf_offsets: Seq<usize>,
    one_word: bool,
) -> Option<Seq<usize>> {
    let leaf = leaf_of(leaf_offsets, m.0);
    if m.0 >= symbol_count || (one_word && touches_ancestors(m.1@, leaf)) {
        None
    } else {
        Some(own_positions_of(m.1@, leaf))
    }
}

/// The kept matches among the first `k` in `order`: each as its index in `matches` and its own positions.
pub open spec fn kept_upto(
    matches: Seq<(usize, Vec<usize>)>,
    order: Seq<usize>,
    symbol_count: usize,
    leaf_offsets: Seq<usize>,
    one_word: bool,
    k: nat,
) -> Seq<(usize, Seq<usize>)>
    decreases k,
{
    if k == 0 || k > order.len() {
        Seq::empty()
    } else {
        let rest = kept_upto(matches, order, symbol_count, leaf_offsets, one_word, (k - 1) as nat);
        let i = order[k - 1];
        match kept_positions(matches[i as int], symbol_count, leaf_offsets, one_word) {
            Some(p) => rest.push((i, p)),
            None => rest,
        }
    }
}

/// The outline's matches for a query, before ancestors join them: of the matcher's first
/// `MAX_OUTLINE_MATCHES` matches (`(symbol, matched positions in its path)`), in symbol order, those that
/// name a symbol and whose letters (for a one-word query) all fall in the symbol's own text, each with the
/// index of the match and its positions counted from the symbol's own text (`leaf_offsets`).
pub fn outline_kept(
    matches: &Vec<(usize, Vec<usize>)>,
    symbol_count: usize,
    leaf_offsets: &Vec<usize>,
    one_word: bool,
) -> (r: Vec<(usize, Vec<usize>)>)
    ensures
        exists|order: Seq<usize>|
            {
                &&& #[trigger] in_symbol_order(matches@, order)
                &&& r@.map_values(|e: (usize, Vec<usize>)| (e.0, e.1@)) == kept_upto(
                    matches@,
                    order,
                    symbol_count,
                    leaf_offsets@,
                    one_word,
                    order.len(),
                )
            },
{
    let n = if matches.len() < MAX_OUTLINE_MATCHES {
        matches.len()
    } else {
        MAX_OUTLINE_MATCHES
    };
    let ghost before = |i: int, j: int| by_symbol(matches@, i, j);
    let lt = |i: usize, j: usize| -> (b: bool)
        requires
            i < n && j < n,
        ensures
            b == by_symbol(matches@, i as int, j as int),
        { matches[i].0 < matches[j].0 || (matches[i].0 == matches[j].0 && i < j) };
    proof {
        assert(strict_total_on(before, n as int));
    }
    let order = sort_indices(n, lt, Ghost(before));
    let mut r: Vec<(usize, Vec<usize>)> = Vec::new();
    let mut k: usize = 0;
    while k < n
        invariant
            k <= n,
            n <= matches.len(),
            sorted_permutation(order@, n as int, before),
            r@.map_values(|e: (usize, Vec<usize>)| (e.0, e.1@)) == kept_upto(
                matches@,
                order@,
                symbol_count,
                leaf_offsets@,
                one_word,
                k as nat,
            ),
        decreases n - k,
    {
        let i = order[k];
        let m = &matches[i];
        let ghost prev = r@;
        if m.0 < symbol_count {
            let leaf = if m.0 < leaf_offsets.len() {
                leaf_offsets[m.0]
            } else {
                0
            };
            if let Some(p) = own_positions(&m.1, leaf, one_word) {
                r.push((i, p));
                assert(r@.map_values(|e: (usize, Vec<usize>)| (e.0, e.1@)) =~= prev.map_values(
                    |e: (usize, Vec<usize>)| (e.0, e.1@),
                ).push((i, p@)));
            }
        }
        k += 1;
    }
    assert(in_symbol_order(matches@, order@));
    r
}

} // verus!
