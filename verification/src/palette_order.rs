//! The order of the command palette's rows: commands run before come first, most used first, then the rest
//! by name; among the matches of a query, those of used commands keep that order ahead of the others.

use vstd::prelude::*;
use crate::text::chars_of;

verus! {

/// `a` sorts before `b` as `str` comparison sorts them: char by char, and a proper prefix first.
pub open spec fn text_lt(a: Seq<char>, b: Seq<char>) -> bool
    decreases a.len(),
{
    if a.len() == 0 {
        b.len() > 0
    } else if b.len() == 0 {
        false
    } else if a[0] != b[0] {
        a[0] < b[0]
    } else {
        text_lt(a.drop_first(), b.drop_first())
    }
}

proof fn lemma_text_lt_irreflexive(a: Seq<char>)
    ensures
        !text_lt(a, a),
    decreases a.len(),
{
    if a.len() > 0 {
        lemma_text_lt_irreflexive(a.drop_first());
    }
}

proof fn lemma_text_lt_transitive(a: Seq<char>, b: Seq<char>, c: Seq<char>)
    requires
        text_lt(a, b),
        text_lt(b, c),
    ensures
        text_lt(a, c),
    decreases a.len(),
{
    if a.len() > 0 && b.len() > 0 && c.len() > 0 && a[0] == b[0] && b[0] == c[0] {
        lemma_text_lt_transitive(a.drop_first(), b.drop_first(), c.drop_first());
    }
}

proof fn lemma_text_lt_total(a: Seq<char>, b: Seq<char>)
    requires
        a != b,
    ensures
        text_lt(a, b) || text_lt(b, a),
    decreases a.len(),
{
    if a.len() > 0 && b.len() > 0 {
        if a[0] == b[0] {
            if a.drop_first() == b.drop_first() {
                assert(a =~= seq![a[0]] + a.drop_first());
                assert(b =~= seq![b[0]] + b.drop_first());
                assert(a == b);
            } else {
                lemma_text_lt_total(a.drop_first(), b.drop_first());
            }
        }
    } else if a.len() == 0 && b.len() == 0 {
        assert(a =~= b);
    }
}

/// `text_lt` is a strict total order.
pub proof fn lemma_text_order_facts()
    ensures
        forall|a: Seq<char>| !#[trigger] text_lt(a, a),
        forall|a: Seq<char>, b: Seq<char>, c: Seq<char>|
            #[trigger] text_lt(a, b) && #[trigger] text_lt(b, c) ==> text_lt(a, c),
        forall|a: Seq<char>, b: Seq<char>| a != b ==> #[trigger] text_lt(a, b) || text_lt(b, a),
{
    assert forall|a: Seq<char>| !#[trigger] text_lt(a, a) by {
        lemma_text_lt_irreflexive(a);
    }
    assert forall|a: Seq<char>, b: Seq<char>, c: Seq<char>|
        #[trigger] text_lt(a, b) && #[trigger] text_lt(b, c) implies text_lt(a, c) by {
        lemma_text_lt_transitive(a, b, c);
    }
    assert forall|a: Seq<char>, b: Seq<char>| a != b implies #[trigger] text_lt(a, b) || text_lt(b, a) by {
        lemma_text_lt_total(a, b);
    }
}

/// `before` orders the indices below `n` strictly and totally.
pub open spec fn strict_total_on(before: spec_fn(int, int) -> bool, n: int) -> bool {
    &&& forall|i: int| 0 <= i < n ==> !#[trigger] before(i, i)
    &&& forall|i: int, j: int, k: int|
        0 <= i < n && 0 <= j < n && 0 <= k < n && #[trigger] before(i, j) && #[trigger] before(j, k) ==> before(
            i,
            k,
        )
    &&& forall|i: int, j: int| 0 <= i < n && 0 <= j < n && i != j ==> #[trigger] before(i, j) || before(j, i)
}

/// `r` lists each index below `n` once, in the order `before`.
pub open spec fn sorted_permutation(r: Seq<usize>, n: int, before: spec_fn(int, int) -> bool) -> bool {
    &&& r.len() == n
    &&& forall|a: int| 0 <= a < n ==> #[trigger] r[a] < n
    &&& forall|i: usize| (i as int) < n ==> #[trigger] r.contains(i)
    &&& forall|a: int, b: int| 0 <= a < b < n ==> before(#[trigger] r[a] as int, #[trigger] r[b] as int)
}

/// The indices below `n`, sorted by the order that `lt` computes.
pub(crate) fn sort_indices<F: Fn(usize, usize) -> bool>(n: usize, lt: F, Ghost(before): Ghost<spec_fn(int, int) -> bool>) -> (r: Vec<usize>)
    requires
        strict_total_on(before, n as int),
        forall|i: usize, j: usize| i < n && j < n ==> #[trigger] lt.requires((i, j)),
        forall|i: usize, j: usize, b: bool|
            i < n && j < n && #[trigger] lt.ensures((i, j), b) ==> b == before(i as int, j as int),
    ensures
        sorted_permutation(r@, n as int, before),
{
    let mut res: Vec<usize> = Vec::new();
    let mut k: usize = 0;
    while k < n
        invariant
            k <= n,
            strict_total_on(before, n as int),
            forall|i: usize, j: usize| i < n && j < n ==> #[trigger] lt.requires((i, j)),
            forall|i: usize, j: usize, b: bool|
                i < n && j < n && #[trigger] lt.ensures((i, j), b) ==> b == before(i as int, j as int),
            sorted_permutation(res@, k as int, before),
        decreases n - k,
    {
        let mut p: usize = 0;
        while p < res.len() && !lt(k, res[p])
            invariant
                k < n,
                p <= res.len() == k,
                strict_total_on(before, n as int),
                forall|i: usize, j: usize| i < n && j < n ==> #[trigger] lt.requires((i, j)),
                forall|i: usize, j: usize, b: bool|
                    i < n && j < n && #[trigger] lt.ensures((i, j), b) ==> b == before(i as int, j as int),
                sorted_permutation(res@, k as int, before),
                forall|q: int| 0 <= q < p ==> before(#[trigger] res@[q] as int, k as int),
            decreases res.len() - p,
        {
            assert(res@[p as int] < k);
            assert(before(k as int, res@[p as int] as int) || before(res@[p as int] as int, k as int));
            p += 1;
        }
        let ghost old_res = res@;
        proof {
            if p < old_res.len() {
                assert(before(k as int, old_res[p as int] as int));
            }
        }
        res.insert(p, k);
        proof {
            let r = res@;
            assert(r == old_res.insert(p as int, k));
            assert forall|a: int| 0 <= a < k + 1 implies #[trigger] r[a] < k + 1 by {
                if a < p {
                    assert(r[a] == old_res[a]);
                } else if a > p {
                    assert(r[a] == old_res[a - 1]);
                }
            }
            assert forall|i: usize| (i as int) < k + 1 implies #[trigger] r.contains(i) by {
                if i == k {
                    assert(r[p as int] == k);
                } else {
                    assert(old_res.contains(i));
                    let a = choose|a: int| 0 <= a < old_res.len() && old_res[a] == i;
                    if a < p {
                        assert(r[a] == old_res[a]);
                    } else {
                        assert(r[a + 1] == old_res[a]);
                    }
                }
            }
            assert forall|a: int, b: int| 0 <= a < b < k + 1 implies before(
                #[trigger] r[a] as int,
                #[trigger] r[b] as int,
            ) by {
                if b < p {
                    assert(r[a] == old_res[a] && r[b] == old_res[b]);
                } else if b == p {
                    assert(r[a] == old_res[a]);
                } else if a < p {
                    assert(r[a] == old_res[a] && r[b] == old_res[b - 1]);
                    if (p as int) < b - 1 {
                        assert(before(old_res[p as int] as int, old_res[b - 1] as int));
                        assert(before(k as int, old_res[b - 1] as int));
                    }
                    assert(before(k as int, old_res[b - 1] as int));
                    assert(before(old_res[a] as int, k as int));
                } else if a == p {
                    assert(r[b] == old_res[b - 1]);
                    if (p as int) < b - 1 {
                        assert(before(old_res[p as int] as int, old_res[b - 1] as int));
                    }
                } else {
                    assert(r[a] == old_res[a - 1] && r[b] == old_res[b - 1]);
                }
            }
        }
        k += 1;
    }
    res
}

/// How much a command was used, for ordering: its run count, and below every count when it never ran.
pub open spec fn usage_rank(u: Option<u32>) -> int {
    match u {
        Some(n) => n as int,
        None => -1,
    }
}

/// Command `i` is listed before command `j`: it ran more often, or as often and its name sorts first (and
/// the earlier of two equal names first).
pub open spec fn command_before(names: Seq<Seq<char>>, usage: Seq<Option<u32>>, i: int, j: int) -> bool {
    usage_rank(usage[i]) > usage_rank(usage[j]) || (usage_rank(usage[i]) == usage_rank(usage[j]) && (
    text_lt(names[i], names[j]) || (names[i] == names[j] && i < j)))
}

pub open spec fn names_view(names: Seq<String>) -> Seq<Seq<char>> {
    names.map_values(|s: String| s@)
}

/// Whether `a` sorts before `b`.
pub fn text_less(a: &Vec<char>, b: &Vec<char>) -> (r: bool)
    ensures
        r == text_lt(a@, b@),
{
    let mut i: usize = 0;
    assert(a@.skip(0) == a@ && b@.skip(0) == b@);
    while i < a.len() && i < b.len() && a[i] == b[i]
        invariant
            i <= a.len(),
            i <= b.len(),
            text_lt(a@, b@) == text_lt(a@.skip(i as int), b@.skip(i as int)),
        decreases a.len() - i,
    {
        assert(a@.skip(i as int).drop_first() == a@.skip(i + 1));
        assert(b@.skip(i as int).drop_first() == b@.skip(i + 1));
        i += 1;
    }
    if i == a.len() {
        i < b.len()
    } else if i == b.len() {
        false
    } else {
        a[i] < b[i]
    }
}

proof fn lemma_command_order(names: Seq<Seq<char>>, usage: Seq<Option<u32>>, n: int)
    requires
        names.len() == n,
        usage.len() == n,
    ensures
        strict_total_on(|i: int, j: int| command_before(names, usage, i, j), n),
{
    let before = |i: int, j: int| command_before(names, usage, i, j);
    assert forall|i: int| 0 <= i < n implies !#[trigger] before(i, i) by {
        lemma_text_lt_irreflexive(names[i]);
    }
    assert forall|i: int, j: int, k: int|
        0 <= i < n && 0 <= j < n && 0 <= k < n && #[trigger] before(i, j) && #[trigger] before(j, k) implies before(
        i,
        k,
    ) by {
        if usage_rank(usage[i]) == usage_rank(usage[j]) && usage_rank(usage[j]) == usage_rank(usage[k]) {
            if text_lt(names[i], names[j]) && text_lt(names[j], names[k]) {
                lemma_text_lt_transitive(names[i], names[j], names[k]);
            }
        }
    }
    assert forall|i: int, j: int| 0 <= i < n && 0 <= j < n && i != j implies #[trigger] before(i, j) || before(
        j,
        i,
    ) by {
        if names[i] != names[j] {
            lemma_text_lt_total(names[i], names[j]);
        }
    }
}

/// The palette's command order, as indices into `names`, and how many of the commands have run before;
/// those come first.
pub fn order_commands(names: &Vec<String>, usage: &Vec<Option<u32>>) -> (r: (Vec<usize>, usize))
    requires
        names.len() == usage.len(),
    ensures
        sorted_permutation(
            r.0@,
            names.len() as int,
            |i: int, j: int| command_before(names_view(names@), usage@, i, j),
        ),
        r.1 <= names.len(),
        forall|a: int| 0 <= a < r.1 ==> usage@[#[trigger] r.0@[a] as int] is Some,
        forall|a: int| r.1 <= a < names.len() ==> usage@[#[trigger] r.0@[a] as int] is None,
{
    let n = names.len();
    let ghost nv = names_view(names@);
    let mut chars: Vec<Vec<char>> = Vec::new();
    let mut i: usize = 0;
    while i < n
        invariant
            i <= n == names.len(),
            nv == names_view(names@),
            chars.len() == i,
            forall|j: int| 0 <= j < i ==> #[trigger] chars@[j]@ == nv[j],
        decreases n - i,
    {
        chars.push(chars_of(names[i].as_str()));
        i += 1;
    }
    let ghost before = |i: int, j: int| command_before(nv, usage@, i, j);
    let lt = |i: usize, j: usize| -> (b: bool)
        requires
            i < n && j < n,
        ensures
            b == command_before(names_view(names@), usage@, i as int, j as int),
        {
            let ri: Option<u32> = usage[i];
            let rj: Option<u32> = usage[j];
            let higher = match (ri, rj) {
                (Some(a), Some(b)) => a > b,
                (Some(_), None) => true,
                _ => false,
            };
            let same = match (ri, rj) {
                (Some(a), Some(b)) => a == b,
                (None, None) => true,
                _ => false,
            };
            if higher {
                true
            } else if !same {
                false
            } else if text_less(&chars[i], &chars[j]) {
                true
            } else {
                let equal = !text_less(&chars[j], &chars[i]);
                proof {
                    if names_view(names@)[i as int] != names_view(names@)[j as int] {
                        lemma_text_lt_total(names_view(names@)[i as int], names_view(names@)[j as int]);
                    } else {
                        lemma_text_lt_irreflexive(names_view(names@)[i as int]);
                    }
                }
                equal && i < j
            }
        };
    proof {
        lemma_command_order(nv, usage@, n as int);
    }
    let order = sort_indices(n, lt, Ghost(before));
    let mut used: usize = 0;
    while used < n && usage[order[used]].is_some()
        invariant
            used <= n,
            usage.len() == n,
            order@.len() == n,
            forall|a: int| 0 <= a < n ==> #[trigger] order@[a] < n,
            forall|a: int| 0 <= a < used ==> usage@[#[trigger] order@[a] as int] is Some,
        decreases n - used,
    {
        used += 1;
    }
    proof {
        assert forall|a: int| used <= a < n implies usage@[#[trigger] order@[a] as int] is None by {
            if a > used && usage@[order@[a] as int] is Some {
                assert(before(order@[used as int] as int, order@[a] as int));
            }
        }
    }
    (order, used)
}

/// Where a match goes: matches of used commands by their place in the palette, the rest after them.
pub open spec fn match_key(candidate: usize, used_count: usize) -> int {
    if candidate < used_count {
        candidate as int
    } else {
        usize::MAX as int
    }
}

/// Match `i` is listed before match `j`: its key is smaller, or the same and it came first.
pub open spec fn match_before(candidates: Seq<usize>, used_count: usize, i: int, j: int) -> bool {
    match_key(candidates[i], used_count) < match_key(candidates[j], used_count) || (match_key(
        candidates[i],
        used_count,
    ) == match_key(candidates[j], used_count) && i < j)
}

/// The order to show a query's matches in, as indices into `candidates` (the command each match is for,
/// in match order): matches of used commands first in the palette's order, then the others as they came.
pub fn order_matches(candidates: &Vec<usize>, used_count: usize) -> (r: Vec<usize>)
    ensures
        sorted_permutation(
            r@,
            candidates.len() as int,
            |i: int, j: int| match_before(candidates@, used_count, i, j),
        ),
{
    let n = candidates.len();
    let ghost before = |i: int, j: int| match_before(candidates@, used_count, i, j);
    let lt = |i: usize, j: usize| -> (b: bool)
        requires
            i < n && j < n,
        ensures
            b == match_before(candidates@, used_count, i as int, j as int),
        {
            let ki: usize = if candidates[i] < used_count {
                candidates[i]
            } else {
                usize::MAX
            };
            let kj: usize = if candidates[j] < used_count {
                candidates[j]
            } else {
                usize::MAX
            };
            ki < kj || (ki == kj && i < j)
        };
    sort_indices(n, lt, Ghost(before))
}

} // verus!
