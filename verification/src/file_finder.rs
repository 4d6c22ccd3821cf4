//! The file finder's logic: candidate paths with their character bags, queries that carry a line and
//! column (`path:row:column`), and how recent files and search hits make up the list.

use vstd::prelude::*;
use crate::fuzzy::{after_last_slash, bag_view_of, CharBag, CharBagView};
use crate::text::{
    all_digits, chars_of, decimal, is_ascii_digit, is_ws, lemma_decimal_digits, lemma_trim_clean, lemma_trim_ends,
    lemma_trim_twice, parse_digits, parse_unsigned, string_of_range, trim, trim_bounds,
};

verus! {

/// At most this many entries are listed.
pub const MAX_MATCHES: usize = 100;

/// At most this many recent files are kept.
pub const MAX_RECENT: usize = 20;

/// The project's file paths, each with the bag of its chars.
pub struct Candidates {
    paths: Vec<String>,
    bags: Vec<CharBag>,
}

impl Candidates {
    /// Every path's bag matches it.
    pub closed spec fn wf(&self) -> bool {
        &&& self.paths.len() == self.bags.len()
        &&& forall|i: int| 0 <= i < self.paths.len() ==> (#[trigger] self.bags@[i])@ == bag_view_of(
            self.paths@[i]@,
            self.paths@[i]@.len(),
        )
    }

    /// The paths.
    pub closed spec fn path_views(&self) -> Seq<Seq<char>> {
        self.paths.deep_view()
    }

    /// The paths.
    pub fn paths(&self) -> (r: &Vec<String>)
        ensures
            r.deep_view() == self.path_views(),
    {
        &self.paths
    }

    /// The bags, one per path.
    pub closed spec fn bag_views(&self) -> Seq<CharBagView> {
        self.bags@.map_values(|b: CharBag| b@)
    }

    /// A well-formed set holds, for each path in order, that path's bag.
    pub proof fn lemma_bags_match_paths(&self)
        requires
            self.wf(),
        ensures
            self.bag_views() == self.path_views().map_values(|p: Seq<char>| bag_view_of(p, p.len())),
    {
        assert(self.bag_views() =~= self.path_views().map_values(|p: Seq<char>| bag_view_of(p, p.len())));
    }

    pub fn new(paths: Vec<String>) -> (r: Candidates)
        ensures
            r.path_views() == paths.deep_view(),
            r.bag_views() == paths.deep_view().map_values(|p: Seq<char>| bag_view_of(p, p.len())),
            r.wf(),
    {
        let mut bags: Vec<CharBag> = Vec::new();
        let mut i: usize = 0;
        while i < paths.len()
            invariant
                i <= paths.len(),
                bags.len() == i,
                forall|k: int| 0 <= k < i ==> (#[trigger] bags@[k])@ == bag_view_of(
                    paths@[k]@,
                    paths@[k]@.len(),
                ),
            decreases paths.len() - i,
        {
            bags.push(CharBag::of_str(paths[i].as_str()));
            i += 1;
        }
        let r = Candidates { paths, bags };
        proof {
            r.lemma_bags_match_paths();
        }
        r
    }

    /// The bags, one per path.
    pub fn bags(&self) -> (r: &Vec<CharBag>)
        ensures
            r@.map_values(|b: CharBag| b@) == self.bag_views(),
    {
        &self.bags
    }
}

impl Default for Candidates {
    fn default() -> (r: Candidates)
        ensures
            r.path_views().len() == 0,
            r.wf(),
    {
        Candidates::new(Vec::new())
    }
}

/// A file to open, with the 1-based line and column the query asked for.
#[derive(Clone, Debug, PartialEq, Eq)]
pub struct Target {
    pub path: String,
    pub row: Option<u32>,
    pub column: Option<u32>,
}

pub struct TargetView {
    pub path: Seq<char>,
    pub row: Option<u32>,
    pub column: Option<u32>,
}

impl View for Target {
    type V = TargetView;

    open spec fn view(&self) -> TargetView {
        TargetView { path: self.path@, row: self.row, column: self.column }
    }
}

/// Length of `s` without its trailing colons.
pub open spec fn trim_colons_len(s: Seq<char>) -> nat
    decreases s.len(),
{
    if s.len() > 0 && s.last() == ':' {
        trim_colons_len(s.drop_last())
    } else {
        s.len()
    }
}

/// The index of the last `:` in `s[..n]`.
pub open spec fn last_colon_before(s: Seq<char>, n: nat) -> Option<nat>
    decreases n,
{
    if n == 0 || n > s.len() {
        None
    } else if s[n - 1] == ':' {
        Some((n - 1) as nat)
    } else {
        last_colon_before(s, (n - 1) as nat)
    }
}

/// A positive line or column number: what `str::parse::<u32>` accepts, other than zero.
pub open spec fn line_number(s: Seq<char>) -> Option<u32> {
    match parse_unsigned(s, u32::MAX as nat) {
        Some(v) => if v > 0 {
            Some(v as u32)
        } else {
            None
        },
        None => None,
    }
}

/// `s` without a leading `./`.
pub open spec fn strip_dot_slash(s: Seq<char>) -> Seq<char> {
    if s.len() >= 2 && s[0] == '.' && s[1] == '/' {
        s.subrange(2, s.len() as int)
    } else {
        s
    }
}

/// Where a trimmed, colon-stripped query's path ends, and its row and column: `path:row:column` when both
/// numbers are positive, `path:row` when the last part is, and otherwise the whole text as the path.
pub open spec fn split_target(t: Seq<char>) -> (nat, Option<u32>, Option<u32>) {
    match last_colon_before(t, t.len()) {
        Some(p2) => {
            let last = t.subrange(p2 + 1int, t.len() as int);
            match last_colon_before(t, p2) {
                Some(p1) if line_number(last) is Some && line_number(t.subrange(p1 + 1int, p2 as int))
                    is Some => (p1, line_number(t.subrange(p1 + 1int, p2 as int)), line_number(last)),
                _ => if line_number(last) is Some {
                    (p2, line_number(last), None)
                } else {
                    (t.len(), None, None)
                },
            }
        },
        None => (t.len(), None, None),
    }
}

/// What a query asks for: trimmed and without trailing colons, split as `split_target` says; a leading `./`
/// is dropped from the path.
pub open spec fn spec_parse_query(query: Seq<char>) -> TargetView {
    let t0 = trim(query);
    let t = t0.subrange(0, trim_colons_len(t0) as int);
    let (e, row, column) = split_target(t);
    TargetView { path: strip_dot_slash(t.subrange(0, e as int)), row, column }
}

proof fn lemma_trim_colons_len(s: Seq<char>)
    ensures
        trim_colons_len(s) <= s.len(),
        forall|j: int| trim_colons_len(s) <= j < s.len() ==> #[trigger] s[j] == ':',
        trim_colons_len(s) > 0 ==> s[trim_colons_len(s) - 1] != ':',
    decreases s.len(),
{
    if s.len() > 0 && s.last() == ':' {
        lemma_trim_colons_len(s.drop_last());
        assert forall|j: int| trim_colons_len(s) <= j < s.len() implies #[trigger] s[j] == ':' by {
            if j < s.len() - 1 {
                assert(s[j] == s.drop_last()[j]);
            }
        }
    }
}

proof fn lemma_last_colon(s: Seq<char>, n: nat)
    requires
        n <= s.len(),
    ensures
        last_colon_before(s, n) matches Some(p) ==> p < n && s[p as int] == ':' && forall|j: int|
            p < j < n ==> #[trigger] s[j] != ':',
        last_colon_before(s, n) is None ==> forall|j: int| 0 <= j < n ==> #[trigger] s[j] != ':',
    decreases n,
{
    if n > 0 && s[n - 1] != ':' {
        lemma_last_colon(s, (n - 1) as nat);
    }
}

fn find_last_colon(s: &Vec<char>, n: usize) -> (r: Option<usize>)
    requires
        n <= s.len(),
    ensures
        r == (match last_colon_before(s@, n as nat) {
            Some(p) => Some(p as usize),
            None => None,
        }),
        r matches Some(p) ==> p < n && last_colon_before(s@, n as nat) == Some(p as nat),
        r is None ==> last_colon_before(s@, n as nat) is None,
{
    proof {
        lemma_last_colon(s@, n as nat);
    }
    let mut i = n;
    while i > 0 && s[i - 1] != ':'
        invariant
            i <= n <= s.len(),
            last_colon_before(s@, i as nat) == last_colon_before(s@, n as nat),
        decreases i,
    {
        i -= 1;
    }
    if i == 0 {
        None
    } else {
        Some(i - 1)
    }
}

fn number_in(s: &Vec<char>, from: usize, to: usize) -> (r: Option<u32>)
    requires
        from <= to <= s.len(),
    ensures
        r == line_number(s@.subrange(from as int, to as int)),
{
    let ghost body = s@.subrange(from as int, to as int);
    let start = if from < to && s[from] == '+' {
        from + 1
    } else {
        from
    };
    assert(body.len() > 0 && body[0] == '+' ==> body.drop_first() =~= s@.subrange(start as int, to as int));
    assert(!(body.len() > 0 && body[0] == '+') ==> body =~= s@.subrange(start as int, to as int));
    match parse_digits(s, start, to, 0xffff_ffff) {
        Some(v) => if v > 0 {
            Some(v as u32)
        } else {
            None
        },
        None => None,
    }
}

fn split_target_exec(t: &Vec<char>) -> (r: (usize, Option<u32>, Option<u32>))
    ensures
        (r.0 as nat, r.1, r.2) == split_target(t@),
        r.0 <= t.len(),
{
    match find_last_colon(t, t.len()) {
        Some(p2) => {
            assert(last_colon_before(t@, t@.len()) == Some(p2 as nat));
            let last = number_in(t, p2 + 1, t.len());
            assert(last == line_number(t@.subrange(p2 + 1int, t@.len() as int)));
            let p1 = find_last_colon(t, p2);
            let middle = match p1 {
                Some(p1) => number_in(t, p1 + 1, p2),
                None => None,
            };
            if p1.is_some() && middle.is_some() && last.is_some() {
                let p1 = p1.unwrap();
                assert(last_colon_before(t@, p2 as nat) == Some(p1 as nat));
                assert(middle == line_number(t@.subrange(p1 + 1int, p2 as int)));
                return (p1, middle, last);
            }
            proof {
                match last_colon_before(t@, p2 as nat) {
                    Some(q1) => {
                        assert(p1 == Some(q1 as usize));
                        assert(middle == line_number(t@.subrange(q1 + 1int, p2 as int)));
                    },
                    None => {},
                }
            }
            if last.is_some() {
                (p2, last, None)
            } else {
                (t.len(), None, None)
            }
        },
        None => (t.len(), None, None),
    }
}

/// Trimming a query first changes nothing of what it asks for.
pub proof fn lemma_parse_query_trimmed(query: Seq<char>)
    ensures
        spec_parse_query(trim(query)) == spec_parse_query(query),
{
    lemma_trim_twice(query);
}

/// A positive number written in decimal reads back as a line number.
proof fn lemma_line_number_of_decimal(n: u32)
    requires
        n > 0,
    ensures
        line_number(decimal(n as nat)) == Some(n),
        decimal(n as nat).len() > 0,
        forall|i: int| 0 <= i < decimal(n as nat).len() ==> #[trigger] decimal(n as nat)[i] != ':' && !is_ws(
            decimal(n as nat)[i],
        ),
{
    lemma_decimal_digits(n as nat);
    let d = decimal(n as nat);
    assert(d[0] != '+');
    assert forall|i: int| 0 <= i < d.len() implies #[trigger] d[i] != ':' && !is_ws(d[i]) by {
        assert(is_ascii_digit(d[i]));
    }
}

/// The last colon before `n` is at `k` when `s[k]` is one and none follows it before `n`.
proof fn lemma_last_colon_at(s: Seq<char>, k: nat, n: nat)
    requires
        k < n <= s.len(),
        s[k as int] == ':',
        forall|j: int| k < j < n ==> #[trigger] s[j] != ':',
    ensures
        last_colon_before(s, n) == Some(k),
    decreases n,
{
    if n - 1 > k {
        lemma_last_colon_at(s, k, (n - 1) as nat);
    }
}

/// No colon before `n`.
proof fn lemma_no_colon(s: Seq<char>, n: nat)
    requires
        n <= s.len(),
        forall|j: int| 0 <= j < n ==> #[trigger] s[j] != ':',
    ensures
        last_colon_before(s, n) is None,
    decreases n,
{
    if n > 0 {
        lemma_no_colon(s, (n - 1) as nat);
    }
}

/// A path as a query gives it: without colons, already trimmed, and not starting with `./`.
pub open spec fn plain_path(p: Seq<char>) -> bool {
    &&& forall|j: int| 0 <= j < p.len() ==> #[trigger] p[j] != ':'
    &&& trim(p) == p
    &&& !(p.len() >= 2 && p[0] == '.' && p[1] == '/')
}

/// `path:row:column`, `path:row` and `path` written out give the path, row and column back.
pub proof fn lemma_parse_query_round_trip(p: Seq<char>, row: u32, column: u32)
    requires
        plain_path(p),
        row > 0,
        column > 0,
    ensures
        spec_parse_query(p + seq![':'] + decimal(row as nat) + seq![':'] + decimal(column as nat)) == (TargetView {
            path: p,
            row: Some(row),
            column: Some(column),
        }),
        spec_parse_query(p + seq![':'] + decimal(row as nat)) == (TargetView {
            path: p,
            row: Some(row),
            column: None,
        }),
        spec_parse_query(p) == (TargetView { path: p, row: None, column: None }),
{
    let d1 = decimal(row as nat);
    let d2 = decimal(column as nat);
    lemma_line_number_of_decimal(row);
    lemma_line_number_of_decimal(column);
    lemma_trim_ends(p);
    let n = p.len() as int;
    // path:row:column
    let s = p + seq![':'] + d1 + seq![':'] + d2;
    assert(s[0] != ' ' && !is_ws(s[0])) by {
        if n > 0 {
            assert(s[0] == p[0]);
        }
    }
    assert(s.last() == d2.last());
    lemma_trim_clean(s);
    assert(trim_colons_len(s) == s.len());
    assert(s.subrange(0, s.len() as int) =~= s);
    let p2 = n + 1 + d1.len() as int;
    assert(s[p2] == ':');
    assert forall|j: int| p2 < j < s.len() implies #[trigger] s[j] != ':' by {
        assert(s[j] == d2[j - p2 - 1]);
    }
    lemma_last_colon_at(s, p2 as nat, s.len());
    assert(s[n as int] == ':');
    assert forall|j: int| n < j < p2 implies #[trigger] s[j] != ':' by {
        assert(s[j] == d1[j - n - 1]);
    }
    lemma_last_colon_at(s, n as nat, p2 as nat);
    assert(s.subrange(p2 + 1, s.len() as int) =~= d2);
    assert(s.subrange(n + 1, p2 as int) =~= d1);
    assert(s.subrange(0, n as int) =~= p);
    // path:row
    let s1 = p + seq![':'] + d1;
    assert(!is_ws(s1[0])) by {
        if n > 0 {
            assert(s1[0] == p[0]);
        }
    }
    assert(s1.last() == d1.last());
    lemma_trim_clean(s1);
    assert(trim_colons_len(s1) == s1.len());
    assert(s1.subrange(0, s1.len() as int) =~= s1);
    assert(s1[n as int] == ':');
    assert forall|j: int| n < j < s1.len() implies #[trigger] s1[j] != ':' by {
        assert(s1[j] == d1[j - n - 1]);
    }
    lemma_last_colon_at(s1, n as nat, s1.len());
    assert forall|j: int| 0 <= j < n implies #[trigger] s1[j] != ':' by {
        assert(s1[j] == p[j]);
    }
    lemma_no_colon(s1, n as nat);
    assert(s1.subrange(n + 1, s1.len() as int) =~= d1);
    assert(s1.subrange(0, n as int) =~= p);
    // path
    if n > 0 {
        assert(p.last() != ':');
    }
    assert(trim_colons_len(p) == n);
    assert(p.subrange(0, n as int) =~= p);
    lemma_no_colon(p, n as nat);
}

/// Splits `path:row:column` (either number optional); the path part is what gets matched.
pub fn parse_query(query: &str) -> (r: Target)
    ensures
        r@ == spec_parse_query(query@),
{
    let chars = chars_of(query);
    let (start, end0) = trim_bounds(&chars);
    let t0 = crate::text::sub_vec(&chars, start, end0);
    let mut end = t0.len();
    assert(t0@.subrange(0, end as int) =~= t0@);
    while end > 0 && t0[end - 1] == ':'
        invariant
            end <= t0.len(),
            trim_colons_len(t0@.subrange(0, end as int)) == trim_colons_len(t0@),
        decreases end,
    {
        assert(t0@.subrange(0, end as int).drop_last() == t0@.subrange(0, end - 1));
        end -= 1;
    }
    proof {
        let u = t0@.subrange(0, end as int);
        if end > 0 {
            assert(u.last() == t0@[end - 1]);
        }
        assert(trim_colons_len(u) == u.len());
    }
    let t = crate::text::sub_vec(&t0, 0, end);
    let (path_end, row, column) = split_target_exec(&t);
    let stripped: usize = if path_end >= 2 && t[0] == '.' && t[1] == '/' {
        2
    } else {
        0
    };
    assert(path_end >= 2 && t@[0] == '.' && t@[1] == '/' ==> strip_dot_slash(t@.subrange(0, path_end as int))
        =~= t@.subrange(2, path_end as int));
    assert(!(path_end >= 2 && t@[0] == '.' && t@[1] == '/') ==> strip_dot_slash(t@.subrange(0, path_end as int))
        =~= t@.subrange(0, path_end as int));
    let path = string_of_range(&t, stripped, path_end);
    Target { path, row, column }
}

/// A listed file: its path, the positions of the matched query chars in it, and whether it was opened
/// recently.
#[derive(Clone, Debug, PartialEq)]
pub struct Entry {
    pub path: String,
    pub positions: Vec<usize>,
    pub recent: bool,
}

#[verifier::ext_equal]
pub struct EntryView {
    pub path: Seq<char>,
    pub positions: Seq<usize>,
    pub recent: bool,
}

impl View for Entry {
    type V = EntryView;

    open spec fn view(&self) -> EntryView {
        EntryView { path: self.path@, positions: self.positions@, recent: self.recent }
    }
}

/// `paths` without the ones equal to `p`, in order.
pub open spec fn paths_without(paths: Seq<Seq<char>>, p: Seq<char>) -> Seq<Seq<char>>
    decreases paths.len(),
{
    if paths.len() == 0 {
        paths
    } else if paths.last() == p {
        paths_without(paths.drop_last(), p)
    } else {
        paths_without(paths.drop_last(), p).push(paths.last())
    }
}

/// The recent files in list order: the open file first, then the others newest first.
pub open spec fn spec_ordered_recent(recent: Seq<Seq<char>>, active: Option<Seq<char>>) -> Seq<Seq<char>> {
    match active {
        Some(a) => seq![a] + paths_without(recent, a),
        None => recent,
    }
}

/// Whether a path is other than `a`.
pub open spec fn not_path(a: Seq<char>) -> spec_fn(Seq<char>) -> bool {
    |q: Seq<char>| q != a
}

/// What a filter keeps comes from the sequence filtered.
proof fn lemma_filter_from(s: Seq<Seq<char>>, pred: spec_fn(Seq<char>) -> bool)
    ensures
        forall|j: int| 0 <= j < s.filter(pred).len() ==> s.contains(#[trigger] s.filter(pred)[j]),
    decreases s.len(),
{
    reveal(Seq::filter);
    if s.len() > 0 {
        lemma_filter_from(s.drop_last(), pred);
        let sub = s.drop_last().filter(pred);
        assert forall|j: int| 0 <= j < s.filter(pred).len() implies s.contains(#[trigger] s.filter(pred)[j]) by {
            if j < sub.len() {
                assert(s.filter(pred)[j] == sub[j]);
                let k = choose|k: int| 0 <= k < s.drop_last().len() && s.drop_last()[k] == sub[j];
                assert(s[k] == sub[j]);
            } else {
                assert(s.filter(pred)[j] == s.last());
                assert(s[s.len() - 1] == s.last());
            }
        }
    }
}

/// Leaving out one path keeps every other, in order.
proof fn lemma_paths_without_is_filter(paths: Seq<Seq<char>>, p: Seq<char>)
    ensures
        paths_without(paths, p) == paths.filter(not_path(p)),
    decreases paths.len(),
{
    reveal(Seq::filter);
    if paths.len() > 0 {
        lemma_paths_without_is_filter(paths.drop_last(), p);
    }
}

/// The list holds the open file first, then every recent path other than it, in their order (and only
/// those); with no open file, the recent paths as they are.
pub proof fn lemma_ordered_recent_keeps_every_other_path(recent: Seq<Seq<char>>, active: Option<Seq<char>>)
    ensures
        match active {
            Some(a) => {
                let r = spec_ordered_recent(recent, active);
                &&& r == seq![a] + recent.filter(not_path(a))
                &&& r[0] == a
                &&& forall|i: int| 0 <= i < recent.len() && recent[i] != a ==> r.contains(#[trigger] recent[i])
                &&& forall|j: int| 1 <= j < r.len() ==> recent.contains(#[trigger] r[j]) && r[j] != a
            },
            None => spec_ordered_recent(recent, active) == recent,
        },
{
    broadcast use vstd::seq_lib::group_filter_ensures;

    if let Some(a) = active {
        lemma_paths_without_is_filter(recent, a);
        let r = spec_ordered_recent(recent, active);
        let f = recent.filter(not_path(a));
        assert forall|i: int| 0 <= i < recent.len() && recent[i] != a implies r.contains(#[trigger] recent[i]) by {
            assert(f.contains(recent[i]));
            let k = choose|k: int| 0 <= k < f.len() && f[k] == recent[i];
            assert(r[k + 1] == f[k]);
        }
        lemma_filter_from(recent, not_path(a));
        assert forall|j: int| 1 <= j < r.len() implies recent.contains(#[trigger] r[j]) && r[j] != a by {
            assert(r[j] == f[j - 1]);
            assert(not_path(a)(f[j - 1]));
        }
    }
}

pub fn ordered_recent(recent: &Vec<String>, active: &Option<String>) -> (r: Vec<String>)
    ensures
        r.deep_view() == spec_ordered_recent(
            recent.deep_view(),
            match active {
                Some(a) => Some(a@),
                None => None,
            },
        ),
        match active {
            Some(a) => r.deep_view() == seq![a@] + recent.deep_view().filter(not_path(a@)),
            None => r.deep_view() == recent.deep_view(),
        },
{
    let mut ordered: Vec<String> = Vec::new();
    match active {
        Some(a) => {
            ordered.push(a.clone());
            let ghost head = ordered.deep_view();
            assert(head =~= seq![a@]);
            let mut i: usize = 0;
            while i < recent.len()
                invariant
                    i <= recent.len(),
                    ordered.deep_view() == seq![a@] + paths_without(recent.deep_view().take(i as int), a@),
                decreases recent.len() - i,
            {
                assert(recent.deep_view().take(i + 1).drop_last() == recent.deep_view().take(i as int));
                assert(recent.deep_view().take(i + 1).last() == recent[i as int]@);
                let ghost before = ordered.deep_view();
                if !(recent[i] == *a) {
                    ordered.push(recent[i].clone());
                    assert(ordered.deep_view() =~= before.push(recent[i as int]@));
                }
                i += 1;
            }
            assert(recent.deep_view().take(recent.len() as int) == recent.deep_view());
            proof {
                lemma_paths_without_is_filter(recent.deep_view(), a@);
            }
        },
        None => {
            let mut i: usize = 0;
            while i < recent.len()
                invariant
                    i <= recent.len(),
                    ordered.deep_view() == recent.deep_view().take(i as int),
                decreases recent.len() - i,
            {
                let ghost before = ordered.deep_view();
                ordered.push(recent[i].clone());
                assert(ordered.deep_view() =~= before.push(recent[i as int]@));
                assert(recent.deep_view().take(i + 1) =~= recent.deep_view().take(i as int).push(recent[i as int]@));
                assert(ordered.deep_view() =~= recent.deep_view().take(i + 1));
                i += 1;
            }
            assert(recent.deep_view().take(recent.len() as int) == recent.deep_view());
        },
    }
    ordered
}

/// With an empty query, the recent files, each marked recent with nothing highlighted.
pub open spec fn spec_recent_entries(ordered: Seq<Seq<char>>) -> Seq<EntryView> {
    Seq::new(ordered.len(), |i: int| EntryView { path: ordered[i], positions: seq![], recent: true })
}

pub fn recent_entries(ordered: &Vec<String>) -> (r: Vec<Entry>)
    ensures
        r@.map_values(|e: Entry| e@) == spec_recent_entries(ordered.deep_view()),
{
    let mut out: Vec<Entry> = Vec::new();
    let mut i: usize = 0;
    while i < ordered.len()
        invariant
            i <= ordered.len(),
            out@.map_values(|e: Entry| e@) == spec_recent_entries(ordered.deep_view().take(i as int)),
        decreases ordered.len() - i,
    {
        let ghost before = out@.map_values(|e: Entry| e@);
        let positions: Vec<usize> = Vec::new();
        assert(positions@ =~= Seq::<usize>::empty());
        let e = Entry { path: ordered[i].clone(), positions, recent: true };
        assert(e@ == EntryView { path: ordered.deep_view()[i as int], positions: seq![], recent: true });
        out.push(e);
        assert(out@.map_values(|e: Entry| e@) =~= before.push(e@));
        assert(out@.map_values(|e: Entry| e@) =~= spec_recent_entries(ordered.deep_view().take(i + 1)));
        i += 1;
    }
    assert(ordered.deep_view().take(ordered.len() as int) == ordered.deep_view());
    out
}

/// Some matched position falls in the file name, past the path's last `/`.
pub open spec fn spec_lands_in_name(path: Seq<char>, positions: Seq<usize>) -> bool {
    exists|i: int| 0 <= i < positions.len() && positions[i] >= after_last_slash(path, path.len())
}

/// Whether a match reaches into the file name rather than only its folders.
pub fn lands_in_name(path: &str, positions: &Vec<usize>) -> (r: bool)
    ensures
        r == spec_lands_in_name(path@, positions@),
{
    let chars = chars_of(path);
    let mut start = chars.len();
    while start > 0 && chars[start - 1] != '/'
        invariant
            chars@ == path@,
            start <= chars.len(),
            after_last_slash(path@, start as nat) == after_last_slash(path@, path@.len()),
        decreases start,
    {
        start -= 1;
    }
    let mut i: usize = 0;
    while i < positions.len()
        invariant
            i <= positions.len(),
            start == after_last_slash(path@, path@.len()),
            forall|k: int| 0 <= k < i ==> positions@[k] < start,
        decreases positions.len() - i,
    {
        if positions[i] >= start {
            return true;
        }
        i += 1;
    }
    false
}

/// Whether some entry lists `path`.
pub open spec fn lists(entries: Seq<EntryView>, path: Seq<char>) -> bool {
    exists|i: int| 0 <= i < entries.len() && entries[i].path == path
}

/// Recent hits whose match lands in the file name, in order, marked recent.
pub open spec fn kept_recent(found: Seq<(Seq<char>, Seq<usize>)>, n: nat) -> Seq<EntryView>
    decreases n,
{
    if n == 0 || n > found.len() {
        seq![]
    } else {
        let rest = kept_recent(found, (n - 1) as nat);
        let (path, positions) = found[n - 1];
        if spec_lands_in_name(path, positions) {
            rest.push(EntryView { path, positions, recent: true })
        } else {
            rest
        }
    }
}

/// The project hits appended after `entries`, each unless its path is listed already.
pub open spec fn with_project_hits(entries: Seq<EntryView>, found: Seq<(Seq<char>, Seq<usize>)>, n: nat) -> Seq<EntryView>
    decreases n,
{
    if n == 0 || n > found.len() {
        entries
    } else {
        let rest = with_project_hits(entries, found, (n - 1) as nat);
        let (path, positions) = found[n - 1];
        if lists(rest, path) {
            rest
        } else {
            rest.push(EntryView { path, positions, recent: false })
        }
    }
}

/// The list for a query: recent hits that land in a file name, then project hits not listed yet, at most
/// `MAX_MATCHES` of them.
pub open spec fn spec_merge_entries(
    recent_found: Seq<(Seq<char>, Seq<usize>)>,
    found: Seq<(Seq<char>, Seq<usize>)>,
) -> Seq<EntryView> {
    let all = with_project_hits(kept_recent(recent_found, recent_found.len()), found, found.len());
    if all.len() > MAX_MATCHES {
        all.subrange(0, MAX_MATCHES as int)
    } else {
        all
    }
}

fn entries_list(entries: &Vec<Entry>, path: &String) -> (r: bool)
    ensures
        r == lists(entries@.map_values(|e: Entry| e@), path@),
{
    let ghost v = entries@.map_values(|e: Entry| e@);
    let mut i: usize = 0;
    while i < entries.len()
        invariant
            i <= entries.len(),
            v == entries@.map_values(|e: Entry| e@),
            forall|k: int| 0 <= k < i ==> v[k].path != path@,
        decreases entries.len() - i,
    {
        if entries[i].path == *path {
            assert(v[i as int].path == path@);
            return true;
        }
        i += 1;
    }
    false
}

pub fn merge_entries(recent_found: Vec<(String, Vec<usize>)>, found: Vec<(String, Vec<usize>)>) -> (r: Vec<Entry>)
    ensures
        r@.map_values(|e: Entry| e@) == spec_merge_entries(recent_found.deep_view(), found.deep_view()),
{
    let ghost rf = recent_found.deep_view();
    let ghost pf = found.deep_view();
    let mut entries: Vec<Entry> = Vec::new();
    let mut i: usize = 0;
    assert(entries@.map_values(|e: Entry| e@) =~= kept_recent(rf, 0));
    while i < recent_found.len()
        invariant
            i <= recent_found.len(),
            rf == recent_found.deep_view(),
            entries@.map_values(|e: Entry| e@) == kept_recent(rf, i as nat),
        decreases recent_found.len() - i,
    {
        let (path, positions) = (&recent_found[i].0, &recent_found[i].1);
        assert(rf[i as int] == (path@, positions.deep_view()));
        assert(positions.deep_view() =~= positions@);
        let ghost before = entries@.map_values(|e: Entry| e@);
        if lands_in_name(path.as_str(), positions) {
            let e = Entry { path: path.clone(), positions: positions.clone(), recent: true };
            entries.push(e);
            assert(entries@.map_values(|e: Entry| e@) =~= before.push(e@));
        }
        i += 1;
    }
    let ghost base = entries@.map_values(|e: Entry| e@);
    let mut j: usize = 0;
    while j < found.len()
        invariant
            j <= found.len(),
            pf == found.deep_view(),
            base == kept_recent(rf, rf.len()),
            entries@.map_values(|e: Entry| e@) == with_project_hits(base, pf, j as nat),
        decreases found.len() - j,
    {
        let (path, positions) = (&found[j].0, &found[j].1);
        assert(pf[j as int] == (path@, positions.deep_view()));
        assert(positions.deep_view() =~= positions@);
        let ghost before = entries@.map_values(|e: Entry| e@);
        if !entries_list(&entries, path) {
            let e = Entry { path: path.clone(), positions: positions.clone(), recent: false };
            entries.push(e);
            assert(entries@.map_values(|e: Entry| e@) =~= before.push(e@));
        }
        j += 1;
    }
    if entries.len() > MAX_MATCHES {
        let ghost before = entries@.map_values(|e: Entry| e@);
        entries.truncate(MAX_MATCHES);
        assert(entries@.map_values(|e: Entry| e@) =~= before.subrange(0, MAX_MATCHES as int));
    }
    entries
}

/// The row a fresh list starts on: the second when a search would otherwise start on the file already open.
pub open spec fn spec_initial_selection(query_blank: bool, entries: Seq<EntryView>, active: Option<Seq<char>>) -> usize {
    if !query_blank && entries.len() > 1 && active == Some(entries[0].path) {
        1
    } else {
        0
    }
}

pub fn initial_selection(query_blank: bool, entries: &Vec<Entry>, active: &Option<String>) -> (r: usize)
    ensures
        r == spec_initial_selection(
            query_blank,
            entries@.map_values(|e: Entry| e@),
            match active {
                Some(a) => Some(a@),
                None => None,
            },
        ),
{
    if query_blank || entries.len() <= 1 {
        return 0;
    }
    match active {
        Some(a) => if entries[0].path == *a {
            1
        } else {
            0
        },
        None => 0,
    }
}

/// What picking the file at `path` opens: that file, at the line and column the query names.
pub fn confirm_target(path: &String, query: &str) -> (r: Target)
    ensures
        r@ == (TargetView { path: path@, ..spec_parse_query(query@) }),
{
    let target = parse_query(query);
    Target { path: path.clone(), row: target.row, column: target.column }
}

} // verus!
