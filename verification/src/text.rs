//! Characters and strings as sequences: Unicode whitespace and case, decimal numbers, trimming, and moving
//! between `str`, `String` and `Vec<char>`.

use vstd::prelude::*;

verus! {

/// Rust's `char::is_whitespace`: the Unicode `White_Space` property.
pub open spec fn is_ws(c: char) -> bool {
    let n = c as u32;
    ||| 0x09 <= n <= 0x0d
    ||| n == 0x20
    ||| n == 0x85
    ||| n == 0xa0
    ||| n == 0x1680
    ||| 0x2000 <= n <= 0x200a
    ||| n == 0x2028
    ||| n == 0x2029
    ||| n == 0x202f
    ||| n == 0x205f
    ||| n == 0x3000
}

pub fn is_whitespace(c: char) -> (r: bool)
    ensures
        r == is_ws(c),
{
    let n = c as u32;
    (0x09 <= n && n <= 0x0d) || n == 0x20 || n == 0x85 || n == 0xa0 || n == 0x1680 || (0x2000 <= n
        && n <= 0x200a) || n == 0x2028 || n == 0x2029 || n == 0x202f || n == 0x205f || n == 0x3000
}

pub open spec fn is_ascii_upper(c: char) -> bool {
    'A' <= c <= 'Z'
}

pub open spec fn is_ascii_lower(c: char) -> bool {
    'a' <= c <= 'z'
}

pub open spec fn is_ascii_digit(c: char) -> bool {
    '0' <= c <= '9'
}

/// `char::to_ascii_lowercase`.
pub open spec fn ascii_lower(c: char) -> char {
    if is_ascii_upper(c) {
        ((c as u32) + 32) as char
    } else {
        c
    }
}

pub fn to_ascii_lower(c: char) -> (r: char)
    ensures
        r == ascii_lower(c),
{
    if 'A' <= c && c <= 'Z' {
        let n = c as u32 + 32;
        assert(0x61 <= n <= 0x7a);
        char_from_ascii(n)
    } else {
        c
    }
}

/// The char with an ASCII code point.
fn char_from_ascii(n: u32) -> (c: char)
    requires
        n < 0x80,
    ensures
        c == n as char,
        c as u32 == n,
{
    let b: u8 = n as u8;
    b as char
}

/// `char::is_ascii_punctuation`: the ASCII graphic chars that are neither letters nor digits.
pub open spec fn is_ascii_punct(c: char) -> bool {
    let n = c as u32;
    ||| 0x21 <= n <= 0x2f
    ||| 0x3a <= n <= 0x40
    ||| 0x5b <= n <= 0x60
    ||| 0x7b <= n <= 0x7e
}

pub fn is_ascii_punctuation(c: char) -> (r: bool)
    ensures
        r == is_ascii_punct(c),
{
    let n = c as u32;
    (0x21 <= n && n <= 0x2f) || (0x3a <= n && n <= 0x40) || (0x5b <= n && n <= 0x60) || (0x7b <= n
        && n <= 0x7e)
}

/// What `char::is_uppercase` answers (the Unicode `Uppercase` property).
pub uninterp spec fn unicode_upper(c: char) -> bool;

/// What `char::is_lowercase` answers (the Unicode `Lowercase` property).
pub uninterp spec fn unicode_lower(c: char) -> bool;

/// What `char::is_alphanumeric` answers (`Alphabetic` or `Numeric`).
pub uninterp spec fn unicode_alphanumeric(c: char) -> bool;

/// The chars `char::to_lowercase` yields.
pub uninterp spec fn unicode_to_lower(c: char) -> Seq<char>;

/// The chars `char::to_uppercase` yields.
pub uninterp spec fn unicode_to_upper(c: char) -> Seq<char>;

/// The string `str::to_lowercase` returns.
pub uninterp spec fn unicode_str_lower(s: Seq<char>) -> Seq<char>;

/// `char::is_uppercase`. Claimed: the result is the Unicode `Uppercase` property of `c`, which among ASCII
/// chars holds exactly of `A`..=`Z`.
#[verifier::external_body]
pub(crate) fn is_uppercase(c: char) -> (r: bool)
    ensures
        r == unicode_upper(c),
        (c as u32) < 0x80 ==> (r <==> is_ascii_upper(c)),
{
    c.is_uppercase()
}

/// `char::is_lowercase`. Claimed: the result is the Unicode `Lowercase` property of `c`, which among ASCII
/// chars holds exactly of `a`..=`z`.
#[verifier::external_body]
pub(crate) fn is_lowercase(c: char) -> (r: bool)
    ensures
        r == unicode_lower(c),
        (c as u32) < 0x80 ==> (r <==> is_ascii_lower(c)),
{
    c.is_lowercase()
}

/// `char::is_alphanumeric`. Claimed: the result is whether `c` is Unicode alphabetic or numeric, which among
/// ASCII chars holds exactly of letters and digits.
#[verifier::external_body]
pub(crate) fn is_alphanumeric(c: char) -> (r: bool)
    ensures
        r == unicode_alphanumeric(c),
        (c as u32) < 0x80 ==> (r <==> (is_ascii_upper(c) || is_ascii_lower(c) || is_ascii_digit(c))),
{
    c.is_alphanumeric()
}

/// `char::to_lowercase`, collected. Claimed: the chars it yields; for an ASCII char, its ASCII lowercase.
#[verifier::external_body]
pub(crate) fn to_lowercase(c: char) -> (r: Vec<char>)
    ensures
        r@ == unicode_to_lower(c),
        (c as u32) < 0x80 ==> r@ == seq![ascii_lower(c)],
{
    c.to_lowercase().collect()
}

/// `char::to_uppercase`, collected. Claimed: the chars it yields; for `a`..=`z`, the letter 32 below, and for
/// another ASCII char, that char.
#[verifier::external_body]
pub(crate) fn to_uppercase(c: char) -> (r: Vec<char>)
    ensures
        r@ == unicode_to_upper(c),
        is_ascii_lower(c) ==> r@ == seq![((c as u32) - 32) as char],
        (c as u32) < 0x80 && !is_ascii_lower(c) ==> r@ == seq![c],
{
    c.to_uppercase().collect()
}

/// Every char of `s` is ASCII.
pub open spec fn all_ascii(s: Seq<char>) -> bool {
    forall|i: int| 0 <= i < s.len() ==> (#[trigger] s[i] as u32) < 0x80
}

/// `str::to_lowercase`. Claimed: the string it returns; for an all-ASCII string, each ASCII capital made
/// lowercase and the rest kept (every ASCII char lowercases to one ASCII char, as `to_ascii_lowercase`).
#[verifier::external_body]
pub(crate) fn str_to_lowercase(s: &str) -> (r: String)
    ensures
        r@ == unicode_str_lower(s@),
        all_ascii(s@) ==> r@ == ascii_lowered(s@),
{
    s.to_lowercase()
}

/// `String::push`: `c` appended.
#[verifier::external_body]
pub(crate) fn push_char(s: &mut String, c: char)
    ensures
        final(s)@ == old(s)@.push(c),
{
    s.push(c);
}

/// The chars of a string slice, in order.
pub fn chars_of(s: &str) -> (v: Vec<char>)
    ensures
        v@ == s@,
{
    let mut v: Vec<char> = Vec::new();
    for c in it: s.chars()
        invariant
            v@ == it.seq().take(it.index() as int),
            it.seq() == s@,
    {
        v.push(c);
    }
    v
}

/// The chars `v[from..to]` as a string.
pub fn string_of_range(v: &Vec<char>, from: usize, to: usize) -> (s: String)
    requires
        from <= to <= v.len(),
    ensures
        s@ == v@.subrange(from as int, to as int),
{
    let mut s = String::new();
    let mut i = from;
    while i < to
        invariant
            from <= i <= to <= v.len(),
            s@ == v@.subrange(from as int, i as int),
        decreases to - i,
    {
        push_char(&mut s, v[i]);
        assert(v@.subrange(from as int, i + 1) == v@.subrange(from as int, i as int).push(v@[i as int]));
        i += 1;
    }
    s
}

/// A copy of `v[from..to]`.
pub fn sub_vec(v: &Vec<char>, from: usize, to: usize) -> (r: Vec<char>)
    requires
        from <= to <= v.len(),
    ensures
        r@ == v@.subrange(from as int, to as int),
{
    let mut r: Vec<char> = Vec::new();
    let mut i = from;
    while i < to
        invariant
            from <= i <= to <= v.len(),
            r@ == v@.subrange(from as int, i as int),
        decreases to - i,
    {
        r.push(v[i]);
        assert(v@.subrange(from as int, i + 1) == v@.subrange(from as int, i as int).push(v@[i as int]));
        i += 1;
    }
    r
}

/// The chars of `v` as a string.
pub fn string_of(v: &Vec<char>) -> (s: String)
    ensures
        s@ == v@,
{
    let s = string_of_range(v, 0, v.len());
    assert(v@.subrange(0, v@.len() as int) == v@);
    s
}

/// `s` ends with `suffix`.
pub open spec fn ends_with(s: Seq<char>, suffix: Seq<char>) -> bool {
    suffix.len() <= s.len() && s.subrange(s.len() - suffix.len(), s.len() as int) == suffix
}

/// `s` starts with `prefix`.
pub open spec fn starts_with(s: Seq<char>, prefix: Seq<char>) -> bool {
    prefix.len() <= s.len() && s.subrange(0, prefix.len() as int) == prefix
}

pub fn seq_ends_with(s: &Vec<char>, suffix: &Vec<char>) -> (r: bool)
    ensures
        r == ends_with(s@, suffix@),
{
    if suffix.len() > s.len() {
        return false;
    }
    let off = s.len() - suffix.len();
    let mut i: usize = 0;
    while i < suffix.len()
        invariant
            off + suffix.len() == s.len(),
            i <= suffix.len(),
            forall|j: int| 0 <= j < i ==> s@[off + j] == suffix@[j],
        decreases suffix.len() - i,
    {
        if s[off + i] != suffix[i] {
            assert(s@.subrange(off as int, s.len() as int)[i as int] != suffix@[i as int]);
            return false;
        }
        i += 1;
    }
    assert(s@.subrange(off as int, s.len() as int) =~= suffix@);
    true
}

pub fn seq_starts_with(s: &Vec<char>, prefix: &Vec<char>) -> (r: bool)
    ensures
        r == starts_with(s@, prefix@),
{
    if prefix.len() > s.len() {
        return false;
    }
    let mut i: usize = 0;
    while i < prefix.len()
        invariant
            prefix.len() <= s.len(),
            i <= prefix.len(),
            forall|j: int| 0 <= j < i ==> s@[j] == prefix@[j],
        decreases prefix.len() - i,
    {
        if s[i] != prefix[i] {
            assert(s@.subrange(0, prefix.len() as int)[i as int] != prefix@[i as int]);
            return false;
        }
        i += 1;
    }
    assert(s@.subrange(0, prefix.len() as int) =~= prefix@);
    true
}

/// Index of the first char of `s` that is not whitespace (its length when there is none).
pub open spec fn trim_start_index(s: Seq<char>) -> nat
    decreases s.len(),
{
    if s.len() == 0 || !is_ws(s[0]) {
        0
    } else {
        1 + trim_start_index(s.drop_first())
    }
}

/// Length of `s` without its trailing whitespace.
pub open spec fn trim_end_len(s: Seq<char>) -> nat
    decreases s.len(),
{
    if s.len() == 0 || !is_ws(s.last()) {
        s.len()
    } else {
        trim_end_len(s.drop_last())
    }
}

/// `str::trim_start`.
pub open spec fn trim_start(s: Seq<char>) -> Seq<char> {
    s.subrange(trim_start_index(s) as int, s.len() as int)
}

/// `str::trim_end`.
pub open spec fn trim_end(s: Seq<char>) -> Seq<char> {
    s.subrange(0, trim_end_len(s) as int)
}

/// `str::trim`.
pub open spec fn trim(s: Seq<char>) -> Seq<char> {
    trim_end(trim_start(s))
}

proof fn lemma_trim_start_index(s: Seq<char>)
    ensures
        trim_start_index(s) <= s.len(),
        forall|j: int| 0 <= j < trim_start_index(s) ==> is_ws(#[trigger] s[j]),
        trim_start_index(s) < s.len() ==> !is_ws(s[trim_start_index(s) as int]),
    decreases s.len(),
{
    if s.len() > 0 && is_ws(s[0]) {
        lemma_trim_start_index(s.drop_first());
        assert forall|j: int| 0 <= j < trim_start_index(s) implies is_ws(#[trigger] s[j]) by {
            if j > 0 {
                assert(s[j] == s.drop_first()[j - 1]);
            }
        }
    }
}

proof fn lemma_trim_end_len(s: Seq<char>)
    ensures
        trim_end_len(s) <= s.len(),
        forall|j: int| trim_end_len(s) <= j < s.len() ==> is_ws(#[trigger] s[j]),
        trim_end_len(s) > 0 ==> !is_ws(s[trim_end_len(s) - 1]),
    decreases s.len(),
{
    if s.len() > 0 && is_ws(s.last()) {
        lemma_trim_end_len(s.drop_last());
        assert forall|j: int| trim_end_len(s) <= j < s.len() implies is_ws(#[trigger] s[j]) by {
            if j < s.len() - 1 {
                assert(s[j] == s.drop_last()[j]);
            }
        }
    }
}

/// A trimmed text starts and ends with a char that is not whitespace.
pub proof fn lemma_trim_ends(s: Seq<char>)
    ensures
        trim(s).len() > 0 ==> !is_ws(trim(s)[0]) && !is_ws(trim(s).last()),
{
    lemma_trim_start_index(s);
    let t = trim_start(s);
    lemma_trim_end_len(t);
    if trim(s).len() > 0 {
        assert(trim(s)[0] == t[0]);
        assert(t[0] == s[trim_start_index(s) as int]);
        assert(trim(s).last() == t[trim_end_len(t) - 1]);
    }
}

/// A text that starts and ends with a char that is not whitespace is its own trim.
pub proof fn lemma_trim_clean(s: Seq<char>)
    requires
        s.len() == 0 || (!is_ws(s[0]) && !is_ws(s.last())),
    ensures
        trim(s) == s,
{
    assert(trim_start_index(s) == 0);
    assert(trim_start(s) =~= s);
    assert(trim_end_len(s) == s.len());
    assert(trim_end(s) =~= s);
}

/// A trimmed text is a run of the text.
pub proof fn lemma_trim_within(s: Seq<char>)
    ensures
        trim_start_index(s) + trim(s).len() <= s.len(),
        trim(s) == s.subrange(trim_start_index(s) as int, (trim_start_index(s) + trim(s).len()) as int),
{
    lemma_trim_start_index(s);
    let t = trim_start(s);
    lemma_trim_end_len(t);
    assert(trim(s) =~= s.subrange(trim_start_index(s) as int, (trim_start_index(s) + trim(s).len()) as int));
}

/// Trimming twice is trimming once.
pub proof fn lemma_trim_twice(s: Seq<char>)
    ensures
        trim(trim(s)) == trim(s),
{
    lemma_trim_ends(s);
    lemma_trim_clean(trim(s));
}

/// The index where `str::trim_start` would begin.
pub fn trim_start_at(s: &Vec<char>) -> (r: usize)
    ensures
        r == trim_start_index(s@),
        r <= s.len(),
{
    let mut i: usize = 0;
    while i < s.len() && is_whitespace(s[i])
        invariant
            i <= s.len(),
            forall|j: int| 0 <= j < i ==> is_ws(#[trigger] s@[j]),
        decreases s.len() - i,
    {
        i += 1;
    }
    proof {
        lemma_trim_start_index(s@);
        let t = trim_start_index(s@);
        if t < i {
            assert(is_ws(s@[t as int]));
        } else if i < t {
            assert(is_ws(s@[i as int]));
        }
    }
    i
}

/// The length `str::trim_end` would keep of `s[..to]`.
pub fn trim_end_at(s: &Vec<char>, to: usize) -> (r: usize)
    requires
        to <= s.len(),
    ensures
        r == trim_end_len(s@.subrange(0, to as int)),
        r <= to,
{
    let ghost t = s@.subrange(0, to as int);
    let mut i = to;
    while i > 0 && is_whitespace(s[i - 1])
        invariant
            i <= to <= s.len(),
            t == s@.subrange(0, to as int),
            forall|j: int| i <= j < to ==> is_ws(#[trigger] t[j]),
        decreases i,
    {
        i -= 1;
    }
    proof {
        lemma_trim_end_len(t);
        let e = trim_end_len(t);
        if e < i {
            assert(is_ws(t[i - 1]));
        } else if i < e {
            assert(is_ws(t[e - 1]));
        }
    }
    i
}

/// The bounds `[start, end)` of `str::trim` on `s`.
pub fn trim_bounds(s: &Vec<char>) -> (r: (usize, usize))
    ensures
        r.0 <= r.1 <= s.len(),
        s@.subrange(r.0 as int, r.1 as int) == trim(s@),
{
    let start = trim_start_at(s);
    let ghost rest = s@.subrange(start as int, s.len() as int);
    let mut end = s.len();
    while end > start && is_whitespace(s[end - 1])
        invariant
            start <= end <= s.len(),
            rest == s@.subrange(start as int, s.len() as int),
            forall|j: int| end - start <= j < rest.len() ==> is_ws(#[trigger] rest[j]),
        decreases end,
    {
        end -= 1;
    }
    proof {
        lemma_trim_end_len(rest);
        let e = trim_end_len(rest);
        let k = (end - start) as nat;
        if e < k {
            assert(is_ws(rest[k - 1]));
        } else if k < e {
            assert(is_ws(rest[e - 1]));
        }
        assert(s@.subrange(start as int, end as int) =~= rest.subrange(0, e as int));
    }
    (start, end)
}

/// The ASCII digit char for `d < 10`.
pub open spec fn digit_char(d: nat) -> char {
    ((d + 0x30) as u32) as char
}

/// `n` in decimal, as `format!("{n}")` writes it.
pub open spec fn decimal(n: nat) -> Seq<char>
    decreases n,
{
    if n < 10 {
        seq![digit_char(n)]
    } else {
        decimal(n / 10).push(digit_char(n % 10))
    }
}

/// `n` written in decimal.
pub fn decimal_string(n: u64) -> (s: String)
    ensures
        s@ == decimal(n as nat),
    decreases n,
{
    if n < 10 {
        let mut s = String::new();
        push_char(&mut s, char_from_ascii(n as u32 + 0x30));
        assert(s@ =~= decimal(n as nat));
        s
    } else {
        let mut s = decimal_string(n / 10);
        push_char(&mut s, char_from_ascii((n % 10) as u32 + 0x30));
        s
    }
}

/// The value of a run of ASCII digits.
pub open spec fn digits_value(s: Seq<char>) -> nat
    decreases s.len(),
{
    if s.len() == 0 {
        0
    } else {
        digits_value(s.drop_last()) * 10 + ((s.last() as u32) - 0x30) as nat
    }
}

pub open spec fn all_digits(s: Seq<char>) -> bool {
    forall|i: int| 0 <= i < s.len() ==> is_ascii_digit(#[trigger] s[i])
}

/// What `str::parse` gives for an unsigned integer type of maximum `max`: an optional `+`, then at least one
/// ASCII digit and nothing else, of a value that fits.
pub open spec fn parse_unsigned(s: Seq<char>, max: nat) -> Option<nat> {
    let body = if s.len() > 0 && s[0] == '+' {
        s.drop_first()
    } else {
        s
    };
    if body.len() > 0 && all_digits(body) && digits_value(body) <= max {
        Some(digits_value(body))
    } else {
        None
    }
}

/// What `str::parse::<i64>` gives: an optional sign, then at least one ASCII digit and nothing else, of a
/// value that fits.
pub open spec fn parse_i64(s: Seq<char>) -> Option<int> {
    let negative = s.len() > 0 && s[0] == '-';
    let body = if s.len() > 0 && (s[0] == '+' || s[0] == '-') {
        s.drop_first()
    } else {
        s
    };
    if body.len() > 0 && all_digits(body) {
        let v = digits_value(body) as int;
        if negative && v <= 0x8000_0000_0000_0000 {
            Some(-v)
        } else if !negative && v <= 0x7fff_ffff_ffff_ffff {
            Some(v)
        } else {
            None
        }
    } else {
        None
    }
}

proof fn lemma_digits_value_grows(s: Seq<char>, k: int)
    requires
        0 <= k <= s.len(),
        all_digits(s),
    ensures
        digits_value(s.subrange(0, k)) <= digits_value(s),
    decreases s.len() - k,
{
    if k < s.len() {
        lemma_digits_value_grows(s, k + 1);
        let p = s.subrange(0, k + 1);
        assert(p.drop_last() == s.subrange(0, k));
    } else {
        assert(s.subrange(0, k) == s);
    }
}

/// The value of the ASCII digits `s[from..to]` when it is at most `max`; `None` when a char is not a digit,
/// the run is empty, or the value exceeds `max`.
pub fn parse_digits(s: &Vec<char>, from: usize, to: usize, max: u64) -> (r: Option<u64>)
    requires
        from <= to <= s.len(),
    ensures
        ({
            let body = s@.subrange(from as int, to as int);
            r == (if body.len() > 0 && all_digits(body) && digits_value(body) <= max {
                Some(digits_value(body) as u64)
            } else {
                None
            })
        }),
{
    let ghost body = s@.subrange(from as int, to as int);
    if from == to {
        return None;
    }
    let mut i = from;
    while i < to
        invariant
            from <= i <= to <= s.len(),
            body == s@.subrange(from as int, to as int),
            forall|j: int| from <= j < i ==> is_ascii_digit(#[trigger] s@[j]),
        decreases to - i,
    {
        if !('0' <= s[i] && s[i] <= '9') {
            assert(!is_ascii_digit(body[i - from]));
            return None;
        }
        i += 1;
    }
    assert(all_digits(body)) by {
        assert forall|j: int| 0 <= j < body.len() implies is_ascii_digit(#[trigger] body[j]) by {
            assert(body[j] == s@[from + j]);
        }
    }
    let mut acc: u64 = 0;
    let mut i = from;
    while i < to
        invariant
            from <= i <= to <= s.len(),
            body == s@.subrange(from as int, to as int),
            all_digits(body),
            acc as nat == digits_value(body.subrange(0, i - from)),
            acc <= max,
        decreases to - i,
    {
        assert(body[i - from] == s@[i as int]);
        assert(is_ascii_digit(body[i - from]));
        let d = (s[i] as u32 - 0x30) as u64;
        let ghost p = body.subrange(0, i + 1 - from);
        assert(p.drop_last() == body.subrange(0, i - from));
        assert(p.last() == s@[i as int]);
        if d > max || acc > (max - d) / 10 {
            proof {
                assert(digits_value(p) == acc * 10 + d);
                assert(acc * 10 + d > max) by (nonlinear_arith)
                    requires
                        d > max || acc > (max - d) / 10,
                ;
                lemma_digits_value_grows(body, i + 1 - from);
            }
            return None;
        }
        proof {
            assert(acc * 10 + d <= max) by (nonlinear_arith)
                requires
                    acc <= (max - d) / 10,
                    d <= 9,
            ;
        }
        acc = acc * 10 + d;
        i += 1;
    }
    assert(body.subrange(0, to - from) == body);
    Some(acc)
}

} // verus!

verus! {

/// The `i64` that `str::parse::<i64>` gives for `s[from..to]`, if any.
pub fn parse_i64_range(s: &Vec<char>, from: usize, to: usize) -> (r: Option<i64>)
    requires
        from <= to <= s.len(),
    ensures
        r == (match parse_i64(s@.subrange(from as int, to as int)) {
            Some(v) => Some(v as i64),
            None => None,
        }),
{
    let ghost body = s@.subrange(from as int, to as int);
    let negative = from < to && s[from] == '-';
    let signed = from < to && (s[from] == '+' || s[from] == '-');
    let start = if signed {
        from + 1
    } else {
        from
    };
    assert(signed ==> body.drop_first() =~= s@.subrange(start as int, to as int));
    assert(!signed ==> body =~= s@.subrange(start as int, to as int));
    let max: u64 = if negative {
        0x8000_0000_0000_0000
    } else {
        0x7fff_ffff_ffff_ffff
    };
    match parse_digits(s, start, to, max) {
        Some(v) => {
            if negative {
                if v == 0x8000_0000_0000_0000 {
                    Some(i64::MIN)
                } else {
                    Some(-(v as i64))
                }
            } else {
                Some(v as i64)
            }
        },
        None => {
            proof {
                let b = s@.subrange(start as int, to as int);
                if b.len() > 0 && all_digits(b) {
                    assert(digits_value(b) > max);
                }
            }
            None
        },
    }
}

/// The value `str::parse::<usize>` gives for `s[from..to]`, if any.
pub fn parse_usize_range(s: &Vec<char>, from: usize, to: usize) -> (r: Option<usize>)
    requires
        from <= to <= s.len(),
    ensures
        r == (match parse_unsigned(s@.subrange(from as int, to as int), usize::MAX as nat) {
            Some(v) => Some(v as usize),
            None => None,
        }),
{
    let ghost body = s@.subrange(from as int, to as int);
    let start = if from < to && s[from] == '+' {
        from + 1
    } else {
        from
    };
    assert(body.len() > 0 && body[0] == '+' ==> body.drop_first() =~= s@.subrange(start as int, to as int));
    assert(!(body.len() > 0 && body[0] == '+') ==> body =~= s@.subrange(start as int, to as int));
    match parse_digits(s, start, to, usize::MAX as u64) {
        Some(v) => Some(v as usize),
        None => None,
    }
}

/// `n` written in decimal, appended to `s`.
pub fn push_decimal(s: &mut String, n: u64)
    ensures
        final(s)@ == old(s)@ + decimal(n as nat),
{
    let d = decimal_string(n);
    s.append(d.as_str());
}

/// `s` with ASCII capitals made lowercase, as `str::to_ascii_lowercase` does.
pub open spec fn ascii_lowered(s: Seq<char>) -> Seq<char> {
    s.map_values(|c: char| ascii_lower(c))
}

/// The chars of `s` with ASCII capitals made lowercase.
pub fn ascii_lowercase(s: &str) -> (r: Vec<char>)
    ensures
        r@ == ascii_lowered(s@),
{
    let mut r: Vec<char> = Vec::new();
    for c in it: s.chars()
        invariant
            it.seq() == s@,
            r@ == ascii_lowered(s@.take(it.index() as int)),
    {
        proof {
            assert(ascii_lowered(s@.take(it.index() + 1)) =~= ascii_lowered(s@.take(it.index() as int)).push(
                ascii_lower(c),
            ));
        }
        r.push(to_ascii_lower(c));
    }
    proof {
        assert(s@.take(s@.len() as int) == s@);
    }
    r
}

/// Whether the chars `v` spell `s`.
pub fn same_text(v: &Vec<char>, s: &str) -> (r: bool)
    ensures
        r == (v@ == s@),
{
    let w = chars_of(s);
    if v.len() != w.len() {
        return false;
    }
    let mut i: usize = 0;
    while i < v.len()
        invariant
            i <= v.len() == w.len(),
            w@ == s@,
            forall|j: int| 0 <= j < i ==> v@[j] == w@[j],
        decreases v.len() - i,
    {
        if v[i] != w[i] {
            return false;
        }
        i += 1;
    }
    assert(v@ =~= w@);
    true
}

/// `decimal(n)` is a run of ASCII digits worth `n`.
pub proof fn lemma_decimal_digits(n: nat)
    ensures
        decimal(n).len() > 0,
        all_digits(decimal(n)),
        digits_value(decimal(n)) == n,
    decreases n,
{
    if n < 10 {
        let c = digit_char(n);
        assert((c as u32) == n + 0x30);
        assert(decimal(n).drop_last() =~= Seq::<char>::empty());
        assert(decimal(n).last() == c);
        assert(digits_value(decimal(n)) == digits_value(decimal(n).drop_last()) * 10 + ((c as u32) - 0x30) as nat);
    } else {
        lemma_decimal_digits(n / 10);
        let c = digit_char(n % 10);
        assert((c as u32) == n % 10 + 0x30);
        assert(decimal(n).drop_last() == decimal(n / 10));
        assert(decimal(n).last() == c);
        assert(digits_value(decimal(n)) == digits_value(decimal(n / 10)) * 10 + ((c as u32) - 0x30) as nat);
        assert(n / 10 * 10 + n % 10 == n) by (nonlinear_arith);
        assert forall|i: int| 0 <= i < decimal(n).len() implies is_ascii_digit(#[trigger] decimal(n)[i]) by {
            if i < decimal(n / 10).len() {
                assert(decimal(n)[i] == decimal(n / 10)[i]);
            }
        }
    }
}

/// A run of ASCII digits trims to itself.
pub proof fn lemma_digits_trim(s: Seq<char>)
    requires
        s.len() > 0,
        all_digits(s),
    ensures
        trim(s) == s,
{
    assert(!is_ws(s[0]));
    assert(trim_start_index(s) == 0);
    assert(trim_start(s) =~= s);
    assert(!is_ws(s.last()));
    assert(trim_end(s) =~= s);
}

} // verus!
