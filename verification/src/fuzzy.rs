//! Fuzzy matching support shared by the pickers: character bags that rule out paths before matching, the
//! matcher's per-name result with case mismatches counted, and how far apart two paths are.

use nucleo_matcher::pattern::{AtomKind, CaseMatching, Normalization, Pattern};
use nucleo_matcher::{Config, Matcher, Utf32Str};
use vstd::prelude::*;
use crate::text::{ascii_lower, is_ascii_digit, is_ascii_lower, to_lowercase, unicode_to_lower};

verus! {

/// The low bits of the 26 two-bit letter counters.
pub const LETTER_LOW_BITS: u64 = 0x5555555555555u64;

/// Bits of a bag: two per letter `a`..=`z` from bit 0 (`00` none, `01` one, `11` two or more), one per digit
/// from bit 52, and bit 62 for `-`.
pub open spec fn bag_bits_wf(b: u64) -> bool {
    ((b >> 1u64) & !b & LETTER_LOW_BITS) == 0u64 && (b >> 63u64) == 0u64
}

pub open spec fn bit(b: u64, k: nat) -> bool {
    (b >> (k as u64)) & 1u64 == 1u64
}

/// How many of letter `i` a bag holds, up to two.
pub open spec fn letter_count(b: u64, i: nat) -> nat {
    if !bit(b, 2 * i) {
        0
    } else if !bit(b, 2 * i + 1) {
        1
    } else {
        2
    }
}

/// A bag as values: per letter `a`..=`z` how many it holds (up to two), per digit whether it holds one, and
/// whether it holds a `-`.
#[verifier::ext_equal]
pub struct CharBagView {
    pub letters: Seq<nat>,
    pub digits: Seq<bool>,
    pub dash: bool,
}

pub open spec fn bag_view(b: u64) -> CharBagView {
    CharBagView {
        letters: Seq::new(26, |i: int| letter_count(b, i as nat)),
        digits: Seq::new(10, |d: int| bit(b, (52 + d) as nat)),
        dash: bit(b, 62),
    }
}

/// The first char of `c` lower-cased (`c` itself when lower-casing yields nothing).
pub open spec fn lower_first(c: char) -> char {
    if unicode_to_lower(c).len() > 0 {
        unicode_to_lower(c)[0]
    } else {
        c
    }
}

/// A bag with `c` added: letters count case-insensitively up to two, digits and `-` are present or not, and
/// anything else is not kept.
pub open spec fn view_insert(v: CharBagView, c: char) -> CharBagView {
    let l = lower_first(c);
    if is_ascii_lower(l) {
        let i = (l as u32 - 0x61) as int;
        CharBagView {
            letters: v.letters.update(i, if v.letters[i] < 2 {
                v.letters[i] + 1
            } else {
                2
            }),
            digits: v.digits,
            dash: v.dash,
        }
    } else if is_ascii_digit(l) {
        CharBagView { letters: v.letters, digits: v.digits.update((l as u32 - 0x30) as int, true), dash: v.dash }
    } else if l == '-' {
        CharBagView { letters: v.letters, digits: v.digits, dash: true }
    } else {
        v
    }
}

/// The empty bag.
pub open spec fn empty_bag_view() -> CharBagView {
    CharBagView { letters: Seq::new(26, |i: int| 0nat), digits: Seq::new(10, |d: int| false), dash: false }
}

/// The bag of `s[..n]`.
pub open spec fn bag_view_of(s: Seq<char>, n: nat) -> CharBagView
    decreases n,
{
    if n == 0 || n > s.len() {
        empty_bag_view()
    } else {
        view_insert(bag_view_of(s, (n - 1) as nat), s[n - 1])
    }
}

/// `a` holds at least what `b` holds.
pub open spec fn covers(a: CharBagView, b: CharBagView) -> bool {
    &&& forall|i: int| 0 <= i < 26 ==> #[trigger] a.letters[i] >= b.letters[i]
    &&& forall|d: int| 0 <= d < 10 ==> #[trigger] b.digits[d] ==> a.digits[d]
    &&& b.dash ==> a.dash
}

/// The bits after adding the letter whose counter starts at bit `s`.
pub open spec fn letter_insert_bits(b: u64, s: u64) -> u64 {
    b | ((((b >> s) << 1u64) | 1u64) & 3u64) << s
}

proof fn lemma_letter_insert_bits(b: u64, s: u64, k: u64)
    by (bit_vector)
    requires
        s <= 50u64,
        s % 2u64 == 0u64,
        k < 64u64,
        ((b >> 1u64) & !b & 0x5555555555555u64) == 0u64 && (b >> 63u64) == 0u64,
    ensures
        ((letter_insert_bits(b, s) >> 1u64) & !letter_insert_bits(b, s) & 0x5555555555555u64) == 0u64
            && (letter_insert_bits(b, s) >> 63u64) == 0u64,
        k != s && k != s + 1u64 ==> ((letter_insert_bits(b, s) >> k) & 1u64 == 1u64) == ((b >> k) & 1u64
            == 1u64),
        (letter_insert_bits(b, s) >> s) & 1u64 == 1u64,
        ((letter_insert_bits(b, s) >> (s + 1u64)) & 1u64 == 1u64) == ((b >> s) & 1u64 == 1u64 || (b >> (s
            + 1u64)) & 1u64 == 1u64),
{
}

proof fn lemma_set_bit(b: u64, s: u64, k: u64)
    by (bit_vector)
    requires
        52u64 <= s <= 62u64,
        k < 64u64,
        ((b >> 1u64) & !b & 0x5555555555555u64) == 0u64 && (b >> 63u64) == 0u64,
    ensures
        (((b | (1u64 << s)) >> 1u64) & !(b | (1u64 << s)) & 0x5555555555555u64) == 0u64 && ((b | (1u64
            << s)) >> 63u64) == 0u64,
        k != s ==> (((b | (1u64 << s)) >> k) & 1u64 == 1u64) == ((b >> k) & 1u64 == 1u64),
        ((b | (1u64 << s)) >> s) & 1u64 == 1u64,
{
}

proof fn lemma_wf_high_needs_low(b: u64, s: u64)
    by (bit_vector)
    requires
        s <= 50u64,
        s % 2u64 == 0u64,
        ((b >> 1u64) & !b & 0x5555555555555u64) == 0u64,
    ensures
        (b >> (s + 1u64)) & 1u64 == 1u64 ==> (b >> s) & 1u64 == 1u64,
{
}

proof fn lemma_subset_bits(a: u64, b: u64, k: u64)
    by (bit_vector)
    requires
        k < 64u64,
        a & b == b,
    ensures
        (b >> k) & 1u64 == 1u64 ==> (a >> k) & 1u64 == 1u64,
{
}

proof fn lemma_bits_subset(a: u64, b: u64)
    by (bit_vector)
    requires
            (b >> 0u64) & 1u64 == 1u64 ==> (a >> 0u64) & 1u64 == 1u64,
            (b >> 1u64) & 1u64 == 1u64 ==> (a >> 1u64) & 1u64 == 1u64,
            (b >> 2u64) & 1u64 == 1u64 ==> (a >> 2u64) & 1u64 == 1u64,
            (b >> 3u64) & 1u64 == 1u64 ==> (a >> 3u64) & 1u64 == 1u64,
            (b >> 4u64) & 1u64 == 1u64 ==> (a >> 4u64) & 1u64 == 1u64,
            (b >> 5u64) & 1u64 == 1u64 ==> (a >> 5u64) & 1u64 == 1u64,
            (b >> 6u64) & 1u64 == 1u64 ==> (a >> 6u64) & 1u64 == 1u64,
            (b >> 7u64) & 1u64 == 1u64 ==> (a >> 7u64) & 1u64 == 1u64,
            (b >> 8u64) & 1u64 == 1u64 ==> (a >> 8u64) & 1u64 == 1u64,
            (b >> 9u64) & 1u64 == 1u64 ==> (a >> 9u64) & 1u64 == 1u64,
            (b >> 10u64) & 1u64 == 1u64 ==> (a >> 10u64) & 1u64 == 1u64,
            (b >> 11u64) & 1u64 == 1u64 ==> (a >> 11u64) & 1u64 == 1u64,
            (b >> 12u64) & 1u64 == 1u64 ==> (a >> 12u64) & 1u64 == 1u64,
            (b >> 13u64) & 1u64 == 1u64 ==> (a >> 13u64) & 1u64 == 1u64,
            (b >> 14u64) & 1u64 == 1u64 ==> (a >> 14u64) & 1u64 == 1u64,
            (b >> 15u64) & 1u64 == 1u64 ==> (a >> 15u64) & 1u64 == 1u64,
            (b >> 16u64) & 1u64 == 1u64 ==> (a >> 16u64) & 1u64 == 1u64,
            (b >> 17u64) & 1u64 == 1u64 ==> (a >> 17u64) & 1u64 == 1u64,
            (b >> 18u64) & 1u64 == 1u64 ==> (a >> 18u64) & 1u64 == 1u64,
            (b >> 19u64) & 1u64 == 1u64 ==> (a >> 19u64) & 1u64 == 1u64,
            (b >> 20u64) & 1u64 == 1u64 ==> (a >> 20u64) & 1u64 == 1u64,
            (b >> 21u64) & 1u64 == 1u64 ==> (a >> 21u64) & 1u64 == 1u64,
            (b >> 22u64) & 1u64 == 1u64 ==> (a >> 22u64) & 1u64 == 1u64,
            (b >> 23u64) & 1u64 == 1u64 ==> (a >> 23u64) & 1u64 == 1u64,
            (b >> 24u64) & 1u64 == 1u64 ==> (a >> 24u64) & 1u64 == 1u64,
            (b >> 25u64) & 1u64 == 1u64 ==> (a >> 25u64) & 1u64 == 1u64,
            (b >> 26u64) & 1u64 == 1u64 ==> (a >> 26u64) & 1u64 == 1u64,
            (b >> 27u64) & 1u64 == 1u64 ==> (a >> 27u64) & 1u64 == 1u64,
            (b >> 28u64) & 1u64 == 1u64 ==> (a >> 28u64) & 1u64 == 1u64,
            (b >> 29u64) & 1u64 == 1u64 ==> (a >> 29u64) & 1u64 == 1u64,
            (b >> 30u64) & 1u64 == 1u64 ==> (a >> 30u64) & 1u64 == 1u64,
            (b >> 31u64) & 1u64 == 1u64 ==> (a >> 31u64) & 1u64 == 1u64,
            (b >> 32u64) & 1u64 == 1u64 ==> (a >> 32u64) & 1u64 == 1u64,
            (b >> 33u64) & 1u64 == 1u64 ==> (a >> 33u64) & 1u64 == 1u64,
            (b >> 34u64) & 1u64 == 1u64 ==> (a >> 34u64) & 1u64 == 1u64,
            (b >> 35u64) & 1u64 == 1u64 ==> (a >> 35u64) & 1u64 == 1u64,
            (b >> 36u64) & 1u64 == 1u64 ==> (a >> 36u64) & 1u64 == 1u64,
            (b >> 37u64) & 1u64 == 1u64 ==> (a >> 37u64) & 1u64 == 1u64,
            (b >> 38u64) & 1u64 == 1u64 ==> (a >> 38u64) & 1u64 == 1u64,
            (b >> 39u64) & 1u64 == 1u64 ==> (a >> 39u64) & 1u64 == 1u64,
            (b >> 40u64) & 1u64 == 1u64 ==> (a >> 40u64) & 1u64 == 1u64,
            (b >> 41u64) & 1u64 == 1u64 ==> (a >> 41u64) & 1u64 == 1u64,
            (b >> 42u64) & 1u64 == 1u64 ==> (a >> 42u64) & 1u64 == 1u64,
            (b >> 43u64) & 1u64 == 1u64 ==> (a >> 43u64) & 1u64 == 1u64,
            (b >> 44u64) & 1u64 == 1u64 ==> (a >> 44u64) & 1u64 == 1u64,
            (b >> 45u64) & 1u64 == 1u64 ==> (a >> 45u64) & 1u64 == 1u64,
            (b >> 46u64) & 1u64 == 1u64 ==> (a >> 46u64) & 1u64 == 1u64,
            (b >> 47u64) & 1u64 == 1u64 ==> (a >> 47u64) & 1u64 == 1u64,
            (b >> 48u64) & 1u64 == 1u64 ==> (a >> 48u64) & 1u64 == 1u64,
            (b >> 49u64) & 1u64 == 1u64 ==> (a >> 49u64) & 1u64 == 1u64,
            (b >> 50u64) & 1u64 == 1u64 ==> (a >> 50u64) & 1u64 == 1u64,
            (b >> 51u64) & 1u64 == 1u64 ==> (a >> 51u64) & 1u64 == 1u64,
            (b >> 52u64) & 1u64 == 1u64 ==> (a >> 52u64) & 1u64 == 1u64,
            (b >> 53u64) & 1u64 == 1u64 ==> (a >> 53u64) & 1u64 == 1u64,
            (b >> 54u64) & 1u64 == 1u64 ==> (a >> 54u64) & 1u64 == 1u64,
            (b >> 55u64) & 1u64 == 1u64 ==> (a >> 55u64) & 1u64 == 1u64,
            (b >> 56u64) & 1u64 == 1u64 ==> (a >> 56u64) & 1u64 == 1u64,
            (b >> 57u64) & 1u64 == 1u64 ==> (a >> 57u64) & 1u64 == 1u64,
            (b >> 58u64) & 1u64 == 1u64 ==> (a >> 58u64) & 1u64 == 1u64,
            (b >> 59u64) & 1u64 == 1u64 ==> (a >> 59u64) & 1u64 == 1u64,
            (b >> 60u64) & 1u64 == 1u64 ==> (a >> 60u64) & 1u64 == 1u64,
            (b >> 61u64) & 1u64 == 1u64 ==> (a >> 61u64) & 1u64 == 1u64,
            (b >> 62u64) & 1u64 == 1u64 ==> (a >> 62u64) & 1u64 == 1u64,
            (b >> 63u64) & 1u64 == 1u64 ==> (a >> 63u64) & 1u64 == 1u64,
    ensures
        a & b == b,
{
}

/// A count of letters (up to two each), digits and dashes, to rule out names that cannot match a query.
#[derive(Clone, Copy, Debug, PartialEq, Eq, Structural)]
pub struct CharBag(u64);

impl CharBag {
    #[verifier::type_invariant]
    spec fn inv(self) -> bool {
        bag_bits_wf(self.0)
    }

    pub closed spec fn bits(self) -> u64 {
        self.0
    }

    /// The empty bag.
    pub fn new() -> (r: CharBag)
        ensures
            r@ == empty_bag_view(),
    {
        proof {
            lemma_empty_bits(0);
            assert forall|k: u64| k < 64 implies (0u64 >> k) & 1u64 == 0u64 by {
                lemma_empty_bits(k);
            }
            assert(bag_view(0u64).letters =~= empty_bag_view().letters) by {
                assert forall|i: int| 0 <= i < 26 implies bag_view(0u64).letters[i] == 0nat by {
                    lemma_empty_bits((2 * i) as u64);
                }
            }
            assert(bag_view(0u64).digits =~= empty_bag_view().digits) by {
                assert forall|d: int| 0 <= d < 10 implies bag_view(0u64).digits[d] == false by {
                    lemma_empty_bits((52 + d) as u64);
                }
            }
            lemma_empty_bits(62);
        }
        CharBag(0)
    }

    /// Whether this bag holds at least what `other` holds.
    pub fn is_superset(self, other: CharBag) -> (r: bool)
        ensures
            r == covers(self@, other@),
    {
        proof {
            use_type_invariant(&self);
            use_type_invariant(&other);
        }
        let r = self.0 & other.0 == other.0;
        proof {
            let a = self.0;
            let b = other.0;
            if r {
                assert forall|i: int| 0 <= i < 26 implies #[trigger] self@.letters[i] >= other@.letters[i] by {
                    lemma_subset_bits(a, b, (2 * i) as u64);
                    lemma_subset_bits(a, b, (2 * i + 1) as u64);
                    lemma_wf_high_needs_low(b, (2 * i) as u64);
                }
                assert forall|d: int| 0 <= d < 10 && #[trigger] other@.digits[d] implies self@.digits[d] by {
                    lemma_subset_bits(a, b, (52 + d) as u64);
                }
                lemma_subset_bits(a, b, 62);
            } else if covers(self@, other@) {
                assert forall|k: u64| k < 64 && (b >> k) & 1u64 == 1u64 implies (a >> k) & 1u64 == 1u64 by {
                    if k < 52 {
                        let i = (k / 2) as int;
                        assert(self@.letters[i] >= other@.letters[i]);
                        lemma_wf_high_needs_low(b, (2 * i) as u64);
                        if k % 2 == 0 {
                            assert(k == (2 * i) as u64);
                        } else {
                            assert(k == (2 * i + 1) as u64);
                        }
                    } else if k < 62 {
                        let d = (k - 52) as int;
                        assert(other@.digits[d] ==> self@.digits[d]);
                    } else if k == 63 {
                        lemma_top_bit_clear(b);
                    }
                }
                lemma_bits_subset(a, b);
            }
        }
        r
    }

    /// Add one char: a letter (after lower-casing) counts up to two, a digit or `-` is noted, anything else
    /// is ignored.
    pub fn insert(&mut self, c: char)
        ensures
            final(self)@ == view_insert(old(self)@, c),
    {
        proof {
            use_type_invariant(&*self);
        }
        let lower = to_lowercase(c);
        let l = if lower.len() > 0 {
            lower[0]
        } else {
            c
        };
        assert(l == lower_first(c));
        let b = self.0;
        if 'a' <= l && l <= 'z' {
            let i: u64 = (l as u32 - 0x61) as u64;
            let index: u64 = i * 2;
            let nb = b | ((((b >> index) << 1) | 1) & 3) << index;
            proof {
                lemma_letter_insert_bits(b, index, 0);
                assert(nb == letter_insert_bits(b, index));
                let nv = bag_view(nb);
                let ov = bag_view(b);
                let ev = view_insert(ov, c);
                assert forall|j: int| 0 <= j < 26 implies nv.letters[j] == ev.letters[j] by {
                    lemma_letter_insert_bits(b, index, (2 * j) as u64);
                    lemma_letter_insert_bits(b, index, (2 * j + 1) as u64);
                    lemma_wf_high_needs_low(b, index);
                }
                assert(nv.letters =~= ev.letters);
                assert forall|d: int| 0 <= d < 10 implies nv.digits[d] == ev.digits[d] by {
                    lemma_letter_insert_bits(b, index, (52 + d) as u64);
                }
                assert(nv.digits =~= ev.digits);
                lemma_letter_insert_bits(b, index, 62);
            }
            self.0 = nb;
        } else if '0' <= l && l <= '9' {
            let index: u64 = (l as u32 - 0x30) as u64 + 52;
            let nb = b | (1u64 << index);
            proof {
                lemma_set_bit(b, index, 0);
                let nv = bag_view(nb);
                let ev = view_insert(bag_view(b), c);
                assert forall|j: int| 0 <= j < 26 implies nv.letters[j] == ev.letters[j] by {
                    lemma_set_bit(b, index, (2 * j) as u64);
                    lemma_set_bit(b, index, (2 * j + 1) as u64);
                }
                assert(nv.letters =~= ev.letters);
                assert forall|d: int| 0 <= d < 10 implies nv.digits[d] == ev.digits[d] by {
                    lemma_set_bit(b, index, (52 + d) as u64);
                }
                assert(nv.digits =~= ev.digits);
                lemma_set_bit(b, index, 62);
            }
            self.0 = nb;
        } else if l == '-' {
            let nb = b | (1u64 << 62u64);
            proof {
                lemma_set_bit(b, 62, 0);
                let nv = bag_view(nb);
                let ev = view_insert(bag_view(b), c);
                assert forall|j: int| 0 <= j < 26 implies nv.letters[j] == ev.letters[j] by {
                    lemma_set_bit(b, 62, (2 * j) as u64);
                    lemma_set_bit(b, 62, (2 * j + 1) as u64);
                }
                assert(nv.letters =~= ev.letters);
                assert forall|d: int| 0 <= d < 10 implies nv.digits[d] == ev.digits[d] by {
                    lemma_set_bit(b, 62, (52 + d) as u64);
                }
                assert(nv.digits =~= ev.digits);
            }
            self.0 = nb;
        }
    }

    /// The bag of every char of `text`.
    pub fn of_str(text: &str) -> (r: CharBag)
        ensures
            r@ == bag_view_of(text@, text@.len()),
    {
        let mut bag = CharBag::new();
        for c in it: text.chars()
            invariant
                it.seq() == text@,
                bag@ == bag_view_of(text@, it.index() as nat),
        {
            bag.insert(c);
        }
        bag
    }
}

proof fn lemma_mutual_subset(a: u64, b: u64)
    by (bit_vector)
    requires
        a & b == b,
        b & a == a,
    ensures
        a == b,
{
}

/// Two well-formed bags with the same counts have the same bits.
proof fn lemma_view_determines_bits(a: u64, b: u64)
    requires
        bag_bits_wf(a),
        bag_bits_wf(b),
        bag_view(a) == bag_view(b),
    ensures
        a == b,
{
    let va = bag_view(a);
    let vb = bag_view(b);
    assert(va.letters == vb.letters);
    assert(va.digits == vb.digits);
    assert forall|k: u64| k < 64 implies ((b >> k) & 1u64 == 1u64) == ((a >> k) & 1u64 == 1u64) by {
        if k < 52 {
            let i = (k / 2) as int;
            assert(0 <= i < 26);
            assert(va.letters[i] == letter_count(a, i as nat));
            assert(vb.letters[i] == letter_count(b, i as nat));
            assert(letter_count(a, i as nat) == letter_count(b, i as nat));
            let lo = (2 * i) as u64;
            let hi = (2 * i + 1) as u64;
            assert(lo + 1u64 == hi);
            lemma_wf_high_needs_low(a, lo);
            lemma_wf_high_needs_low(b, lo);
            assert(bit(a, (2 * i) as nat) == ((a >> lo) & 1u64 == 1u64));
            assert(bit(b, (2 * i) as nat) == ((b >> lo) & 1u64 == 1u64));
            assert(bit(a, (2 * i + 1) as nat) == ((a >> hi) & 1u64 == 1u64));
            assert(bit(b, (2 * i + 1) as nat) == ((b >> hi) & 1u64 == 1u64));
            assert(((b >> lo) & 1u64 == 1u64) == ((a >> lo) & 1u64 == 1u64));
            assert(((b >> hi) & 1u64 == 1u64) == ((a >> hi) & 1u64 == 1u64));
            if k % 2 == 0 {
                assert(k == lo);
            } else {
                assert(k == hi);
            }
        } else if k < 62 {
            let d = (k - 52) as int;
            assert(va.digits[d] == bit(a, (52 + d) as nat));
            assert(vb.digits[d] == bit(b, (52 + d) as nat));
            assert(((b >> k) & 1u64 == 1u64) == ((a >> k) & 1u64 == 1u64));
        } else if k == 62 {
            assert(bag_view(a).dash == bag_view(b).dash);
        } else {
            lemma_top_bit_clear(a);
            lemma_top_bit_clear(b);
        }
    }
    assert forall|k: u64| k < 64 && (b >> k) & 1u64 == 1u64 implies (a >> k) & 1u64 == 1u64 by {}
    assert forall|k: u64| k < 64 && (a >> k) & 1u64 == 1u64 implies (b >> k) & 1u64 == 1u64 by {}
    lemma_bits_subset(a, b);
    lemma_bits_subset(b, a);
    lemma_mutual_subset(a, b);
}

proof fn lemma_top_bit_clear(b: u64)
    by (bit_vector)
    requires
        (b >> 63u64) == 0u64,
    ensures
        (b >> 63u64) & 1u64 == 0u64,
{
}

proof fn lemma_empty_bits(k: u64)
    by (bit_vector)
    requires
        k < 64u64,
    ensures
        (0u64 >> k) & 1u64 == 0u64,
        ((0u64 >> 1u64) & !0u64 & 0x5555555555555u64) == 0u64 && (0u64 >> 63u64) == 0u64,
{
}

impl From<&str> for CharBag {
    fn from(text: &str) -> (r: CharBag)
        ensures
            r@ == bag_view_of(text@, text@.len()),
    {
        let r = CharBag::of_str(text);
        proof {
            use_type_invariant(&r);
            let c = choose|b: CharBag| b@ == bag_view_of(text@, text@.len()) && bag_bits_wf(b.bits());
            assert(r@ == bag_view_of(text@, text@.len()) && bag_bits_wf(r.bits()));
            lemma_view_determines_bits(r.0, c.0);
        }
        r
    }
}

impl vstd::std_specs::convert::FromSpecImpl<&str> for CharBag {
    open spec fn obeys_from_spec() -> bool {
        true
    }

    open spec fn from_spec(text: &str) -> CharBag {
        choose|b: CharBag| b@ == bag_view_of(text@, text@.len()) && bag_bits_wf(b.bits())
    }
}

impl View for CharBag {
    type V = CharBagView;

    closed spec fn view(&self) -> CharBagView {
        bag_view(self.0)
    }
}

} // verus!

verus! {

impl Default for CharBag {
    fn default() -> (r: CharBag)
        ensures
            r@ == empty_bag_view(),
    {
        CharBag::new()
    }
}

/// Adding a char never takes anything out of a bag.
pub proof fn lemma_insert_grows(v: CharBagView, c: char)
    requires
        v.letters.len() == 26,
        v.digits.len() == 10,
        forall|j: int| 0 <= j < 26 ==> #[trigger] v.letters[j] <= 2,
    ensures
        covers(view_insert(v, c), v),
{
    let l = lower_first(c);
    let w = view_insert(v, c);
    if is_ascii_lower(l) {
        let i = (l as u32 - 0x61) as int;
        assert forall|j: int| 0 <= j < 26 implies #[trigger] w.letters[j] >= v.letters[j] by {
            if j != i {
                assert(w.letters[j] == v.letters[j]);
            }
        }
    } else if is_ascii_digit(l) {
        let d0 = (l as u32 - 0x30) as int;
        assert forall|d: int| 0 <= d < 10 && #[trigger] v.digits[d] implies w.digits[d] by {
            if d != d0 {
                assert(w.digits[d] == v.digits[d]);
            }
        }
    }
}

/// A bag covers itself, and covering is transitive.
pub proof fn lemma_covers_order(a: CharBagView, b: CharBagView, c: CharBagView)
    ensures
        covers(a, a),
        covers(a, b) && covers(b, c) ==> covers(a, c),
{
}

/// The bag of a longer prefix covers the bag of a shorter one.
pub proof fn lemma_bag_of_prefix_grows(s: Seq<char>, m: nat, n: nat)
    requires
        m <= n <= s.len(),
    ensures
        covers(bag_view_of(s, n), bag_view_of(s, m)),
    decreases n - m,
{
    lemma_empty_view_shape();
    lemma_bag_view_of_shape(s, n);
    if m < n {
        lemma_bag_of_prefix_grows(s, m, (n - 1) as nat);
        lemma_bag_view_of_shape(s, (n - 1) as nat);
        lemma_insert_grows(bag_view_of(s, (n - 1) as nat), s[n - 1]);
        lemma_covers_order(bag_view_of(s, n), bag_view_of(s, (n - 1) as nat), bag_view_of(s, m));
    }
}

proof fn lemma_empty_view_shape()
    ensures
        empty_bag_view().letters.len() == 26,
        empty_bag_view().digits.len() == 10,
{
}

proof fn lemma_bag_view_of_shape(s: Seq<char>, n: nat)
    ensures
        bag_view_of(s, n).letters.len() == 26,
        bag_view_of(s, n).digits.len() == 10,
        forall|j: int| 0 <= j < 26 ==> #[trigger] bag_view_of(s, n).letters[j] <= 2,
    decreases n,
{
    if n > 0 && n <= s.len() {
        lemma_bag_view_of_shape(s, (n - 1) as nat);
        let v = bag_view_of(s, (n - 1) as nat);
        let w = bag_view_of(s, n);
        let l = lower_first(s[n - 1]);
        if is_ascii_lower(l) {
            let i = (l as u32 - 0x61) as int;
            assert forall|j: int| 0 <= j < 26 implies #[trigger] w.letters[j] <= 2 by {
                if j != i {
                    assert(w.letters[j] == v.letters[j]);
                }
            }
        }
    }
}

/// How many of the first `n` query chars matched a name char that differs from it only in ASCII case.
pub open spec fn mismatch_count(q: Seq<char>, matched: Seq<u32>, name: Seq<char>, n: nat) -> nat
    decreases n,
{
    if n == 0 {
        0
    } else {
        let i = n - 1;
        let m = matched[i] as int;
        mismatch_count(q, matched, name, (n - 1) as nat) + if m < name.len() && name[m] != q[i] && ascii_lower(
            name[m],
        ) == ascii_lower(q[i]) {
            1nat
        } else {
            0nat
        }
    }
}

/// Case mismatches between a query and where its chars matched: counted only when the query has upper-case
/// chars (`query_chars` is then its non-blank chars) and each of them matched exactly once.
pub open spec fn spec_case_mismatches(query_chars: Option<Seq<char>>, matched: Seq<u32>, name: Seq<char>) -> i32 {
    match query_chars {
        None => 0,
        Some(q) => if q.len() != matched.len() {
            0
        } else {
            mismatch_count(q, matched, name, q.len()) as i32
        },
    }
}

pub fn case_mismatches(query_chars: Option<&[char]>, matched: &[u32], name: &str) -> (r: i32)
    ensures
        r == spec_case_mismatches(
            match query_chars {
                Some(q) => Some(q@),
                None => None,
            },
            matched@,
            name@,
        ),
{
    let query_chars = match query_chars {
        Some(q) => q,
        None => return 0,
    };
    if query_chars.len() != matched.len() {
        return 0;
    }
    let name_chars = crate::text::chars_of(name);
    let mut count: usize = 0;
    let mut i: usize = 0;
    while i < query_chars.len()
        invariant
            i <= query_chars.len() == matched.len(),
            name_chars@ == name@,
            count == mismatch_count(query_chars@, matched@, name@, i as nat),
            count <= i,
        decreases query_chars.len() - i,
    {
        let position = matched[i] as usize;
        if position < name_chars.len() {
            let c = name_chars[position];
            let q = query_chars[i];
            if c != q && crate::text::to_ascii_lower(c) == crate::text::to_ascii_lower(q) {
                count += 1;
            }
        }
        i += 1;
    }
    count as i32
}

/// The smallest element of `s` that is at least `lo`.
pub open spec fn min_at_least(s: Seq<u32>, lo: int) -> Option<u32>
    decreases s.len(),
{
    if s.len() == 0 {
        None
    } else {
        let rest = min_at_least(s.drop_last(), lo);
        let x = s.last();
        if x >= lo && (rest is None || x < rest->0) {
            Some(x)
        } else {
            rest
        }
    }
}

/// The distinct elements of `s` from `lo` up, in increasing order (what sorting and deduplicating gives).
pub open spec fn ascending_from(s: Seq<u32>, lo: int) -> Seq<usize>
    decreases 0x1_0000_0000 - lo,
{
    match min_at_least(s, lo) {
        Some(m) => if m >= lo {
            seq![m as usize] + ascending_from(s, m + 1)
        } else {
            seq![]
        },
        None => seq![],
    }
}

proof fn lemma_min_at_least(s: Seq<u32>, lo: int)
    ensures
        min_at_least(s, lo) matches Some(m) ==> m >= lo && s.contains(m) && forall|k: int|
            0 <= k < s.len() && s[k] >= lo ==> m <= #[trigger] s[k],
        min_at_least(s, lo) is None ==> forall|k: int| 0 <= k < s.len() ==> #[trigger] s[k] < lo,
    decreases s.len(),
{
    if s.len() > 0 {
        lemma_min_at_least(s.drop_last(), lo);
        let rest = min_at_least(s.drop_last(), lo);
        if let Some(m) = rest {
            assert(s.drop_last().contains(m));
            let j = choose|j: int| 0 <= j < s.drop_last().len() && s.drop_last()[j] == m;
            assert(s[j] == m);
        }
        assert forall|k: int| 0 <= k < s.len() - 1 implies s[k] == s.drop_last()[k] by {}
        if min_at_least(s, lo) == Some(s.last()) {
            assert(s[s.len() - 1] == s.last());
        }
    }
}

fn min_at_least_exec(s: &Vec<u32>, lo: u64) -> (r: Option<u32>)
    ensures
        r == min_at_least(s@, lo as int),
{
    let mut best: Option<u32> = None;
    let mut i: usize = 0;
    while i < s.len()
        invariant
            i <= s.len(),
            best == min_at_least(s@.take(i as int), lo as int),
        decreases s.len() - i,
    {
        assert(s@.take(i + 1).drop_last() == s@.take(i as int));
        assert(s@.take(i + 1).last() == s@[i as int]);
        let x = s[i];
        let better = match best {
            Some(b) => x < b,
            None => true,
        };
        if x as u64 >= lo && better {
            best = Some(x);
        }
        i += 1;
    }
    assert(s@.take(s.len() as int) == s@);
    best
}

/// The matched positions sorted and deduplicated.
pub fn ascending(s: &Vec<u32>) -> (r: Vec<usize>)
    ensures
        r@ == ascending_from(s@, 0),
{
    let mut r: Vec<usize> = Vec::new();
    let mut lo: u64 = 0;
    loop
        invariant
            lo <= 0x1_0000_0000,
            r@ + ascending_from(s@, lo as int) == ascending_from(s@, 0),
        decreases 0x1_0000_0000 - lo,
    {
        match min_at_least_exec(s, lo) {
            Some(m) => {
                proof {
                    lemma_min_at_least(s@, lo as int);
                }
                let ghost before = r@;
                r.push(m as usize);
                assert(before + ascending_from(s@, lo as int) == before + (seq![m as usize]
                    + ascending_from(s@, m + 1)));
                assert(r@ + ascending_from(s@, m + 1) =~= before + (seq![m as usize] + ascending_from(
                    s@,
                    m + 1,
                )));
                lo = m as u64 + 1;
            },
            None => {
                assert(r@ + ascending_from(s@, lo as int) =~= r@);
                return r;
            },
        }
    }
}

/// The sorted positions hold each matched position exactly once, in increasing order.
pub proof fn lemma_ascending_is_sorted_set(s: Seq<u32>, lo: int)
    requires
        0 <= lo,
    ensures
        forall|i: int, j: int| 0 <= i < j < ascending_from(s, lo).len() ==> ascending_from(s, lo)[i]
            < ascending_from(s, lo)[j],
        forall|i: int| 0 <= i < ascending_from(s, lo).len() ==> s.contains(
            #[trigger] ascending_from(s, lo)[i] as u32,
        ) && ascending_from(s, lo)[i] >= lo,
        forall|k: int| 0 <= k < s.len() && s[k] >= lo ==> ascending_from(s, lo).contains(s[k] as usize),
    decreases 0x1_0000_0000 - lo,
{
    lemma_min_at_least(s, lo);
    match min_at_least(s, lo) {
        Some(m) => {
            if m >= lo {
                lemma_ascending_is_sorted_set(s, m + 1);
                let rest = ascending_from(s, m + 1);
                let all = ascending_from(s, lo);
                assert(all == seq![m as usize] + rest);
                assert forall|i: int| 0 <= i < all.len() implies s.contains(#[trigger] all[i] as u32)
                    && all[i] >= lo by {
                    if i > 0 {
                        assert(all[i] == rest[i - 1]);
                    }
                }
                assert forall|i: int, j: int| 0 <= i < j < all.len() implies all[i] < all[j] by {
                    assert(all[j] == rest[j - 1]);
                    if i > 0 {
                        assert(all[i] == rest[i - 1]);
                    }
                }
                assert forall|k: int| 0 <= k < s.len() && s[k] >= lo implies all.contains(
                    s[k] as usize,
                ) by {
                    if s[k] == m {
                        assert(all[0] == m as usize);
                    } else {
                        assert(rest.contains(s[k] as usize));
                        let i = choose|i: int| 0 <= i < rest.len() && rest[i] == s[k] as usize;
                        assert(all[i + 1] == rest[i]);
                    }
                }
            }
        },
        None => {},
    }
}

} // verus!

verus! {

/// The segments of a path between its `/` separators, scanned from `i` with the current segment `cur` and
/// the finished ones `out` (what `str::split('/')` yields).
pub open spec fn split_slash_from(s: Seq<char>, i: nat, cur: Seq<char>, out: Seq<Seq<char>>) -> Seq<Seq<char>>
    decreases s.len() - i,
{
    if i >= s.len() {
        out.push(cur)
    } else if s[i as int] == '/' {
        split_slash_from(s, i + 1, seq![], out.push(cur))
    } else {
        split_slash_from(s, i + 1, cur.push(s[i as int]), out)
    }
}

pub open spec fn segments(s: Seq<char>) -> Seq<Seq<char>> {
    split_slash_from(s, 0, seq![], seq![])
}

/// How many leading segments two paths share.
pub open spec fn shared_segments(a: Seq<Seq<char>>, b: Seq<Seq<char>>, m: nat) -> nat
    decreases a.len() - m,
{
    if m < a.len() && m < b.len() && a[m as int] == b[m as int] {
        shared_segments(a, b, m + 1)
    } else {
        m
    }
}

/// Segments left after the shared ones and the first pair that differs.
pub open spec fn segments_after(n: nat, shared: nat) -> nat {
    if n > shared + 1 {
        (n - shared - 1) as nat
    } else {
        0
    }
}

/// How far apart two paths are: the segments each has past their shared leading ones and the first
/// differing pair, plus one.
pub open spec fn spec_distance(path: Seq<char>, relative_to: Seq<char>) -> nat {
    let a = segments(path);
    let b = segments(relative_to);
    let m = shared_segments(a, b, 0);
    segments_after(a.len(), m) + segments_after(b.len(), m) + 1
}

proof fn lemma_split_len(s: Seq<char>, i: nat, cur: Seq<char>, out: Seq<Seq<char>>)
    requires
        i <= s.len(),
    ensures
        split_slash_from(s, i, cur, out).len() <= out.len() + 1 + (s.len() - i),
        split_slash_from(s, i, cur, out).len() >= out.len() + 1,
    decreases s.len() - i,
{
    if i < s.len() {
        if s[i as int] == '/' {
            lemma_split_len(s, i + 1, seq![], out.push(cur));
        } else {
            lemma_split_len(s, i + 1, cur.push(s[i as int]), out);
        }
    }
}

fn split_slash(s: &str) -> (r: Vec<Vec<char>>)
    ensures
        r.deep_view() == segments(s@),
        r.len() <= s@.len() + 1,
{
    let chars = crate::text::chars_of(s);
    let mut out: Vec<Vec<char>> = Vec::new();
    let mut cur: Vec<char> = Vec::new();
    let mut i: usize = 0;
    proof {
        assert(out.deep_view() =~= Seq::<Seq<char>>::empty());
        lemma_split_len(s@, 0, seq![], seq![]);
    }
    while i < chars.len()
        invariant
            chars@ == s@,
            i <= chars.len(),
            out.len() <= i,
            split_slash_from(s@, i as nat, cur@, out.deep_view()) == segments(s@),
        decreases chars.len() - i,
    {
        if chars[i] == '/' {
            let ghost before = out.deep_view();
            let done = cur;
            assert(done.deep_view() =~= done@);
            out.push(done);
            assert(out.deep_view() =~= before.push(done@));
            cur = Vec::new();
            assert(cur@ =~= Seq::<char>::empty());
        } else {
            cur.push(chars[i]);
        }
        i += 1;
    }
    let ghost before = out.deep_view();
    let last = cur;
    assert(last.deep_view() =~= last@);
    out.push(last);
    assert(out.deep_view() =~= before.push(last@));
    out
}

fn chars_eq(a: &Vec<char>, b: &Vec<char>) -> (r: bool)
    ensures
        r == (a@ == b@),
{
    if a.len() != b.len() {
        return false;
    }
    let mut i: usize = 0;
    while i < a.len()
        invariant
            a.len() == b.len(),
            i <= a.len(),
            forall|k: int| 0 <= k < i ==> a@[k] == b@[k],
        decreases a.len() - i,
    {
        if a[i] != b[i] {
            return false;
        }
        i += 1;
    }
    assert(a@ =~= b@);
    true
}

/// How far `path` is from `relative_to`, counted in path segments (at most `usize::MAX`).
pub fn distance_between(path: &str, relative_to: &str) -> (r: usize)
    ensures
        r == (if spec_distance(path@, relative_to@) <= usize::MAX {
            spec_distance(path@, relative_to@)
        } else {
            usize::MAX as nat
        }),
{
    let left = split_slash(path);
    let right = split_slash(relative_to);
    let mut m: usize = 0;
    while m < left.len() && m < right.len() && chars_eq(&left[m], &right[m])
        invariant
            m <= left.len(),
            m <= right.len(),
            shared_segments(left.deep_view(), right.deep_view(), m as nat) == shared_segments(
                left.deep_view(),
                right.deep_view(),
                0,
            ),
        decreases left.len() - m,
    {
        assert(left.deep_view()[m as int] =~= left[m as int]@);
        assert(right.deep_view()[m as int] =~= right[m as int]@);
        m += 1;
    }
    proof {
        if m < left.len() && m < right.len() {
            assert(left.deep_view()[m as int] =~= left[m as int]@);
            assert(right.deep_view()[m as int] =~= right[m as int]@);
        }
    }
    let a = if left.len() - m > 1 {
        left.len() - m - 1
    } else {
        0
    };
    let b = if right.len() - m > 1 {
        right.len() - m - 1
    } else {
        0
    };
    a.saturating_add(b).saturating_add(1)
}

} // verus!

verus! {

/// The score and match indices `nucleo_matcher` gives a case-insensitive fuzzy pattern against a name, with
/// the default (name) bonuses; `None` when it does not match.
pub uninterp spec fn nucleo_name_match(pattern: Seq<char>, haystack: Seq<char>) -> Option<(u32, Seq<u32>)>;

/// The same, with the bonuses for file paths (on this target's path delimiters).
pub uninterp spec fn nucleo_path_match(pattern: Seq<char>, haystack: Seq<char>) -> Option<(u32, Seq<u32>)>;

/// The score each word of the pattern gets alone against a name, with path bonuses (`None` for a word that
/// does not match).
pub uninterp spec fn nucleo_word_scores(pattern: Seq<char>, haystack: Seq<char>) -> Seq<Option<u16>>;

/// `Pattern::indices` of `nucleo_matcher` for `Pattern::new(pattern, CaseMatching::Ignore,
/// Normalization::Smart, AtomKind::Fuzzy)` against `haystack`, with `Config::DEFAULT`. Claimed: the result is
/// a function of the two strings (named `nucleo_name_match`); nothing is claimed of its values.
#[verifier::external_body]
fn name_match(pattern: &str, haystack: &str) -> (r: Option<(u32, Vec<u32>)>)
    ensures
        match r {
            Some((score, indices)) => nucleo_name_match(pattern@, haystack@) == Some((score, indices@)),
            None => nucleo_name_match(pattern@, haystack@) is None,
        },
{
    let pattern = Pattern::new(pattern, CaseMatching::Ignore, Normalization::Smart, AtomKind::Fuzzy);
    let mut matcher = Matcher::new(Config::DEFAULT);
    let (mut buffer, mut indices) = (Vec::new(), Vec::new());
    let score = pattern.indices(Utf32Str::new(haystack, &mut buffer), &mut matcher, &mut indices)?;
    Some((score, indices))
}

/// `Pattern::indices` of `nucleo_matcher` as in `name_match`, but with `Config::set_match_paths` applied.
/// Claimed: the result is a function of the two strings (named `nucleo_path_match`); nothing is claimed of
/// its values.
#[verifier::external_body]
fn path_match(pattern: &str, haystack: &str) -> (r: Option<(u32, Vec<u32>)>)
    ensures
        match r {
            Some((score, indices)) => nucleo_path_match(pattern@, haystack@) == Some((score, indices@)),
            None => nucleo_path_match(pattern@, haystack@) is None,
        },
{
    let pattern = Pattern::new(pattern, CaseMatching::Ignore, Normalization::Smart, AtomKind::Fuzzy);
    let mut config = Config::DEFAULT;
    config.set_match_paths();
    let mut matcher = Matcher::new(config);
    let (mut buffer, mut indices) = (Vec::new(), Vec::new());
    let score = pattern.indices(Utf32Str::new(haystack, &mut buffer), &mut matcher, &mut indices)?;
    Some((score, indices))
}

/// `Atom::score` of `nucleo_matcher` for each atom of the pattern built as in `path_match`, against
/// `haystack`, with the path configuration. Claimed: the result is a function of the two strings (named
/// `nucleo_word_scores`); nothing is claimed of its values.
#[verifier::external_body]
fn word_scores(pattern: &str, haystack: &str) -> (r: Vec<Option<u16>>)
    ensures
        r@ == nucleo_word_scores(pattern@, haystack@),
{
    let pattern = Pattern::new(pattern, CaseMatching::Ignore, Normalization::Smart, AtomKind::Fuzzy);
    let mut config = Config::DEFAULT;
    config.set_match_paths();
    let mut matcher = Matcher::new(config);
    let mut buffer = Vec::new();
    let haystack = Utf32Str::new(haystack, &mut buffer);
    pattern.atoms.iter().map(|atom| atom.score(haystack, &mut matcher)).collect()
}

/// The query's words joined by single spaces (what `split_whitespace` then `join(" ")` gives), scanning the
/// trimmed query from `i` with `prev_ws` telling whether a blank run is open.
pub open spec fn squeeze_from(t: Seq<char>, i: nat, prev_ws: bool, out: Seq<char>) -> Seq<char>
    decreases t.len() - i,
{
    if i >= t.len() {
        out
    } else if crate::text::is_ws(t[i as int]) {
        if prev_ws {
            squeeze_from(t, i + 1, true, out)
        } else {
            squeeze_from(t, i + 1, true, out.push(' '))
        }
    } else {
        squeeze_from(t, i + 1, false, out.push(t[i as int]))
    }
}

pub open spec fn squeeze(q: Seq<char>) -> Seq<char> {
    squeeze_from(crate::text::trim(q), 0, false, seq![])
}

/// The query's words joined by single spaces.
pub fn squeeze_query(query: &str) -> (r: String)
    ensures
        r@ == squeeze(query@),
{
    let chars = crate::text::chars_of(query);
    let (start, end) = crate::text::trim_bounds(&chars);
    let ghost t = chars@.subrange(start as int, end as int);
    let mut out: Vec<char> = Vec::new();
    let mut prev_ws = false;
    let mut i = start;
    while i < end
        invariant
            start <= i <= end <= chars.len(),
            t == chars@.subrange(start as int, end as int),
            squeeze_from(t, (i - start) as nat, prev_ws, out@) == squeeze_from(t, 0, false, seq![]),
        decreases end - i,
    {
        assert(t[i - start] == chars@[i as int]);
        if crate::text::is_whitespace(chars[i]) {
            if !prev_ws {
                out.push(' ');
            }
            prev_ws = true;
        } else {
            out.push(chars[i]);
            prev_ws = false;
        }
        i += 1;
    }
    crate::text::string_of(&out)
}

/// Whether every char is blank (true of the empty query).
pub open spec fn all_blank(q: Seq<char>) -> bool {
    forall|i: int| 0 <= i < q.len() ==> crate::text::is_ws(#[trigger] q[i])
}

/// The non-blank chars of `q`, in order.
pub open spec fn non_blank(q: Seq<char>) -> Seq<char>
    decreases q.len(),
{
    if q.len() == 0 {
        q
    } else if crate::text::is_ws(q.last()) {
        non_blank(q.drop_last())
    } else {
        non_blank(q.drop_last()).push(q.last())
    }
}

/// When the query has an upper-case char, its non-blank chars (to count case mismatches against).
pub open spec fn case_query(q: Seq<char>) -> Option<Seq<char>> {
    if exists|i: int| 0 <= i < q.len() && crate::text::unicode_upper(#[trigger] q[i]) {
        Some(non_blank(q))
    } else {
        None
    }
}

fn case_query_exec(query: &Vec<char>) -> (r: Option<Vec<char>>)
    ensures
        match r {
            Some(v) => case_query(query@) == Some(v@),
            None => case_query(query@) is None,
        },
{
    let mut any_upper = false;
    let mut kept: Vec<char> = Vec::new();
    let mut i: usize = 0;
    while i < query.len()
        invariant
            i <= query.len(),
            kept@ == non_blank(query@.take(i as int)),
            any_upper == exists|j: int| 0 <= j < i && crate::text::unicode_upper(#[trigger] query@[j]),
        decreases query.len() - i,
    {
        assert(query@.take(i + 1).drop_last() == query@.take(i as int));
        assert(query@.take(i + 1).last() == query@[i as int]);
        if crate::text::is_uppercase(query[i]) {
            any_upper = true;
        }
        if !crate::text::is_whitespace(query[i]) {
            kept.push(query[i]);
        }
        i += 1;
    }
    assert(query@.take(query.len() as int) == query@);
    if any_upper {
        Some(kept)
    } else {
        None
    }
}

/// A name that matched a query: its index, the sorted distinct positions of the matched chars, the
/// matcher's score, and how many matched chars differ from the query only in ASCII case.
pub struct NameMatch {
    pub candidate: usize,
    pub positions: Vec<usize>,
    pub score: u32,
    pub case_mismatches: i32,
}

#[verifier::ext_equal]
pub struct NameMatchView {
    pub candidate: nat,
    pub positions: Seq<usize>,
    pub score: u32,
    pub case_mismatches: i32,
}

impl View for NameMatch {
    type V = NameMatchView;

    open spec fn view(&self) -> NameMatchView {
        NameMatchView {
            candidate: self.candidate as nat,
            positions: self.positions@,
            score: self.score,
            case_mismatches: self.case_mismatches,
        }
    }
}

/// The match of name `candidate` against a non-blank query, if any.
pub open spec fn spec_name_match(query: Seq<char>, name: Seq<char>, candidate: nat) -> Option<NameMatchView> {
    match nucleo_name_match(squeeze(query), name) {
        Some((score, indices)) => Some(
            NameMatchView {
                candidate,
                positions: ascending_from(indices, 0),
                score,
                case_mismatches: spec_case_mismatches(case_query(query), indices, name),
            },
        ),
        None => None,
    }
}

/// The matches among the first `n` names, in name order.
pub open spec fn name_matches(names: Seq<Seq<char>>, query: Seq<char>, n: nat) -> Seq<NameMatchView>
    decreases n,
{
    if n == 0 || n > names.len() {
        seq![]
    } else {
        let rest = name_matches(names, query, (n - 1) as nat);
        match spec_name_match(query, names[n - 1], (n - 1) as nat) {
            Some(m) => rest.push(m),
            None => rest,
        }
    }
}

/// Every name with an empty match, for a blank query.
pub open spec fn blank_matches(count: nat) -> Seq<NameMatchView> {
    Seq::new(
        count,
        |i: int| NameMatchView { candidate: i as nat, positions: seq![], score: 0, case_mismatches: 0 },
    )
}

/// What `fuzzy_match` ranks: for a blank query every name, else each name the matcher accepts, in name order.
pub open spec fn spec_fuzzy_candidates(names: Seq<Seq<char>>, query: Seq<char>) -> Seq<NameMatchView> {
    if all_blank(query) {
        blank_matches(names.len())
    } else {
        name_matches(names, query, names.len())
    }
}

pub fn fuzzy_candidates(names: &[&str], query: &str) -> (r: Vec<NameMatch>)
    ensures
        r@.map_values(|m: NameMatch| m@) == spec_fuzzy_candidates(
            names@.map_values(|n: &str| n@),
            query@,
        ),
{
    let ghost names_v = names@.map_values(|n: &str| n@);
    let query_chars = crate::text::chars_of(query);
    let mut blank = true;
    let mut i: usize = 0;
    while i < query_chars.len()
        invariant
            query_chars@ == query@,
            i <= query_chars.len(),
            blank == forall|j: int| 0 <= j < i ==> crate::text::is_ws(#[trigger] query@[j]),
        decreases query_chars.len() - i,
    {
        if !crate::text::is_whitespace(query_chars[i]) {
            blank = false;
        }
        i += 1;
    }
    let mut out: Vec<NameMatch> = Vec::new();
    if blank {
        let mut k: usize = 0;
        while k < names.len()
            invariant
                k <= names.len(),
                out@.map_values(|m: NameMatch| m@) == blank_matches(k as nat),
            decreases names.len() - k,
        {
            let ghost before = out@.map_values(|m: NameMatch| m@);
            let positions: Vec<usize> = Vec::new();
            assert(positions@ =~= Seq::<usize>::empty());
            let m = NameMatch { candidate: k, positions, score: 0, case_mismatches: 0 };
            assert(m@ == blank_matches((k + 1) as nat)[k as int]);
            out.push(m);
            assert(out@.map_values(|m: NameMatch| m@) =~= before.push(m@));
            assert(out@.map_values(|m: NameMatch| m@) =~= blank_matches((k + 1) as nat));
            k += 1;
        }
        return out;
    }
    let normalized = squeeze_query(query);
    let case = case_query_exec(&query_chars);
    let mut k: usize = 0;
    while k < names.len()
        invariant
            k <= names.len(),
            names_v == names@.map_values(|n: &str| n@),
            normalized@ == squeeze(query@),
            match case {
                Some(v) => case_query(query@) == Some(v@),
                None => case_query(query@) is None,
            },
            out@.map_values(|m: NameMatch| m@) == name_matches(names_v, query@, k as nat),
        decreases names.len() - k,
    {
        let name = names[k];
        assert(names_v[k as int] == name@);
        let ghost before = out@.map_values(|m: NameMatch| m@);
        match name_match(normalized.as_str(), name) {
            Some((score, indices)) => {
                let mismatches = match &case {
                    Some(v) => case_mismatches(Some(v.as_slice()), indices.as_slice(), name),
                    None => case_mismatches(None, indices.as_slice(), name),
                };
                let positions = ascending(&indices);
                let m = NameMatch { candidate: k, positions, score, case_mismatches: mismatches };
                out.push(m);
                assert(out@.map_values(|m: NameMatch| m@) =~= before.push(m@));
            },
            None => {},
        }
        k += 1;
    }
    out
}

} // verus!

verus! {

/// UTF-8 length of a char.
pub open spec fn utf8_len(c: char) -> nat {
    let n = c as u32;
    if n < 0x80 {
        1
    } else if n < 0x800 {
        2
    } else if n < 0x10000 {
        3
    } else {
        4
    }
}

/// UTF-8 length of a string.
pub open spec fn utf8_len_of(s: Seq<char>) -> nat
    decreases s.len(),
{
    if s.len() == 0 {
        0
    } else {
        utf8_len_of(s.drop_last()) + utf8_len(s.last())
    }
}

/// The file name of a path: what follows its last `/` (all of it when there is none).
pub open spec fn file_name(path: Seq<char>) -> Seq<char> {
    path.subrange(after_last_slash(path, path.len()) as int, path.len() as int)
}

/// The index just after the last `/` in `path[..n]`, or 0.
pub open spec fn after_last_slash(path: Seq<char>, n: nat) -> nat
    decreases n,
{
    if n == 0 || n > path.len() {
        0
    } else if path[n - 1] == '/' {
        n
    } else {
        after_last_slash(path, (n - 1) as nat)
    }
}

/// The sum of the scores of the words that matched.
pub open spec fn score_sum(scores: Seq<Option<u16>>) -> nat
    decreases scores.len(),
{
    if scores.len() == 0 {
        0
    } else {
        score_sum(scores.drop_last()) + match scores.last() {
            Some(s) => s as nat,
            None => 0,
        }
    }
}

/// A path that matched a query: its index, the sorted distinct matched positions, the matcher's score, the
/// file name's own score with its length in bytes (`None` when the path ends in `/`), and the distance from
/// the path the search is relative to (`usize::MAX` when none).
pub struct PathCandidate {
    pub candidate: usize,
    pub positions: Vec<usize>,
    pub score: u32,
    pub name_score: Option<(u64, usize)>,
    pub distance: usize,
}

#[verifier::ext_equal]
pub struct PathCandidateView {
    pub candidate: nat,
    pub positions: Seq<usize>,
    pub score: u32,
    pub name_score: Option<(u64, usize)>,
    pub distance: usize,
}

impl View for PathCandidate {
    type V = PathCandidateView;

    open spec fn view(&self) -> PathCandidateView {
        PathCandidateView {
            candidate: self.candidate as nat,
            positions: self.positions@,
            score: self.score,
            name_score: self.name_score,
            distance: self.distance,
        }
    }
}

pub open spec fn capped(n: nat, max: nat) -> nat {
    if n <= max {
        n
    } else {
        max
    }
}

/// The file name's score and byte length, when the path has a file name.
pub open spec fn spec_name_score(query: Seq<char>, path: Seq<char>) -> Option<(u64, usize)> {
    let name = file_name(path);
    if name.len() == 0 {
        None
    } else {
        Some(
            (
                capped(score_sum(nucleo_word_scores(squeeze(query), name)), u64::MAX as nat) as u64,
                capped(utf8_len_of(name), usize::MAX as nat) as usize,
            ),
        )
    }
}

/// The candidate for path `candidate` if its bag covers the query's and the matcher accepts it.
pub open spec fn spec_path_candidate(
    query: Seq<char>,
    path: Seq<char>,
    bag: CharBagView,
    candidate: nat,
    relative_to: Option<Seq<char>>,
) -> Option<PathCandidateView> {
    if !covers(bag, bag_view_of(query, query.len())) {
        None
    } else {
        match nucleo_path_match(squeeze(query), path) {
            Some((score, indices)) => Some(
                PathCandidateView {
                    candidate,
                    positions: ascending_from(indices, 0),
                    score,
                    name_score: spec_name_score(query, path),
                    distance: match relative_to {
                        Some(to) => capped(spec_distance(path, to), usize::MAX as nat) as usize,
                        None => usize::MAX,
                    },
                },
            ),
            None => None,
        }
    }
}

/// The candidates among the first `n` paths, in path order.
pub open spec fn path_candidates_upto(
    paths: Seq<Seq<char>>,
    bags: Seq<CharBagView>,
    query: Seq<char>,
    relative_to: Option<Seq<char>>,
    n: nat,
) -> Seq<PathCandidateView>
    decreases n,
{
    if n == 0 || n > paths.len() || n > bags.len() {
        seq![]
    } else {
        let rest = path_candidates_upto(paths, bags, query, relative_to, (n - 1) as nat);
        match spec_path_candidate(query, paths[n - 1], bags[n - 1], (n - 1) as nat, relative_to) {
            Some(c) => rest.push(c),
            None => rest,
        }
    }
}

/// What `match_paths` ranks: nothing for a blank query, else the candidates among the paths that have a bag.
pub open spec fn spec_path_candidates(
    paths: Seq<Seq<char>>,
    bags: Seq<CharBagView>,
    query: Seq<char>,
    relative_to: Option<Seq<char>>,
) -> Seq<PathCandidateView> {
    if all_blank(query) {
        seq![]
    } else {
        let n = if paths.len() < bags.len() {
            paths.len()
        } else {
            bags.len()
        };
        path_candidates_upto(paths, bags, query, relative_to, n)
    }
}

fn utf8_length(s: &Vec<char>, from: usize) -> (r: usize)
    requires
        from <= s.len(),
    ensures
        r == capped(utf8_len_of(s@.subrange(from as int, s.len() as int)), usize::MAX as nat),
{
    let ghost t = s@.subrange(from as int, s.len() as int);
    let mut total: usize = 0;
    let mut i = from;
    while i < s.len()
        invariant
            from <= i <= s.len(),
            t == s@.subrange(from as int, s.len() as int),
            total == capped(utf8_len_of(t.take(i - from)), usize::MAX as nat),
        decreases s.len() - i,
    {
        assert(t.take(i + 1 - from).drop_last() == t.take(i - from));
        assert(t.take(i + 1 - from).last() == s@[i as int]);
        let n = s[i] as u32;
        let w: usize = if n < 0x80 {
            1
        } else if n < 0x800 {
            2
        } else if n < 0x10000 {
            3
        } else {
            4
        };
        total = total.saturating_add(w);
        i += 1;
    }
    assert(t.take(s.len() - from) == t);
    total
}

fn name_score(query: &str, path: &str, path_chars: &Vec<char>) -> (r: Option<(u64, usize)>)
    requires
        path_chars@ == path@,
    ensures
        r == spec_name_score(query@, path@),
{
    let mut start = path_chars.len();
    while start > 0 && path_chars[start - 1] != '/'
        invariant
            path_chars@ == path@,
            start <= path_chars.len(),
            after_last_slash(path@, start as nat) == after_last_slash(path@, path@.len()),
        decreases start,
    {
        start -= 1;
    }
    if start == path_chars.len() {
        return None;
    }
    let name = path.substring_char(start, path_chars.len());
    let normalized = squeeze_query(query);
    let scores = word_scores(normalized.as_str(), name);
    let mut sum: u64 = 0;
    let mut i: usize = 0;
    while i < scores.len()
        invariant
            i <= scores.len(),
            sum == capped(score_sum(scores@.take(i as int)), u64::MAX as nat),
        decreases scores.len() - i,
    {
        assert(scores@.take(i + 1).drop_last() == scores@.take(i as int));
        assert(scores@.take(i + 1).last() == scores@[i as int]);
        match scores[i] {
            Some(s) => {
                sum = sum.saturating_add(s as u64);
            },
            None => {},
        }
        i += 1;
    }
    assert(scores@.take(scores.len() as int) == scores@);
    let bytes = utf8_length(path_chars, start);
    Some((sum, bytes))
}

/// The paths `match_paths` ranks for `query`: each whose bag covers the query's and that the matcher accepts,
/// in path order, with the file name's score and the distance from `relative_to`; none for a blank query.
pub fn path_candidates(
    paths: &[&str],
    bags: &[CharBag],
    query: &str,
    relative_to: Option<&str>,
) -> (r: Vec<PathCandidate>)
    ensures
        r@.map_values(|c: PathCandidate| c@) == spec_path_candidates(
            paths@.map_values(|p: &str| p@),
            bags@.map_values(|b: CharBag| b@),
            query@,
            match relative_to {
                Some(to) => Some(to@),
                None => None,
            },
        ),
{
    let ghost paths_v = paths@.map_values(|p: &str| p@);
    let ghost bags_v = bags@.map_values(|b: CharBag| b@);
    let ghost rel = match relative_to {
        Some(to) => Some(to@),
        None => None,
    };
    let query_chars = crate::text::chars_of(query);
    let mut blank = true;
    let mut i: usize = 0;
    while i < query_chars.len()
        invariant
            query_chars@ == query@,
            i <= query_chars.len(),
            blank == forall|j: int| 0 <= j < i ==> crate::text::is_ws(#[trigger] query@[j]),
        decreases query_chars.len() - i,
    {
        if !crate::text::is_whitespace(query_chars[i]) {
            blank = false;
        }
        i += 1;
    }
    let mut out: Vec<PathCandidate> = Vec::new();
    if blank {
        assert(out@.map_values(|c: PathCandidate| c@) =~= Seq::<PathCandidateView>::empty());
        return out;
    }
    let query_bag = CharBag::of_str(query);
    let normalized = squeeze_query(query);
    let n = if paths.len() < bags.len() {
        paths.len()
    } else {
        bags.len()
    };
    let mut k: usize = 0;
    assert(out@.map_values(|c: PathCandidate| c@) =~= Seq::<PathCandidateView>::empty());
    while k < n
        invariant
            k <= n <= paths.len(),
            n <= bags.len(),
            paths_v == paths@.map_values(|p: &str| p@),
            bags_v == bags@.map_values(|b: CharBag| b@),
            rel == match relative_to {
                Some(to) => Some(to@),
                None => None,
            },
            query_bag@ == bag_view_of(query@, query@.len()),
            normalized@ == squeeze(query@),
            out@.map_values(|c: PathCandidate| c@) == path_candidates_upto(paths_v, bags_v, query@, rel, k as nat),
        decreases n - k,
    {
        let path = paths[k];
        assert(paths_v[k as int] == path@);
        assert(bags_v[k as int] == bags[k as int]@);
        let ghost before = out@.map_values(|c: PathCandidate| c@);
        if bags[k].is_superset(query_bag) {
            match path_match(normalized.as_str(), path) {
                Some((score, indices)) => {
                    let positions = ascending(&indices);
                    let path_chars = crate::text::chars_of(path);
                    let name_score = name_score(query, path, &path_chars);
                    let distance = match relative_to {
                        Some(to) => distance_between(path, to),
                        None => usize::MAX,
                    };
                    let c = PathCandidate { candidate: k, positions, score, name_score, distance };
                    out.push(c);
                    assert(out@.map_values(|c: PathCandidate| c@) =~= before.push(c@));
                },
                None => {},
            }
        }
        k += 1;
    }
    out
}

} // verus!
