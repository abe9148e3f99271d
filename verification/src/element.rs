//! Field elements: 256-bit unsigned numbers, compared by numeric value.

use vstd::prelude::*;
use crate::error::ElementParseError;
use crate::text::chars_of;

verus! {

/// A 256-bit number held as four 64-bit words, the most significant first.
///
/// Two elements are equal exactly when their numeric values are equal, and the
/// derived order is the numeric order, because the words are compared from the
/// most significant down.
#[derive(Clone, Copy, Debug, PartialEq, Eq, Structural, PartialOrd, Ord, Hash)]
pub struct Element {
    pub w3: u64,
    pub w2: u64,
    pub w1: u64,
    pub w0: u64,
}

/// The numeric value of four words, the most significant first.
pub open spec fn words_value(w3: u64, w2: u64, w1: u64, w0: u64) -> nat {
    (w3 as nat) * 0x1_0000_0000_0000_0000_0000_0000_0000_0000_0000_0000_0000_0000nat
        + (w2 as nat) * 0x1_0000_0000_0000_0000_0000_0000_0000_0000nat
        + (w1 as nat) * 0x1_0000_0000_0000_0000nat
        + (w0 as nat)
}

/// The prime modulus of the field: the order of the BN254 scalar field.
pub open spec fn modulus_value() -> nat {
    0x30644e72e131a029_b85045b68181585d_2833e84879b97091_43e1f593f0000001nat
}

impl View for Element {
    type V = nat;

    open spec fn view(&self) -> nat {
        words_value(self.w3, self.w2, self.w1, self.w0)
    }
}

impl Element {
    /// Whether the element is a member of the field, that is, below the modulus.
    pub open spec fn in_field(&self) -> bool {
        self@ < modulus_value()
    }

    /// Whether the element is the padding sentinel.
    pub open spec fn is_padding(&self) -> bool {
        self@ == 0
    }

    /// The element whose value is `value`.
    pub fn new(value: u64) -> (e: Element)
        ensures
            e@ == value as nat,
    {
        Element { w3: 0, w2: 0, w1: 0, w0: value }
    }

    /// The zero element, which marks a padding slot.
    pub fn zero() -> (e: Element)
        ensures
            e@ == 0,
    {
        Element { w3: 0, w2: 0, w1: 0, w0: 0 }
    }

    /// The field modulus as an element.
    pub fn modulus() -> (e: Element)
        ensures
            e@ == modulus_value(),
    {
        Element {
            w3: 0x30644e72e131a029,
            w2: 0xb85045b68181585d,
            w1: 0x2833e84879b97091,
            w0: 0x43e1f593f0000001,
        }
    }

    /// Whether this element is zero.
    pub fn is_zero(&self) -> (b: bool)
        ensures
            b == (self@ == 0),
    {
        self.w3 == 0 && self.w2 == 0 && self.w1 == 0 && self.w0 == 0
    }

    /// Whether this element is numerically smaller than `other`.
    pub fn lt(&self, other: &Element) -> (b: bool)
        ensures
            b == (self@ < other@),
    {
        if self.w3 != other.w3 {
            self.w3 < other.w3
        } else if self.w2 != other.w2 {
            self.w2 < other.w2
        } else if self.w1 != other.w1 {
            self.w1 < other.w1
        } else {
            self.w0 < other.w0
        }
    }

    /// Whether this element is numerically at least `other`.
    pub fn ge(&self, other: &Element) -> (b: bool)
        ensures
            b == (self@ >= other@),
    {
        !self.lt(other)
    }

    /// Whether this element is below the field modulus.
    pub fn is_in_field(&self) -> (b: bool)
        ensures
            b == self.in_field(),
    {
        let m = Element::modulus();
        self.lt(&m)
    }
}

/// Elements with the same numeric value are the same element.
pub proof fn lemma_value_determines_element(a: Element, b: Element)
    requires
        a@ == b@,
    ensures
        a == b,
{
    lemma_element_of_value(a);
    lemma_element_of_value(b);
}

/// The value of a hexadecimal digit, in either case.
pub open spec fn digit_value(c: char) -> Option<nat> {
    let n = c as u32;
    if 48 <= n <= 57 {
        Some((n - 48) as nat)
    } else if 97 <= n <= 102 {
        Some((n - 87) as nat)
    } else if 65 <= n <= 70 {
        Some((n - 55) as nat)
    } else {
        None
    }
}

/// The number that the digits write in base 16, the most significant first.
pub open spec fn hex_value(digits: Seq<char>) -> nat
    decreases digits.len(),
{
    if digits.len() == 0 {
        0
    } else {
        hex_value(digits.drop_last()) * 16 + match digit_value(digits.last()) {
            Some(d) => d,
            None => 0,
        }
    }
}

/// The position of the first character that is no hexadecimal digit.
pub open spec fn first_bad_digit(digits: Seq<char>) -> Option<int>
    decreases digits.len(),
{
    if digits.len() == 0 {
        None
    } else {
        match first_bad_digit(digits.drop_last()) {
            Some(i) => Some(i),
            None => if digit_value(digits.last()) is None {
                Some(digits.len() - 1)
            } else {
                None
            },
        }
    }
}

/// The length of the prefix `0x`, where the text has it.
pub open spec fn prefix_len(text: Seq<char>) -> int {
    if text.len() >= 2 && text[0] == '0' && text[1] == 'x' {
        2
    } else {
        0
    }
}

/// What a text reads as: after an optional `0x`, one or more hexadecimal
/// digits in either case, which write a number below two to the 256.
pub open spec fn parsed(text: Seq<char>) -> Result<nat, ElementParseError> {
    let digits = text.skip(prefix_len(text));
    if digits.len() == 0 {
        Err(ElementParseError::Empty)
    } else if let Some(i) = first_bad_digit(digits) {
        Err(ElementParseError::InvalidDigit((prefix_len(text) + i) as usize))
    } else if hex_value(digits)
        >= 0x1_0000_0000_0000_0000_0000_0000_0000_0000_0000_0000_0000_0000_0000_0000_0000_0000nat {
        Err(ElementParseError::TooLarge)
    } else {
        Ok(hex_value(digits))
    }
}

/// The element whose numeric value is `value`, for a value below two to the
/// 256: its words are the digits of the value in base two to the 64.
pub open spec fn element_of(value: nat) -> Element {
    let word = 0x1_0000_0000_0000_0000nat;
    Element {
        w3: (value / word / word / word) as u64,
        w2: (value / word / word % word) as u64,
        w1: (value / word % word) as u64,
        w0: (value % word) as u64,
    }
}

/// Dividing `hi` words and a rest by the size of a word gives `hi`, and
/// leaves the rest.
proof fn lemma_split_word(hi: int, lo: int)
    requires
        0 <= lo < 0x1_0000_0000_0000_0000,
    ensures
        (hi * 0x1_0000_0000_0000_0000 + lo) / 0x1_0000_0000_0000_0000 == hi,
        (hi * 0x1_0000_0000_0000_0000 + lo) % 0x1_0000_0000_0000_0000 == lo,
{
    let x = hi * 0x1_0000_0000_0000_0000 + lo;
    let q = x / 0x1_0000_0000_0000_0000;
    let r = x % 0x1_0000_0000_0000_0000;
    assert(x == q * 0x1_0000_0000_0000_0000 + r);
    assert((q - hi) * 0x1_0000_0000_0000_0000 == lo - r);
    assert(q == hi) by (nonlinear_arith)
        requires
            (q - hi) * 0x1_0000_0000_0000_0000 == lo - r,
            -0x1_0000_0000_0000_0000 < lo - r < 0x1_0000_0000_0000_0000,
    ;
}

/// Every element is the element of its value.
pub proof fn lemma_element_of_value(e: Element)
    ensures
        element_of(e@) == e,
{
    let word = 0x1_0000_0000_0000_0000int;
    let v = e@ as int;
    let v2 = e.w3 * word + e.w2;
    let v1 = v2 * word + e.w1;
    assert(v == v1 * word + e.w0) by {
        assert(e.w3 * word * word * word == e.w3
            * 0x1_0000_0000_0000_0000_0000_0000_0000_0000_0000_0000_0000_0000int);
        assert(e.w2 * word * word == e.w2 * 0x1_0000_0000_0000_0000_0000_0000_0000_0000int);
    }
    lemma_split_word(v1, e.w0 as int);
    lemma_split_word(v2, e.w1 as int);
    lemma_split_word(e.w3 as int, e.w2 as int);
    assert(v / word == v1);
    assert(v1 / word == v2);
    assert(v2 / word == e.w3);
}

/// What a text reads as, as an element.
pub open spec fn parsed_element(text: Seq<char>) -> Result<Element, ElementParseError> {
    match parsed(text) {
        Ok(value) => Ok(element_of(value)),
        Err(err) => Err(err),
    }
}

/// The number that a prefix of the digits writes is no larger than the
/// number that all of them write.
pub proof fn lemma_hex_value_prefix(digits: Seq<char>, k: int)
    requires
        0 <= k <= digits.len(),
    ensures
        hex_value(digits.take(k)) <= hex_value(digits),
    decreases digits.len() - k,
{
    if k == digits.len() {
        assert(digits.take(k) == digits);
    } else {
        assert(digits.take(k + 1).drop_last() == digits.take(k));
        lemma_hex_value_prefix(digits, k + 1);
    }
}

/// A bad digit found among the first `n` is the first bad digit of the whole.
pub proof fn lemma_first_bad_digit_extends(digits: Seq<char>, n: int)
    requires
        0 <= n <= digits.len(),
        first_bad_digit(digits.take(n)) is Some,
    ensures
        first_bad_digit(digits) == first_bad_digit(digits.take(n)),
    decreases digits.len() - n,
{
    if n == digits.len() {
        assert(digits.take(n) == digits);
    } else {
        assert(digits.take(n + 1).drop_last() == digits.take(n));
        lemma_first_bad_digit_extends(digits, n + 1);
    }
}

/// The value of a hexadecimal digit.
pub fn hex_digit(c: char) -> (d: Option<u8>)
    ensures
        match d {
            Some(v) => digit_value(c) == Some(v as nat),
            None => digit_value(c) is None,
        },
{
    let n = c as u32;
    if 48 <= n && n <= 57 {
        Some((n - 48) as u8)
    } else if 97 <= n && n <= 102 {
        Some((n - 87) as u8)
    } else if 65 <= n && n <= 70 {
        Some((n - 55) as u8)
    } else {
        None
    }
}

impl Element {
    /// The element that is sixteen times this one plus `digit`, where this
    /// one is below two to the 252.
    fn shifted(&self, digit: u8) -> (e: Element)
        requires
            digit < 16,
            self.w3 < 0x1000_0000_0000_0000,
        ensures
            e@ == self@ * 16 + digit as nat,
    {
        let t0: u128 = self.w0 as u128 * 16 + digit as u128;
        let n0: u64 = (t0 % 0x1_0000_0000_0000_0000) as u64;
        let c0: u128 = t0 / 0x1_0000_0000_0000_0000;
        let t1: u128 = self.w1 as u128 * 16 + c0;
        let n1: u64 = (t1 % 0x1_0000_0000_0000_0000) as u64;
        let c1: u128 = t1 / 0x1_0000_0000_0000_0000;
        let t2: u128 = self.w2 as u128 * 16 + c1;
        let n2: u64 = (t2 % 0x1_0000_0000_0000_0000) as u64;
        let c2: u128 = t2 / 0x1_0000_0000_0000_0000;
        let t3: u128 = self.w3 as u128 * 16 + c2;
        let n3: u64 = t3 as u64;
        Element { w3: n3, w2: n2, w1: n1, w0: n0 }
    }

    /// Reads the characters from `start` up to `end` as an element.
    pub fn parse(chars: &Vec<char>, start: usize, end: usize) -> (r: Result<Element, ElementParseError>)
        requires
            start <= end <= chars.len(),
        ensures
            match parsed(chars@.subrange(start as int, end as int)) {
                Ok(value) => r matches Ok(e) && e@ == value,
                Err(err) => r == Err::<Element, ElementParseError>(err),
            },
            r == parsed_element(chars@.subrange(start as int, end as int)),
    {
        let ghost text = chars@.subrange(start as int, end as int);
        let from: usize = if end - start >= 2 && chars[start] == '0' && chars[start + 1] == 'x' {
            start + 2
        } else {
            start
        };
        assert(from - start == prefix_len(text)) by {
            if end - start >= 2 {
                assert(text[0] == chars@[start as int]);
                assert(text[1] == chars@[start + 1]);
            }
        }
        let ghost digits = text.skip(from - start);
        assert(digits == chars@.subrange(from as int, end as int));
        if from == end {
            return Err(ElementParseError::Empty);
        }
        let mut i: usize = from;
        while i < end
            invariant
                start <= from <= i <= end <= chars.len(),
                text == chars@.subrange(start as int, end as int),
                from - start == prefix_len(text),
                digits == text.skip(from - start),
                digits == chars@.subrange(from as int, end as int),
                first_bad_digit(digits.take(i - from)) is None,
            decreases end - i,
        {
            proof {
                assert(digits.take(i - from + 1).drop_last() == digits.take(i - from));
                assert(digits.take(i - from + 1).last() == chars@[i as int]);
            }
            if hex_digit(chars[i]).is_none() {
                proof {
                    lemma_first_bad_digit_extends(digits, i - from + 1);
                }
                return Err(ElementParseError::InvalidDigit(i - start));
            }
            i += 1;
        }
        assert(digits.take(i - from) == digits);
        let mut acc = Element::zero();
        let mut k: usize = from;
        assert(digits.take(0) == Seq::<char>::empty());
        while k < end
            invariant
                start <= from <= k <= end <= chars.len(),
                from < end,
                text == chars@.subrange(start as int, end as int),
                from - start == prefix_len(text),
                digits == text.skip(from - start),
                digits == chars@.subrange(from as int, end as int),
                first_bad_digit(digits) is None,
                acc@ == hex_value(digits.take(k - from)),
            decreases end - k,
        {
            proof {
                assert(digits.take(k - from + 1).drop_last() == digits.take(k - from));
                assert(digits.take(k - from + 1).last() == chars@[k as int]);
                lemma_hex_value_prefix(digits, k - from + 1);
            }
            let d = match hex_digit(chars[k]) {
                Some(d) => d,
                None => 0,
            };
            if acc.w3 >= 0x1000_0000_0000_0000 {
                return Err(ElementParseError::TooLarge);
            }
            acc = acc.shifted(d);
            k += 1;
        }
        assert(digits.take(k - from) == digits);
        proof {
            lemma_element_of_value(acc);
        }
        Ok(acc)
    }

    /// Reads a text as an element: after an optional `0x`, one or more
    /// hexadecimal digits in either case.
    pub fn from_hex(text: &str) -> (r: Result<Element, ElementParseError>)
        ensures
            match parsed(text@) {
                Ok(value) => r matches Ok(e) && e@ == value,
                Err(err) => r == Err::<Element, ElementParseError>(err),
            },
            r == parsed_element(text@),
    {
        let chars = chars_of(text);
        assert(chars@.subrange(0, chars@.len() as int) == chars@);
        Element::parse(&chars, 0, chars.len())
    }
}

} // verus!
