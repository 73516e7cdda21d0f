//! Reading a pair of numbers, such as `400x600`, from text.

use vstd::prelude::*;
use vstd::string::StrSliceExecFns;

verus! {

/// `at` is where `separator` first stands in `text`.
pub open spec fn is_first(text: Seq<char>, separator: char, at: int) -> bool {
    &&& 0 <= at < text.len()
    &&& text[at] == separator
    &&& forall|j: int| 0 <= j < at ==> text[j] != separator
}

/// The two parts of `text` around the first `separator`; `None` where the text
/// holds no separator.
pub open spec fn halves(text: Seq<char>, separator: char) -> Option<(Seq<char>, Seq<char>)> {
    if exists|at: int| is_first(text, separator, at) {
        let at = choose|at: int| is_first(text, separator, at);
        Some((text.subrange(0, at), text.subrange(at + 1, text.len() as int)))
    } else {
        None
    }
}

/// A decimal digit.
pub open spec fn is_digit(c: char) -> bool {
    48 <= c as u32 <= 57
}

/// Every character is a decimal digit.
pub open spec fn all_digits(text: Seq<char>) -> bool {
    forall|i: int| 0 <= i < text.len() ==> is_digit(#[trigger] text[i])
}

/// The number that a run of decimal digits denotes, the most significant first.
pub open spec fn number_of(digits: Seq<char>) -> nat
    decreases digits.len(),
{
    if digits.len() == 0 {
        0
    } else {
        number_of(digits.drop_last()) * 10 + (digits.last() as u32 - 48) as nat
    }
}

/// The number that `text` denotes, where `text` is one decimal digit or more
/// and the number is no greater than `max`.
pub open spec fn magnitude(text: Seq<char>, max: nat) -> Option<nat> {
    if text.len() > 0 && all_digits(text) && number_of(text) <= max {
        Some(number_of(text))
    } else {
        None
    }
}

/// `text` without a plus sign in front.
pub open spec fn unsigned_part(text: Seq<char>) -> Seq<char> {
    if text.len() > 0 && text[0] == '+' {
        text.skip(1)
    } else {
        text
    }
}

/// An integer type that can be read from decimal text as the standard library
/// reads it: an optional sign, then digits and nothing else, denoting a number
/// that the type holds.
pub trait FromDecimal: Sized {
    /// The value that `text` denotes, if it denotes one.
    spec fn value_of(text: Seq<char>) -> Option<Self>;

    /// Reads a value from `text`.
    fn from_decimal(text: &str) -> (value: Option<Self>)
        ensures
            value == Self::value_of(text@),
    ;
}

/// The pair that `text` denotes: a value, the separator, and a value.
pub open spec fn pair_of<T: FromDecimal>(text: Seq<char>, separator: char) -> Option<(T, T)> {
    match halves(text, separator) {
        Some((left, right)) => match (T::value_of(left), T::value_of(right)) {
            (Some(l), Some(r)) => Some((l, r)),
            _ => None,
        },
        None => None,
    }
}

/// The first separator of a text is where any first separator is.
pub proof fn lemma_first_is_unique(text: Seq<char>, separator: char, at: int)
    requires
        is_first(text, separator, at),
    ensures
        halves(text, separator) == Some(
            (text.subrange(0, at), text.subrange(at + 1, text.len() as int)),
        ),
{
    let chosen = choose|at: int| is_first(text, separator, at);
    assert(is_first(text, separator, chosen));
    if chosen < at {
        assert(text[chosen] != separator);
    }
    if at < chosen {
        assert(text[at] != separator);
    }
}

/// A run of digits denotes no less than any of its beginnings does.
proof fn lemma_number_grows(digits: Seq<char>, upto: int)
    requires
        0 <= upto <= digits.len(),
    ensures
        number_of(digits.subrange(0, upto)) <= number_of(digits),
    decreases digits.len() - upto,
{
    if upto < digits.len() {
        let longer = digits.subrange(0, upto + 1);
        assert(longer.drop_last() =~= digits.subrange(0, upto));
        lemma_number_grows(digits, upto + 1);
    } else {
        assert(digits.subrange(0, upto) =~= digits);
    }
}

/// Splits `text` at the first `separator`, which belongs to neither part.
pub fn split_pair<'a>(text: &'a str, separator: char) -> (parts: Option<(&'a str, &'a str)>)
    ensures
        match parts {
            Some((left, right)) => halves(text@, separator) == Some((left@, right@)),
            None => halves(text@, separator).is_none(),
        },
{
    let len = text.unicode_len();
    let mut at: usize = 0;
    while at < len
        invariant
            len == text@.len(),
            at <= len,
            forall|j: int| 0 <= j < at ==> text@[j] != separator,
        decreases len - at,
    {
        if text.get_char(at) == separator {
            proof {
                lemma_first_is_unique(text@, separator, at as int);
            }
            return Some((text.substring_char(0, at), text.substring_char(at + 1, len)));
        }
        at = at + 1;
    }
    None
}

/// Reads `text` from character `from` on as a run of digits that denotes a
/// number no greater than `max`.
fn read_magnitude(text: &str, from: usize, max: u64) -> (value: Option<u64>)
    requires
        from <= text@.len(),
    ensures
        match magnitude(text@.skip(from as int), max as nat) {
            Some(n) => value == Some(n as u64),
            None => value.is_none(),
        },
{
    let len = text.unicode_len();
    let ghost digits = text@.skip(from as int);
    if from == len {
        return None;
    }
    let mut total: u64 = 0;
    let mut at: usize = from;
    while at < len
        invariant
            len == text@.len(),
            from <= at <= len,
            digits == text@.skip(from as int),
            all_digits(digits.subrange(0, at - from)),
            total == number_of(digits.subrange(0, at - from)),
            total <= max,
        decreases len - at,
    {
        let c = text.get_char(at);
        let ghost seen = digits.subrange(0, at - from);
        let ghost longer = digits.subrange(0, at - from + 1);
        proof {
            assert(digits[at - from] == c);
            assert(longer.drop_last() =~= seen);
            assert(longer.last() == c);
        }
        let code: u32 = c as u32;
        if code < 48 || code > 57 {
            return None;
        }
        let digit: u64 = (code - 48) as u64;
        if digit > max || total > (max - digit) / 10 {
            proof {
                assert(number_of(longer) > max) by (nonlinear_arith)
                    requires
                        number_of(longer) == total * 10 + digit,
                        digit > max || total > (max - digit) / 10,
                ;
                if all_digits(digits) {
                    lemma_number_grows(digits, at - from + 1);
                }
            }
            return None;
        }
        proof {
            assert(total * 10 + digit <= max) by (nonlinear_arith)
                requires
                    total <= (max - digit) / 10,
                    digit <= max,
            ;
            assert forall|i: int| 0 <= i < longer.len() implies is_digit(#[trigger] longer[i]) by {
                if i < at - from {
                    assert(seen[i] == longer[i]);
                }
            }
        }
        total = total * 10 + digit;
        at = at + 1;
    }
    proof {
        assert(digits.subrange(0, at - from) =~= digits);
    }
    Some(total)
}

/// Whether `text` begins with the character `sign`.
fn begins_with(text: &str, sign: char) -> (begins: bool)
    ensures
        begins == (text@.len() > 0 && text@[0] == sign),
{
    text.unicode_len() > 0 && text.get_char(0) == sign
}

impl FromDecimal for usize {
    open spec fn value_of(text: Seq<char>) -> Option<usize> {
        match magnitude(unsigned_part(text), usize::MAX as nat) {
            Some(n) => Some(n as usize),
            None => None,
        }
    }

    fn from_decimal(text: &str) -> (value: Option<usize>) {
        let from: usize = if begins_with(text, '+') { 1 } else { 0 };
        proof {
            assert(text@.skip(0) =~= text@);
        }
        match read_magnitude(text, from, usize::MAX as u64) {
            Some(n) => Some(n as usize),
            None => None,
        }
    }
}

impl FromDecimal for i32 {
    open spec fn value_of(text: Seq<char>) -> Option<i32> {
        if text.len() > 0 && text[0] == '-' {
            match magnitude(text.skip(1), 0x8000_0000) {
                Some(n) => Some((-n) as i32),
                None => None,
            }
        } else {
            match magnitude(unsigned_part(text), 0x7fff_ffff) {
                Some(n) => Some(n as i32),
                None => None,
            }
        }
    }

    fn from_decimal(text: &str) -> (value: Option<i32>) {
        proof {
            assert(text@.skip(0) =~= text@);
        }
        if begins_with(text, '-') {
            match read_magnitude(text, 1, 0x8000_0000) {
                Some(n) => Some((0 - (n as i64)) as i32),
                None => None,
            }
        } else {
            let from: usize = if begins_with(text, '+') { 1 } else { 0 };
            match read_magnitude(text, from, 0x7fff_ffff) {
                Some(n) => Some(n as i32),
                None => None,
            }
        }
    }
}

/// Reads `text` as two numbers with `separator` between them, such as `400x600`
/// or `10,20`: what stands before the first separator is the first number, and
/// all that follows it the second. `None` where there is no separator, or where
/// either part is not a number of the type asked for.
pub fn parse_pair<T: FromDecimal>(text: &str, separator: char) -> (pair: Option<(T, T)>)
    ensures
        pair == pair_of::<T>(text@, separator),
{
    match split_pair(text, separator) {
        None => None,
        Some((left, right)) => {
            match (T::from_decimal(left), T::from_decimal(right)) {
                (Some(l), Some(r)) => Some((l, r)),
                _ => None,
            }
        },
    }
}

} // verus!
