//! The arguments of the command line and the sizes written in them.

use crate::interactive::InteractiveConfig;
use vstd::prelude::*;
use vstd::string::StringSliceAdditionalSpecFns;

verus! {

/// What the command line asks for.
#[derive(Debug)]
pub struct Args {
    /// The directory to scan.
    pub path: String,
    /// The smallest size to consider, in bytes.
    pub min_size: Option<u64>,
    /// The largest size to consider, in bytes.
    pub max_size: Option<u64>,
    /// Whether fingerprints are computed anew on every run.
    pub no_cache: bool,
}

impl Args {
    /// The scan that the arguments ask for: caching is on unless it was
    /// switched off.
    pub fn into_config(self) -> (config: InteractiveConfig)
        ensures
            config.path == self.path,
            config.min_size == self.min_size,
            config.max_size == self.max_size,
            config.use_cache == !self.no_cache,
    {
        InteractiveConfig {
            path: self.path,
            min_size: self.min_size,
            max_size: self.max_size,
            use_cache: !self.no_cache,
        }
    }
}

/// Why a size could not be read.
#[derive(Clone, Copy, Debug, PartialEq, Eq, Structural)]
pub enum SizeError {
    /// Nothing was written.
    Empty,
    /// The text ends in something other than a digit or one of `K`, `M`,
    /// `G`, `T`.
    InvalidSuffix,
    /// What stands before the unit is not a number that fits 64 bits.
    InvalidNumber,
    /// The number of bytes does not fit 64 bits.
    TooLarge,
}

/// The byte `+`.
pub const PLUS: u8 = 0x2b;

/// The byte `0`.
pub const DIGIT_0: u8 = 0x30;

/// The byte `9`.
pub const DIGIT_9: u8 = 0x39;

/// The byte `K`.
pub const LETTER_K: u8 = 0x4b;

/// The byte `M`.
pub const LETTER_M: u8 = 0x4d;

/// The byte `G`.
pub const LETTER_G: u8 = 0x47;

/// The byte `T`.
pub const LETTER_T: u8 = 0x54;

pub const KILO: u64 = 1024;

pub const MEGA: u64 = 1024 * 1024;

pub const GIGA: u64 = 1024 * 1024 * 1024;

pub const TERA: u64 = 1024 * 1024 * 1024 * 1024;

/// Whether a byte is an ASCII digit.
pub open spec fn is_digit(b: u8) -> bool {
    DIGIT_0 <= b <= DIGIT_9
}

/// The value of an ASCII digit; 0 for any other byte.
pub open spec fn digit_value(b: u8) -> nat {
    if is_digit(b) {
        (b - DIGIT_0) as nat
    } else {
        0
    }
}

/// Whether the bytes are ASCII digits, all of them.
pub open spec fn all_digits(bytes: Seq<u8>) -> bool {
    forall|i: int| 0 <= i < bytes.len() ==> is_digit(#[trigger] bytes[i])
}

/// The number that a string of digits stands for, in base ten.
pub open spec fn decimal(digits: Seq<u8>) -> nat
    decreases digits.len(),
{
    if digits.len() == 0 {
        0
    } else {
        10 * decimal(digits.drop_last()) + digit_value(digits.last())
    }
}

/// The number that a text stands for: digits, at least one, after an
/// optional `+`; `None` where the text is anything else or the number does
/// not fit 64 bits.
pub open spec fn number_of(text: Seq<u8>) -> Option<u64> {
    let digits = if text.len() > 0 && text[0] == PLUS {
        text.skip(1)
    } else {
        text
    };
    if digits.len() > 0 && all_digits(digits) && decimal(digits) <= u64::MAX {
        Some(decimal(digits) as u64)
    } else {
        None
    }
}

/// The number of bytes that a unit letter stands for.
pub open spec fn unit_of(letter: u8) -> Option<u64> {
    if letter == LETTER_K {
        Some(KILO)
    } else if letter == LETTER_M {
        Some(MEGA)
    } else if letter == LETTER_G {
        Some(GIGA)
    } else if letter == LETTER_T {
        Some(TERA)
    } else {
        None
    }
}

/// The size that a text stands for, once it is trimmed and in upper case: a
/// number, or a number and one of the units `K`, `M`, `G`, `T`, which are
/// powers of 1024.
pub open spec fn size_of_text(text: Seq<u8>) -> Result<u64, SizeError> {
    if text.len() == 0 {
        Err(SizeError::Empty)
    } else if unit_of(text.last()) is Some {
        match number_of(text.drop_last()) {
            Some(number) => if number * unit_of(text.last()).unwrap() <= u64::MAX {
                Ok((number * unit_of(text.last()).unwrap()) as u64)
            } else {
                Err(SizeError::TooLarge)
            },
            None => Err(SizeError::InvalidNumber),
        }
    } else if is_digit(text.last()) {
        match number_of(text) {
            Some(number) => Ok(number),
            None => Err(SizeError::InvalidNumber),
        }
    } else {
        Err(SizeError::InvalidSuffix)
    }
}

/// A text without the white space at its ends, as `str::trim` leaves it.
pub uninterp spec fn trimmed(text: Seq<char>) -> Seq<char>;

/// A text in upper case, as `str::to_uppercase` writes it.
pub uninterp spec fn upper_cased(text: Seq<char>) -> Seq<char>;

/// `str::trim`: the text without leading and trailing white space.
#[verifier::external_body]
fn trim(text: &str) -> (inner: &str)
    ensures
        inner@ == trimmed(text@),
{
    text.trim()
}

/// `str::to_uppercase`: the text with every character in upper case.
#[verifier::external_body]
fn to_uppercase(text: &str) -> (upper: String)
    ensures
        upper@ == upper_cased(text@),
{
    text.to_uppercase()
}

/// More digits do not make a smaller number.
proof fn lemma_decimal_grows(digits: Seq<u8>, n: int)
    requires
        0 <= n <= digits.len(),
    ensures
        decimal(digits.take(n)) <= decimal(digits),
    decreases digits.len() - n,
{
    if n < digits.len() {
        lemma_decimal_grows(digits, n + 1);
        assert(digits.take(n + 1).drop_last() =~= digits.take(n));
    } else {
        assert(digits.take(n) =~= digits);
    }
}

/// Reads the number that stands in the first `end` bytes.
fn parse_number(bytes: &[u8], end: usize) -> (number: Option<u64>)
    requires
        end <= bytes.len(),
    ensures
        number == number_of(bytes@.take(end as int)),
{
    let ghost text = bytes@.take(end as int);
    let start: usize = if end > 0 && bytes[0] == PLUS {
        1
    } else {
        0
    };
    let ghost digits = text.skip(start as int);
    assert(digits =~= if text.len() > 0 && text[0] == PLUS {
        text.skip(1)
    } else {
        text
    });
    if start == end {
        return None;
    }
    let mut value: u64 = 0;
    let mut i: usize = start;
    assert(digits.take(0) =~= Seq::<u8>::empty());
    while i < end
        invariant
            start <= i <= end <= bytes.len(),
            text == bytes@.take(end as int),
            digits == text.skip(start as int),
            number_of(text) == if digits.len() > 0 && all_digits(digits) && decimal(digits)
                <= u64::MAX {
                Some(decimal(digits) as u64)
            } else {
                None
            },
            all_digits(digits.take(i - start)),
            value == decimal(digits.take(i - start)),
        decreases end - i,
    {
        let b = bytes[i];
        proof {
            assert(digits[i - start] == b);
            assert(digits.take(i - start + 1).drop_last() =~= digits.take(i - start));
            lemma_decimal_grows(digits, i - start + 1);
        }
        if b < DIGIT_0 || b > DIGIT_9 {
            assert(!is_digit(digits[i - start]));
            return None;
        }
        proof {
            let longer = digits.take(i - start + 1);
            assert forall|j: int| 0 <= j < longer.len() implies is_digit(#[trigger] longer[j]) by {
                if j < i - start {
                    assert(longer[j] == digits.take(i - start)[j]);
                }
            }
            assert(decimal(longer) == 10 * value + (b - DIGIT_0));
        }
        match value.checked_mul(10) {
            Some(tens) => {
                match tens.checked_add((b - DIGIT_0) as u64) {
                    Some(more) => {
                        value = more;
                    },
                    None => {
                        return None;
                    },
                }
            },
            None => {
                return None;
            },
        }
        i += 1;
    }
    assert(digits.take(end - start) =~= digits);
    Some(value)
}

/// Reads a size from a text that is trimmed and in upper case.
pub fn parse_plain_size(text: &str) -> (size: Result<u64, SizeError>)
    ensures
        size == size_of_text(text.spec_bytes()),
{
    let bytes = text.as_bytes();
    let len = bytes.len();
    if len == 0 {
        return Err(SizeError::Empty);
    }
    let last = bytes[len - 1];
    assert(bytes@.take(len - 1) =~= bytes@.drop_last());
    assert(bytes@.take(len as int) =~= bytes@);
    let unit: u64 = if last == LETTER_K {
        KILO
    } else if last == LETTER_M {
        MEGA
    } else if last == LETTER_G {
        GIGA
    } else if last == LETTER_T {
        TERA
    } else {
        if last < DIGIT_0 || last > DIGIT_9 {
            return Err(SizeError::InvalidSuffix);
        }
        return match parse_number(bytes, len) {
            Some(number) => Ok(number),
            None => Err(SizeError::InvalidNumber),
        };
    };
    match parse_number(bytes, len - 1) {
        Some(number) => {
            match number.checked_mul(unit) {
                Some(size) => Ok(size),
                None => Err(SizeError::TooLarge),
            }
        },
        None => Err(SizeError::InvalidNumber),
    }
}

/// Reads a size as a person writes it: `4096`, `1K`, `10m`, `2G`, `1T`.
/// White space around the text and the case of the unit do not matter.
pub fn parse_size(size_str: &str) -> (size: Result<u64, SizeError>)
    ensures
        size == size_of_text(vstd::utf8::encode_utf8(upper_cased(trimmed(size_str@)))),
{
    let upper = to_uppercase(trim(size_str));
    parse_plain_size(upper.as_str())
}

} // verus!
