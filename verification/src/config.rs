//! The settings of a run, as they come from a command line: the two
//! dimensions of the grid and the number of seeding draws, each a decimal
//! number in a text or left out.

use crate::text::{chars_of, digit_value};
use vstd::prelude::*;

verus! {

/// Why a setting is refused.
#[derive(Debug, Clone, Copy, PartialEq, Eq)]
pub enum ConfigError {
    /// A dimension of the grid is zero.
    ZeroDimension,
    /// The text is no decimal number, or the number does not fit `usize`.
    UnparsableInteger,
}

/// The number of rows where none is given.
pub const DEFAULT_ROWS: usize = 23;

/// The number of columns where none is given.
pub const DEFAULT_COLUMNS: usize = 38;

/// Whether `c` is one of the digits `0` to `9`.
pub open spec fn is_digit(c: char) -> bool {
    '0' <= c && c <= '9'
}

/// Whether `s` holds digits only.
pub open spec fn all_digits(s: Seq<char>) -> bool {
    forall|i: int| 0 <= i < s.len() ==> is_digit(#[trigger] s[i])
}

/// The number that the digits `s` write in base ten; 0 for no digit.
pub open spec fn digits_value(s: Seq<char>) -> int
    decreases s.len(),
{
    if s.len() == 0 {
        0
    } else {
        10 * digits_value(s.drop_last()) + digit_value(s.last())
    }
}

/// `s` without the one `+` that may lead it.
pub open spec fn unsigned(s: Seq<char>) -> Seq<char> {
    if s.len() > 0 && s[0] == '+' {
        s.drop_first()
    } else {
        s
    }
}

/// The number that `text` writes: an optional `+`, then one digit or
/// more, and nothing else. `None` for any other text.
pub open spec fn integer(text: Seq<char>) -> Option<int> {
    let digits = unsigned(text);
    if digits.len() > 0 && all_digits(digits) {
        Some(digits_value(digits))
    } else {
        None
    }
}

/// What `parse_integer` returns for `text`.
pub open spec fn parsed(text: Seq<char>) -> Result<usize, ConfigError> {
    match integer(text) {
        Some(value) => if value <= usize::MAX {
            Ok(value as usize)
        } else {
            Err(ConfigError::UnparsableInteger)
        },
        None => Err(ConfigError::UnparsableInteger),
    }
}

/// What `dimension` returns for `arg`.
pub open spec fn dimension_of(arg: Option<Seq<char>>, default: usize) -> Result<
    usize,
    ConfigError,
> {
    match arg {
        None => Ok(default),
        Some(text) => match parsed(text) {
            Ok(value) => if value > 0 {
                Ok(value)
            } else {
                Err(ConfigError::ZeroDimension)
            },
            Err(e) => Err(e),
        },
    }
}

/// A number of digits is worth no less than the first `k` of them.
pub proof fn lemma_prefix_value(s: Seq<char>, k: int)
    requires
        all_digits(s),
        0 <= k <= s.len(),
    ensures
        0 <= digits_value(s.take(k)) <= digits_value(s),
    decreases s.len() - k,
{
    if k == s.len() {
        assert(s.take(k) == s);
        lemma_value_not_negative(s);
    } else {
        lemma_prefix_value(s, k + 1);
        assert(s.take(k + 1).drop_last() == s.take(k));
        assert(is_digit(s[k]));
        lemma_value_not_negative(s.take(k));
    }
}

/// Digits write no negative number.
pub proof fn lemma_value_not_negative(s: Seq<char>)
    requires
        all_digits(s),
    ensures
        0 <= digits_value(s),
    decreases s.len(),
{
    if s.len() > 0 {
        assert(is_digit(s.last()));
        lemma_value_not_negative(s.drop_last());
    }
}

/// Reads a decimal number: an optional `+` and then digits only, with no
/// white space around them. A number that does not fit `usize` is
/// refused like a text that is no number.
pub fn parse_integer(text: &str) -> (result: Result<usize, ConfigError>)
    ensures
        result == parsed(text@),
{
    let chars = chars_of(text);
    let len = chars.len();
    let start: usize = if len > 0 && chars[0] == '+' {
        1
    } else {
        0
    };
    let ghost digits = unsigned(text@);
    assert(digits == chars@.subrange(start as int, len as int));
    if start == len {
        return Err(ConfigError::UnparsableInteger);
    }
    let mut value: usize = 0;
    let mut i: usize = start;
    assert(digits.take(0) == Seq::<char>::empty());
    while i < len
        invariant
            start <= i <= len,
            len == chars.len(),
            digits == unsigned(text@),
            digits == chars@.subrange(start as int, len as int),
            all_digits(digits.take(i - start)),
            value == digits_value(digits.take(i - start)),
        decreases len - i,
    {
        let c = chars[i];
        assert(digits[i - start] == c);
        if !(c >= '0' && c <= '9') {
            assert(!is_digit(digits[i - start]));
            return Err(ConfigError::UnparsableInteger);
        }
        let d: usize = (c as u32 - '0' as u32) as usize;
        proof {
            let longer = digits.take(i - start + 1);
            assert(longer.drop_last() == digits.take(i - start));
            assert(longer.last() == c);
            assert(all_digits(longer)) by {
                assert forall|j: int| 0 <= j < longer.len() implies is_digit(
                    #[trigger] longer[j],
                ) by {
                    if j < i - start {
                        assert(digits.take(i - start)[j] == longer[j]);
                    }
                }
            }
            assert(digits_value(longer) == 10 * value + d);
            if all_digits(digits) {
                lemma_prefix_value(digits, i - start + 1);
            }
        }
        let tens = match value.checked_mul(10) {
            Some(tens) => tens,
            None => {
                return Err(ConfigError::UnparsableInteger);
            },
        };
        value = match tens.checked_add(d) {
            Some(sum) => sum,
            None => {
                return Err(ConfigError::UnparsableInteger);
            },
        };
        i += 1;
    }
    assert(digits.take(len - start) == digits);
    Ok(value)
}

/// One dimension of the grid: `default` where none is given, else the
/// number that the text writes, which must not be zero.
pub fn dimension(arg: Option<&str>, default: usize) -> (result: Result<usize, ConfigError>)
    ensures
        result == dimension_of(
            match arg {
                Some(text) => Some(text@),
                None => None,
            },
            default,
        ),
{
    match arg {
        None => Ok(default),
        Some(text) => match parse_integer(text) {
            Ok(value) => if value > 0 {
                Ok(value)
            } else {
                Err(ConfigError::ZeroDimension)
            },
            Err(e) => Err(e),
        },
    }
}

/// The number of seeding draws: none where none is given, which leaves
/// the choice to the grid, else the number that the text writes.
pub fn seed_count(arg: Option<&str>) -> (result: Result<Option<usize>, ConfigError>)
    ensures
        match arg {
            None => result == Ok::<Option<usize>, ConfigError>(None),
            Some(text) => match parsed(text@) {
                Ok(count) => result == Ok::<Option<usize>, ConfigError>(Some(count)),
                Err(e) => result == Err::<Option<usize>, ConfigError>(e),
            },
        },
{
    match arg {
        None => Ok(None),
        Some(text) => match parse_integer(text) {
            Ok(count) => Ok(Some(count)),
            Err(e) => Err(e),
        },
    }
}

} // verus!
