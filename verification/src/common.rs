//! Small helpers shared by the reference-data loaders.

use vstd::prelude::*;

use crate::errors::{DbError, DbErrorKind};

verus! {

/// Packs an optional `[year, month, day]` triple into the number
/// `y * 10000 + m * 100 + d`.  Anything but a three-element array is
/// invalid data.  The packed value must fit the machine word.
pub fn date_from_parts(parts: &Option<Vec<u64>>) -> (r: Result<Option<u64>, DbError>)
    requires
        (match parts {
            Some(d) => d@.len() == 3
                ==> d@[0] * 10000 + d@[1] * 100 + d@[2] <= u64::MAX,
            None => true,
        }),
    ensures
        match parts {
            Some(d) => {
                if d@.len() == 3 {
                    r matches Ok(v) && v matches Some(x)
                        && x == d@[0] * 10000 + d@[1] * 100 + d@[2]
                } else {
                    r matches Err(e) && e.kind == DbErrorKind::InvalidData
                }
            },
            None => r matches Ok(v) && v is None,
        },
{
    match parts {
        Some(d) => {
            if d.len() != 3 {
                Err(DbError::new(DbErrorKind::InvalidData, "invalid date array".to_owned()))
            } else {
                Ok(Some(d[0] * 10000 + d[1] * 100 + d[2]))
            }
        },
        None => Ok(None),
    }
}

/// Whether the character is one of the ten decimal digits.
pub open spec fn is_decimal_digit(c: char) -> bool {
    '0' <= c && c <= '9'
}

/// Whether every character of the sequence is a decimal digit.
pub open spec fn all_decimal_digits(s: Seq<char>) -> bool {
    forall|i: int| 0 <= i < s.len() ==> is_decimal_digit(#[trigger] s[i])
}

/// The number a digit sequence denotes in base ten.
pub open spec fn decimal_value(s: Seq<char>) -> int
    decreases s.len(),
{
    if s.len() == 0 {
        0
    } else {
        decimal_value(s.drop_last()) * 10 + (s.last() as int - '0' as int)
    }
}

/// A digit sequence denotes a non-negative number.
proof fn lemma_decimal_nonneg(s: Seq<char>)
    requires
        all_decimal_digits(s),
    ensures
        decimal_value(s) >= 0,
    decreases s.len(),
{
    if s.len() > 0 {
        lemma_decimal_nonneg(s.drop_last());
    }
}

/// Extending a digit sequence never shrinks its value.
proof fn lemma_decimal_prefix(s: Seq<char>, j: int)
    requires
        all_decimal_digits(s),
        0 <= j <= s.len(),
    ensures
        decimal_value(s.take(j)) <= decimal_value(s),
    decreases s.len() - j,
{
    if j == s.len() {
        assert(s.take(j) =~= s);
    } else {
        lemma_decimal_prefix(s, j + 1);
        assert(s.take(j + 1).drop_last() =~= s.take(j));
        lemma_decimal_nonneg(s.take(j));
        assert(decimal_value(s.take(j + 1))
            == decimal_value(s.take(j)) * 10 + (s.take(j + 1).last() as int - '0' as int));
    }
}

/// Parses a non-empty decimal string.  An empty string, a non-digit
/// character or a value beyond the machine word is invalid data.
pub fn parse_decimal(s: &str) -> (r: Result<usize, DbError>)
    ensures
        (s@.len() > 0 && all_decimal_digits(s@) && decimal_value(s@) <= usize::MAX as int)
            ==> (r matches Ok(v) && v as int == decimal_value(s@)),
        !(s@.len() > 0 && all_decimal_digits(s@) && decimal_value(s@) <= usize::MAX as int)
            ==> (r matches Err(e) && e.kind == DbErrorKind::InvalidData),
{
    let n = s.unicode_len();
    if n == 0 {
        return Err(DbError::new(DbErrorKind::InvalidData, "empty number".to_owned()));
    }
    let mut value: usize = 0;
    let mut i: usize = 0;
    while i < n
        invariant
            i <= n,
            n == s@.len(),
            all_decimal_digits(s@.take(i as int)),
            value as int == decimal_value(s@.take(i as int)),
        decreases n - i,
    {
        let c = s.get_char(i);
        let d = c as u32;
        if d < 48 || d > 57 {
            proof {
                assert(!is_decimal_digit(s@[i as int]));
            }
            return Err(DbError::new(DbErrorKind::InvalidData, "invalid number".to_owned()));
        }
        let digit = (d - 48) as usize;
        proof {
            assert(s@.take(i + 1).drop_last() =~= s@.take(i as int));
            assert(s@.take(i + 1).last() == s@[i as int]);
        }
        let scaled = match value.checked_mul(10) {
            Some(v) => v,
            None => {
                proof {
                    lemma_decimal_nonneg(s@.take(i as int));
                    if all_decimal_digits(s@) {
                        lemma_decimal_prefix(s@, i + 1);
                    }
                }
                return Err(DbError::new(DbErrorKind::InvalidData, "number overflow".to_owned()));
            },
        };
        value = match scaled.checked_add(digit) {
            Some(v) => v,
            None => {
                proof {
                    lemma_decimal_nonneg(s@.take(i as int));
                    if all_decimal_digits(s@) {
                        lemma_decimal_prefix(s@, i + 1);
                    }
                }
                return Err(DbError::new(DbErrorKind::InvalidData, "number overflow".to_owned()));
            },
        };
        i = i + 1;
    }
    proof {
        assert(s@.take(n as int) =~= s@);
    }
    Ok(value)
}

} // verus!
