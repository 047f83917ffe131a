use vstd::prelude::*;

verus! {

/// A text is no number of the expected kind.
#[derive(Copy, Clone, Debug, PartialEq, Eq, Structural)]
pub struct ParseNumberError;

pub open spec fn is_digit(c: char) -> bool {
    '0' <= c <= '9'
}

pub open spec fn digit_value(c: char) -> int {
    c as int - '0' as int
}

pub open spec fn all_digits(s: Seq<char>) -> bool {
    forall|i: int| 0 <= i < s.len() ==> #[trigger] is_digit(s[i])
}

/// The value of a sequence of decimal digits.
pub open spec fn decimal_value(s: Seq<char>) -> nat
    decreases s.len(),
{
    if s.len() == 0 {
        0
    } else {
        (decimal_value(s.drop_last()) * 10 + digit_value(s.last())) as nat
    }
}

/// The value of an unsigned number: an optional `+`, followed by at least one decimal digit.
pub open spec fn unsigned_value(s: Seq<char>) -> Option<nat> {
    let body = if s.len() > 0 && s[0] == '+' {
        s.drop_first()
    } else {
        s
    };
    if body.len() > 0 && all_digits(body) {
        Some(decimal_value(body))
    } else {
        None
    }
}

/// The value of a signed number: an optional `+` or `-`, followed by at least one decimal digit.
pub open spec fn signed_value(s: Seq<char>) -> Option<int> {
    if s.len() > 0 && s[0] == '-' {
        let body = s.drop_first();
        if body.len() > 0 && all_digits(body) {
            Some(-decimal_value(body))
        } else {
            None
        }
    } else {
        match unsigned_value(s) {
            Some(v) => Some(v as int),
            None => None,
        }
    }
}

/// Appending a digit never makes a value smaller.
proof fn lemma_decimal_value_prefix(s: Seq<char>, i: int)
    requires
        0 <= i <= s.len(),
        all_digits(s),
    ensures
        decimal_value(s.take(i)) <= decimal_value(s),
    decreases s.len() - i,
{
    if i < s.len() {
        lemma_decimal_value_prefix(s, i + 1);
        assert(s.take(i + 1).drop_last() =~= s.take(i));
        assert(is_digit(s[i]));
    } else {
        assert(s.take(i) =~= s);
    }
}

/// The value of the digits `s[start..]`, if they are at least one, all digits and fit in a `u64`.
fn parse_digits(s: &[char], start: usize) -> (r: Option<u64>)
    requires
        start <= s@.len(),
    ensures
        ({
            let body = s@.skip(start as int);
            match r {
                Some(v) => body.len() > 0 && all_digits(body) && v == decimal_value(body),
                None => !(body.len() > 0 && all_digits(body)) || decimal_value(body) > u64::MAX,
            }
        }),
{
    let ghost body = s@.skip(start as int);
    if start >= s.len() {
        return None;
    }
    let mut acc: u64 = 0;
    let mut i: usize = start;
    while i < s.len()
        invariant
            start <= i <= s@.len(),
            body == s@.skip(start as int),
            all_digits(body.take(i - start)),
            acc == decimal_value(body.take(i - start)),
        decreases s@.len() - i,
    {
        let c = s[i];
        if !('0' <= c && c <= '9') {
            proof {
                assert(!is_digit(body[i - start]));
            }
            return None;
        }
        let d: u64 = (c as u32 - '0' as u32) as u64;
        proof {
            assert(body.take(i - start + 1).drop_last() =~= body.take(i - start));
            assert(body.take(i - start + 1).last() == c);
        }
        if acc > (u64::MAX - d) / 10 {
            proof {
                let pre = body.take(i - start + 1);
                assert(decimal_value(pre) > u64::MAX);
                if all_digits(body) {
                    lemma_decimal_value_prefix(body, i - start + 1);
                }
            }
            return None;
        }
        acc = acc * 10 + d;
        i = i + 1;
    }
    proof {
        assert(body.take(i - start) =~= body);
    }
    Some(acc)
}

/// Parses an unsigned number of at most `max`.
pub fn parse_unsigned(s: &[char], max: u64) -> (r: Option<u64>)
    ensures
        r == match unsigned_value(s@) {
            Some(v) => if v <= max {
                Some(v as u64)
            } else {
                None
            },
            None => None::<u64>,
        },
{
    let start: usize = if s.len() > 0 && s[0] == '+' {
        1
    } else {
        0
    };
    proof {
        if s@.len() > 0 && s@[0] == '+' {
            assert(s@.skip(1) =~= s@.drop_first());
        } else {
            assert(s@.skip(0) =~= s@);
        }
    }
    match parse_digits(s, start) {
        Some(v) => if v <= max {
            Some(v)
        } else {
            None
        },
        None => None,
    }
}

/// Parses a signed number of the `i64`-range.
pub fn parse_signed(s: &[char]) -> (r: Option<i64>)
    ensures
        r == match signed_value(s@) {
            Some(v) => if i64::MIN <= v <= i64::MAX {
                Some(v as i64)
            } else {
                None
            },
            None => None::<i64>,
        },
{
    if s.len() > 0 && s[0] == '-' {
        proof {
            assert(s@.skip(1) =~= s@.drop_first());
        }
        match parse_digits(s, 1) {
            Some(v) => if v <= 0x8000_0000_0000_0000u64 {
                if v == 0x8000_0000_0000_0000u64 {
                    Some(i64::MIN)
                } else {
                    Some(-(v as i64))
                }
            } else {
                None
            },
            None => None,
        }
    } else {
        match parse_unsigned(s, 0x7fff_ffff_ffff_ffffu64) {
            Some(v) => Some(v as i64),
            None => None,
        }
    }
}

} // verus!
