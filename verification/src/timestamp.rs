//! Timestamps of package records.
//!
//! A record carries its timestamp either as a number or as text. Both stand for
//! the same kind of instant, a signed 64-bit count, and are compared by the
//! value they encode. Text encodes an instant when it is a decimal integer: an
//! optional `-` followed by one or more ASCII digits, within the range of `i64`.

use vstd::prelude::*;
use vstd::string::*;
use vstd::utf8::*;

verus! {

/// Whether `c` is one of the ASCII digits `0` to `9`.
pub open spec fn is_digit(c: char) -> bool {
    '0' <= c && c <= '9'
}

/// The number a digit stands for.
pub open spec fn digit_value(c: char) -> int {
    c as int - 48
}

/// Whether every character of `s` is an ASCII digit.
pub open spec fn all_digits(s: Seq<char>) -> bool {
    forall|i: int| 0 <= i < s.len() ==> is_digit(#[trigger] s[i])
}

/// The number that a run of digits stands for, most significant digit first.
pub open spec fn digits_value(s: Seq<char>) -> int
    decreases s.len(),
{
    if s.len() == 0 {
        0
    } else {
        digits_value(s.drop_last()) * 10 + digit_value(s.last())
    }
}

/// The integer that `s` stands for as a decimal numeral, if it is one.
pub open spec fn decimal_value(s: Seq<char>) -> Option<int> {
    if s.len() > 0 && s[0] == '-' {
        if s.len() > 1 && all_digits(s.skip(1)) {
            Some(-digits_value(s.skip(1)))
        } else {
            None
        }
    } else if s.len() > 0 && all_digits(s) {
        Some(digits_value(s))
    } else {
        None
    }
}

/// The instant that a textual timestamp encodes, if it encodes one.
pub open spec fn instant_of_text(s: Seq<char>) -> Option<i64> {
    match decimal_value(s) {
        Some(v) => if i64::MIN <= v <= i64::MAX {
            Some(v as i64)
        } else {
            None
        },
        None => None,
    }
}

/// The decimal digits of a natural number, without leading zeros (`0` is "0").
pub open spec fn digits_of(n: nat) -> Seq<char>
    decreases n,
{
    if n < 10 {
        seq![(n + 48) as char]
    } else {
        digits_of(n / 10).push((n % 10 + 48) as char)
    }
}

/// The decimal numeral that is usually written for `v`.
pub open spec fn decimal_text(v: int) -> Seq<char> {
    if v < 0 {
        seq!['-'] + digits_of((-v) as nat)
    } else {
        digits_of(v as nat)
    }
}

/// A run of digits never stands for a negative number, and a longer run that
/// extends it stands for at least as much.
pub proof fn digits_value_grows(s: Seq<char>, k: int)
    requires
        all_digits(s),
        0 <= k <= s.len(),
    ensures
        0 <= digits_value(s.take(k)) <= digits_value(s),
    decreases s.len() - k,
{
    digits_value_nonnegative(s.take(k));
    if k < s.len() {
        let next = s.take(k + 1);
        assert(next.drop_last() =~= s.take(k));
        assert(is_digit(s[k]));
        assert(next.last() == s[k]);
        digits_value_grows(s, k + 1);
    } else {
        assert(s.take(k) =~= s);
    }
}

/// A run of digits never stands for a negative number.
pub proof fn digits_value_nonnegative(s: Seq<char>)
    requires
        all_digits(s),
    ensures
        0 <= digits_value(s),
    decreases s.len(),
{
    if s.len() > 0 {
        assert(is_digit(s.last()));
        digits_value_nonnegative(s.drop_last());
    }
}

/// Writing a natural number down and reading it back gives the number.
pub proof fn digits_of_round_trip(n: nat)
    ensures
        digits_of(n).len() > 0,
        all_digits(digits_of(n)),
        digits_value(digits_of(n)) == n,
    decreases n,
{
    if n < 10 {
        let s = digits_of(n);
        assert(s.len() == 1);
        assert(s[0] == (n + 48) as char);
        assert(s.drop_last() =~= Seq::<char>::empty());
        assert(digits_value(s.drop_last()) == 0);
    } else {
        digits_of_round_trip(n / 10);
        let s = digits_of(n);
        assert(s.drop_last() =~= digits_of(n / 10));
        assert(s.last() == (n % 10 + 48) as char);
    }
}

/// Writing an integer down and reading it back gives the integer.
pub proof fn decimal_text_round_trip(v: int)
    ensures
        decimal_value(decimal_text(v)) == Some(v),
{
    if v < 0 {
        let n = (-v) as nat;
        digits_of_round_trip(n);
        let s = decimal_text(v);
        assert(s.skip(1) =~= digits_of(n));
        assert(s[0] == '-');
    } else {
        digits_of_round_trip(v as nat);
        let s = digits_of(v as nat);
        assert(s[0] != '-') by {
            assert(is_digit(s[0]));
        }
    }
}

/// A timestamp given as text and one given as a number encode the same
/// instant whenever the text is the decimal numeral of the number.
pub proof fn text_and_number_agree(instant: i64)
    ensures
        instant_of_text(decimal_text(instant as int)) == Some(instant),
{
    decimal_text_round_trip(instant as int);
}

/// Reads the digits of `bytes` from `start` on, as a number of at most
/// `limit`. Gives `None` when a byte is no digit or the number is larger.
fn parse_digits(bytes: &[u8], text: Ghost<Seq<char>>, start: usize, limit: u64) -> (r: Option<u64>)
    requires
        start <= bytes@.len(),
        text@.len() == bytes@.len(),
        forall|i: int| 0 <= i < text@.len() ==> text@[i] as int == bytes@[i] as int,
        9 <= limit <= 0x8000_0000_0000_0000,
    ensures
        match r {
            Some(v) => all_digits(text@.skip(start as int)) && v == digits_value(
                text@.skip(start as int),
            ) && v <= limit,
            None => !all_digits(text@.skip(start as int)) || digits_value(
                text@.skip(start as int),
            ) > limit,
        },
{
    let ghost digits = text@.skip(start as int);
    let mut value: u64 = 0;
    let mut i: usize = start;
    while i < bytes.len()
        invariant
            start <= i <= bytes@.len(),
            text@.len() == bytes@.len(),
            forall|j: int| 0 <= j < text@.len() ==> text@[j] as int == bytes@[j] as int,
            digits == text@.skip(start as int),
            all_digits(digits.take(i - start)),
            value == digits_value(digits.take(i - start)),
            value <= limit,
            9 <= limit <= 0x8000_0000_0000_0000,
        decreases bytes@.len() - i,
    {
        let b: u8 = bytes[i];
        let ghost prefix = digits.take(i - start);
        let ghost next = digits.take(i - start + 1);
        proof {
            assert(next.drop_last() =~= prefix);
            assert(next.last() == text@[i as int]);
        }
        if b < 48 || b > 57 {
            proof {
                assert(!is_digit(digits[i - start]));
            }
            return None;
        }
        let d: u64 = (b - 48) as u64;
        proof {
            assert(is_digit(text@[i as int]));
            assert(all_digits(next)) by {
                assert forall|j: int| 0 <= j < next.len() implies is_digit(#[trigger] next[j]) by {
                    if j < prefix.len() {
                        assert(next[j] == prefix[j]);
                    }
                }
            }
            assert(digits_value(next) == value * 10 + d);
        }
        if value > (limit - d) / 10 {
            proof {
                assert(value * 10 + d > limit);
                if all_digits(digits) {
                    digits_value_grows(digits, i - start + 1);
                }
            }
            return None;
        }
        value = value * 10 + d;
        i = i + 1;
    }
    proof {
        assert(digits.take(i - start) =~= digits);
    }
    Some(value)
}

/// Reads a textual timestamp: the instant it encodes, or `None` when the text
/// is no decimal integer in the range of `i64`.
pub fn parse_instant(text: &str) -> (r: Option<i64>)
    ensures
        r == instant_of_text(text@),
{
    if !text.is_ascii() {
        proof {
            let i = choose|i: int| 0 <= i < text@.len() && !('\0' <= #[trigger] text@[i] <= '\u{7f}');
            assert(!is_digit(text@[i]));
            assert(text@[i] != '-');
            if i > 0 {
                assert(text@.skip(1)[i - 1] == text@[i]);
            }
        }
        return None;
    }
    let bytes = text.as_bytes();
    proof {
        is_ascii_chars_encode_utf8(text@);
        assert(bytes@ == encode_utf8(text@));
        assert forall|i: int| 0 <= i < text@.len() implies text@[i] as int == bytes@[i] as int by {
            assert('\0' <= text@[i] <= '\u{7f}');
            assert(text@[i] as u8 == bytes@[i]);
        }
    }
    if bytes.len() == 0 {
        return None;
    }
    if bytes[0] == 45 {
        if bytes.len() == 1 {
            return None;
        }
        match parse_digits(bytes, Ghost(text@), 1, 0x8000_0000_0000_0000) {
            Some(v) => {
                if v == 0x8000_0000_0000_0000 {
                    Some(i64::MIN)
                } else {
                    let positive: i64 = v as i64;
                    Some(-positive)
                }
            },
            None => {
                proof {
                    if all_digits(text@.skip(1)) {
                        digits_value_nonnegative(text@.skip(1));
                    }
                }
                None
            },
        }
    } else {
        proof {
            assert(text@.skip(0) =~= text@);
        }
        match parse_digits(bytes, Ghost(text@), 0, 0x7fff_ffff_ffff_ffff) {
            Some(v) => Some(v as i64),
            None => {
                proof {
                    if all_digits(text@) {
                        digits_value_nonnegative(text@);
                    }
                }
                None
            },
        }
    }
}

} // verus!
