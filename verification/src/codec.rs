//! Timestamp codec: a log file's name is exactly the decimal
//! seconds-since-epoch of the earliest event the file may contain.

use vstd::prelude::*;
use vstd::arithmetic::div_mod::lemma_fundamental_div_mod;
use vstd::string::*;
use crate::time::{Timestamp, MIN_TIMESTAMP_SECS, MAX_TIMESTAMP_SECS, chrono_representable};

verus! {

/// Why decoding a filename failed.
#[derive(Clone, Copy, PartialEq, Eq, Structural, Debug)]
pub enum ParseError {
    /// The text is not a decimal integer (or does not fit in 64 bits).
    NotANumber,
    /// The integer does not map to a representable absolute time.
    OutOfRange,
}

pub open spec fn is_digit(c: char) -> bool {
    '0' <= c <= '9'
}

pub open spec fn digit_val(c: char) -> int {
    c as int - '0' as int
}

pub open spec fn digit_char(d: int) -> char {
    if d == 0 {
        '0'
    } else if d == 1 {
        '1'
    } else if d == 2 {
        '2'
    } else if d == 3 {
        '3'
    } else if d == 4 {
        '4'
    } else if d == 5 {
        '5'
    } else if d == 6 {
        '6'
    } else if d == 7 {
        '7'
    } else if d == 8 {
        '8'
    } else {
        '9'
    }
}

pub open spec fn all_digits(s: Seq<char>) -> bool {
    forall|i: int| 0 <= i < s.len() ==> is_digit(#[trigger] s[i])
}

/// Value of a digit string, most significant digit first.
pub open spec fn digits_val(s: Seq<char>) -> int
    decreases s.len(),
{
    if s.len() == 0 {
        0
    } else {
        digits_val(s.drop_last()) * 10 + digit_val(s.last())
    }
}

/// Shape of a decimal integer: an optional leading minus sign, then at least
/// one digit.
pub open spec fn is_int_string(s: Seq<char>) -> bool {
    if s.len() > 0 && s[0] == '-' {
        s.len() >= 2 && all_digits(s.skip(1))
    } else {
        s.len() >= 1 && all_digits(s)
    }
}

/// Value of a decimal integer string (meaningful when `is_int_string` holds).
pub open spec fn int_string_val(s: Seq<char>) -> int {
    if s.len() > 0 && s[0] == '-' {
        -digits_val(s.skip(1))
    } else {
        digits_val(s)
    }
}

/// What parsing a signed 64-bit decimal integer yields: the value when the
/// text has integer shape and the value fits, nothing otherwise.
pub open spec fn spec_parse_i64(s: Seq<char>) -> Option<i64> {
    if is_int_string(s) && i64::MIN as int <= int_string_val(s) <= i64::MAX as int {
        Some(int_string_val(s) as i64)
    } else {
        None
    }
}

/// What decoding a filename yields.
pub open spec fn spec_decode(s: Seq<char>) -> Result<Timestamp, ParseError> {
    match spec_parse_i64(s) {
        Some(v) => if MIN_TIMESTAMP_SECS <= v <= MAX_TIMESTAMP_SECS {
            Ok(Timestamp { secs: v })
        } else {
            Err(ParseError::OutOfRange)
        },
        None => Err(ParseError::NotANumber),
    }
}

/// Decimal digits of a non-negative number, most significant first.
pub open spec fn spec_digits(n: nat) -> Seq<char>
    decreases n,
{
    if n < 10 {
        seq![digit_char(n as int)]
    } else {
        spec_digits(n / 10).push(digit_char((n % 10) as int))
    }
}

/// What encoding a timestamp yields: its decimal text.
pub open spec fn spec_encode(t: Timestamp) -> Seq<char> {
    if t.secs < 0 {
        seq!['-'] + spec_digits((-(t.secs as int)) as nat)
    } else {
        spec_digits(t.secs as nat)
    }
}

pub proof fn lemma_digits_val_nonneg(s: Seq<char>)
    requires
        all_digits(s),
    ensures
        digits_val(s) >= 0,
    decreases s.len(),
{
    if s.len() > 0 {
        assert(all_digits(s.drop_last()));
        lemma_digits_val_nonneg(s.drop_last());
    }
}

pub proof fn lemma_digit_char_val(d: int)
    requires
        0 <= d <= 9,
    ensures
        is_digit(digit_char(d)),
        digit_val(digit_char(d)) == d,
{
}

/// The digits of `n` are digits, start with a digit, and read back as `n`.
pub proof fn lemma_spec_digits_facts(n: nat)
    ensures
        spec_digits(n).len() >= 1,
        all_digits(spec_digits(n)),
        digits_val(spec_digits(n)) == n,
    decreases n,
{
    if n < 10 {
        lemma_digit_char_val(n as int);
        let s = spec_digits(n);
        assert(s =~= seq![digit_char(n as int)]);
        assert(s.drop_last() =~= Seq::<char>::empty());
        assert(s.last() == digit_char(n as int));
        assert(digits_val(s) == digits_val(s.drop_last()) * 10 + digit_val(s.last()));
    } else {
        lemma_spec_digits_facts(n / 10);
        lemma_digit_char_val((n % 10) as int);
        let p = spec_digits(n / 10);
        let s = spec_digits(n);
        assert(s == p.push(digit_char((n % 10) as int)));
        assert(s.drop_last() =~= p);
        assert(s.last() == digit_char((n % 10) as int));
        assert(digits_val(s) == digits_val(p) * 10 + digit_val(digit_char((n % 10) as int)));
        lemma_fundamental_div_mod(n as int, 10);
        assert forall|i: int| 0 <= i < s.len() implies is_digit(#[trigger] s[i]) by {
            if i < p.len() {
                assert(is_digit(p[i]));
            }
        }
    }
}

/// Turns one decimal digit into its text.
fn digit_str(d: u64) -> (r: &'static str)
    requires
        d < 10,
    ensures
        r@ =~= seq![digit_char(d as int)],
{
    proof {
        reveal_strlit("0");
        reveal_strlit("1");
        reveal_strlit("2");
        reveal_strlit("3");
        reveal_strlit("4");
        reveal_strlit("5");
        reveal_strlit("6");
        reveal_strlit("7");
        reveal_strlit("8");
        reveal_strlit("9");
    }
    if d == 0 {
        "0"
    } else if d == 1 {
        "1"
    } else if d == 2 {
        "2"
    } else if d == 3 {
        "3"
    } else if d == 4 {
        "4"
    } else if d == 5 {
        "5"
    } else if d == 6 {
        "6"
    } else if d == 7 {
        "7"
    } else if d == 8 {
        "8"
    } else {
        "9"
    }
}

/// Decimal text of a non-negative number.
fn encode_magnitude(n: u64) -> (r: String)
    ensures
        r@ == spec_digits(n as nat),
    decreases n,
{
    if n < 10 {
        String::from_str(digit_str(n))
    } else {
        let prefix = encode_magnitude(n / 10);
        let last = digit_str(n % 10);
        let r = prefix.concat(last);
        proof {
            assert(r@ =~= spec_digits((n / 10) as nat).push(digit_char((n % 10) as int)));
        }
        r
    }
}

/// Encodes a timestamp as the decimal text used for log file names.
pub fn encode(t: &Timestamp) -> (r: String)
    requires
        t.representable(),
    ensures
        r@ == spec_encode(*t),
{
    if t.secs < 0 {
        let sign = String::from_str("-");
        proof {
            reveal_strlit("-");
        }
        let magnitude = encode_magnitude((-(t.secs)) as u64);
        let r = sign.concat(magnitude.as_str());
        proof {
            assert(r@ =~= spec_encode(*t));
        }
        r
    } else {
        encode_magnitude(t.secs as u64)
    }
}

/// Parses a signed 64-bit decimal integer.
pub fn parse_i64(s: &str) -> (r: Option<i64>)
    ensures
        r == spec_parse_i64(s@),
{
    let n = s.unicode_len();
    if n == 0 {
        return None;
    }
    let neg = s.get_char(0) == '-';
    let start: usize = if neg { 1 } else { 0 };
    if n == start {
        return None;
    }
    let limit: u64 = if neg { 9223372036854775808 } else { 9223372036854775807 };
    let mut acc: u64 = 0;
    let mut overflow = false;
    let mut i: usize = start;
    while i < n
        invariant
            start <= i <= n,
            n == s@.len(),
            n > start,
            neg ==> s@[0] == '-' && start == 1 && limit == 9223372036854775808u64,
            !neg ==> s@[0] != '-' && start == 0 && limit == 9223372036854775807u64,
            all_digits(s@.subrange(start as int, i as int)),
            !overflow ==> acc == digits_val(s@.subrange(start as int, i as int)) && acc <= limit,
            overflow ==> digits_val(s@.subrange(start as int, i as int)) > limit,
        decreases n - i,
    {
        let c = s.get_char(i);
        if c < '0' || c > '9' {
            proof {
                if neg {
                    assert(s@.skip(1)[i - 1] == s@[i as int]);
                    assert(!all_digits(s@.skip(1)));
                } else {
                    assert(!all_digits(s@));
                }
            }
            return None;
        }
        let d: u64 = (c as u32 - 48) as u64;
        let ghost pre = s@.subrange(start as int, i as int);
        let ghost cur = s@.subrange(start as int, i + 1 as int);
        proof {
            assert(cur =~= pre.push(s@[i as int]));
            assert(cur.drop_last() =~= pre);
            assert(cur.last() == s@[i as int]);
            assert(digit_val(s@[i as int]) == d);
            assert(digits_val(cur) == digits_val(pre) * 10 + d);
        }
        if !overflow {
            if acc > (limit - d) / 10 {
                proof {
                    lemma_fundamental_div_mod((limit - d) as int, 10);
                    assert(acc * 10 >= ((limit - d) / 10 + 1) * 10) by (nonlinear_arith)
                        requires acc >= (limit - d) / 10 + 1;
                    assert(digits_val(cur) > limit);
                }
                overflow = true;
            } else {
                proof {
                    lemma_fundamental_div_mod((limit - d) as int, 10);
                    assert(acc * 10 <= ((limit - d) / 10) * 10) by (nonlinear_arith)
                        requires acc <= (limit - d) / 10;
                }
                acc = acc * 10 + d;
            }
        } else {
            proof {
                lemma_digits_val_nonneg(pre);
            }
        }
        i += 1;
    }
    proof {
        if neg {
            assert(s@.subrange(start as int, n as int) =~= s@.skip(1));
        } else {
            assert(s@.subrange(start as int, n as int) =~= s@);
        }
    }
    if overflow {
        return None;
    }
    if neg {
        if acc == 9223372036854775808u64 {
            Some(i64::MIN)
        } else {
            Some(-(acc as i64))
        }
    } else {
        Some(acc as i64)
    }
}

/// Decodes a log file name into the timestamp it stands for.
pub fn decode(s: &str) -> (r: Result<Timestamp, ParseError>)
    ensures
        r == spec_decode(s@),
{
    match parse_i64(s) {
        None => Err(ParseError::NotANumber),
        Some(v) => {
            if chrono_representable(v) {
                Ok(Timestamp { secs: v })
            } else {
                Err(ParseError::OutOfRange)
            }
        },
    }
}

/// Law: decoding an encoded timestamp gives the timestamp back.
pub proof fn lemma_codec_round_trip(t: Timestamp)
    requires
        t.representable(),
    ensures
        spec_decode(spec_encode(t)) == Ok::<Timestamp, ParseError>(t),
{
    if t.secs < 0 {
        let m = (-(t.secs as int)) as nat;
        lemma_spec_digits_facts(m);
        let s = spec_encode(t);
        assert(s[0] == '-');
        assert(s.skip(1) =~= spec_digits(m));
        assert(is_int_string(s));
        assert(int_string_val(s) == t.secs as int);
    } else {
        let m = t.secs as nat;
        lemma_spec_digits_facts(m);
        let s = spec_encode(t);
        assert(is_digit(s[0]));
        assert(s[0] != '-');
        assert(is_int_string(s));
        assert(int_string_val(s) == t.secs as int);
    }
}

} // verus!
