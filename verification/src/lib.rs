//! A telemetry routing server: incoming byte streams are framed into JSON
//! messages, demultiplexed by publisher identity, and forwarded to
//! per-publisher consumers, while consumer feedback is relayed back to the
//! connection that produced the triggering message.

pub mod config;
pub mod console;
pub mod double_channel;
pub mod framer;
pub mod json;
pub mod messages;
pub mod record;
pub mod router;
pub mod stats;
pub mod table;

use vstd::prelude::*;
use vstd::string::StringSliceAdditionalSpecFns;

verus! {

/// Smallest port number an operator may choose.
pub const MIN_VALID_PORT: u32 = 1024;

/// Largest port number an operator may choose.
pub const MAX_VALID_PORT: u32 = 49151;

/// The numeric value of a sequence of ASCII decimal digits, most significant
/// first, as an unbounded integer.
pub open spec fn decimal_value(digits: Seq<u8>) -> int
    decreases digits.len(),
{
    if digits.len() == 0 {
        0
    } else {
        decimal_value(digits.drop_last()) * 10 + (digits.last() - 0x30)
    }
}

/// True when every byte is an ASCII decimal digit.
pub open spec fn all_digits(s: Seq<u8>) -> bool {
    forall|i: int| 0 <= i < s.len() ==> 0x30 <= #[trigger] s[i] <= 0x39
}

/// The bytes of a port string once an optional leading `+` sign is removed.
pub open spec fn digits_of_port_str(s: Seq<u8>) -> Seq<u8> {
    if s.len() > 0 && s[0] == 0x2b {
        s.skip(1)
    } else {
        s
    }
}

/// True when the string is a decimal numeral that `u32` parsing accepts:
/// an optional `+` sign followed by at least one digit, with a value that
/// fits in a `u32`.
pub open spec fn is_u32_numeral(s: Seq<u8>) -> bool {
    &&& digits_of_port_str(s).len() > 0
    &&& all_digits(digits_of_port_str(s))
    &&& decimal_value(digits_of_port_str(s)) <= u32::MAX
}

/// The number a valid `u32` numeral denotes.
pub open spec fn u32_numeral_value(s: Seq<u8>) -> int {
    decimal_value(digits_of_port_str(s))
}

proof fn lemma_decimal_value_nonneg(digits: Seq<u8>)
    requires
        all_digits(digits),
    ensures
        decimal_value(digits) >= 0,
    decreases digits.len(),
{
    if digits.len() > 0 {
        assert(all_digits(digits.drop_last()));
        lemma_decimal_value_nonneg(digits.drop_last());
    }
}

/// Parses an unsigned decimal numeral (optional `+` sign, then digits).
/// Returns the value exactly when the numeral is well formed and fits in
/// `u32`.
pub fn parse_u32_decimal(s: &[u8]) -> (r: Option<u32>)
    ensures
        match r {
            Some(v) => is_u32_numeral(s@) && v == u32_numeral_value(s@),
            None => !is_u32_numeral(s@),
        },
{
    let start: usize = if s.len() > 0 && s[0] == 0x2b {
        1
    } else {
        0
    };
    let ghost digits = digits_of_port_str(s@);
    assert(digits == s@.skip(start as int));
    if s.len() == start {
        return None;
    }
    let mut value: u32 = 0;
    let mut i: usize = start;
    while i < s.len()
        invariant
            start <= i <= s.len(),
            digits == s@.skip(start as int),
            digits == digits_of_port_str(s@),
            all_digits(digits.take(i - start)),
            value == decimal_value(digits.take(i - start)),
        decreases s.len() - i,
    {
        let b = s[i];
        if b < 0x30 || b > 0x39 {
            proof {
                assert(digits[i - start] == b);
                assert(!all_digits(digits));
            }
            return None;
        }
        let d: u32 = (b - 0x30) as u32;
        proof {
            assert(digits.take(i + 1 - start).drop_last() == digits.take(i - start));
            assert(digits.take(i + 1 - start).last() == b);
        }
        if value > (u32::MAX - d) / 10 {
            proof {
                assert(decimal_value(digits.take(i + 1 - start)) == value * 10 + d);
                assert(value * 10 + d > u32::MAX) by {
                    assert(value >= (u32::MAX - d) / 10 + 1);
                    assert(((u32::MAX - d) / 10 + 1) * 10 + d > u32::MAX) by (nonlinear_arith)
                        requires
                            0 <= d <= 9,
                    ;
                    assert(value * 10 >= ((u32::MAX - d) / 10 + 1) * 10) by (nonlinear_arith)
                        requires
                            value >= (u32::MAX - d) / 10 + 1,
                    ;
                }
                lemma_extend_overflows(digits, i + 1 - start);
            }
            return None;
        }
        value = value * 10 + d;
        i = i + 1;
    }
    proof {
        assert(digits.take(i - start) == digits);
    }
    Some(value)
}

/// A numeral is worth at least as much as any of its prefixes.
proof fn lemma_decimal_prefix(digits: Seq<u8>, k: int)
    requires
        0 <= k <= digits.len(),
        all_digits(digits),
    ensures
        decimal_value(digits) >= decimal_value(digits.take(k)) >= 0,
    decreases digits.len(),
{
    if k == digits.len() {
        assert(digits.take(k) == digits);
        lemma_decimal_value_nonneg(digits);
    } else {
        assert(all_digits(digits.drop_last()));
        assert(digits.drop_last().take(k) == digits.take(k));
        lemma_decimal_prefix(digits.drop_last(), k);
    }
}

/// A prefix of the digit string already worth more than `u32::MAX` can only
/// grow: no extension of it denotes a value that fits.
proof fn lemma_extend_overflows(digits: Seq<u8>, k: int)
    requires
        0 <= k <= digits.len(),
        decimal_value(digits.take(k)) > u32::MAX,
    ensures
        all_digits(digits) ==> decimal_value(digits) > u32::MAX,
{
    if all_digits(digits) {
        lemma_decimal_prefix(digits, k);
    }
}

/// Interprets a command-line port argument. Accepts exactly the decimal
/// numerals (optional `+` sign) whose value lies in
/// `MIN_VALID_PORT ..= MAX_VALID_PORT`; everything else is rejected with the
/// message the operator sees.
pub fn parse_port(port_string: &String) -> (r: Result<u32, String>)
    ensures
        match r {
            Ok(port) => {
                &&& is_u32_numeral(vstd::utf8::encode_utf8(port_string@))
                &&& port == u32_numeral_value(vstd::utf8::encode_utf8(port_string@))
                &&& MIN_VALID_PORT <= port <= MAX_VALID_PORT
            },
            Err(msg) => {
                &&& (!is_u32_numeral(vstd::utf8::encode_utf8(port_string@)) ==> msg@
                    == "Invalid port: argument is not a number"@)
                &&& (is_u32_numeral(vstd::utf8::encode_utf8(port_string@)) ==> {
                    &&& !(MIN_VALID_PORT <= u32_numeral_value(vstd::utf8::encode_utf8(port_string@))
                        <= MAX_VALID_PORT)
                    &&& msg@ == "Invalid port, use number from range 1024-49151"@
                })
            },
        },
{
    let bytes = port_string.as_str().as_bytes();
    let port = match parse_u32_decimal(bytes) {
        Some(num) => num,
        None => {
            return Err("Invalid port: argument is not a number".to_owned());
        },
    };

    if port < MIN_VALID_PORT || port > MAX_VALID_PORT {
        return Err("Invalid port, use number from range 1024-49151".to_owned());
    }

    Ok(port)
}

} // verus!
