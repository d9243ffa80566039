//! Decimal notation, written into byte buffers and into message strings.
use vstd::prelude::*;
use crate::grammar;
use crate::term;
use crate::term::DIGIT_ZERO;

verus! {

/// Appends the decimal notation of `n` to `buf`.
pub(crate) fn write_decimal(buf: &mut Vec<u8>, n: u64)
    ensures
        final(buf)@ == old(buf)@ + term::decimal(n as nat),
    decreases n,
{
    if n >= 10 {
        write_decimal(buf, n / 10);
    }
    let d: u8 = (n % 10) as u8;
    buf.push(DIGIT_ZERO + d);
    proof {
        assert(term::digit_byte((n % 10) as nat) == DIGIT_ZERO + d);
        if n >= 10 {
            assert(term::decimal(n as nat) == term::decimal((n / 10) as nat).push(
                term::digit_byte((n % 10) as nat),
            ));
        }
    }
}

/// Appends the decimal notation of `i` to `buf`, with a `-` when negative.
pub(crate) fn write_signed_decimal(buf: &mut Vec<u8>, i: i64)
    ensures
        final(buf)@ == old(buf)@ + term::signed_decimal(i as int),
{
    if i < 0 {
        buf.push(term::MINUS);
        let magnitude: u64 = ((-(i + 1)) as u64) + 1;
        write_decimal(buf, magnitude);
    } else {
        write_decimal(buf, i as u64);
    }
}

/// The one-character text of the digit `d`.
fn digit_text(d: u8) -> (r: &'static str)
    requires
        d < 10,
    ensures
        r@ == seq![(DIGIT_ZERO + d) as char],
{
    match d {
        0 => {
            proof {
                reveal_strlit("0");
            }
            "0"
        },
        1 => {
            proof {
                reveal_strlit("1");
            }
            "1"
        },
        2 => {
            proof {
                reveal_strlit("2");
            }
            "2"
        },
        3 => {
            proof {
                reveal_strlit("3");
            }
            "3"
        },
        4 => {
            proof {
                reveal_strlit("4");
            }
            "4"
        },
        5 => {
            proof {
                reveal_strlit("5");
            }
            "5"
        },
        6 => {
            proof {
                reveal_strlit("6");
            }
            "6"
        },
        7 => {
            proof {
                reveal_strlit("7");
            }
            "7"
        },
        8 => {
            proof {
                reveal_strlit("8");
            }
            "8"
        },
        _ => {
            proof {
                reveal_strlit("9");
            }
            "9"
        },
    }
}

/// Appends the decimal notation of `n` to the text `s`.
pub(crate) fn append_decimal(s: &mut String, n: u64)
    ensures
        final(s)@ == old(s)@ + grammar::decimal_text(n as nat),
    decreases n,
{
    if n >= 10 {
        append_decimal(s, n / 10);
    }
    let d: u8 = (n % 10) as u8;
    s.append(digit_text(d));
    proof {
        let f = |b: u8| b as char;
        if n >= 10 {
            let head = term::decimal((n / 10) as nat);
            assert(term::decimal(n as nat) == head.push(term::digit_byte((n % 10) as nat)));
            assert(head.push(term::digit_byte((n % 10) as nat)).map_values(f) =~= head.map_values(
                f,
            ).push((DIGIT_ZERO + d) as char));
        } else {
            assert(term::decimal(n as nat).map_values(f) =~= seq![(DIGIT_ZERO + d) as char]);
        }
    }
}

/// The message for a byte that starts no token.
pub(crate) fn unknown_token_message(b: u8) -> (r: String)
    ensures
        r@ == grammar::msg_unknown_token(b),
{
    let mut s = String::from_str("unknown token: ");
    append_decimal(&mut s, b as u64);
    s
}

/// The message for a byte string cut short by the end of the input.
pub(crate) fn short_stream_message(expected: usize, got: usize) -> (r: String)
    ensures
        r@ == grammar::msg_short_stream(expected as nat, got as nat),
{
    let mut s = String::from_str("stream's length is expected to be ");
    append_decimal(&mut s, expected as u64);
    s.append(", but it's ");
    append_decimal(&mut s, got as u64);
    s.append(".");
    s
}

} // verus!
