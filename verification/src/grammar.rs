//! What the reader makes of a byte string: the value it yields, or the error
//! it reports with the position of the byte at which it gave up.
//!
//! Positions count from 0; a read past the last byte is at position `len`.
use vstd::prelude::*;
use crate::term;
use crate::term::{Term, CLOSE, COLON, DICT_OPEN, DIGIT_ZERO, INT_OPEN, LIST_OPEN, MINUS};

verus! {

/// The outcome of reading: a result, an error with its position and message,
/// or `Aborts` for the inputs that no reading can complete (a number beyond
/// `i64`, a dictionary key that is not UTF-8), with the position and message
/// that the checked reader reports for them.
pub enum Outcome<T> {
    Done(T),
    Failed(int, Seq<char>),
    Aborts(int, Seq<char>),
}

/// Decimal notation of `n` as text.
pub open spec fn decimal_text(n: nat) -> Seq<char> {
    term::decimal(n).map_values(|b: u8| b as char)
}

pub open spec fn msg_invalid_number() -> Seq<char> {
    "invalid number"@
}

pub open spec fn msg_negative_zero() -> Seq<char> {
    "Negative zero is not permitted"@
}

pub open spec fn msg_leading_zero() -> Seq<char> {
    "Leading zero is not permitted"@
}

pub open spec fn msg_misplaced_minus() -> Seq<char> {
    "`-` can only appear in the head of the number"@
}

pub open spec fn msg_stray_end() -> Seq<char> {
    "`e` should be the end of number, list and dictionary."@
}

pub open spec fn msg_stray_colon() -> Seq<char> {
    "`:` should be after the length of stream."@
}

pub open spec fn msg_unknown_token(b: u8) -> Seq<char> {
    "unknown token: "@ + decimal_text(b as nat)
}

pub open spec fn msg_short_stream(expected: nat, got: nat) -> Seq<char> {
    "stream's length is expected to be "@ + decimal_text(expected) + ", but it's "@
        + decimal_text(got) + "."@
}

pub open spec fn msg_invalid_input() -> Seq<char> {
    "invalid input"@
}

pub open spec fn msg_empty_number() -> Seq<char> {
    "Number cannot be empty"@
}

pub open spec fn msg_invalid_list() -> Seq<char> {
    "invalid list"@
}

pub open spec fn msg_invalid_dict() -> Seq<char> {
    "invalid dictionary"@
}

pub open spec fn msg_expect_eof() -> Seq<char> {
    "Expect EOF"@
}

pub open spec fn msg_out_of_range() -> Seq<char> {
    "number out of range"@
}

pub open spec fn msg_key_not_utf8() -> Seq<char> {
    "dictionary key is not UTF-8"@
}

/// Reading a number from index `k` of `p` up to the byte `symbol`, with the
/// value `num` read so far, the sign `sign` and the count `read` of bytes
/// read so far.
///
/// A number is an optional `-` as its first byte, then decimal digits: no `0`
/// right after the `-`, no digit after a leading `0`, and at least one digit
/// after a `-`. The `-` turns the value read so far negative, and each digit
/// moves the value one place left and away from zero. On `symbol` the result
/// is the value, the number of bytes before `symbol`, and the index of
/// `symbol`; a step that leaves `i64` aborts at its digit.
pub open spec fn scan_numeral(p: Seq<u8>, k: int, symbol: u8, num: int, sign: int, read: int) -> Outcome<(int, int, int)>
    decreases p.len() - k,
{
    if k < 0 || k >= p.len() {
        Outcome::Failed(k, msg_invalid_number())
    } else {
        let x = p[k];
        let r = read + 1;
        if term::is_digit(x) {
            let shifted = num * 10;
            let next = if sign == -1 {
                shifted - (x - DIGIT_ZERO)
            } else {
                shifted + (x - DIGIT_ZERO)
            };
            if x == DIGIT_ZERO && sign == -1 && r == 2 {
                Outcome::Failed(k, msg_negative_zero())
            } else if num == 0 && ((sign == 1 && r != 1) || (sign == -1 && r != 2)) {
                Outcome::Failed(k, msg_leading_zero())
            } else if shifted < i64::MIN || shifted > i64::MAX || next < i64::MIN || next > i64::MAX {
                Outcome::Aborts(k, msg_out_of_range())
            } else {
                scan_numeral(p, k + 1, symbol, next, sign, r)
            }
        } else if x == MINUS {
            if r != 1 {
                Outcome::Failed(k, msg_misplaced_minus())
            } else if -num > i64::MAX {
                Outcome::Aborts(k, msg_out_of_range())
            } else {
                scan_numeral(p, k + 1, symbol, -num, -1, r)
            }
        } else if x == symbol {
            if sign == -1 && r == 2 {
                Outcome::Failed(k, msg_invalid_number())
            } else {
                Outcome::Done((num, r - 1, k))
            }
        } else {
            Outcome::Failed(k, msg_invalid_number())
        }
    }
}

/// Reading `len` bytes from index `k` of `p`: the bytes and the index after
/// them, or, where `p` ends first, an error at the first read past its end.
pub open spec fn read_span(p: Seq<u8>, k: int, len: nat) -> Outcome<(Seq<u8>, int)> {
    if len == 0 {
        Outcome::Done((Seq::empty(), k))
    } else if k + len <= p.len() {
        Outcome::Done((p.subrange(k, k + len), k + len))
    } else if k >= p.len() {
        Outcome::Failed(k, msg_short_stream(len, 0))
    } else {
        Outcome::Failed(p.len() as int, msg_short_stream(len, (p.len() - k) as nat))
    }
}

/// The rest of an integer from index `k` (after its `i`): the value and the
/// index after its `e`.
pub open spec fn number_from(s: Seq<u8>, k: int) -> Outcome<(Term, int)> {
    match scan_numeral(s, k, CLOSE, 0, 1, 0) {
        Outcome::Done((v, r, k)) => if r < 1 {
            Outcome::Failed(k, msg_empty_number())
        } else {
            Outcome::Done((Term::Int(v), k + 1))
        },
        Outcome::Failed(p, m) => Outcome::Failed(p, m),
        Outcome::Aborts(p, m) => Outcome::Aborts(p, m),
    }
}

/// Reading a length whose first digit is at index `i`: that digit is the
/// number read so far, and the rest is read up to the `:`.
pub open spec fn length_scan(s: Seq<u8>, i: int) -> Outcome<(int, int, int)> {
    scan_numeral(s, i + 1, COLON, s[i] - DIGIT_ZERO, 1, 0)
}

/// A length whose first digit is at index `i`: its value and the index of
/// its `:`. A length is digits only, with no leading zero; a `-` or a `0`
/// followed by more digits is reported at the byte after the first digit.
pub open spec fn length_at(s: Seq<u8>, i: int) -> Outcome<(int, int)> {
    match length_scan(s, i) {
        Outcome::Done((n, r, k)) => if n < 0 {
            Outcome::Failed(i + 1, msg_misplaced_minus())
        } else if s[i] == DIGIT_ZERO && r > 0 {
            Outcome::Failed(i + 1, msg_leading_zero())
        } else {
            Outcome::Done((n, k))
        },
        Outcome::Failed(p, m) => Outcome::Failed(p, m),
        Outcome::Aborts(p, m) => Outcome::Aborts(p, m),
    }
}

/// A byte string whose length starts at index `i` (a digit): its bytes and
/// the index after them. The length is taken as a `usize`.
pub open spec fn bytes_at(s: Seq<u8>, i: int) -> Outcome<(Seq<u8>, int)> {
    match length_at(s, i) {
        Outcome::Done((n, k)) => read_span(s, k + 1, (n as usize) as nat),
        Outcome::Failed(p, m) => Outcome::Failed(p, m),
        Outcome::Aborts(p, m) => Outcome::Aborts(p, m),
    }
}

/// The error for a byte at index `i` that cannot start a value: `e` ends
/// nothing at the top level and is out of place inside a dictionary value,
/// `:` follows no length, and any other byte is unknown.
pub open spec fn misplaced_at(s: Seq<u8>, i: int, nested: bool) -> Outcome<(Term, int)> {
    let b = s[i];
    if b == CLOSE {
        if nested {
            Outcome::Failed(i, msg_invalid_input())
        } else {
            Outcome::Failed(i, msg_stray_end())
        }
    } else if b == COLON {
        Outcome::Failed(i, msg_stray_colon())
    } else {
        Outcome::Failed(i, msg_unknown_token(b))
    }
}

/// A value starting at index `i`, at the top level (`nested` false) or
/// inside a container: the value and the index after it.
pub open spec fn value_at(s: Seq<u8>, i: int, nested: bool) -> Outcome<(Term, int)>
    decreases s.len() - i, 1int,
{
    if i < 0 || i >= s.len() {
        Outcome::Failed(i, msg_invalid_input())
    } else {
        let b = s[i];
        if b == INT_OPEN {
            number_from(s, i + 1)
        } else if b == LIST_OPEN {
            list_items(s, i + 1, Seq::empty())
        } else if b == DICT_OPEN {
            dict_items(s, i + 1, Seq::empty())
        } else if term::is_digit(b) {
            match bytes_at(s, i) {
                Outcome::Done((bytes, j)) => Outcome::Done((Term::Bytes(bytes), j)),
                Outcome::Failed(p, m) => Outcome::Failed(p, m),
                Outcome::Aborts(p, m) => Outcome::Aborts(p, m),
            }
        } else {
            misplaced_at(s, i, nested)
        }
    }
}

/// The rest of a list from index `i`, after the items `acc`: the list and the
/// index after its `e`.
pub open spec fn list_items(s: Seq<u8>, i: int, acc: Seq<Term>) -> Outcome<(Term, int)>
    decreases s.len() - i, 2int,
{
    if i < 0 || i >= s.len() {
        Outcome::Failed(i, msg_invalid_list())
    } else if s[i] == CLOSE {
        Outcome::Done((Term::List(acc), i + 1))
    } else {
        match value_at(s, i, true) {
            Outcome::Done((v, j)) => if i < j <= s.len() {
                list_items(s, j, acc.push(v))
            } else {
                Outcome::Aborts(i, msg_invalid_input())
            },
            Outcome::Failed(p, m) => Outcome::Failed(p, m),
            Outcome::Aborts(p, m) => Outcome::Aborts(p, m),
        }
    }
}

/// The rest of a dictionary from index `i`, after the entries `acc`: the
/// dictionary and the index after its `e`. Each key is a byte string that
/// must be UTF-8; a later entry with the same key replaces the earlier one.
pub open spec fn dict_items(s: Seq<u8>, i: int, acc: Seq<(Seq<u8>, Term)>) -> Outcome<(Term, int)>
    decreases s.len() - i, 2int,
{
    if i < 0 || i >= s.len() {
        Outcome::Failed(i, msg_invalid_dict())
    } else {
        let b = s[i];
        if b == CLOSE {
            Outcome::Done((Term::Dict(acc), i + 1))
        } else if term::is_digit(b) {
            match bytes_at(s, i) {
                Outcome::Done((key, j)) => if !vstd::utf8::valid_utf8(key) {
                    Outcome::Aborts(j - 1, msg_key_not_utf8())
                } else if i < j <= s.len() {
                    match value_at(s, j, true) {
                        Outcome::Done((v, j2)) => if j < j2 <= s.len() {
                            dict_items(s, j2, term::dict_insert(acc, key, v))
                        } else {
                            Outcome::Aborts(j, msg_invalid_input())
                        },
                        Outcome::Failed(p, m) => Outcome::Failed(p, m),
                        Outcome::Aborts(p, m) => Outcome::Aborts(p, m),
                    }
                } else {
                    Outcome::Aborts(i, msg_invalid_input())
                },
                Outcome::Failed(p, m) => Outcome::Failed(p, m),
                Outcome::Aborts(p, m) => Outcome::Aborts(p, m),
            }
        } else if b == INT_OPEN || b == LIST_OPEN || b == DICT_OPEN {
            Outcome::Failed(i, msg_invalid_dict())
        } else if b == COLON {
            Outcome::Failed(i, msg_stray_colon())
        } else {
            Outcome::Failed(i, msg_unknown_token(b))
        }
    }
}

/// The entries of a dictionary from index `i`, after the entries `acc`, in
/// the order they appear: every key with the value that follows it, repeats
/// included; and the index after the dictionary's `e`.
pub open spec fn entries_in_order(s: Seq<u8>, i: int, acc: Seq<(Seq<u8>, Term)>) -> Outcome<
    (Seq<(Seq<u8>, Term)>, int),
>
    decreases s.len() - i,
{
    if i < 0 || i >= s.len() {
        Outcome::Failed(i, msg_invalid_dict())
    } else if s[i] == CLOSE {
        Outcome::Done((acc, i + 1))
    } else if term::is_digit(s[i]) {
        match bytes_at(s, i) {
            Outcome::Done((key, j)) => if !vstd::utf8::valid_utf8(key) {
                Outcome::Aborts(j - 1, msg_key_not_utf8())
            } else if i < j <= s.len() {
                match value_at(s, j, true) {
                    Outcome::Done((v, j2)) => if j < j2 <= s.len() {
                        entries_in_order(s, j2, acc.push((key, v)))
                    } else {
                        Outcome::Aborts(j, msg_invalid_input())
                    },
                    Outcome::Failed(p, m) => Outcome::Failed(p, m),
                    Outcome::Aborts(p, m) => Outcome::Aborts(p, m),
                }
            } else {
                Outcome::Aborts(i, msg_invalid_input())
            },
            Outcome::Failed(p, m) => Outcome::Failed(p, m),
            Outcome::Aborts(p, m) => Outcome::Aborts(p, m),
        }
    } else {
        Outcome::Failed(i, msg_invalid_dict())
    }
}

/// What follows a complete top-level value at index `j`: nothing, or an error.
pub open spec fn trailing_at(s: Seq<u8>, j: int) -> Outcome<()> {
    if j < 0 || j >= s.len() {
        Outcome::Done(())
    } else {
        let b = s[j];
        if b == INT_OPEN || b == LIST_OPEN || b == DICT_OPEN {
            Outcome::Failed(j, msg_expect_eof())
        } else if term::is_digit(b) {
            match length_at(s, j) {
                Outcome::Done((_n, k)) => Outcome::Failed(k, msg_expect_eof()),
                Outcome::Failed(p, m) => Outcome::Failed(p, m),
                Outcome::Aborts(p, m) => Outcome::Aborts(p, m),
            }
        } else if b == CLOSE {
            Outcome::Failed(j, msg_stray_end())
        } else if b == COLON {
            Outcome::Failed(j, msg_stray_colon())
        } else {
            Outcome::Failed(j, msg_unknown_token(b))
        }
    }
}

/// What reading the whole of `s` gives: exactly one value and nothing after it.
pub open spec fn parse_spec(s: Seq<u8>) -> Outcome<Term> {
    match value_at(s, 0, false) {
        Outcome::Done((t, j)) => match trailing_at(s, j) {
            Outcome::Done(_) => Outcome::Done(t),
            Outcome::Failed(p, m) => Outcome::Failed(p, m),
            Outcome::Aborts(p, m) => Outcome::Aborts(p, m),
        },
        Outcome::Failed(p, m) => Outcome::Failed(p, m),
        Outcome::Aborts(p, m) => Outcome::Aborts(p, m),
    }
}

/// A number read in full fits in an `i64`, its `symbol` lies at or after the
/// start inside the input, and an error lies at or after the start.
pub proof fn lemma_scan_numeral_bounds(p: Seq<u8>, k: int, symbol: u8, num: int, sign: int, read: int)
    requires
        i64::MIN < num <= i64::MAX,
        sign == 1 || sign == -1,
        read >= 0,
    ensures
        scan_numeral(p, k, symbol, num, sign, read) matches Outcome::Done((v, r, idx)) ==> {
            &&& i64::MIN <= v <= i64::MAX
            &&& k <= idx < p.len()
            &&& 0 <= idx
            &&& p[idx] == symbol
            &&& r == read + (idx - k)
        },
        scan_numeral(p, k, symbol, num, sign, read) matches Outcome::Failed(q, _) ==> k <= q && (q
            <= p.len() || q == k),
        scan_numeral(p, k, symbol, num, sign, read) matches Outcome::Aborts(q, _) ==> k <= q < p.len(),
    decreases p.len() - k,
{
    if 0 <= k < p.len() {
        let x = p[k];
        if term::is_digit(x) {
            let shifted = num * 10;
            let next = if sign == -1 {
                shifted - (x - DIGIT_ZERO)
            } else {
                shifted + (x - DIGIT_ZERO)
            };
            if i64::MIN < next <= i64::MAX {
                lemma_scan_numeral_bounds(p, k + 1, symbol, next, sign, read + 1);
            } else if next == i64::MIN {
                lemma_scan_numeral_min(p, k + 1, symbol, sign, read + 1);
            }
        } else if x == MINUS && read + 1 == 1 {
            lemma_scan_numeral_bounds(p, k + 1, symbol, -num, -1, read + 1);
        }
    }
}

/// From the value `i64::MIN` no digit can follow: the number ends at once.
proof fn lemma_scan_numeral_min(p: Seq<u8>, k: int, symbol: u8, sign: int, read: int)
    requires
        read >= 1,
    ensures
        scan_numeral(p, k, symbol, i64::MIN as int, sign, read) matches Outcome::Done((v, r, idx)) ==> {
            &&& v == i64::MIN
            &&& idx == k
            &&& 0 <= idx < p.len()
            &&& p[idx] == symbol
            &&& r == read
        },
        scan_numeral(p, k, symbol, i64::MIN as int, sign, read) matches Outcome::Failed(q, _) ==> k
            <= q && (q <= p.len() || q == k),
        scan_numeral(p, k, symbol, i64::MIN as int, sign, read) matches Outcome::Aborts(q, _) ==> k
            <= q < p.len(),
{
}

/// A length read in full lies in `0..=i64::MAX` and ends with a `:` after its
/// first digit; an error lies after the first digit and within the input, or
/// one read past it.
pub proof fn lemma_length_at_bounds(s: Seq<u8>, i: int)
    requires
        0 <= i < s.len(),
        term::is_digit(s[i]),
    ensures
        length_at(s, i) matches Outcome::Done((n, k)) ==> {
            &&& 0 <= n <= i64::MAX
            &&& i < k < s.len()
            &&& s[k] == COLON
        },
        length_at(s, i) matches Outcome::Failed(q, _) ==> i < q <= s.len() || q == i + 1,
        length_at(s, i) matches Outcome::Aborts(q, _) ==> i < q < s.len(),
        length_scan(s, i) matches Outcome::Done((_n, _r, k)) ==> i < k < s.len() && s[k] == COLON,
        length_scan(s, i) matches Outcome::Failed(q, _) ==> i < q <= s.len() || q == i + 1,
        length_scan(s, i) matches Outcome::Aborts(q, _) ==> i < q < s.len(),
{
    lemma_scan_numeral_bounds(s, i + 1, COLON, s[i] - DIGIT_ZERO, 1, 0);
}

/// A byte string read in full ends after its start and within the input.
pub proof fn lemma_bytes_at_ends(s: Seq<u8>, i: int)
    requires
        0 <= i < s.len(),
        term::is_digit(s[i]),
    ensures
        bytes_at(s, i) matches Outcome::Done((_b, j)) ==> i < j <= s.len(),
{
    lemma_length_at_bounds(s, i);
}

/// A value read in full ends after its start and within the input.
pub proof fn lemma_value_at_ends(s: Seq<u8>, i: int, nested: bool)
    ensures
        value_at(s, i, nested) matches Outcome::Done((_t, j)) ==> i < j <= s.len(),
    decreases s.len() - i, 1int,
{
    if 0 <= i < s.len() {
        let b = s[i];
        if b == INT_OPEN {
            lemma_scan_numeral_bounds(s, i + 1, CLOSE, 0, 1, 0);
        } else if b == LIST_OPEN {
            lemma_list_items_ends(s, i + 1, Seq::empty());
        } else if b == DICT_OPEN {
            lemma_dict_items_ends(s, i + 1, Seq::empty());
        } else if term::is_digit(b) {
            lemma_bytes_at_ends(s, i);
        }
    }
}

/// The rest of a list read in full ends after its start and within the input.
pub proof fn lemma_list_items_ends(s: Seq<u8>, i: int, acc: Seq<Term>)
    ensures
        list_items(s, i, acc) matches Outcome::Done((_t, j)) ==> i < j <= s.len(),
    decreases s.len() - i, 2int,
{
    if 0 <= i < s.len() && s[i] != CLOSE {
        lemma_value_at_ends(s, i, true);
        if let Outcome::Done((v, j)) = value_at(s, i, true) {
            if i < j <= s.len() {
                lemma_list_items_ends(s, j, acc.push(v));
            }
        }
    }
}

/// The rest of a dictionary read in full ends after its start and within the
/// input.
pub proof fn lemma_dict_items_ends(s: Seq<u8>, i: int, acc: Seq<(Seq<u8>, Term)>)
    ensures
        dict_items(s, i, acc) matches Outcome::Done((_t, j)) ==> i < j <= s.len(),
    decreases s.len() - i, 2int,
{
    if 0 <= i < s.len() && term::is_digit(s[i]) {
        if let Outcome::Done((key, j)) = bytes_at(s, i) {
            if vstd::utf8::valid_utf8(key) && i < j <= s.len() {
                lemma_value_at_ends(s, j, true);
                if let Outcome::Done((v, j2)) = value_at(s, j, true) {
                    if j < j2 <= s.len() {
                        lemma_dict_items_ends(s, j2, term::dict_insert(acc, key, v));
                    }
                }
            }
        }
    }
}

} // verus!
