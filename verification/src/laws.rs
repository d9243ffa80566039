//! Properties of the library as a whole: reading gives back what writing
//! wrote, and what reading gives is a well-formed value.
use vstd::prelude::*;
use crate::grammar;
use crate::grammar::Outcome;
use crate::lexer::LexerView;
use crate::term;
use crate::term::{Term, CLOSE, COLON, DICT_OPEN, DIGIT_ZERO, INT_OPEN, LIST_OPEN, MINUS};

verus! {

/// Every byte of a decimal notation is a digit; it starts with a nonzero
/// digit unless the number is `0`.
proof fn lemma_decimal_digits(n: nat)
    ensures
        term::decimal(n).len() >= 1,
        forall|x: int| 0 <= x < term::decimal(n).len() ==> term::is_digit(#[trigger] term::decimal(n)[x]),
        n >= 1 ==> term::decimal(n)[0] != DIGIT_ZERO,
        n < 10 ==> term::decimal(n)[0] == DIGIT_ZERO + n,
    decreases n,
{
    if n >= 10 {
        lemma_decimal_digits(n / 10);
        let d = term::decimal(n);
        assert forall|x: int| 0 <= x < d.len() implies term::is_digit(#[trigger] d[x]) by {
            if x < d.len() - 1 {
                assert(d[x] == term::decimal(n / 10)[x]);
            }
        }
    }
}

/// `m` with the sign `sign`.
spec fn signed(sign: int, m: int) -> int {
    if sign == -1 {
        -m
    } else {
        m
    }
}

/// Reading the digits of `n` after its first one, with the first one already
/// counted, ends with `n` under the sign read before it.
proof fn lemma_scan_decimal(s: Seq<u8>, k: int, symbol: u8, n: nat, sign: int, read: int)
    requires
        1 <= n,
        i64::MIN <= signed(sign, n as int) <= i64::MAX,
        sign == 1 || (sign == -1 && read >= 2),
        1 <= k,
        k - 1 + term::decimal(n).len() <= s.len(),
        s.subrange(k - 1, k - 1 + term::decimal(n).len()) == term::decimal(n),
    ensures
        grammar::scan_numeral(s, k, symbol, signed(sign, term::decimal(n)[0] - DIGIT_ZERO), sign, read)
            == grammar::scan_numeral(
            s,
            k - 1 + term::decimal(n).len(),
            symbol,
            signed(sign, n as int),
            sign,
            read + term::decimal(n).len() - 1,
        ),
    decreases n,
{
    lemma_decimal_digits(n);
    if n >= 10 {
        let q = n / 10;
        let dq = term::decimal(q);
        let d = term::decimal(n);
        let lq = dq.len() as int;
        assert(d == dq.push(term::digit_byte(n % 10)));
        assert(s.subrange(k - 1, k - 1 + lq) =~= dq) by {
            assert forall|x: int| 0 <= x < lq implies s.subrange(k - 1, k - 1 + lq)[x] == dq[x] by {
                assert(s.subrange(k - 1, k - 1 + d.len() as int)[x] == d[x]);
            }
        }
        lemma_scan_decimal(s, k, symbol, q, sign, read);
        lemma_decimal_digits(q);
        assert(d[0] == dq[0]);
        let at = k - 1 + lq;
        assert(s[at] == d[lq]) by {
            assert(s.subrange(k - 1, k - 1 + d.len() as int)[lq] == d[lq]);
        }
        assert(s[at] == term::digit_byte(n % 10));
        assert(q * 10 + (s[at] - DIGIT_ZERO) == n);
        assert(signed(sign, q as int) * 10 == signed(sign, (q * 10) as int));
    }
}

/// Where `e` stands at index `i` of `s`, each part of `e` stands at the
/// matching index.
proof fn lemma_window(s: Seq<u8>, i: int, e: Seq<u8>, a: int, b: int)
    requires
        0 <= i,
        i + e.len() <= s.len(),
        s.subrange(i, i + e.len()) == e,
        0 <= a <= b <= e.len(),
    ensures
        s.subrange(i + a, i + b) == e.subrange(a, b),
        a < e.len() ==> s[i + a] == e[a],
{
    assert forall|x: int| 0 <= x < b - a implies s.subrange(i + a, i + b)[x] == e.subrange(a, b)[x] by {
        assert(s.subrange(i, i + e.len())[a + x] == e[a + x]);
    }
    assert(s.subrange(i + a, i + b) =~= e.subrange(a, b));
    if a < e.len() {
        assert(s.subrange(i, i + e.len())[a] == e[a]);
    }
}

/// The encoding of an integer reads back as that integer.
proof fn lemma_number_encoded(s: Seq<u8>, i: int, v: int, nested: bool)
    requires
        i64::MIN <= v <= i64::MAX,
        0 <= i,
        i + term::encode(Term::Int(v)).len() <= s.len(),
        s.subrange(i, i + term::encode(Term::Int(v)).len()) == term::encode(Term::Int(v)),
    ensures
        grammar::value_at(s, i, nested) == Outcome::Done(
            (Term::Int(v), i + term::encode(Term::Int(v)).len()),
        ),
{
    let e = term::encode(Term::Int(v));
    let sd = term::signed_decimal(v);
    assert(e == seq![INT_OPEN] + sd + seq![CLOSE]);
    lemma_window(s, i, e, 0, 0);
    lemma_window(s, i, e, 1 + sd.len() as int, 1 + sd.len() as int);
    assert(s[i] == INT_OPEN);
    assert(s[i + 1 + sd.len()] == CLOSE);
    if v >= 0 {
        let n = v as nat;
        let d = term::decimal(n);
        lemma_decimal_digits(n);
        assert(sd == d);
        lemma_window(s, i, e, 1, 1 + d.len() as int);
        assert(e.subrange(1, 1 + d.len() as int) =~= d);
        assert(s[i + 1] == d[0]) by {
            lemma_window(s, i, e, 1, 1);
        }
        if n == 0 {
            assert(d =~= seq![DIGIT_ZERO]);
            assert(grammar::scan_numeral(s, i + 2, CLOSE, 0, 1, 1) == Outcome::<(int, int, int)>::Done(
                (0, 1, i + 2),
            ));
        } else {
            lemma_scan_decimal(s, i + 2, CLOSE, n, 1, 1);
            assert(grammar::scan_numeral(s, i + 1, CLOSE, 0, 1, 0) == grammar::scan_numeral(
                s,
                i + 2,
                CLOSE,
                signed(1, d[0] - DIGIT_ZERO),
                1,
                1,
            ));
        }
    } else {
        let n = (-v) as nat;
        let d = term::decimal(n);
        lemma_decimal_digits(n);
        assert(sd == seq![MINUS] + d);
        lemma_window(s, i, e, 2, 2 + d.len() as int);
        assert(e.subrange(2, 2 + d.len() as int) =~= d);
        assert(s[i + 1] == MINUS) by {
            lemma_window(s, i, e, 1, 1);
        }
        assert(s[i + 2] == d[0]) by {
            lemma_window(s, i, e, 2, 2);
        }
        lemma_scan_decimal(s, i + 3, CLOSE, n, -1, 2);
        assert(grammar::scan_numeral(s, i + 1, CLOSE, 0, 1, 0) == grammar::scan_numeral(
            s,
            i + 2,
            CLOSE,
            0,
            -1,
            1,
        ));
        assert(grammar::scan_numeral(s, i + 2, CLOSE, 0, -1, 1) == grammar::scan_numeral(
            s,
            i + 3,
            CLOSE,
            signed(-1, d[0] - DIGIT_ZERO),
            -1,
            2,
        ));
    }
}

/// The encoding of a byte string reads back as that byte string.
proof fn lemma_bytes_encoded(s: Seq<u8>, i: int, b: Seq<u8>)
    requires
        b.len() <= i64::MAX,
        b.len() <= usize::MAX,
        0 <= i,
        i + term::encode(Term::Bytes(b)).len() <= s.len(),
        s.subrange(i, i + term::encode(Term::Bytes(b)).len()) == term::encode(Term::Bytes(b)),
    ensures
        0 <= i < s.len(),
        term::is_digit(s[i]),
        grammar::bytes_at(s, i) == Outcome::Done((b, i + term::encode(Term::Bytes(b)).len())),
{
    let e = term::encode(Term::Bytes(b));
    let n = b.len();
    let d = term::decimal(n);
    let l = d.len() as int;
    lemma_decimal_digits(n);
    assert(e == d + seq![COLON] + b);
    lemma_window(s, i, e, 0, l);
    assert(e.subrange(0, l) =~= d);
    lemma_window(s, i, e, l, l);
    assert(s[i + l] == COLON);
    lemma_window(s, i, e, l + 1, l + 1 + n);
    assert(e.subrange(l + 1, l + 1 + n) =~= b);
    assert(s[i] == d[0]) by {
        lemma_window(s, i, e, 0, 0);
    }
    if n == 0 {
        assert(d =~= seq![DIGIT_ZERO]);
        assert(b =~= Seq::<u8>::empty());
        assert(grammar::length_scan(s, i) == Outcome::<(int, int, int)>::Done((0, 0, i + 1)));
    } else {
        lemma_scan_decimal(s, i + 1, COLON, n, 1, 0);
        assert(signed(1, d[0] - DIGIT_ZERO) == s[i] - DIGIT_ZERO);
        assert(grammar::scan_numeral(s, i + l, COLON, n as int, 1, l - 1) == Outcome::<
            (int, int, int),
        >::Done((n as int, l - 1, i + l)));
        assert(grammar::length_scan(s, i) == Outcome::<(int, int, int)>::Done(
            (n as int, l - 1, i + l),
        ));
    }
}

/// Every key of `acc` lies below every key of `d`.
pub open spec fn keys_below(acc: Seq<(Seq<u8>, Term)>, d: Seq<(Seq<u8>, Term)>) -> bool {
    forall|a: int, b: int|
        0 <= a < acc.len() && 0 <= b < d.len() ==> term::bytes_lt(#[trigger] acc[a].0, #[trigger] d[b].0)
}

/// The encoding of a value reads back as that value, wherever it stands.
proof fn lemma_value_encoded(t: Term, s: Seq<u8>, i: int, nested: bool)
    requires
        term::term_readable(t),
        0 <= i,
        i + term::encode(t).len() <= s.len(),
        s.subrange(i, i + term::encode(t).len()) == term::encode(t),
    ensures
        grammar::value_at(s, i, nested) == Outcome::Done((t, i + term::encode(t).len())),
    decreases t, 0int,
{
    let e = term::encode(t);
    match t {
        Term::Int(v) => {
            lemma_number_encoded(s, i, v, nested);
        },
        Term::Bytes(b) => {
            lemma_bytes_encoded(s, i, b);
        },
        Term::List(l) => {
            let body = term::encode_items(l);
            assert(e == seq![LIST_OPEN] + body + seq![CLOSE]);
            lemma_window(s, i, e, 0, 0);
            lemma_window(s, i, e, 1, 1 + body.len() as int);
            assert(e.subrange(1, 1 + body.len() as int) =~= body);
            lemma_window(s, i, e, 1 + body.len() as int, 1 + body.len() as int);
            lemma_items_encoded(l, s, i + 1, Seq::empty());
            assert(Seq::<Term>::empty() + l =~= l);
        },
        Term::Dict(d) => {
            let body = term::encode_entries(d);
            assert(e == seq![DICT_OPEN] + body + seq![CLOSE]);
            lemma_window(s, i, e, 0, 0);
            lemma_window(s, i, e, 1, 1 + body.len() as int);
            assert(e.subrange(1, 1 + body.len() as int) =~= body);
            lemma_window(s, i, e, 1 + body.len() as int, 1 + body.len() as int);
            lemma_entries_encoded(d, s, i + 1, Seq::empty());
            assert(Seq::<(Seq<u8>, Term)>::empty() + d =~= d);
        },
    }
}

/// The encodings of list items, then `e`, read back as the rest of a list.
proof fn lemma_items_encoded(l: Seq<Term>, s: Seq<u8>, k: int, acc: Seq<Term>)
    requires
        forall|x: int| 0 <= x < l.len() ==> term::term_readable(#[trigger] l[x]),
        0 <= k,
        k + term::encode_items(l).len() < s.len(),
        s.subrange(k, k + term::encode_items(l).len()) == term::encode_items(l),
        s[k + term::encode_items(l).len()] == CLOSE,
    ensures
        grammar::list_items(s, k, acc) == Outcome::Done(
            (Term::List(acc + l), k + term::encode_items(l).len() + 1),
        ),
    decreases l, 1int,
{
    let body = term::encode_items(l);
    if l.len() == 0 {
        assert(acc + l =~= acc);
    } else {
        let first = term::encode(l[0]);
        let rest = term::encode_items(l.drop_first());
        assert(body == first + rest);
        lemma_window(s, k, body, 0, first.len() as int);
        assert(body.subrange(0, first.len() as int) =~= first);
        lemma_window(s, k, body, first.len() as int, body.len() as int);
        assert(body.subrange(first.len() as int, body.len() as int) =~= rest);
        term::lemma_encode_head(l[0]);
        lemma_window(s, k, body, 0, 0);
        assert(s[k] == first[0]);
        lemma_value_encoded(l[0], s, k, true);
        assert forall|x: int| 0 <= x < l.drop_first().len() implies term::term_readable(
            #[trigger] l.drop_first()[x],
        ) by {
            assert(l.drop_first()[x] == l[x + 1]);
        }
        lemma_items_encoded(l.drop_first(), s, k + first.len(), acc.push(l[0]));
        assert(acc.push(l[0]) + l.drop_first() =~= acc + l);
    }
}

/// The encodings of dictionary entries with increasing keys, above the keys
/// read so far, then `e`, read back as the rest of a dictionary.
proof fn lemma_entries_encoded(
    d: Seq<(Seq<u8>, Term)>,
    s: Seq<u8>,
    k: int,
    acc: Seq<(Seq<u8>, Term)>,
)
    requires
        term::keys_increasing(d),
        forall|x: int|
            0 <= x < d.len() ==> {
                &&& vstd::utf8::valid_utf8(#[trigger] d[x].0)
                &&& d[x].0.len() <= i64::MAX
                &&& d[x].0.len() <= usize::MAX
                &&& term::term_readable(d[x].1)
            },
        keys_below(acc, d),
        0 <= k,
        k + term::encode_entries(d).len() < s.len(),
        s.subrange(k, k + term::encode_entries(d).len()) == term::encode_entries(d),
        s[k + term::encode_entries(d).len()] == CLOSE,
    ensures
        grammar::dict_items(s, k, acc) == Outcome::Done(
            (Term::Dict(acc + d), k + term::encode_entries(d).len() + 1),
        ),
    decreases d, 1int,
{
    let body = term::encode_entries(d);
    if d.len() == 0 {
        assert(acc + d =~= acc);
    } else {
        let key = d[0].0;
        let v = d[0].1;
        let kenc = term::encode(Term::Bytes(key));
        let venc = term::encode(v);
        let rest = term::encode_entries(d.drop_first());
        assert(kenc == term::decimal(key.len()) + seq![COLON] + key);
        assert(body =~= kenc + venc + rest);
        let a = kenc.len() as int;
        let b = a + venc.len();
        lemma_window(s, k, body, 0, a);
        assert(body.subrange(0, a) =~= kenc);
        lemma_window(s, k, body, a, b);
        assert(body.subrange(a, b) =~= venc);
        lemma_window(s, k, body, b, body.len() as int);
        assert(body.subrange(b, body.len() as int) =~= rest);
        lemma_bytes_encoded(s, k, key);
        lemma_value_encoded(v, s, k + a, true);
        assert forall|x: int| 0 <= x < acc.len() implies term::bytes_lt(#[trigger] acc[x].0, key) by {
            assert(term::bytes_lt(acc[x].0, d[0].0));
        }
        term::lemma_dict_insert_append(acc, key, v);
        let acc2 = acc.push(d[0]);
        let d2 = d.drop_first();
        assert forall|x: int, y: int| 0 <= x < acc2.len() && 0 <= y < d2.len() implies term::bytes_lt(
            #[trigger] acc2[x].0,
            #[trigger] d2[y].0,
        ) by {
            assert(d2[y] == d[y + 1]);
            if x < acc.len() {
                assert(term::bytes_lt(acc[x].0, d[y + 1].0));
            } else {
                assert(term::bytes_lt(d[0].0, d[y + 1].0));
            }
        }
        assert forall|x: int, y: int| 0 <= x < y < d2.len() implies term::bytes_lt(
            #[trigger] d2[x].0,
            #[trigger] d2[y].0,
        ) by {
            assert(d2[x] == d[x + 1]);
            assert(d2[y] == d[y + 1]);
        }
        assert forall|x: int| 0 <= x < d2.len() implies {
            &&& vstd::utf8::valid_utf8(#[trigger] d2[x].0)
            &&& d2[x].0.len() <= i64::MAX
            &&& d2[x].0.len() <= usize::MAX
            &&& term::term_readable(d2[x].1)
        } by {
            assert(d2[x] == d[x + 1]);
        }
        lemma_entries_encoded(d2, s, k + b, acc2);
        assert(acc2 + d2 =~= acc + d);
    }
}

/// Reading the encoding of a value gives the value back: `parse` undoes
/// `marshal`, for every well-formed value whose byte strings fit the counts
/// that reading uses.
pub proof fn lemma_parse_encode(t: Term)
    requires
        term::term_readable(t),
    ensures
        grammar::parse_spec(term::encode(t)) == Outcome::Done(t),
{
    let s = term::encode(t);
    assert(s.subrange(0, s.len() as int) =~= s);
    lemma_value_encoded(t, s, 0, false);
}

/// A dictionary entry with a UTF-8 key and a well-formed value.
pub open spec fn entry_wf(e: (Seq<u8>, Term)) -> bool {
    vstd::utf8::valid_utf8(e.0) && term::term_wf(e.1)
}

/// Insertion keeps every entry well-formed.
proof fn lemma_dict_insert_entries_wf(d: Seq<(Seq<u8>, Term)>, k: Seq<u8>, v: Term)
    requires
        forall|i: int| 0 <= i < d.len() ==> entry_wf(#[trigger] d[i]),
        entry_wf((k, v)),
    ensures
        forall|i: int|
            0 <= i < term::dict_insert(d, k, v).len() ==> entry_wf(#[trigger] term::dict_insert(d, k, v)[i]),
    decreases d.len(),
{
    if d.len() > 0 && d[0].0 != k && !term::bytes_lt(k, d[0].0) {
        assert forall|i: int| 0 <= i < d.drop_first().len() implies entry_wf(
            #[trigger] d.drop_first()[i],
        ) by {
            assert(d.drop_first()[i] == d[i + 1]);
        }
        lemma_dict_insert_entries_wf(d.drop_first(), k, v);
        let r = term::dict_insert(d, k, v);
        assert forall|i: int| 0 <= i < r.len() implies entry_wf(#[trigger] r[i]) by {
            if i > 0 {
                assert(r[i] == term::dict_insert(d.drop_first(), k, v)[i - 1]);
            }
        }
    } else if d.len() > 0 {
        let r = term::dict_insert(d, k, v);
        assert forall|i: int| 0 <= i < r.len() implies entry_wf(#[trigger] r[i]) by {
            if d[0].0 != k && i > 0 {
                assert(r[i] == d[i - 1]);
            }
        }
    }
}

/// A value read in full is well-formed.
proof fn lemma_value_at_wf(s: Seq<u8>, i: int, nested: bool)
    ensures
        grammar::value_at(s, i, nested) matches Outcome::Done((t, _j)) ==> term::term_wf(t),
    decreases s.len() - i, 1int,
{
    if 0 <= i < s.len() {
        let b = s[i];
        if b == INT_OPEN {
            grammar::lemma_scan_numeral_bounds(s, i + 1, CLOSE, 0, 1, 0);
        } else if b == LIST_OPEN {
            lemma_list_items_wf(s, i + 1, Seq::empty());
        } else if b == DICT_OPEN {
            lemma_dict_items_wf(s, i + 1, Seq::empty());
        }
    }
}

/// The rest of a list read in full, after well-formed items, is well-formed.
proof fn lemma_list_items_wf(s: Seq<u8>, i: int, acc: Seq<Term>)
    requires
        forall|x: int| 0 <= x < acc.len() ==> term::term_wf(#[trigger] acc[x]),
    ensures
        grammar::list_items(s, i, acc) matches Outcome::Done((t, _j)) ==> term::term_wf(t),
    decreases s.len() - i, 2int,
{
    if 0 <= i < s.len() && s[i] != CLOSE {
        lemma_value_at_wf(s, i, true);
        if let Outcome::Done((v, j)) = grammar::value_at(s, i, true) {
            if i < j <= s.len() {
                assert forall|x: int| 0 <= x < acc.push(v).len() implies term::term_wf(
                    #[trigger] acc.push(v)[x],
                ) by {
                    if x < acc.len() {
                        assert(acc.push(v)[x] == acc[x]);
                    }
                }
                lemma_list_items_wf(s, j, acc.push(v));
            }
        }
    }
}

/// The rest of a dictionary read in full, after entries with increasing UTF-8
/// keys and well-formed values, is well-formed.
proof fn lemma_dict_items_wf(s: Seq<u8>, i: int, acc: Seq<(Seq<u8>, Term)>)
    requires
        term::keys_increasing(acc),
        forall|x: int| 0 <= x < acc.len() ==> entry_wf(#[trigger] acc[x]),
    ensures
        grammar::dict_items(s, i, acc) matches Outcome::Done((t, _j)) ==> term::term_wf(t),
    decreases s.len() - i, 2int,
{
    if 0 <= i < s.len() && term::is_digit(s[i]) {
        if let Outcome::Done((key, j)) = grammar::bytes_at(s, i) {
            if vstd::utf8::valid_utf8(key) && i < j <= s.len() {
                lemma_value_at_wf(s, j, true);
                if let Outcome::Done((v, j2)) = grammar::value_at(s, j, true) {
                    if j < j2 <= s.len() {
                        term::lemma_dict_insert_increasing(acc, key, v);
                        lemma_dict_insert_entries_wf(acc, key, v);
                        lemma_dict_items_wf(s, j2, term::dict_insert(acc, key, v));
                    }
                }
            }
        }
    } else if 0 <= i < s.len() && s[i] == CLOSE {
        assert forall|x: int| 0 <= x < acc.len() implies vstd::utf8::valid_utf8(#[trigger] acc[x].0)
            && term::term_wf(acc[x].1) by {
            assert(entry_wf(acc[x]));
        }
    }
}

/// What reading gives is well-formed: integers fit in an `i64`, and each
/// dictionary has UTF-8 keys in strictly increasing order, as an ordered map
/// keyed by strings has.
pub proof fn lemma_parse_wf(s: Seq<u8>)
    ensures
        grammar::parse_spec(s) matches Outcome::Done(t) ==> term::term_wf(t),
{
    lemma_value_at_wf(s, 0, false);
}

/// Looking ahead twice shows the same token the second time and leaves the
/// lexer as the first look left it.
pub proof fn lemma_look_ahead_twice(v: LexerView)
    requires
        v.wf(),
    ensures
        v.look_step().0 is Done ==> v.look_step().1.look_step() == (v.look_step().0, v.look_step().1),
{
}

/// The token that a look ahead shows is the token taken next, and taking it
/// reads nothing: the lexer is left as the look left it, with nothing looked
/// at any more.
pub proof fn lemma_look_then_take(v: LexerView)
    requires
        v.wf(),
    ensures
        v.look_step().0 is Done ==> {
            &&& v.look_step().1.token_step().0 == v.look_step().0
            &&& v.look_step().1.token_step().1 == LexerView {
                cached_token: None,
                ..v.look_step().1
            }
        },
{
}

/// Errors while reading a value, a list or a dictionary lie between its start
/// and the end of the input.
proof fn lemma_value_at_positions(s: Seq<u8>, i: int, nested: bool)
    requires
        0 <= i <= s.len(),
    ensures
        grammar::value_at(s, i, nested) matches Outcome::Failed(q, _) ==> i <= q <= s.len(),
        grammar::value_at(s, i, nested) matches Outcome::Aborts(q, _) ==> i <= q <= s.len(),
    decreases s.len() - i, 1int,
{
    if i < s.len() {
        let b = s[i];
        if b == INT_OPEN {
            grammar::lemma_scan_numeral_bounds(s, i + 1, CLOSE, 0, 1, 0);
        } else if b == LIST_OPEN {
            lemma_list_items_positions(s, i + 1, Seq::empty());
        } else if b == DICT_OPEN {
            lemma_dict_items_positions(s, i + 1, Seq::empty());
        } else if term::is_digit(b) {
            lemma_bytes_at_positions(s, i);
        }
    }
}

/// Errors while reading a byte string lie between its start and the end of
/// the input.
proof fn lemma_bytes_at_positions(s: Seq<u8>, i: int)
    requires
        0 <= i < s.len(),
        term::is_digit(s[i]),
    ensures
        grammar::bytes_at(s, i) matches Outcome::Failed(q, _) ==> i <= q <= s.len(),
        grammar::bytes_at(s, i) matches Outcome::Aborts(q, _) ==> i <= q <= s.len(),
{
    grammar::lemma_length_at_bounds(s, i);
}

proof fn lemma_list_items_positions(s: Seq<u8>, i: int, acc: Seq<Term>)
    requires
        0 <= i <= s.len(),
    ensures
        grammar::list_items(s, i, acc) matches Outcome::Failed(q, _) ==> i <= q <= s.len(),
        grammar::list_items(s, i, acc) matches Outcome::Aborts(q, _) ==> i <= q <= s.len(),
    decreases s.len() - i, 2int,
{
    if i < s.len() && s[i] != CLOSE {
        lemma_value_at_positions(s, i, true);
        if let Outcome::Done((v, j)) = grammar::value_at(s, i, true) {
            if i < j <= s.len() {
                lemma_list_items_positions(s, j, acc.push(v));
            }
        }
    }
}

proof fn lemma_dict_items_positions(s: Seq<u8>, i: int, acc: Seq<(Seq<u8>, Term)>)
    requires
        0 <= i <= s.len(),
    ensures
        grammar::dict_items(s, i, acc) matches Outcome::Failed(q, _) ==> i <= q <= s.len(),
        grammar::dict_items(s, i, acc) matches Outcome::Aborts(q, _) ==> i <= q <= s.len(),
    decreases s.len() - i, 2int,
{
    if i < s.len() && term::is_digit(s[i]) {
        lemma_bytes_at_positions(s, i);
        grammar::lemma_bytes_at_ends(s, i);
        if let Outcome::Done((key, j)) = grammar::bytes_at(s, i) {
            if vstd::utf8::valid_utf8(key) && i < j <= s.len() {
                lemma_value_at_positions(s, j, true);
                if let Outcome::Done((v, j2)) = grammar::value_at(s, j, true) {
                    if j < j2 <= s.len() {
                        lemma_dict_items_positions(s, j2, term::dict_insert(acc, key, v));
                    }
                }
            }
        }
    }
}

/// Every error that reading reports lies in the input or at its end: its
/// position is between `0` and the length of the input.
pub proof fn lemma_parse_positions(s: Seq<u8>)
    ensures
        grammar::parse_spec(s) matches Outcome::Failed(p, _) ==> 0 <= p <= s.len(),
        grammar::parse_spec(s) matches Outcome::Aborts(p, _) ==> 0 <= p <= s.len(),
{
    lemma_value_at_positions(s, 0, false);
    grammar::lemma_value_at_ends(s, 0, false);
    if let Outcome::Done((_t, j)) = grammar::value_at(s, 0, false) {
        if 0 <= j < s.len() && term::is_digit(s[j]) {
            grammar::lemma_length_at_bounds(s, j);
        }
    }
}

/// The rest of a list read in full is a list.
proof fn lemma_list_items_kind(s: Seq<u8>, i: int, acc: Seq<Term>)
    ensures
        grammar::list_items(s, i, acc) matches Outcome::Done((t, _j)) ==> t is List,
    decreases s.len() - i,
{
    if 0 <= i < s.len() && s[i] != CLOSE {
        if let Outcome::Done((v, j)) = grammar::value_at(s, i, true) {
            if i < j <= s.len() {
                lemma_list_items_kind(s, j, acc.push(v));
            }
        }
    }
}

/// The rest of a dictionary read in full is a dictionary.
proof fn lemma_dict_items_kind(s: Seq<u8>, i: int, acc: Seq<(Seq<u8>, Term)>)
    ensures
        grammar::dict_items(s, i, acc) matches Outcome::Done((t, _j)) ==> t is Dict,
    decreases s.len() - i,
{
    if 0 <= i < s.len() && term::is_digit(s[i]) {
        if let Outcome::Done((key, j)) = grammar::bytes_at(s, i) {
            if vstd::utf8::valid_utf8(key) && i < j <= s.len() {
                if let Outcome::Done((v, j2)) = grammar::value_at(s, j, true) {
                    if j < j2 <= s.len() {
                        lemma_dict_items_kind(s, j2, term::dict_insert(acc, key, v));
                    }
                }
            }
        }
    }
}

/// The kind of a value read follows its first byte: `i` an integer, a digit a
/// byte string, `l` a list, `d` a dictionary; no other first byte, and no
/// byte at all, starts a value.
pub proof fn lemma_value_kind(s: Seq<u8>, i: int, nested: bool)
    ensures
        grammar::value_at(s, i, nested) matches Outcome::Done((t, _j)) ==> {
            &&& 0 <= i < s.len()
            &&& (t is Int <==> s[i] == INT_OPEN)
            &&& (t is Bytes <==> term::is_digit(s[i]))
            &&& (t is List <==> s[i] == LIST_OPEN)
            &&& (t is Dict <==> s[i] == DICT_OPEN)
        },
{
    if 0 <= i < s.len() {
        lemma_list_items_kind(s, i + 1, Seq::empty());
        lemma_dict_items_kind(s, i + 1, Seq::empty());
    }
}

/// Reading a number that ends at the same byte gives the same outcome when
/// more bytes follow the input.
proof fn lemma_scan_prefix(s: Seq<u8>, r: Seq<u8>, k: int, symbol: u8, num: int, sign: int, read: int)
    ensures
        grammar::scan_numeral(s, k, symbol, num, sign, read) matches Outcome::Done(x)
            ==> grammar::scan_numeral(s + r, k, symbol, num, sign, read) == Outcome::Done(x),
    decreases s.len() - k,
{
    if 0 <= k < s.len() {
        assert((s + r)[k] == s[k]);
        let shifted = num * 10;
        let next = if sign == -1 {
            shifted - (s[k] - DIGIT_ZERO)
        } else {
            shifted + (s[k] - DIGIT_ZERO)
        };
        lemma_scan_prefix(s, r, k + 1, symbol, next, sign, read + 1);
        lemma_scan_prefix(s, r, k + 1, symbol, -num, -1, read + 1);
    }
}

/// A byte string read in full reads the same when more bytes follow.
proof fn lemma_bytes_prefix(s: Seq<u8>, r: Seq<u8>, i: int)
    requires
        0 <= i < s.len(),
        term::is_digit(s[i]),
    ensures
        grammar::bytes_at(s, i) matches Outcome::Done(x) ==> grammar::bytes_at(s + r, i)
            == Outcome::Done(x),
{
    assert((s + r)[i] == s[i]);
    lemma_scan_prefix(s, r, i + 1, COLON, s[i] - DIGIT_ZERO, 1, 0);
    grammar::lemma_length_at_bounds(s, i);
    if let Outcome::Done((n, k)) = grammar::length_at(s, i) {
        let len = (n as usize) as nat;
        if len != 0 && k + 1 + len <= s.len() {
            assert((s + r).subrange(k + 1, k + 1 + len) =~= s.subrange(k + 1, k + 1 + len));
        }
    }
}

/// A value read in full reads the same when more bytes follow the input.
proof fn lemma_value_prefix(s: Seq<u8>, r: Seq<u8>, i: int, nested: bool)
    ensures
        grammar::value_at(s, i, nested) matches Outcome::Done(x) ==> grammar::value_at(
            s + r,
            i,
            nested,
        ) == Outcome::Done(x),
    decreases s.len() - i, 1int,
{
    if 0 <= i < s.len() {
        assert((s + r)[i] == s[i]);
        let b = s[i];
        if b == INT_OPEN {
            lemma_scan_prefix(s, r, i + 1, CLOSE, 0, 1, 0);
        } else if b == LIST_OPEN {
            lemma_list_prefix(s, r, i + 1, Seq::empty());
        } else if b == DICT_OPEN {
            lemma_dict_prefix(s, r, i + 1, Seq::empty());
        } else if term::is_digit(b) {
            lemma_bytes_prefix(s, r, i);
        }
    }
}

proof fn lemma_list_prefix(s: Seq<u8>, r: Seq<u8>, i: int, acc: Seq<Term>)
    ensures
        grammar::list_items(s, i, acc) matches Outcome::Done(x) ==> grammar::list_items(s + r, i, acc)
            == Outcome::Done(x),
    decreases s.len() - i, 2int,
{
    if 0 <= i < s.len() {
        assert((s + r)[i] == s[i]);
        if s[i] != CLOSE {
            lemma_value_prefix(s, r, i, true);
            if let Outcome::Done((v, j)) = grammar::value_at(s, i, true) {
                if i < j <= s.len() {
                    lemma_list_prefix(s, r, j, acc.push(v));
                }
            }
        }
    }
}

proof fn lemma_dict_prefix(s: Seq<u8>, r: Seq<u8>, i: int, acc: Seq<(Seq<u8>, Term)>)
    ensures
        grammar::dict_items(s, i, acc) matches Outcome::Done(x) ==> grammar::dict_items(s + r, i, acc)
            == Outcome::Done(x),
    decreases s.len() - i, 2int,
{
    if 0 <= i < s.len() {
        assert((s + r)[i] == s[i]);
        if term::is_digit(s[i]) {
            lemma_bytes_prefix(s, r, i);
            if let Outcome::Done((key, j)) = grammar::bytes_at(s, i) {
                if vstd::utf8::valid_utf8(key) && i < j <= s.len() {
                    lemma_value_prefix(s, r, j, true);
                    if let Outcome::Done((v, j2)) = grammar::value_at(s, j, true) {
                        if j < j2 <= s.len() {
                            lemma_dict_prefix(s, r, j2, term::dict_insert(acc, key, v));
                        }
                    }
                }
            }
        }
    }
}

/// Bytes after one complete value are rejected, never ignored: where reading
/// `s` gives a value, reading `s` followed by any further bytes fails.
pub proof fn lemma_parse_rejects_trailing(s: Seq<u8>, r: Seq<u8>)
    requires
        grammar::parse_spec(s) is Done,
        r.len() > 0,
    ensures
        !(grammar::parse_spec(s + r) is Done),
{
    grammar::lemma_value_at_ends(s, 0, false);
    lemma_value_prefix(s, r, 0, false);
}

/// Reading the rest of a dictionary inserts its entries, in the order they
/// appear, into what was read before.
proof fn lemma_dict_items_in_order(
    s: Seq<u8>,
    i: int,
    acc: Seq<(Seq<u8>, Term)>,
    pre: Seq<(Seq<u8>, Term)>,
)
    requires
        acc == term::insert_all(Seq::empty(), pre),
    ensures
        grammar::dict_items(s, i, acc) matches Outcome::Done((t, j)) ==> grammar::entries_in_order(
            s,
            i,
            pre,
        ) matches Outcome::Done((e, j2)) && j2 == j && t == Term::Dict(
            term::insert_all(Seq::empty(), e),
        ),
        grammar::entries_in_order(s, i, pre) matches Outcome::Done((e, j)) ==> grammar::dict_items(
            s,
            i,
            acc,
        ) == Outcome::Done((Term::Dict(term::insert_all(Seq::empty(), e)), j)),
    decreases s.len() - i,
{
    if 0 <= i < s.len() && s[i] != CLOSE && term::is_digit(s[i]) {
        if let Outcome::Done((key, j)) = grammar::bytes_at(s, i) {
            if vstd::utf8::valid_utf8(key) && i < j <= s.len() {
                if let Outcome::Done((v, j2)) = grammar::value_at(s, j, true) {
                    if j < j2 <= s.len() {
                        term::lemma_insert_all_push(Seq::empty(), pre, (key, v));
                        lemma_dict_items_in_order(
                            s,
                            j2,
                            term::dict_insert(acc, key, v),
                            pre.push((key, v)),
                        );
                    }
                }
            }
        }
    }
}

/// A dictionary read holds exactly the keys that its encoding lists, each
/// with the value that follows its last occurrence.
pub proof fn lemma_dict_read_keys(s: Seq<u8>, i: int)
    ensures
        grammar::dict_items(s, i, Seq::empty()) matches Outcome::Done((Term::Dict(d), j)) ==> {
            &&& grammar::entries_in_order(s, i, Seq::empty()) matches Outcome::Done((e, j2))
            &&& j2 == j
            &&& forall|k: Seq<u8>| #[trigger]
                term::dict_get(d, k) == term::last_value(e, k) && (term::dict_get(d, k) is Some
                    <==> exists|x: int| 0 <= x < e.len() && #[trigger] e[x].0 == k)
        },
{
    lemma_dict_items_in_order(s, i, Seq::empty(), Seq::empty());
    if let Outcome::Done((Term::Dict(d), j)) = grammar::dict_items(s, i, Seq::empty()) {
        if let Outcome::Done((e, j2)) = grammar::entries_in_order(s, i, Seq::empty()) {
            assert forall|k: Seq<u8>| #[trigger]
                term::dict_get(d, k) == term::last_value(e, k) && (term::dict_get(d, k) is Some
                    <==> exists|x: int| 0 <= x < e.len() && #[trigger] e[x].0 == k) by {
                term::lemma_insert_all_get(e, k);
            }
        }
    }
}

/// Reading an input that is the encoding of a value, and writing what was
/// read, gives back the input byte for byte.
pub proof fn lemma_canonical_round_trip(s: Seq<u8>, u: Term)
    requires
        term::term_readable(u),
        s == term::encode(u),
    ensures
        grammar::parse_spec(s) matches Outcome::Done(t) && term::encode(t) == s,
{
    lemma_parse_encode(u);
}

/// Writing `m * 10 + d` in decimal writes `m` and then the digit `d`.
proof fn lemma_decimal_shift(m: nat, d: nat)
    requires
        1 <= m,
        d < 10,
    ensures
        term::decimal(m * 10 + d) == term::decimal(m).push(term::digit_byte(d)),
{
    let n = m * 10 + d;
    assert(n / 10 == m && n % 10 == d && n >= 10) by (nonlinear_arith)
        requires
            n == m * 10 + d,
            d < 10,
            1 <= m,
    ;
}

/// Reading more digits of a number whose value so far is `num`, not zero and
/// of the sign `sign`, appends those digits to its decimal notation.
proof fn lemma_scan_reads_digits(p: Seq<u8>, k: int, symbol: u8, num: int, sign: int, read: int)
    requires
        0 <= k,
        sign == 1 ==> num >= 1,
        sign == -1 ==> num <= -1,
        sign == 1 || sign == -1,
        read >= 0,
        read >= 1 || !(k < p.len() && p[k] == MINUS),
    ensures
        grammar::scan_numeral(p, k, symbol, num, sign, read) matches Outcome::Done((v, _r, idx))
            ==> {
            &&& k <= idx <= p.len()
            &&& term::signed_decimal(v) == term::signed_decimal(num) + p.subrange(k, idx)
            &&& (sign == 1 ==> v >= 1)
            &&& (sign == -1 ==> v <= -1)
        },
    decreases p.len() - k,
{
    if k < p.len() {
        let x = p[k];
        if term::is_digit(x) {
            let d = x - DIGIT_ZERO;
            let next = if sign == -1 {
                num * 10 - d
            } else {
                num * 10 + d
            };
            lemma_scan_reads_digits(p, k + 1, symbol, next, sign, read + 1);
            if let Outcome::Done((v, _r, idx)) = grammar::scan_numeral(p, k, symbol, num, sign, read) {
                assert(grammar::scan_numeral(p, k + 1, symbol, next, sign, read + 1) == Outcome::<
                    (int, int, int),
                >::Done((v, _r, idx)));
                assert(term::digit_byte(d as nat) == x);
                if sign == -1 {
                    lemma_decimal_shift((-num) as nat, d as nat);
                    assert(-next == (-num) * 10 + d);
                    assert(term::signed_decimal(next) =~= term::signed_decimal(num).push(x));
                } else {
                    lemma_decimal_shift(num as nat, d as nat);
                    assert(term::signed_decimal(next) =~= term::signed_decimal(num).push(x));
                }
                assert(p.subrange(k, idx) =~= seq![x] + p.subrange(k + 1, idx));
                assert(term::signed_decimal(v) =~= term::signed_decimal(num) + p.subrange(k, idx));
            }
        }
    }
}

/// A number read in full from its first byte is written exactly in its
/// decimal notation: the bytes before its symbol are that notation.
proof fn lemma_scan_reads_decimal(p: Seq<u8>, k: int, symbol: u8)
    requires
        0 <= k,
        !term::is_digit(symbol),
        symbol != MINUS,
    ensures
        grammar::scan_numeral(p, k, symbol, 0, 1, 0) matches Outcome::Done((v, r, idx)) ==> r >= 1
            ==> p.subrange(k, idx) == term::signed_decimal(v),
{
    if k < p.len() {
        let x = p[k];
        if term::is_digit(x) {
            let d = x - DIGIT_ZERO;
            assert(term::digit_byte(d as nat) == x);
            if d == 0 {
                if k + 1 < p.len() {
                    let y = p[k + 1];
                    if y == symbol {
                        assert(grammar::scan_numeral(p, k + 1, symbol, 0, 1, 1) == Outcome::<
                            (int, int, int),
                        >::Done((0, 1, k + 1)));
                        assert(p.subrange(k, k + 1) =~= term::signed_decimal(0));
                    }
                }
            } else {
                lemma_scan_reads_digits(p, k + 1, symbol, d, 1, 1);
                if let Outcome::Done((v, _r, idx)) = grammar::scan_numeral(p, k, symbol, 0, 1, 0) {
                    assert(term::signed_decimal(d) =~= seq![x]);
                    assert(p.subrange(k, idx) =~= seq![x] + p.subrange(k + 1, idx));
                }
            }
        } else if x == MINUS && k + 1 < p.len() {
            let y = p[k + 1];
            if term::is_digit(y) && y != DIGIT_ZERO {
                let d = y - DIGIT_ZERO;
                assert(term::digit_byte(d as nat) == y);
                lemma_scan_reads_digits(p, k + 2, symbol, -d, -1, 2);
                assert(grammar::scan_numeral(p, k + 1, symbol, 0, -1, 1) == grammar::scan_numeral(
                    p,
                    k + 2,
                    symbol,
                    -d,
                    -1,
                    2,
                ));
                if let Outcome::Done((v, _r, idx)) = grammar::scan_numeral(p, k, symbol, 0, 1, 0) {
                    assert(term::signed_decimal(-d) =~= seq![MINUS, y]);
                    assert(p.subrange(k, idx) =~= seq![MINUS, y] + p.subrange(k + 2, idx));
                }
            }
        }
    }
}

/// A length read in full is written exactly in its decimal notation.
proof fn lemma_length_reads_decimal(s: Seq<u8>, i: int)
    requires
        0 <= i < s.len(),
        term::is_digit(s[i]),
    ensures
        grammar::length_at(s, i) matches Outcome::Done((n, k)) ==> s.subrange(i, k) == term::decimal(
            n as nat,
        ),
{
    let x = s[i];
    let d = x - DIGIT_ZERO;
    assert(term::digit_byte(d as nat) == x);
    grammar::lemma_length_at_bounds(s, i);
    grammar::lemma_scan_numeral_bounds(s, i + 1, COLON, d, 1, 0);
    if let Outcome::Done((n, k)) = grammar::length_at(s, i) {
        if d == 0 {
            assert(s[i + 1] == COLON);
            assert(s.subrange(i, k) =~= term::decimal(0));
        } else if s[i + 1] == MINUS {
            lemma_scan_reads_digits(s, i + 2, COLON, -d, -1, 1);
            assert(grammar::length_scan(s, i) == grammar::scan_numeral(s, i + 2, COLON, -d, -1, 1));
        } else {
            lemma_scan_reads_digits(s, i + 1, COLON, d, 1, 0);
            assert(term::signed_decimal(d) =~= seq![x]);
            assert(s.subrange(i, k) =~= seq![x] + s.subrange(i + 1, k));
        }
    }
}

/// The value at index `i` is written the way writing writes it, as far as
/// reading cannot tell by itself: every dictionary in it lists its keys in
/// strictly increasing byte order, and every length counts no more bytes
/// than a `usize` holds.
pub open spec fn written_in_order(s: Seq<u8>, i: int) -> bool
    decreases s.len() - i, 1int,
{
    if 0 <= i < s.len() && s[i] == LIST_OPEN {
        items_written_in_order(s, i + 1)
    } else if 0 <= i < s.len() && s[i] == DICT_OPEN {
        entries_written_in_order(s, i + 1, None)
    } else if 0 <= i < s.len() && term::is_digit(s[i]) {
        length_fits(s, i)
    } else {
        true
    }
}

/// The length starting at index `i`, where it reads, counts no more bytes
/// than a `usize` holds.
pub open spec fn length_fits(s: Seq<u8>, i: int) -> bool {
    grammar::length_at(s, i) matches Outcome::Done((n, _k)) ==> n <= usize::MAX
}

/// The items of a list from index `i` on are each written in order.
pub open spec fn items_written_in_order(s: Seq<u8>, i: int) -> bool
    decreases s.len() - i, 2int,
{
    if i < 0 || i >= s.len() || s[i] == CLOSE {
        true
    } else {
        match grammar::value_at(s, i, true) {
            Outcome::Done((_v, j)) => if i < j <= s.len() {
                written_in_order(s, i) && items_written_in_order(s, j)
            } else {
                true
            },
            _ => true,
        }
    }
}

/// The entries of a dictionary from index `i` on, after the key `last`, come
/// in strictly increasing key order and are each written in order.
pub open spec fn entries_written_in_order(s: Seq<u8>, i: int, last: Option<Seq<u8>>) -> bool
    decreases s.len() - i, 2int,
{
    if i < 0 || i >= s.len() || !term::is_digit(s[i]) {
        true
    } else {
        match grammar::bytes_at(s, i) {
            Outcome::Done((key, j)) => if i < j <= s.len() {
                &&& length_fits(s, i)
                &&& (last matches Some(l) ==> term::bytes_lt(l, key))
                &&& written_in_order(s, j)
                &&& match grammar::value_at(s, j, true) {
                    Outcome::Done((_v, j2)) => if j < j2 <= s.len() {
                        entries_written_in_order(s, j2, Some(key))
                    } else {
                        true
                    },
                    _ => true,
                }
            } else {
                true
            },
            _ => true,
        }
    }
}

/// A byte string read in full, whose length fits a `usize`, is written as its
/// encoding.
proof fn lemma_bytes_read_encoding(s: Seq<u8>, i: int)
    requires
        0 <= i < s.len(),
        term::is_digit(s[i]),
        length_fits(s, i),
    ensures
        grammar::bytes_at(s, i) matches Outcome::Done((b, j)) ==> s.subrange(i, j) == term::encode(
            Term::Bytes(b),
        ),
{
    lemma_length_reads_decimal(s, i);
    grammar::lemma_length_at_bounds(s, i);
    if let Outcome::Done((n, k)) = grammar::length_at(s, i) {
        assert((n as usize) as nat == n);
        if let Outcome::Done((b, j)) = grammar::bytes_at(s, i) {
            assert(b.len() == n);
            assert(s.subrange(i, j) =~= s.subrange(i, k) + seq![COLON] + b);
        }
    }
}

/// A value read in full from an input written in order is written as its
/// encoding.
#[verifier::rlimit(30)]
#[verifier::spinoff_prover]
proof fn lemma_value_read_encoding(s: Seq<u8>, i: int, nested: bool)
    requires
        0 <= i,
        written_in_order(s, i),
    ensures
        grammar::value_at(s, i, nested) matches Outcome::Done((t, j)) ==> s.subrange(i, j)
            == term::encode(t),
    decreases s.len() - i, 1int,
{
    if i < s.len() {
        let b = s[i];
        if b == INT_OPEN {
            lemma_scan_reads_decimal(s, i + 1, CLOSE);
            grammar::lemma_scan_numeral_bounds(s, i + 1, CLOSE, 0, 1, 0);
            if let Outcome::Done((t, j)) = grammar::value_at(s, i, nested) {
                if let Outcome::Done((v, _r, k)) = grammar::scan_numeral(s, i + 1, CLOSE, 0, 1, 0) {
                    assert(s.subrange(i, j) =~= seq![INT_OPEN] + s.subrange(i + 1, k) + seq![CLOSE]);
                }
            }
        } else if b == LIST_OPEN {
            lemma_items_read_encoding(s, i + 1, Seq::empty());
            grammar::lemma_value_at_ends(s, i, nested);
            if let Outcome::Done((t, j)) = grammar::value_at(s, i, nested) {
                if let Term::List(l) = t {
                    assert(l.skip(0) =~= l);
                    assert(s.subrange(i, j) =~= seq![LIST_OPEN] + s.subrange(i + 1, j));
                }
            }
        } else if b == DICT_OPEN {
            lemma_entries_read_encoding(s, i + 1, Seq::empty(), None);
            grammar::lemma_value_at_ends(s, i, nested);
            if let Outcome::Done((t, j)) = grammar::value_at(s, i, nested) {
                if let Term::Dict(d) = t {
                    assert(d.skip(0) =~= d);
                    assert(s.subrange(i, j) =~= seq![DICT_OPEN] + s.subrange(i + 1, j));
                }
            }
        } else if term::is_digit(b) {
            lemma_bytes_read_encoding(s, i);
        }
    }
}

/// The rest of a list read in full, from an input written in order, is the
/// items already read followed by items written as their encodings, then `e`.
proof fn lemma_items_read_encoding(s: Seq<u8>, i: int, acc: Seq<Term>)
    requires
        0 <= i,
        items_written_in_order(s, i),
    ensures
        grammar::list_items(s, i, acc) matches Outcome::Done((t, j)) ==> t matches Term::List(l) && {
            &&& acc.len() <= l.len()
            &&& l.subrange(0, acc.len() as int) == acc
            &&& s.subrange(i, j) == term::encode_items(l.skip(acc.len() as int)) + seq![CLOSE]
        },
    decreases s.len() - i, 2int,
{
    if i < s.len() {
        if s[i] == CLOSE {
            if let Outcome::Done((t, j)) = grammar::list_items(s, i, acc) {
                assert(acc.subrange(0, acc.len() as int) =~= acc);
                assert(acc.skip(acc.len() as int) =~= Seq::<Term>::empty());
                assert(s.subrange(i, j) =~= seq![CLOSE]);
            }
        } else {
            if let Outcome::Done((v, j1)) = grammar::value_at(s, i, true) {
                if i < j1 <= s.len() {
                    lemma_value_read_encoding(s, i, true);
                    lemma_items_read_encoding(s, j1, acc.push(v));
                    grammar::lemma_list_items_ends(s, j1, acc.push(v));
                    if let Outcome::Done((t, j)) = grammar::list_items(s, i, acc) {
                        if let Term::List(l) = t {
                            let n = acc.len() as int;
                            assert(l.subrange(0, n + 1) == acc.push(v));
                            assert(l.subrange(0, n) =~= acc) by {
                                assert forall|x: int| 0 <= x < n implies l.subrange(0, n)[x] == acc[x] by {
                                    assert(l.subrange(0, n + 1)[x] == acc.push(v)[x]);
                                }
                            }
                            assert(l[n] == v) by {
                                assert(l.subrange(0, n + 1)[n] == acc.push(v)[n]);
                            }
                            let rest = l.skip(n);
                            assert(rest[0] == v);
                            assert(rest.drop_first() =~= l.skip(n + 1));
                            assert(term::encode_items(rest) == term::encode(v) + term::encode_items(
                                rest.drop_first(),
                            ));
                            assert(s.subrange(i, j) =~= s.subrange(i, j1) + s.subrange(j1, j));
                        }
                    }
                }
            }
        }
    }
}

/// The rest of a dictionary read in full, from an input written in order
/// after the key `last` (the last key of `acc`), is the entries already read
/// followed by entries written as their encodings, then `e`.
proof fn lemma_entries_read_encoding(
    s: Seq<u8>,
    i: int,
    acc: Seq<(Seq<u8>, Term)>,
    last: Option<Seq<u8>>,
)
    requires
        0 <= i,
        entries_written_in_order(s, i, last),
        term::keys_increasing(acc),
        last == (if acc.len() == 0 {
            None
        } else {
            Some(acc.last().0)
        }),
    ensures
        grammar::dict_items(s, i, acc) matches Outcome::Done((t, j)) ==> t matches Term::Dict(d) && {
            &&& acc.len() <= d.len()
            &&& d.subrange(0, acc.len() as int) == acc
            &&& s.subrange(i, j) == term::encode_entries(d.skip(acc.len() as int)) + seq![CLOSE]
        },
    decreases s.len() - i, 2int,
{
    if i < s.len() {
        if s[i] == CLOSE {
            if let Outcome::Done((t, j)) = grammar::dict_items(s, i, acc) {
                assert(acc.subrange(0, acc.len() as int) =~= acc);
                assert(acc.skip(acc.len() as int) =~= Seq::<(Seq<u8>, Term)>::empty());
                assert(s.subrange(i, j) =~= seq![CLOSE]);
            }
        } else if term::is_digit(s[i]) {
            if let Outcome::Done((key, j1)) = grammar::bytes_at(s, i) {
                if vstd::utf8::valid_utf8(key) && i < j1 <= s.len() {
                    if let Outcome::Done((v, j2)) = grammar::value_at(s, j1, true) {
                        if j1 < j2 <= s.len() {
                            lemma_entry_read_encoding(s, i, acc, last, key, j1, v, j2);
                        }
                    }
                }
            }
        }
    }
}

/// Appending an entry whose key lies above the last key of `acc`.
proof fn lemma_push_above(acc: Seq<(Seq<u8>, Term)>, key: Seq<u8>, v: Term)
    requires
        term::keys_increasing(acc),
        acc.len() > 0 ==> term::bytes_lt(acc.last().0, key),
    ensures
        term::dict_insert(acc, key, v) == acc.push((key, v)),
        term::keys_increasing(acc.push((key, v))),
{
    assert forall|x: int| 0 <= x < acc.len() implies term::bytes_lt(#[trigger] acc[x].0, key) by {
        if x < acc.len() - 1 {
            term::lemma_bytes_lt_transitive(acc[x].0, acc.last().0, key);
        }
    }
    term::lemma_dict_insert_append(acc, key, v);
    let acc2 = acc.push((key, v));
    assert forall|a: int, b: int| 0 <= a < b < acc2.len() implies term::bytes_lt(
        #[trigger] acc2[a].0,
        #[trigger] acc2[b].0,
    ) by {
        if b < acc.len() {
            assert(acc2[a] == acc[a] && acc2[b] == acc[b]);
        } else {
            assert(acc2[a] == acc[a]);
        }
    }
}

/// One entry of a dictionary, its key at `i` and its value from `j1` to
/// `j2`, read from an input written in order: the step of
/// `lemma_entries_read_encoding`.
#[verifier::rlimit(90)]
#[verifier::spinoff_prover]
proof fn lemma_entry_read_encoding(
    s: Seq<u8>,
    i: int,
    acc: Seq<(Seq<u8>, Term)>,
    last: Option<Seq<u8>>,
    key: Seq<u8>,
    j1: int,
    v: Term,
    j2: int,
)
    requires
        0 <= i < s.len(),
        term::is_digit(s[i]),
        entries_written_in_order(s, i, last),
        term::keys_increasing(acc),
        last == (if acc.len() == 0 {
            None
        } else {
            Some(acc.last().0)
        }),
        grammar::bytes_at(s, i) == Outcome::<(Seq<u8>, int)>::Done((key, j1)),
        vstd::utf8::valid_utf8(key),
        i < j1 < j2 <= s.len(),
        grammar::value_at(s, j1, true) == Outcome::<(Term, int)>::Done((v, j2)),
    ensures
        grammar::dict_items(s, i, acc) matches Outcome::Done((t, j)) ==> t matches Term::Dict(d) && {
            &&& acc.len() <= d.len()
            &&& d.subrange(0, acc.len() as int) == acc
            &&& s.subrange(i, j) == term::encode_entries(d.skip(acc.len() as int)) + seq![CLOSE]
        },
    decreases s.len() - i, 1int,
{
    lemma_bytes_read_encoding(s, i);
    lemma_value_read_encoding(s, j1, true);
    lemma_push_above(acc, key, v);
    let acc2 = acc.push((key, v));
    assert(acc2.last().0 == key);
    lemma_entries_read_encoding(s, j2, acc2, Some(key));
    grammar::lemma_dict_items_ends(s, j2, acc2);
    assert(grammar::dict_items(s, i, acc) == grammar::dict_items(s, j2, acc2));
    if let Outcome::Done((t, j)) = grammar::dict_items(s, j2, acc2) {
        if let Term::Dict(d) = t {
            lemma_entries_split(d, acc, key, v);
            assert(s.subrange(i, j) =~= s.subrange(i, j1) + s.subrange(j1, j2) + s.subrange(j2, j));
        }
    }
}

/// Where `d` starts with `acc` and then the entry `(key, v)`, it starts with
/// `acc`, and the encoding of its entries after `acc` is that entry's
/// encoding followed by the rest.
proof fn lemma_entries_split(d: Seq<(Seq<u8>, Term)>, acc: Seq<(Seq<u8>, Term)>, key: Seq<u8>, v: Term)
    requires
        acc.len() + 1 <= d.len(),
        d.subrange(0, acc.len() + 1 as int) == acc.push((key, v)),
    ensures
        d.subrange(0, acc.len() as int) == acc,
        term::encode_entries(d.skip(acc.len() as int)) == term::decimal(key.len()) + seq![COLON] + key
            + term::encode(v) + term::encode_entries(d.skip(acc.len() + 1 as int)),
{
    let n = acc.len() as int;
    let acc2 = acc.push((key, v));
    assert(d.subrange(0, n) =~= acc) by {
        assert forall|x: int| 0 <= x < n implies d.subrange(0, n)[x] == acc[x] by {
            assert(d.subrange(0, n + 1)[x] == acc2[x]);
        }
    }
    assert(d[n] == (key, v)) by {
        assert(d.subrange(0, n + 1)[n] == acc2[n]);
    }
    let rest = d.skip(n);
    assert(rest[0] == (key, v));
    assert(rest.drop_first() =~= d.skip(n + 1));
}

/// Reading then writing gives the input back byte for byte, for every input
/// written the way writing writes: each dictionary lists its keys in
/// strictly increasing byte order, and each length fits a `usize`.
pub proof fn lemma_parse_then_encode(s: Seq<u8>)
    requires
        written_in_order(s, 0),
    ensures
        grammar::parse_spec(s) matches Outcome::Done(t) ==> term::encode(t) == s,
{
    lemma_value_read_encoding(s, 0, false);
    grammar::lemma_value_at_ends(s, 0, false);
    if let Outcome::Done((t, j)) = grammar::value_at(s, 0, false) {
        if grammar::parse_spec(s) is Done {
            assert(j == s.len());
            assert(s.subrange(0, j) =~= s);
        }
    }
}

/// Of the prefixes of an input at most one is a complete encoding, and
/// reading a value from the input reads exactly that prefix and gives what
/// the prefix alone gives.
pub proof fn lemma_read_prefix_unique(s: Seq<u8>, n: int)
    requires
        0 <= n <= s.len(),
        grammar::parse_spec(s.take(n)) is Done,
    ensures
        grammar::value_at(s, 0, false) == Outcome::Done((grammar::parse_spec(s.take(n))->Done_0, n)),
{
    let p = s.take(n);
    grammar::lemma_value_at_ends(p, 0, false);
    lemma_value_prefix(p, s.skip(n), 0, false);
    assert(p + s.skip(n) =~= s);
}

/// Reading a dictionary does not depend on the order of its entries: where
/// every key reads as a UTF-8 byte string and every value reads, in
/// whatever order the keys come and however often each comes, the
/// dictionary reads, holding its entries inserted in the order they appear.
pub proof fn lemma_dict_reads_in_any_order(s: Seq<u8>, i: int, nested: bool)
    requires
        0 <= i < s.len(),
        s[i] == DICT_OPEN,
    ensures
        grammar::entries_in_order(s, i + 1, Seq::empty()) matches Outcome::Done((e, j))
            ==> grammar::value_at(s, i, nested) == Outcome::Done(
            (Term::Dict(term::insert_all(Seq::empty(), e)), j),
        ),
{
    lemma_dict_items_in_order(s, i + 1, Seq::empty(), Seq::empty());
}

/// Reading a whole input gives a value exactly when one value read from its
/// start ends at its end, and then gives that value, whatever form the
/// input has.
pub proof fn lemma_parse_reads_whole_input(s: Seq<u8>)
    ensures
        grammar::value_at(s, 0, false) matches Outcome::Done((t, j)) ==> (j == s.len()
            ==> grammar::parse_spec(s) == Outcome::Done(t)),
        grammar::parse_spec(s) matches Outcome::Done(t) ==> grammar::value_at(s, 0, false)
            == Outcome::Done((t, s.len() as int)),
{
    grammar::lemma_value_at_ends(s, 0, false);
}

/// The values `l` stand one after another in `s` from index `p[0]`, the `k`th
/// read from `p[k]` up to `p[k + 1]`, and an `e` follows the last at `p[l.len()]`.
pub open spec fn items_at(s: Seq<u8>, l: Seq<Term>, p: Seq<int>) -> bool {
    &&& p.len() == l.len() + 1
    &&& forall|k: int|
        0 <= k < l.len() ==> #[trigger] grammar::value_at(s, p[k], true) == Outcome::Done(
            (l[k], p[k + 1]),
        )
    &&& 0 <= p[l.len() as int] < s.len()
    &&& s[p[l.len() as int]] == CLOSE
}

/// The rest of a list from `p[k]` on, after the items `l.take(k)`, reads
/// as the list `l`.
proof fn lemma_items_at_read(s: Seq<u8>, l: Seq<Term>, p: Seq<int>, k: int)
    requires
        items_at(s, l, p),
        0 <= k <= l.len(),
    ensures
        grammar::list_items(s, p[k], l.take(k)) == Outcome::Done(
            (Term::List(l), p[l.len() as int] + 1),
        ),
    decreases l.len() - k,
{
    if k == l.len() {
        assert(l.take(k) =~= l);
    } else {
        assert(grammar::value_at(s, p[k], true) == Outcome::Done((l[k], p[k + 1])));
        grammar::lemma_value_at_ends(s, p[k], true);
        assert(l.take(k + 1) =~= l.take(k).push(l[k]));
        lemma_items_at_read(s, l, p, k + 1);
    }
}

/// A list whose items each read, one after another, reads as the list of
/// those items, whatever form each item has.
pub proof fn lemma_list_reads_its_items(s: Seq<u8>, i: int, nested: bool, l: Seq<Term>, p: Seq<int>)
    requires
        0 <= i < s.len(),
        s[i] == LIST_OPEN,
        items_at(s, l, p),
        p[0] == i + 1,
    ensures
        grammar::value_at(s, i, nested) == Outcome::Done((Term::List(l), p[l.len() as int] + 1)),
{
    lemma_items_at_read(s, l, p, 0);
    assert(l.take(0) =~= Seq::<Term>::empty());
}

/// The entries `e` stand one after another in `s` from index `p[0]`: the
/// `k`th key, UTF-8, read as a byte string from `p[2k]` up to `p[2k + 1]`,
/// its value read from there up to `p[2k + 2]`; and an `e` follows the last
/// at `p[2 * e.len() as int]`.
pub open spec fn entries_at(s: Seq<u8>, e: Seq<(Seq<u8>, Term)>, p: Seq<int>) -> bool {
    &&& p.len() == 2 * e.len() + 1
    &&& forall|k: int|
        0 <= k < e.len() ==> {
            &&& 0 <= p[2 * k] < s.len()
            &&& term::is_digit(s[p[2 * k]])
            &&& #[trigger] grammar::bytes_at(s, p[2 * k]) == Outcome::Done((e[k].0, p[2 * k + 1]))
            &&& vstd::utf8::valid_utf8(e[k].0)
            &&& grammar::value_at(s, p[2 * k + 1], true) == Outcome::Done((e[k].1, p[2 * k + 2]))
        }
    &&& 0 <= p[2 * e.len() as int] < s.len()
    &&& s[p[2 * e.len() as int]] == CLOSE
}

/// The rest of a dictionary from `p[2k]` on, after the entries `e.take(k)`
/// were inserted, reads as all of `e` inserted in order.
proof fn lemma_entries_at_read(s: Seq<u8>, e: Seq<(Seq<u8>, Term)>, p: Seq<int>, k: int)
    requires
        entries_at(s, e, p),
        0 <= k <= e.len(),
    ensures
        grammar::dict_items(s, p[2 * k], term::insert_all(Seq::empty(), e.take(k))) == Outcome::Done(
            (Term::Dict(term::insert_all(Seq::empty(), e)), p[2 * e.len() as int] + 1),
        ),
    decreases e.len() - k,
{
    if k == e.len() {
        assert(e.take(k) =~= e);
    } else {
        assert(grammar::bytes_at(s, p[2 * k]) == Outcome::Done((e[k].0, p[2 * k + 1])));
        grammar::lemma_bytes_at_ends(s, p[2 * k]);
        grammar::lemma_value_at_ends(s, p[2 * k + 1], true);
        assert(e.take(k + 1) =~= e.take(k).push(e[k]));
        term::lemma_insert_all_push(Seq::empty(), e.take(k), e[k]);
        assert(2 * (k + 1) == 2 * k + 2);
        lemma_entries_at_read(s, e, p, k + 1);
    }
}

/// A dictionary whose entries each read, one after another, reads as those
/// entries inserted in the order they come, whatever the order of the keys,
/// repeats included, and whatever form each value has.
pub proof fn lemma_dict_reads_its_entries(
    s: Seq<u8>,
    i: int,
    nested: bool,
    e: Seq<(Seq<u8>, Term)>,
    p: Seq<int>,
)
    requires
        0 <= i < s.len(),
        s[i] == DICT_OPEN,
        entries_at(s, e, p),
        p[0] == i + 1,
    ensures
        grammar::value_at(s, i, nested) == Outcome::Done(
            (Term::Dict(term::insert_all(Seq::empty(), e)), p[2 * e.len() as int] + 1),
        ),
{
    lemma_entries_at_read(s, e, p, 0);
    assert(e.take(0) =~= Seq::<(Seq<u8>, Term)>::empty());
}

} // verus!
