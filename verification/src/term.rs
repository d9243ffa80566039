//! The mathematical model of a bencode value and its canonical encoding.
use vstd::prelude::*;

verus! {

/// `i`: opens an integer.
pub const INT_OPEN: u8 = 0x69;
/// `l`: opens a list.
pub const LIST_OPEN: u8 = 0x6c;
/// `d`: opens a dictionary.
pub const DICT_OPEN: u8 = 0x64;
/// `e`: closes an integer, a list or a dictionary.
pub const CLOSE: u8 = 0x65;
/// `:`: separates the length of a byte string from its bytes.
pub const COLON: u8 = 0x3a;
/// `-`: the sign of a negative number.
pub const MINUS: u8 = 0x2d;
/// `0`.
pub const DIGIT_ZERO: u8 = 0x30;
/// `9`.
pub const DIGIT_NINE: u8 = 0x39;

/// An ASCII decimal digit.
pub open spec fn is_digit(b: u8) -> bool {
    DIGIT_ZERO <= b <= DIGIT_NINE
}

/// A bencode value as a mathematical object.
///
/// A dictionary is an association list whose keys are the UTF-8 bytes of the
/// key strings; a well-formed one lists its keys in strictly increasing byte
/// order, as an ordered map would.
pub enum Term {
    Int(int),
    Bytes(Seq<u8>),
    List(Seq<Term>),
    Dict(Seq<(Seq<u8>, Term)>),
}

/// Strict lexicographic order on byte strings (the order of `str` and `String`).
pub open spec fn bytes_lt(a: Seq<u8>, b: Seq<u8>) -> bool
    decreases a.len(),
{
    if a.len() == 0 {
        b.len() > 0
    } else if b.len() == 0 {
        false
    } else if a[0] != b[0] {
        a[0] < b[0]
    } else {
        bytes_lt(a.drop_first(), b.drop_first())
    }
}

/// The keys of an association list are strictly increasing.
pub open spec fn keys_increasing(d: Seq<(Seq<u8>, Term)>) -> bool {
    forall|i: int, j: int| 0 <= i < j < d.len() ==> bytes_lt(#[trigger] d[i].0, #[trigger] d[j].0)
}

/// Insertion into an ordered association list: an equal key has its value
/// replaced, otherwise the entry goes before the first greater key.
pub open spec fn dict_insert(d: Seq<(Seq<u8>, Term)>, k: Seq<u8>, v: Term) -> Seq<(Seq<u8>, Term)>
    decreases d.len(),
{
    if d.len() == 0 {
        seq![(k, v)]
    } else if d[0].0 == k {
        d.update(0, (k, v))
    } else if bytes_lt(k, d[0].0) {
        seq![(k, v)] + d
    } else {
        seq![d[0]] + dict_insert(d.drop_first(), k, v)
    }
}

/// The value stored under key `k`, if any.
pub open spec fn dict_get(d: Seq<(Seq<u8>, Term)>, k: Seq<u8>) -> Option<Term>
    decreases d.len(),
{
    if d.len() == 0 {
        None
    } else if d[0].0 == k {
        Some(d[0].1)
    } else {
        dict_get(d.drop_first(), k)
    }
}

/// A value that an encoder can produce and a reader can hold: integers fit
/// in an `i64`, dictionary keys are valid UTF-8 and strictly increasing.
pub open spec fn term_wf(t: Term) -> bool
    decreases t,
{
    match t {
        Term::Int(i) => i64::MIN <= i <= i64::MAX,
        Term::Bytes(_) => true,
        Term::List(l) => forall|i: int| 0 <= i < l.len() ==> term_wf(#[trigger] l[i]),
        Term::Dict(d) => {
            &&& keys_increasing(d)
            &&& forall|i: int|
                0 <= i < d.len() ==> vstd::utf8::valid_utf8(#[trigger] d[i].0) && term_wf(d[i].1)
        },
    }
}

/// A value that reading gives back: well-formed, with byte strings and keys
/// no longer than an `i64` and a `usize` can count.
pub open spec fn term_readable(t: Term) -> bool
    decreases t,
{
    match t {
        Term::Int(i) => i64::MIN <= i <= i64::MAX,
        Term::Bytes(b) => b.len() <= i64::MAX && b.len() <= usize::MAX,
        Term::List(l) => forall|i: int| 0 <= i < l.len() ==> term_readable(#[trigger] l[i]),
        Term::Dict(d) => {
            &&& keys_increasing(d)
            &&& forall|i: int|
                0 <= i < d.len() ==> {
                    &&& vstd::utf8::valid_utf8(#[trigger] d[i].0)
                    &&& d[i].0.len() <= i64::MAX
                    &&& d[i].0.len() <= usize::MAX
                    &&& term_readable(d[i].1)
                }
        },
    }
}

/// ASCII code of the decimal digit `d`.
pub open spec fn digit_byte(d: nat) -> u8 {
    (DIGIT_ZERO + d % 10) as u8
}

/// Decimal notation of a natural number, without leading zeros.
pub open spec fn decimal(n: nat) -> Seq<u8>
    decreases n,
{
    if n < 10 {
        seq![digit_byte(n)]
    } else {
        decimal(n / 10).push(digit_byte(n % 10))
    }
}

/// Decimal notation of an integer, with a leading `-` when negative.
pub open spec fn signed_decimal(i: int) -> Seq<u8> {
    if i < 0 {
        seq![MINUS] + decimal((-i) as nat)
    } else {
        decimal(i as nat)
    }
}

/// The bencode encoding of a value.
pub open spec fn encode(t: Term) -> Seq<u8>
    decreases t,
{
    match t {
        Term::Int(i) => seq![INT_OPEN] + signed_decimal(i) + seq![CLOSE],
        Term::Bytes(b) => decimal(b.len()) + seq![COLON] + b,
        Term::List(l) => seq![LIST_OPEN] + encode_items(l) + seq![CLOSE],
        Term::Dict(d) => seq![DICT_OPEN] + encode_entries(d) + seq![CLOSE],
    }
}

/// The encodings of the items of a list, one after the other.
pub open spec fn encode_items(l: Seq<Term>) -> Seq<u8>
    decreases l,
{
    if l.len() == 0 {
        Seq::empty()
    } else {
        encode(l[0]) + encode_items(l.drop_first())
    }
}

/// The encodings of the entries of a dictionary: each key as a byte string,
/// then its value.
pub open spec fn encode_entries(d: Seq<(Seq<u8>, Term)>) -> Seq<u8>
    decreases d,
{
    if d.len() == 0 {
        Seq::empty()
    } else {
        decimal(d[0].0.len()) + seq![COLON] + d[0].0 + encode(d[0].1) + encode_entries(
            d.drop_first(),
        )
    }
}

/// The byte order compares byte strings as unsigned bytes, from the first:
/// `a` comes before `b` exactly when `a` is a proper prefix of `b`, or at the
/// first index where they differ the byte of `a` is the smaller.
pub proof fn lemma_bytes_lt_meaning(a: Seq<u8>, b: Seq<u8>)
    ensures
        bytes_lt(a, b) <==> (a.len() < b.len() && b.take(a.len() as int) == a) || exists|k: int|
            0 <= k < a.len() && k < b.len() && #[trigger] a.take(k) == b.take(k) && a[k] < b[k],
    decreases a.len(),
{
    if a.len() == 0 {
        assert(b.take(0) =~= a);
    } else if b.len() == 0 {
    } else if a[0] != b[0] {
        if a.len() < b.len() && b.take(a.len() as int) == a {
            assert(b.take(a.len() as int)[0] == b[0]);
            assert(b.take(a.len() as int)[0] == a[0]);
        }
        assert forall|k: int|
            0 <= k < a.len() && k < b.len() && #[trigger] a.take(k) == b.take(k) && a[k] < b[k] implies k
            == 0 by {
            if k > 0 {
                assert(a.take(k)[0] == a[0]);
                assert(b.take(k)[0] == b[0]);
            }
        }
        if a[0] < b[0] {
            assert(a.take(0) =~= b.take(0));
        }
    } else {
        let a1 = a.drop_first();
        let b1 = b.drop_first();
        lemma_bytes_lt_meaning(a1, b1);
        if a.len() < b.len() && b.take(a.len() as int) == a {
            assert(b1.take(a1.len() as int) =~= a1) by {
                assert forall|x: int| 0 <= x < a1.len() implies b1.take(a1.len() as int)[x] == a1[x] by {
                    assert(b.take(a.len() as int)[x + 1] == a[x + 1]);
                }
            }
        }
        if a1.len() < b1.len() && b1.take(a1.len() as int) == a1 {
            assert(b.take(a.len() as int) =~= a) by {
                assert forall|x: int| 0 <= x < a.len() implies b.take(a.len() as int)[x] == a[x] by {
                    if x > 0 {
                        assert(b1.take(a1.len() as int)[x - 1] == a1[x - 1]);
                    }
                }
            }
        }
        assert forall|k: int|
            0 <= k < a.len() && k < b.len() && #[trigger] a.take(k) == b.take(k) && a[k] < b[k] implies (
            k >= 1 && a1.take(k - 1) == b1.take(k - 1) && a1[k - 1] < b1[k - 1]) by {
            assert(a1.take(k - 1) =~= a.take(k).drop_first());
            assert(b1.take(k - 1) =~= b.take(k).drop_first());
        }
        assert forall|k: int|
            0 <= k < a1.len() && k < b1.len() && #[trigger] a1.take(k) == b1.take(k) && a1[k] < b1[k] implies (
            a.take(k + 1) == b.take(k + 1)) by {
            assert(a.take(k + 1) =~= seq![a[0]] + a1.take(k));
            assert(b.take(k + 1) =~= seq![b[0]] + b1.take(k));
        }
    }
}

/// No byte string precedes itself.
pub proof fn lemma_bytes_lt_irreflexive(a: Seq<u8>)
    ensures
        !bytes_lt(a, a),
    decreases a.len(),
{
    if a.len() > 0 {
        lemma_bytes_lt_irreflexive(a.drop_first());
    }
}

/// The byte order is transitive.
pub proof fn lemma_bytes_lt_transitive(a: Seq<u8>, b: Seq<u8>, c: Seq<u8>)
    requires
        bytes_lt(a, b),
        bytes_lt(b, c),
    ensures
        bytes_lt(a, c),
    decreases a.len(),
{
    if a.len() > 0 && b.len() > 0 && c.len() > 0 && a[0] == b[0] && b[0] == c[0] {
        lemma_bytes_lt_transitive(a.drop_first(), b.drop_first(), c.drop_first());
    }
}

/// Any two byte strings are equal or ordered one way or the other.
pub proof fn lemma_bytes_lt_total(a: Seq<u8>, b: Seq<u8>)
    ensures
        a == b || bytes_lt(a, b) || bytes_lt(b, a),
    decreases a.len(),
{
    if a.len() == 0 && b.len() == 0 {
        assert(a =~= b);
    } else if a.len() > 0 && b.len() > 0 && a[0] == b[0] {
        lemma_bytes_lt_total(a.drop_first(), b.drop_first());
        if a.drop_first() == b.drop_first() {
            assert(a =~= seq![a[0]] + a.drop_first());
            assert(b =~= seq![b[0]] + b.drop_first());
        }
    }
}

/// Every key of the result of an insertion lies above a bound that the old
/// keys and the new key lie above.
pub proof fn lemma_dict_insert_above(d: Seq<(Seq<u8>, Term)>, k: Seq<u8>, v: Term, lo: Seq<u8>)
    requires
        forall|i: int| 0 <= i < d.len() ==> bytes_lt(lo, #[trigger] d[i].0),
        bytes_lt(lo, k),
    ensures
        forall|i: int|
            0 <= i < dict_insert(d, k, v).len() ==> bytes_lt(lo, #[trigger] dict_insert(d, k, v)[i].0),
    decreases d.len(),
{
    if d.len() > 0 && d[0].0 != k && !bytes_lt(k, d[0].0) {
        lemma_dict_insert_above(d.drop_first(), k, v, lo);
        let r = dict_insert(d, k, v);
        assert forall|i: int| 0 <= i < r.len() implies bytes_lt(lo, #[trigger] r[i].0) by {
            if i > 0 {
                assert(r[i] == dict_insert(d.drop_first(), k, v)[i - 1]);
            }
        }
    }
}

/// Insertion keeps the keys strictly increasing.
pub proof fn lemma_dict_insert_increasing(d: Seq<(Seq<u8>, Term)>, k: Seq<u8>, v: Term)
    requires
        keys_increasing(d),
    ensures
        keys_increasing(dict_insert(d, k, v)),
    decreases d.len(),
{
    let r = dict_insert(d, k, v);
    if d.len() == 0 {
    } else if d[0].0 == k {
        assert forall|i: int, j: int| 0 <= i < j < r.len() implies bytes_lt(
            #[trigger] r[i].0,
            #[trigger] r[j].0,
        ) by {
            assert(r[i].0 == d[i].0);
            assert(r[j].0 == d[j].0);
        }
    } else if bytes_lt(k, d[0].0) {
        assert forall|i: int, j: int| 0 <= i < j < r.len() implies bytes_lt(
            #[trigger] r[i].0,
            #[trigger] r[j].0,
        ) by {
            if i == 0 {
                if j > 1 {
                    lemma_bytes_lt_transitive(k, d[0].0, d[j - 1].0);
                }
            } else {
                assert(r[i] == d[i - 1]);
                assert(r[j] == d[j - 1]);
            }
        }
    } else {
        let rest = d.drop_first();
        lemma_dict_insert_increasing(rest, k, v);
        lemma_bytes_lt_total(k, d[0].0);
        assert forall|i: int| 0 <= i < rest.len() implies bytes_lt(d[0].0, #[trigger] rest[i].0) by {
            assert(rest[i] == d[i + 1]);
        }
        lemma_dict_insert_above(rest, k, v, d[0].0);
        let tail = dict_insert(rest, k, v);
        assert forall|i: int, j: int| 0 <= i < j < r.len() implies bytes_lt(
            #[trigger] r[i].0,
            #[trigger] r[j].0,
        ) by {
            assert(r[j] == tail[j - 1]);
            if i > 0 {
                assert(r[i] == tail[i - 1]);
            }
        }
    }
}

/// The encoding of a list grows item by item.
pub proof fn lemma_encode_items_push(l: Seq<Term>, x: Term)
    ensures
        encode_items(l.push(x)) == encode_items(l) + encode(x),
    decreases l.len(),
{
    if l.len() == 0 {
        assert(l.push(x).drop_first() =~= Seq::<Term>::empty());
        assert(encode_items(Seq::<Term>::empty()) == Seq::<u8>::empty());
        assert(l.push(x)[0] == x);
        assert(encode_items(l.push(x)) =~= encode(x));
    } else {
        lemma_encode_items_push(l.drop_first(), x);
        assert(l.push(x).drop_first() =~= l.drop_first().push(x));
        assert(encode_items(l.push(x)) =~= encode_items(l) + encode(x));
    }
}

/// The encoding of a dictionary grows entry by entry.
pub proof fn lemma_encode_entries_push(d: Seq<(Seq<u8>, Term)>, x: (Seq<u8>, Term))
    ensures
        encode_entries(d.push(x)) == encode_entries(d) + (decimal(x.0.len()) + seq![COLON] + x.0
            + encode(x.1)),
    decreases d.len(),
{
    if d.len() == 0 {
        assert(d.push(x).drop_first() =~= Seq::<(Seq<u8>, Term)>::empty());
        assert(encode_entries(Seq::<(Seq<u8>, Term)>::empty()) == Seq::<u8>::empty());
        assert(d.push(x)[0] == x);
        assert(encode_entries(d.push(x)) =~= decimal(x.0.len()) + seq![COLON] + x.0 + encode(
            x.1,
        ));
    } else {
        lemma_encode_entries_push(d.drop_first(), x);
        assert(d.push(x).drop_first() =~= d.drop_first().push(x));
        assert(encode_entries(d.push(x)) =~= encode_entries(d) + (decimal(x.0.len()) + seq![COLON]
            + x.0 + encode(x.1)));
    }
}

/// Insertion passes over an entry whose key is below the new key.
pub proof fn lemma_dict_insert_pass(d: Seq<(Seq<u8>, Term)>, i: int, k: Seq<u8>, v: Term)
    requires
        0 <= i < d.len(),
        dict_insert(d, k, v) == d.take(i) + dict_insert(d.skip(i), k, v),
        d[i].0 != k,
        !bytes_lt(k, d[i].0),
    ensures
        dict_insert(d, k, v) == d.take(i + 1) + dict_insert(d.skip(i + 1), k, v),
{
    let rest = d.skip(i);
    assert(rest[0] == d[i]);
    assert(rest.drop_first() =~= d.skip(i + 1));
    assert(d.take(i + 1) =~= d.take(i).push(d[i]));
    assert(d.take(i) + (seq![rest[0]] + dict_insert(rest.drop_first(), k, v)) =~= d.take(i + 1)
        + dict_insert(d.skip(i + 1), k, v));
}

/// Where insertion stops: at an equal key it replaces the value, before a
/// greater key it inserts, at the end it appends.
pub proof fn lemma_dict_insert_stop(d: Seq<(Seq<u8>, Term)>, i: int, k: Seq<u8>, v: Term)
    requires
        0 <= i <= d.len(),
        dict_insert(d, k, v) == d.take(i) + dict_insert(d.skip(i), k, v),
    ensures
        i < d.len() && d[i].0 == k ==> dict_insert(d, k, v) == d.update(i, (k, v)),
        i < d.len() && d[i].0 != k && bytes_lt(k, d[i].0) ==> dict_insert(d, k, v) == d.insert(
            i,
            (k, v),
        ),
        i == d.len() ==> dict_insert(d, k, v) == d.push((k, v)),
{
    let rest = d.skip(i);
    if i < d.len() {
        assert(rest[0] == d[i]);
        if d[i].0 == k {
            assert(d.take(i) + rest.update(0, (k, v)) =~= d.update(i, (k, v)));
        } else if bytes_lt(k, d[i].0) {
            assert(d.take(i) + (seq![(k, v)] + rest) =~= d.insert(i, (k, v)));
        }
    } else {
        assert(rest =~= Seq::<(Seq<u8>, Term)>::empty());
        assert(d.take(i) + seq![(k, v)] =~= d.push((k, v)));
    }
}

/// Inserting a key above every key present appends the entry.
pub proof fn lemma_dict_insert_append(d: Seq<(Seq<u8>, Term)>, k: Seq<u8>, v: Term)
    requires
        forall|i: int| 0 <= i < d.len() ==> bytes_lt(#[trigger] d[i].0, k),
    ensures
        dict_insert(d, k, v) == d.push((k, v)),
    decreases d.len(),
{
    if d.len() > 0 {
        lemma_bytes_lt_irreflexive(k);
        if bytes_lt(k, d[0].0) {
            lemma_bytes_lt_transitive(k, d[0].0, k);
        }
        assert forall|i: int| 0 <= i < d.drop_first().len() implies bytes_lt(
            #[trigger] d.drop_first()[i].0,
            k,
        ) by {
            assert(d.drop_first()[i] == d[i + 1]);
        }
        lemma_dict_insert_append(d.drop_first(), k, v);
        assert(seq![d[0]] + d.drop_first().push((k, v)) =~= d.push((k, v)));
    }
}

/// An encoding is not empty, and its first byte opens a value: `i`, `l`, `d`
/// or a digit.
pub proof fn lemma_encode_head(t: Term)
    ensures
        encode(t).len() >= 1,
        encode(t)[0] == INT_OPEN || encode(t)[0] == LIST_OPEN || encode(t)[0] == DICT_OPEN
            || is_digit(encode(t)[0]),
{
    match t {
        Term::Bytes(b) => {
            lemma_decimal_nonempty(b.len());
            assert(encode(t)[0] == decimal(b.len())[0]);
        },
        _ => {},
    }
}

/// A decimal notation starts with a digit.
pub proof fn lemma_decimal_nonempty(n: nat)
    ensures
        decimal(n).len() >= 1,
        is_digit(decimal(n)[0]),
    decreases n,
{
    if n >= 10 {
        lemma_decimal_nonempty(n / 10);
    }
}

/// Inserting the entries of `e` into `d`, first to last.
pub open spec fn insert_all(d: Seq<(Seq<u8>, Term)>, e: Seq<(Seq<u8>, Term)>) -> Seq<(Seq<u8>, Term)>
    decreases e.len(),
{
    if e.len() == 0 {
        d
    } else {
        insert_all(dict_insert(d, e[0].0, e[0].1), e.drop_first())
    }
}

/// The value of the last entry of `e` with key `k`, if any.
pub open spec fn last_value(e: Seq<(Seq<u8>, Term)>, k: Seq<u8>) -> Option<Term>
    decreases e.len(),
{
    if e.len() == 0 {
        None
    } else if e.last().0 == k {
        Some(e.last().1)
    } else {
        last_value(e.drop_last(), k)
    }
}

/// After an insertion, the new key holds the new value and every other key
/// holds what it held.
pub proof fn lemma_dict_insert_get(d: Seq<(Seq<u8>, Term)>, k: Seq<u8>, v: Term, k2: Seq<u8>)
    ensures
        dict_get(dict_insert(d, k, v), k2) == if k2 == k {
            Some(v)
        } else {
            dict_get(d, k2)
        },
    decreases d.len(),
{
    let r = dict_insert(d, k, v);
    if d.len() == 0 {
        assert(r[0] == (k, v));
        assert(r.drop_first() =~= Seq::<(Seq<u8>, Term)>::empty());
        assert(dict_get(Seq::<(Seq<u8>, Term)>::empty(), k2) is None);
    } else if d[0].0 == k {
        assert(r[0] == (k, v));
        assert(r.drop_first() =~= d.drop_first());
    } else if bytes_lt(k, d[0].0) {
        assert(r[0] == (k, v));
        assert(r.drop_first() =~= d);
    } else {
        assert(r[0] == d[0]);
        assert(r.drop_first() =~= dict_insert(d.drop_first(), k, v));
        lemma_dict_insert_get(d.drop_first(), k, v, k2);
    }
}

/// Inserting one more entry at the end of a run of insertions.
pub proof fn lemma_insert_all_push(d: Seq<(Seq<u8>, Term)>, e: Seq<(Seq<u8>, Term)>, x: (Seq<u8>, Term))
    ensures
        insert_all(d, e.push(x)) == dict_insert(insert_all(d, e), x.0, x.1),
    decreases e.len(),
{
    if e.len() == 0 {
        assert(e.push(x)[0] == x);
        assert(e.push(x).drop_first() =~= Seq::<(Seq<u8>, Term)>::empty());
        assert(insert_all(dict_insert(d, x.0, x.1), Seq::<(Seq<u8>, Term)>::empty()) == dict_insert(
            d,
            x.0,
            x.1,
        ));
    } else {
        assert(e.push(x)[0] == e[0]);
        assert(e.push(x).drop_first() =~= e.drop_first().push(x));
        lemma_insert_all_push(dict_insert(d, e[0].0, e[0].1), e.drop_first(), x);
    }
}

/// A dictionary built by inserting entries into an empty one maps each key to
/// the value of its last entry, and holds no other key.
pub proof fn lemma_insert_all_get(e: Seq<(Seq<u8>, Term)>, k: Seq<u8>)
    ensures
        dict_get(insert_all(Seq::empty(), e), k) == last_value(e, k),
        last_value(e, k) is Some <==> exists|x: int| 0 <= x < e.len() && #[trigger] e[x].0 == k,
    decreases e.len(),
{
    if e.len() > 0 {
        let init = e.drop_last();
        lemma_insert_all_get(init, k);
        assert(init.push(e.last()) =~= e);
        lemma_insert_all_push(Seq::empty(), init, e.last());
        lemma_dict_insert_get(insert_all(Seq::empty(), init), e.last().0, e.last().1, k);
        if last_value(e, k) is Some {
            if e.last().0 == k {
                assert(e[e.len() - 1].0 == k);
            } else {
                let x = choose|x: int| 0 <= x < init.len() && #[trigger] init[x].0 == k;
                assert(e[x] == init[x]);
            }
        } else {
            assert forall|x: int| 0 <= x < e.len() implies #[trigger] e[x].0 != k by {
                if x < init.len() {
                    assert(e[x] == init[x]);
                }
            }
        }
    }
}

} // verus!
