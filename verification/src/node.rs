//! Bencode values held in memory, and their encoding.
use vstd::prelude::*;
use crate::term;
use crate::term::{Term, CLOSE, COLON, DICT_OPEN, INT_OPEN, LIST_OPEN};
use crate::text;

verus! {

/// The items of a list.
pub type BList = Vec<BNode>;

/// A bencode value.
pub enum BNode {
    Int(i64),
    Bytes(Vec<u8>),
    List(BList),
    Dict(BDict),
}

/// A dictionary: its entries ordered by the bytes of their keys, each key once.
pub struct BDict {
    entries: Vec<(String, BNode)>,
}

/// The UTF-8 bytes of a string.
pub open spec fn key_bytes(k: String) -> Seq<u8> {
    vstd::utf8::encode_utf8(k@)
}

/// The model of a value.
pub open spec fn node_view(n: BNode) -> Term
    decreases n,
{
    match n {
        BNode::Int(i) => Term::Int(i as int),
        BNode::Bytes(b) => Term::Bytes(b@),
        BNode::List(l) => Term::List(list_view(l@)),
        BNode::Dict(d) => Term::Dict(dict_view(d)),
    }
}

/// The model of a dictionary.
pub closed spec fn dict_view(d: BDict) -> Seq<(Seq<u8>, Term)>
    decreases d,
{
    entries_view(d.entries@)
}

/// The models of the items of a list.
pub open spec fn list_view(l: Seq<BNode>) -> Seq<Term>
    decreases l,
{
    Seq::new(
        l.len(),
        |i: int|
            if 0 <= i < l.len() {
                node_view(l[i])
            } else {
                Term::Int(0)
            },
    )
}

/// The models of the entries of a dictionary.
pub open spec fn entries_view(e: Seq<(String, BNode)>) -> Seq<(Seq<u8>, Term)>
    decreases e,
{
    Seq::new(
        e.len(),
        |i: int|
            if 0 <= i < e.len() {
                (key_bytes(e[i].0), node_view(e[i].1))
            } else {
                (Seq::empty(), Term::Int(0))
            },
    )
}

impl View for BNode {
    type V = Term;

    open spec fn view(&self) -> Term {
        node_view(*self)
    }
}

impl View for BDict {
    type V = Seq<(Seq<u8>, Term)>;

    open spec fn view(&self) -> Seq<(Seq<u8>, Term)> {
        dict_view(*self)
    }
}

/// Compares two byte strings: zero when equal, negative when `a` comes first
/// in byte order, positive otherwise.
fn compare_bytes(a: &[u8], b: &[u8]) -> (r: i8)
    ensures
        (r == 0) == (a@ == b@),
        (r < 0) == term::bytes_lt(a@, b@),
{
    let mut i: usize = 0;
    assert(a@.skip(0) =~= a@);
    assert(b@.skip(0) =~= b@);
    assert(a@.take(0) =~= b@.take(0));
    while i < a.len() && i < b.len() && a[i] == b[i]
        invariant
            i <= a.len(),
            i <= b.len(),
            a@.take(i as int) == b@.take(i as int),
            (a@ == b@) == (a@.skip(i as int) == b@.skip(i as int)),
            term::bytes_lt(a@, b@) == term::bytes_lt(a@.skip(i as int), b@.skip(i as int)),
        decreases a.len() - i,
    {
        proof {
            let sa = a@.skip(i as int);
            let sb = b@.skip(i as int);
            assert(sa.drop_first() =~= a@.skip(i + 1));
            assert(sb.drop_first() =~= b@.skip(i + 1));
            assert(sa =~= seq![a[i as int]] + a@.skip(i + 1));
            assert(sb =~= seq![b[i as int]] + b@.skip(i + 1));
            if sa == sb {
                assert(sa.drop_first() == sb.drop_first());
            }
            assert(a@.take(i + 1) =~= a@.take(i as int).push(a[i as int]));
            assert(b@.take(i + 1) =~= b@.take(i as int).push(b[i as int]));
        }
        i = i + 1;
    }
    proof {
        let sa = a@.skip(i as int);
        let sb = b@.skip(i as int);
        if i < a.len() && i < b.len() {
            assert(sa[0] == a[i as int]);
            assert(sb[0] == b[i as int]);
        }
        if sa == sb {
            assert(sa.len() == sb.len());
        }
        if i == a.len() && i == b.len() {
            assert(sa =~= sb);
        }
    }
    if i == a.len() {
        if i == b.len() {
            0
        } else {
            -1
        }
    } else if i == b.len() {
        1
    } else if a[i] < b[i] {
        -1
    } else {
        1
    }
}

impl BDict {
    /// The keys are strictly increasing in byte order.
    #[verifier::type_invariant]
    closed spec fn ordered(self) -> bool {
        term::keys_increasing(dict_view(self))
    }

    /// An empty dictionary.
    pub fn new() -> (d: BDict)
        ensures
            d@ == Seq::<(Seq<u8>, Term)>::empty(),
    {
        let d = BDict { entries: Vec::new() };
        proof {
            assert(dict_view(d) =~= Seq::<(Seq<u8>, Term)>::empty());
        }
        d
    }

    /// The number of entries.
    pub fn len(&self) -> (n: usize)
        ensures
            n == self@.len(),
    {
        self.entries.len()
    }

    /// The entries, in strictly increasing key order.
    pub fn entries(&self) -> (r: &[(String, BNode)])
        ensures
            entries_view(r@) == self@,
            term::keys_increasing(self@),
    {
        proof {
            use_type_invariant(self);
        }
        self.entries.as_slice()
    }

    /// The value stored under `key`, if any.
    pub fn get(&self, key: &str) -> (r: Option<&BNode>)
        ensures
            match r {
                Some(n) => term::dict_get(self@, vstd::utf8::encode_utf8(key@)) == Some(n@),
                None => term::dict_get(self@, vstd::utf8::encode_utf8(key@)) is None,
            },
    {
        let k = key.as_bytes();
        let ghost whole = self@;
        let mut idx: usize = 0;
        assert(whole.skip(0) =~= whole);
        while idx < self.entries.len()
            invariant
                whole == entries_view(self.entries@),
                k@ == vstd::utf8::encode_utf8(key@),
                idx <= self.entries@.len(),
                term::dict_get(whole, k@) == term::dict_get(whole.skip(idx as int), k@),
            decreases self.entries@.len() - idx,
        {
            let entry_key = self.entries[idx].0.as_str().as_bytes();
            proof {
                assert(whole.skip(idx as int)[0] == whole[idx as int]);
                assert(whole.skip(idx as int).drop_first() =~= whole.skip(idx + 1));
                assert(whole[idx as int].0 == entry_key@);
            }
            if compare_bytes(k, entry_key) == 0 {
                return Some(&self.entries[idx].1);
            }
            idx = idx + 1;
        }
        proof {
            assert(whole.skip(idx as int) =~= Seq::<(Seq<u8>, Term)>::empty());
        }
        None
    }

    /// Stores `value` under `key`, replacing the value stored under an equal key.
    pub fn insert(&mut self, key: String, value: BNode)
        ensures
            final(self)@ == term::dict_insert(old(self)@, key_bytes(key), value@),
    {
        proof {
            use_type_invariant(&*self);
        }
        let mut entries: Vec<(String, BNode)> = Vec::new();
        std::mem::swap(&mut entries, &mut self.entries);
        let ghost whole = entries_view(entries@);
        let ghost kb = key_bytes(key);
        let ghost vv = value@;
        let mut idx: usize = 0;
        let mut found: bool = false;
        let mut before: bool = false;
        assert(whole.skip(0) =~= whole);
        assert(whole.take(0) + term::dict_insert(whole, kb, vv) =~= term::dict_insert(whole, kb, vv));
        while idx < entries.len()
            invariant
                whole == entries_view(entries@),
                kb == key_bytes(key),
                idx <= entries@.len(),
                term::dict_insert(whole, kb, vv) == whole.take(idx as int) + term::dict_insert(
                    whole.skip(idx as int),
                    kb,
                    vv,
                ),
                found ==> idx < entries@.len() && whole[idx as int].0 == kb,
                before ==> idx < entries@.len() && term::bytes_lt(kb, whole[idx as int].0)
                    && whole[idx as int].0 != kb,
                !(found && before),
            ensures
                found || before || idx == entries@.len(),
                found ==> idx < entries@.len() && whole[idx as int].0 == kb,
                before ==> idx < entries@.len() && term::bytes_lt(kb, whole[idx as int].0)
                    && whole[idx as int].0 != kb,
                !(found && before),
                idx <= entries@.len(),
                whole == entries_view(entries@),
                term::dict_insert(whole, kb, vv) == whole.take(idx as int) + term::dict_insert(
                    whole.skip(idx as int),
                    kb,
                    vv,
                ),
            decreases entries@.len() - idx,
        {
            let c = compare_bytes(key.as_str().as_bytes(), entries[idx].0.as_str().as_bytes());
            if c == 0 {
                found = true;
                break;
            }
            if c < 0 {
                before = true;
                break;
            }
            proof {
                term::lemma_dict_insert_pass(whole, idx as int, kb, vv);
            }
            idx = idx + 1;
        }
        proof {
            term::lemma_dict_insert_stop(whole, idx as int, kb, vv);
        }
        if found {
            entries.set(idx, (key, value));
            assert(entries_view(entries@) =~= whole.update(idx as int, (kb, vv)));
        } else if before {
            entries.insert(idx, (key, value));
            assert(entries_view(entries@) =~= whole.insert(idx as int, (kb, vv)));
        } else {
            entries.push((key, value));
            assert(entries_view(entries@) =~= whole.push((kb, vv)));
        }
        proof {
            term::lemma_dict_insert_increasing(whole, kb, vv);
        }
        self.entries = entries;
    }
}

/// Appends the bytes of `bytes` to `buf`.
fn write_bytes(buf: &mut Vec<u8>, bytes: &[u8])
    ensures
        final(buf)@ == old(buf)@ + bytes@,
{
    let mut i: usize = 0;
    while i < bytes.len()
        invariant
            i <= bytes.len(),
            buf@ == old(buf)@ + bytes@.take(i as int),
        decreases bytes.len() - i,
    {
        buf.push(bytes[i]);
        i = i + 1;
        assert(buf@ =~= old(buf)@ + bytes@.take(i as int));
    }
    assert(bytes@.take(i as int) =~= bytes@);
}

impl BNode {
    /// Appends the bencode encoding of this value to `buf`; dictionary entries
    /// come in key order.
    pub fn marshal(&self, buf: &mut Vec<u8>)
        ensures
            final(buf)@ == old(buf)@ + term::encode(self@),
        decreases self,
    {
        match self {
            BNode::Int(i) => {
                buf.push(INT_OPEN);
                text::write_signed_decimal(buf, *i);
                buf.push(CLOSE);
                assert(buf@ =~= old(buf)@ + term::encode(self@));
            },
            BNode::Bytes(s) => {
                text::write_decimal(buf, s.len() as u64);
                buf.push(COLON);
                write_bytes(buf, s.as_slice());
                assert(buf@ =~= old(buf)@ + term::encode(self@));
            },
            BNode::List(l) => {
                buf.push(LIST_OPEN);
                let ghost items = list_view(l@);
                let ghost start = buf@;
                let mut idx: usize = 0;
                while idx < l.len()
                    invariant
                        idx <= l@.len(),
                        items == list_view(l@),
                        buf@ == start + term::encode_items(items.take(idx as int)),
                        *self == BNode::List(*l),
                    decreases l@.len() - idx,
                {
                    proof {
                        assert(items.take(idx + 1) =~= items.take(idx as int).push(items[idx as int]));
                        term::lemma_encode_items_push(items.take(idx as int), items[idx as int]);
                    }
                    assert(decreases_to!(*self => (*self)->List_0));
                    assert(decreases_to!(*l => l@));
                    assert(decreases_to!(l@ => l@[idx as int]));
                    l[idx].marshal(buf);
                    idx = idx + 1;
                }
                buf.push(CLOSE);
                proof {
                    assert(items.take(idx as int) =~= items);
                }
                assert(buf@ =~= old(buf)@ + term::encode(self@));
            },
            BNode::Dict(m) => {
                buf.push(DICT_OPEN);
                let entries = &m.entries;
                let ghost items = m@;
                let ghost start = buf@;
                let mut idx: usize = 0;
                while idx < entries.len()
                    invariant
                        idx <= entries@.len(),
                        items == entries_view(entries@),
                        buf@ == start + term::encode_entries(items.take(idx as int)),
                        *self == BNode::Dict(*m),
                        items == m@,
                        *entries == m.entries,
                    decreases entries@.len() - idx,
                {
                    let key = entries[idx].0.as_str().as_bytes();
                    proof {
                        assert(items.take(idx + 1) =~= items.take(idx as int).push(items[idx as int]));
                        term::lemma_encode_entries_push(items.take(idx as int), items[idx as int]);
                    }
                    text::write_decimal(buf, key.len() as u64);
                    buf.push(COLON);
                    write_bytes(buf, key);
                    assert(decreases_to!(*self => (*self)->Dict_0));
                    assert(decreases_to!(*m => m.entries));
                    assert(decreases_to!(m.entries => m.entries@));
                    assert(decreases_to!(m.entries@ => m.entries@[idx as int]));
                    assert(decreases_to!(m.entries@[idx as int] => m.entries@[idx as int].1));
                    entries[idx].1.marshal(buf);
                    idx = idx + 1;
                    assert(buf@ =~= start + term::encode_entries(items.take(idx as int)));
                }
                buf.push(CLOSE);
                proof {
                    assert(items.take(idx as int) =~= items);
                }
                assert(buf@ =~= old(buf)@ + term::encode(self@));
            },
        }
    }
}

} // verus!
