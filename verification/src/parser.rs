//! Reading bencode values with a lexer.
use vstd::prelude::*;
use crate::grammar;
use crate::grammar::Outcome;
use crate::lexer;
use crate::lexer::{error, Error, Lexer, LexerView, Token};
use crate::node;
use crate::node::{BDict, BList, BNode};
use crate::term;
use crate::term::{Term, CLOSE, COLON, DICT_OPEN, DIGIT_ZERO, INT_OPEN, LIST_OPEN};

verus! {

/// `String::from_utf8`: the string whose UTF-8 encoding is `bytes`, or `None`
/// where `bytes` is not valid UTF-8.
#[verifier::external_body]
fn string_from_utf8(bytes: Vec<u8>) -> (r: Option<String>)
    ensures
        r is Some <==> vstd::utf8::valid_utf8(bytes@),
        r matches Some(s) ==> s@ == vstd::utf8::decode_utf8(bytes@),
{
    match String::from_utf8(bytes) {
        Ok(s) => Some(s),
        Err(_) => None,
    }
}

/// The byte that opens a number, a list or a dictionary.
pub open spec fn opening_byte(t: Token) -> u8 {
    match t {
        Token::IntBegin => INT_OPEN,
        Token::ListBegin => LIST_OPEN,
        _ => DICT_OPEN,
    }
}

/// What a look ahead between tokens shows, and the lexer after the token is
/// taken. An opening token: the byte at the next index opens it, and taking
/// it leaves the lexer just after that byte. A length: digits at the next
/// index up to a `:`, which comes next, and then the lexer stands before the
/// bytes. A closing token: `e` at the next index ends the innermost open
/// token, and taking it leaves the lexer after it.
proof fn lemma_look_shows(v: LexerView, t: Token)
    requires
        v.wf(),
        v.at_token(),
        v.look_step().0 == Outcome::<Token>::Done(t),
    ensures
        lexer::is_opening(t) ==> {
            &&& 0 <= v.next() < v.input.len()
            &&& v.input[v.next()] == opening_byte(t)
            &&& v.look_step().1.token_step() == (Outcome::<Token>::Done(t), v.read_to(
                v.next(),
            ).opened(t))
        },
        t matches Token::Length(n) ==> {
            let s = v.input;
            let i = v.next();
            let u = v.look_step().1;
            &&& 0 <= i < s.len()
            &&& term::is_digit(s[i])
            &&& grammar::length_at(s, i) matches Outcome::Done((m, k)) && m == n && {
                let w = u.token_step().1;
                &&& u.token_step().0 == Outcome::<Token>::Done(Token::Length(n))
                &&& w.token_step().0 == Outcome::<Token>::Done(Token::Colon)
                &&& w.stack == v.stack
                &&& w.token_step().1.next() == k + 1
            }
        },
        (t is IntEnd || t is ListEnd || t is DictEnd) ==> {
            &&& 0 <= v.next() < v.input.len()
            &&& v.input[v.next()] == CLOSE
            &&& v.stack.len() > 0
            &&& v.look_step().1.position == v.next()
            &&& (t is ListEnd ==> v.stack.last() is ListBegin)
            &&& (t is DictEnd ==> v.stack.last() is DictBegin)
            &&& v.look_step().1.token_step().0 == Outcome::<Token>::Done(t)
            &&& v.look_step().1.token_step().1.ready_at(v.input, v.next() + 1, v.stack.drop_last())
        },
{
    if t is Length {
        grammar::lemma_length_at_bounds(v.input, v.next());
    }
}

/// Looking ahead between tokens shows the end of the input only past its end;
/// it never shows a `:`.
proof fn lemma_look_ends(v: LexerView)
    requires
        v.wf(),
        v.at_token(),
    ensures
        v.look_step().0 == Outcome::<Token>::Done(Token::EOF) ==> !(0 <= v.next() < v.input.len())
            && v.look_step().1.position == v.next(),
        v.look_step().0 != Outcome::<Token>::Done(Token::Colon),
{
}

/// Looking ahead between tokens fails (or aborts) exactly as reading a value,
/// a list item or a dictionary entry there fails.
proof fn lemma_look_fails(v: LexerView, items: Seq<Term>, entries: Seq<(Seq<u8>, Term)>)
    requires
        v.wf(),
        v.at_token(),
        v.look_step().0 is Failed || v.look_step().0 is Aborts,
    ensures
        ({
            let s = v.input;
            let i = v.next();
            let nested = v.stack.len() > 0;
            &&& v.look_step().0 matches Outcome::Failed(p, m) ==> {
                &&& grammar::value_at(s, i, nested) == Outcome::<(Term, int)>::Failed(p, m)
                &&& nested ==> grammar::list_items(s, i, items) == Outcome::<(Term, int)>::Failed(p, m)
                &&& nested ==> grammar::dict_items(s, i, entries) == Outcome::<(Term, int)>::Failed(
                    p,
                    m,
                )
            }
            &&& v.look_step().0 matches Outcome::Aborts(p, m) ==> {
                &&& grammar::value_at(s, i, nested) == Outcome::<(Term, int)>::Aborts(p, m)
                &&& grammar::list_items(s, i, items) == Outcome::<(Term, int)>::Aborts(p, m)
                &&& grammar::dict_items(s, i, entries) == Outcome::<(Term, int)>::Aborts(p, m)
            }
        }),
{
    let s = v.input;
    let i = v.next();
    if v.look_step().0 is Aborts {
        assert(grammar::value_at(s, i, true) == grammar::value_at(s, i, false));
    }
}

/// Reads an integer, the next token being its `i`: the value, and the lexer
/// after its `e`.
pub fn parse_number<'a>(lexer: Lexer<'a>) -> (r: Result<(i64, Lexer<'a>), Error>)
    requires
        lexer.wf(),
        lexer@.has_room(),
        lexer@.token_step().0 == Outcome::<Token>::Done(Token::IntBegin),
    ensures
        match grammar::number_from(lexer@.input, lexer@.token_step().1.next()) {
            Outcome::Done((t, j)) => r matches Ok((n, l)) && t == Term::Int(n as int) && l.wf()
                && l@.ready_at(lexer@.input, j, lexer@.token_step().1.stack.drop_last())
                && l@.current is None,
            Outcome::Failed(p, m) | Outcome::Aborts(p, m) => r matches Err(e) && e.position == p
                && e.msg@ == m,
        },
{
    let mut lexer = lexer;
    let opening = match lexer.next_token() {
        Ok(t) => t,
        Err(e) => {
            return Err(e);
        },
    };
    assert(opening == Token::IntBegin);
    let (value, read) = match lexer.read_i64_before(0, CLOSE) {
        Ok(p) => p,
        Err(e) => {
            return Err(e);
        },
    };
    if read < 1 {
        return Err(error("Number cannot be empty", lexer.position()));
    }
    let closing = match lexer.next_token() {
        Ok(t) => t,
        Err(e) => {
            return Err(e);
        },
    };
    assert(closing == Token::IntEnd);
    Ok((value, lexer))
}

/// Reads a byte string, the next token being its length: the bytes, and the
/// lexer after them. Any other token is an error.
pub fn parse_stream<'a>(lexer: Lexer<'a>) -> (r: Result<(Vec<u8>, Lexer<'a>), Error>)
    requires
        lexer.wf(),
        lexer@.has_room(),
        lexer@.token_step().0 matches Outcome::Done(Token::Length(_))
            ==> lexer@.token_step().1.token_step().0 == Outcome::<Token>::Done(Token::Colon),
    ensures
        match lexer@.token_step() {
            (Outcome::Done(Token::Length(n)), w) => match grammar::read_span(
                lexer@.input,
                w.token_step().1.next(),
                (n as usize) as nat,
            ) {
                Outcome::Done((b, j)) => r matches Ok((bytes, l)) && bytes@ == b && l.wf()
                    && l@.ready_at(lexer@.input, j, w.stack) && l@.current == Some(Token::Colon),
                Outcome::Failed(p, m) => r matches Err(e) && e.position == p && e.msg@ == m,
                Outcome::Aborts(..) => false,
            },
            (Outcome::Done(_), w) => r matches Err(e) && e.position == w.position && e.msg@
                == grammar::msg_invalid_input(),
            (Outcome::Failed(p, m), _) | (Outcome::Aborts(p, m), _) => r matches Err(e) && e.position
                == p && e.msg@ == m,
        },
{
    let mut lexer = lexer;
    let next_token = match lexer.next_token() {
        Ok(t) => t,
        Err(e) => {
            return Err(e);
        },
    };
    match next_token {
        Token::Length(len) => {
            let colon = match lexer.next_token() {
                Ok(t) => t,
                Err(e) => {
                    return Err(e);
                },
            };
            assert(colon == Token::Colon);
            let stream = match lexer.read_bytes(len as usize) {
                Ok(b) => b,
                Err(e) => {
                    return Err(e);
                },
            };
            Ok((stream, lexer))
        },
        _ => Err(error("invalid input", lexer.position())),
    }
}

/// Reads a value: the value and the lexer after it.
pub fn parse_internal<'a>(lexer: Lexer<'a>) -> (r: Result<(BNode, Lexer<'a>), Error>)
    requires
        lexer.wf(),
        lexer@.has_room(),
        lexer@.at_token(),
    ensures
        match grammar::value_at(lexer@.input, lexer@.next(), lexer@.stack.len() > 0) {
            Outcome::Done((t, j)) => r matches Ok((n, l)) && n@ == t && l.wf() && l@.ready_at(
                lexer@.input,
                j,
                lexer@.stack,
            ) && l@.current == (if t is Bytes {
                Some(Token::Colon)
            } else {
                None
            }),
            Outcome::Failed(p, m) | Outcome::Aborts(p, m) => r matches Err(e) && e.position == p
                && e.msg@ == m,
        },
    decreases lexer@.input.len() - lexer@.next(), 0int,
{
    let ghost v = lexer@;
    proof {
        lemma_look_ends(v);
        if v.look_step().0 is Failed || v.look_step().0 is Aborts {
            lemma_look_fails(v, Seq::empty(), Seq::empty());
        }
    }
    let mut lexer = lexer;
    let token = match lexer.look_ahead() {
        Ok(t) => t,
        Err(e) => {
            return Err(e);
        },
    };
    proof {
        assert(v.stack.push(token).drop_last() =~= v.stack);
        lemma_look_shows(v, token);
    }
    match token {
        Token::IntBegin => {
            let (number, lexer) = match parse_number(lexer) {
                Ok(p) => p,
                Err(e) => {
                    return Err(e);
                },
            };
            Ok((BNode::Int(number), lexer))
        },
        Token::Length(_) => {
            let (stream, lexer) = match parse_stream(lexer) {
                Ok(p) => p,
                Err(e) => {
                    return Err(e);
                },
            };
            Ok((BNode::Bytes(stream), lexer))
        },
        Token::ListBegin => {
            let (list, lexer) = match parse_list(lexer) {
                Ok(p) => p,
                Err(e) => {
                    return Err(e);
                },
            };
            Ok((BNode::List(list), lexer))
        },
        Token::DictBegin => {
            let (dict, lexer) = match parse_dict(lexer) {
                Ok(p) => p,
                Err(e) => {
                    return Err(e);
                },
            };
            Ok((BNode::Dict(dict), lexer))
        },
        _ => Err(error("invalid input", lexer.position())),
    }
}

/// Reads a list, the next token being its `l`: the items, and the lexer after
/// its `e`.
#[verifier::loop_isolation(false)]
pub fn parse_list<'a>(lexer: Lexer<'a>) -> (r: Result<(BList, Lexer<'a>), Error>)
    requires
        lexer.wf(),
        lexer@.has_room(),
        lexer@.token_step().0 == Outcome::<Token>::Done(Token::ListBegin),
    ensures
        match grammar::list_items(lexer@.input, lexer@.token_step().1.next(), Seq::empty()) {
            Outcome::Done((t, j)) => r matches Ok((list, l)) && t == Term::List(
                node::list_view(list@),
            ) && l.wf() && l@.ready_at(lexer@.input, j, lexer@.token_step().1.stack.drop_last())
                && l@.current is None,
            Outcome::Failed(p, m) | Outcome::Aborts(p, m) => r matches Err(e) && e.position == p
                && e.msg@ == m,
        },
    decreases lexer@.input.len() - lexer@.token_step().1.next(), 1int,
{
    let ghost s = lexer@.input;
    let ghost w = lexer@.token_step().1;
    let ghost outer = w.stack.drop_last();
    let ghost start = w.next();
    let ghost goal = grammar::list_items(s, start, Seq::empty());
    let mut lexer = lexer;
    let opening = match lexer.next_token() {
        Ok(t) => t,
        Err(e) => {
            return Err(e);
        },
    };
    assert(opening == Token::ListBegin);
    assert(lexer@.stack =~= outer.push(Token::ListBegin));
    let mut list: BList = Vec::new();
    assert(node::list_view(list@) =~= Seq::<Term>::empty());
    loop
        invariant
            lexer.wf(),
            lexer@.has_room(),
            lexer@.at_token(),
            lexer@.input == s,
            lexer@.stack == outer.push(Token::ListBegin),
            start <= lexer@.next(),
            grammar::list_items(s, lexer@.next(), node::list_view(list@)) == goal,
            s.len() < i64::MAX,
        decreases s.len() - lexer@.next(),
    {
        let ghost i = lexer@.next();
        let ghost acc = node::list_view(list@);
        let ghost v = lexer@;
        proof {
            grammar::lemma_value_at_ends(s, i, true);
            lemma_look_ends(v);
            if v.look_step().0 is Failed || v.look_step().0 is Aborts {
                lemma_look_fails(v, acc, Seq::empty());
            }
        }
        let token = match lexer.look_ahead() {
            Ok(t) => t,
            Err(e) => {
                return Err(e);
            },
        };
        proof {
            assert(outer.push(Token::ListBegin).push(token).drop_last() =~= outer.push(
                Token::ListBegin,
            ));
            lemma_look_shows(v, token);
        }
        match token {
            Token::IntBegin => {
                let (number, next) = match parse_number(lexer) {
                    Ok(p) => p,
                    Err(e) => {
                        return Err(e);
                    },
                };
                lexer = next;
                list.push(BNode::Int(number));
                assert(node::list_view(list@) =~= acc.push(Term::Int(number as int)));
            },
            Token::Length(_) => {
                let (stream, next) = match parse_stream(lexer) {
                    Ok(p) => p,
                    Err(e) => {
                        return Err(e);
                    },
                };
                lexer = next;
                let ghost b = stream@;
                list.push(BNode::Bytes(stream));
                assert(node::list_view(list@) =~= acc.push(Term::Bytes(b)));
            },
            Token::ListBegin => {
                let (inner, next) = match parse_list(lexer) {
                    Ok(p) => p,
                    Err(e) => {
                        return Err(e);
                    },
                };
                lexer = next;
                let ghost t = Term::List(node::list_view(inner@));
                list.push(BNode::List(inner));
                assert(node::list_view(list@) =~= acc.push(t));
            },
            Token::DictBegin => {
                let (dict, next) = match parse_dict(lexer) {
                    Ok(p) => p,
                    Err(e) => {
                        return Err(e);
                    },
                };
                lexer = next;
                let ghost t = Term::Dict(dict@);
                list.push(BNode::Dict(dict));
                assert(node::list_view(list@) =~= acc.push(t));
            },
            Token::ListEnd => {
                match lexer.next_token() {
                    Ok(_) => {},
                    Err(e) => {
                        return Err(e);
                    },
                }
                return Ok((list, lexer));
            },
            _ => {
                return Err(error("invalid list", lexer.position()));
            },
        }
    }
}

/// Reads a dictionary, the next token being its `d`: the entries, and the
/// lexer after its `e`. A key that comes again replaces the earlier value.
#[verifier::loop_isolation(false)]
pub fn parse_dict<'a>(lexer: Lexer<'a>) -> (r: Result<(BDict, Lexer<'a>), Error>)
    requires
        lexer.wf(),
        lexer@.has_room(),
        lexer@.token_step().0 == Outcome::<Token>::Done(Token::DictBegin),
    ensures
        match grammar::dict_items(lexer@.input, lexer@.token_step().1.next(), Seq::empty()) {
            Outcome::Done((t, j)) => r matches Ok((dict, l)) && t == Term::Dict(dict@) && l.wf()
                && l@.ready_at(lexer@.input, j, lexer@.token_step().1.stack.drop_last())
                && l@.current is None,
            Outcome::Failed(p, m) | Outcome::Aborts(p, m) => r matches Err(e) && e.position == p
                && e.msg@ == m,
        },
    decreases lexer@.input.len() - lexer@.token_step().1.next(), 1int,
{
    let ghost s = lexer@.input;
    let ghost w = lexer@.token_step().1;
    let ghost outer = w.stack.drop_last();
    let ghost start = w.next();
    let ghost goal = grammar::dict_items(s, start, Seq::empty());
    let mut lexer = lexer;
    let opening = match lexer.next_token() {
        Ok(t) => t,
        Err(e) => {
            return Err(e);
        },
    };
    assert(opening == Token::DictBegin);
    assert(lexer@.stack =~= outer.push(Token::DictBegin));
    let mut dict = BDict::new();
    loop
        invariant
            lexer.wf(),
            lexer@.has_room(),
            lexer@.at_token(),
            lexer@.input == s,
            lexer@.stack == outer.push(Token::DictBegin),
            start <= lexer@.next(),
            grammar::dict_items(s, lexer@.next(), dict@) == goal,
            s.len() < i64::MAX,
        decreases s.len() - lexer@.next(),
    {
        let ghost i = lexer@.next();
        let ghost v = lexer@;
        proof {
            if 0 <= i < s.len() && term::is_digit(s[i]) {
                grammar::lemma_bytes_at_ends(s, i);
            }
            lemma_look_ends(v);
            if v.look_step().0 is Failed || v.look_step().0 is Aborts {
                lemma_look_fails(v, Seq::empty(), dict@);
            }
        }
        let token = match lexer.look_ahead() {
            Ok(t) => t,
            Err(e) => {
                return Err(e);
            },
        };
        proof {
            lemma_look_shows(v, token);
        }
        match token {
            Token::Length(_) => {
                let (raw_key, next) = match parse_stream(lexer) {
                    Ok(p) => p,
                    Err(e) => {
                        return Err(e);
                    },
                };
                let ghost kb = raw_key@;
                proof {
                    grammar::lemma_value_at_ends(s, next@.next(), true);
                }
                let key = match string_from_utf8(raw_key) {
                    Some(k) => k,
                    None => {
                        return Err(error("dictionary key is not UTF-8", next.position()));
                    },
                };
                proof {
                    vstd::utf8::decode_utf8_encode_utf8(kb);
                }
                assert(node::key_bytes(key) == kb);
                let (value, next) = match parse_internal(next) {
                    Ok(p) => p,
                    Err(e) => {
                        return Err(e);
                    },
                };
                lexer = next;
                dict.insert(key, value);
            },
            Token::DictEnd => {
                match lexer.next_token() {
                    Ok(_) => {},
                    Err(e) => {
                        return Err(e);
                    },
                }
                return Ok((dict, lexer));
            },
            _ => {
                return Err(error("invalid dictionary", lexer.position()));
            },
        }
    }
}

/// Reads one bencode value that makes up the whole of `stream`, also where
/// no reading can complete: a number beyond `i64` or a dictionary key that is
/// not UTF-8 is an error.
pub fn parse_checked(stream: &[u8]) -> (r: Result<BNode, Error>)
    requires
        stream@.len() < i64::MAX,
    ensures
        match grammar::parse_spec(stream@) {
            Outcome::Done(t) => r matches Ok(n) && n@ == t,
            Outcome::Failed(p, m) | Outcome::Aborts(p, m) => r matches Err(e) && e.position == p
                && e.msg@ == m,
        },
{
    let lexer = Lexer::new(stream);
    proof {
        grammar::lemma_value_at_ends(stream@, 0, false);
    }
    let (node, mut lexer) = match parse_internal(lexer) {
        Ok(p) => p,
        Err(e) => {
            return Err(e);
        },
    };
    match lexer.next_token() {
        Ok(Token::EOF) => Ok(node),
        Ok(_) => Err(error("Expect EOF", lexer.position())),
        Err(e) => Err(e),
    }
}

/// Reads one bencode value that makes up the whole of `stream`.
pub fn parse(stream: &[u8]) -> (r: Result<BNode, Error>)
    requires
        stream@.len() < i64::MAX,
        !(grammar::parse_spec(stream@) is Aborts),
    ensures
        match grammar::parse_spec(stream@) {
            Outcome::Done(t) => r matches Ok(n) && n@ == t,
            Outcome::Failed(p, m) => r matches Err(e) && e.position == p && e.msg@ == m,
            Outcome::Aborts(..) => false,
        },
{
    parse_checked(stream)
}

} // verus!
