//! The lexer: it reads bytes one at a time, keeps the position of the last
//! byte read, and turns bytes into tokens.
use vstd::prelude::*;
use crate::grammar;
use crate::grammar::Outcome;
use crate::term;
use crate::term::{CLOSE, COLON, DICT_OPEN, DIGIT_NINE, DIGIT_ZERO, INT_OPEN, LIST_OPEN, MINUS};
use crate::text;

verus! {

/// A token of the bencode format.
#[allow(clippy::upper_case_acronyms)]
#[derive(Debug, PartialEq, Eq, Clone, Copy, Structural)]
pub enum Token {
    IntBegin,
    IntEnd,
    ListBegin,
    ListEnd,
    DictBegin,
    DictEnd,
    Length(i64),
    Colon,
    EOF,
}

/// An error, with the position of the byte at which reading stopped.
#[derive(Debug)]
pub struct Error {
    pub position: i64,
    pub msg: String,
}

/// A token that opens a number, a list or a dictionary.
pub open spec fn is_opening(t: Token) -> bool {
    t is IntBegin || t is ListBegin || t is DictBegin
}

/// The state of a lexer as a mathematical value.
///
/// `position` is the index of the last byte read (`-1` before the first read);
/// a read past the end still counts. `cached_byte` is a byte handed back to be
/// read again, `cached_token` a token looked at but not taken, `stack` the
/// opening tokens not yet closed, `current` the last token read.
#[verifier::ext_equal]
pub struct LexerView {
    pub input: Seq<u8>,
    pub position: int,
    pub cached_byte: Option<u8>,
    pub cached_token: Option<Token>,
    pub stack: Seq<Token>,
    pub current: Option<Token>,
}

impl LexerView {
    /// The state of a lexer that has read nothing of `input`.
    pub open spec fn start(input: Seq<u8>) -> LexerView {
        LexerView {
            input,
            position: -1,
            cached_byte: None,
            cached_token: None,
            stack: Seq::empty(),
            current: None,
        }
    }

    /// The index of the byte that the next read yields (a handed-back byte is
    /// the one at `position`).
    pub open spec fn next(self) -> int {
        if self.cached_byte is Some {
            self.position
        } else {
            self.position + 1
        }
    }

    pub open spec fn wf(self) -> bool {
        &&& self.position >= -1
        &&& (self.cached_byte matches Some(b) ==> 0 <= self.position < self.input.len()
            && self.input[self.position] == b)
        &&& forall|i: int| 0 <= i < self.stack.len() ==> is_opening(#[trigger] self.stack[i])
        &&& (self.cached_token matches Some(t) ==> is_opening(t) ==> self.stack.len() > 0
            && self.stack.last() == t && self.current == Some(t))
    }

    /// Positions up to the end of the input, and one read past it, fit in an `i64`.
    pub open spec fn has_room(self) -> bool {
        &&& self.input.len() < i64::MAX
        &&& self.next() < i64::MAX
    }

    /// The state after reading every byte up to index `k` (a read at `k` past
    /// the end counts as one read).
    pub open spec fn read_to(self, k: int) -> LexerView {
        LexerView { position: k, cached_byte: None, ..self }
    }

    /// Reading one byte: the byte, or `None` past the end.
    pub open spec fn byte_step(self) -> (Option<u8>, LexerView) {
        let k = self.next();
        (
            if 0 <= k < self.input.len() {
                Some(self.input[k])
            } else {
                None
            },
            self.read_to(k),
        )
    }

    /// After an opening token `t`.
    pub open spec fn opened(self, t: Token) -> LexerView {
        LexerView { current: Some(t), stack: self.stack.push(t), ..self }
    }

    /// After a closing byte that ends the innermost open token.
    pub open spec fn closed(self) -> (Outcome<Token>, LexerView) {
        let popped = LexerView {
            stack: if self.stack.len() > 0 {
                self.stack.drop_last()
            } else {
                self.stack
            },
            ..self
        };
        if self.stack.len() > 0 && self.stack.last() is IntBegin {
            (Outcome::Done(Token::IntEnd), LexerView { current: None, ..popped })
        } else if self.stack.len() > 0 && self.stack.last() is ListBegin {
            (Outcome::Done(Token::ListEnd), LexerView { current: None, ..popped })
        } else if self.stack.len() > 0 && self.stack.last() is DictBegin {
            (Outcome::Done(Token::DictEnd), LexerView { current: None, ..popped })
        } else {
            (Outcome::Failed(self.position, grammar::msg_stray_end()), popped)
        }
    }

    /// Taking the next token: the token looked at before, or the token that
    /// the next bytes make.
    pub open spec fn token_step(self) -> (Outcome<Token>, LexerView) {
        match self.cached_token {
            Some(t) => (Outcome::Done(t), LexerView { cached_token: None, ..self }),
            None => {
                let i = self.next();
                let v = self.read_to(i);
                if !(0 <= i < self.input.len()) {
                    (Outcome::Done(Token::EOF), v)
                } else {
                    let b = self.input[i];
                    if b == INT_OPEN {
                        (Outcome::Done(Token::IntBegin), v.opened(Token::IntBegin))
                    } else if b == LIST_OPEN {
                        (Outcome::Done(Token::ListBegin), v.opened(Token::ListBegin))
                    } else if b == DICT_OPEN {
                        (Outcome::Done(Token::DictBegin), v.opened(Token::DictBegin))
                    } else if b == CLOSE {
                        v.closed()
                    } else if term::is_digit(b) {
                        let w = match grammar::length_scan(self.input, i) {
                            Outcome::Done((_n, _r, k)) => LexerView {
                                cached_byte: Some(COLON),
                                ..v.read_to(k)
                            },
                            Outcome::Failed(k, _) => v.read_to(k),
                            Outcome::Aborts(k, _) => v.read_to(k),
                        };
                        match grammar::length_at(self.input, i) {
                            Outcome::Done((n, _k)) => (
                                Outcome::Done(Token::Length(n as i64)),
                                LexerView { current: Some(Token::Length(n as i64)), ..w },
                            ),
                            Outcome::Failed(p, m) => (Outcome::Failed(p, m), w),
                            Outcome::Aborts(p, m) => (Outcome::Aborts(p, m), w),
                        }
                    } else if b == COLON {
                        if self.current matches Some(Token::Length(_)) {
                            (Outcome::Done(Token::Colon), LexerView { current: Some(Token::Colon), ..v })
                        } else {
                            (Outcome::Failed(i, grammar::msg_stray_colon()), v)
                        }
                    } else {
                        (Outcome::Failed(i, grammar::msg_unknown_token(b)), v)
                    }
                }
            },
        }
    }

    /// Looking at the next token without taking it.
    pub open spec fn look_step(self) -> (Outcome<Token>, LexerView) {
        match self.cached_token {
            Some(t) => (Outcome::Done(t), self),
            None => match self.token_step() {
                (Outcome::Done(t), w) => (Outcome::Done(t), LexerView { cached_token: Some(t), ..w }),
                (o, w) => (o, w),
            },
        }
    }

    /// Between tokens: no token looked at, and no length waiting for its `:`.
    pub open spec fn at_token(self) -> bool {
        &&& self.cached_token is None
        &&& !(self.current matches Some(Token::Length(_)))
    }

    /// At the start of a value (index `i`), with nothing looked at or handed back.
    pub open spec fn ready_at(self, s: Seq<u8>, i: int, stack: Seq<Token>) -> bool {
        &&& self.input == s
        &&& self.position == i - 1
        &&& self.cached_byte is None
        &&& self.cached_token is None
        &&& self.stack == stack
        &&& !(self.current matches Some(Token::Length(_)))
    }
}

/// A reader of bencode tokens over a byte string.
#[derive(Debug)]
pub struct Lexer<'a> {
    stream: &'a [u8],
    cursor: usize,
    position: i64,
    cached_byte: Option<u8>,
    cached_token: Option<Token>,
    token_stack: Vec<Token>,
    current_token: Option<Token>,
}

impl<'a> View for Lexer<'a> {
    type V = LexerView;

    closed spec fn view(&self) -> LexerView {
        LexerView {
            input: self.stream@,
            position: self.position as int,
            cached_byte: self.cached_byte,
            cached_token: self.cached_token,
            stack: self.token_stack@,
            current: self.current_token,
        }
    }
}

/// An error at `position` with the message `msg`.
pub(crate) fn error(msg: &str, position: i64) -> (e: Error)
    ensures
        e.position == position,
        e.msg@ == msg@,
{
    Error { msg: String::from_str(msg), position }
}

impl<'a> Lexer<'a> {
    /// The state is consistent.
    pub open spec fn wf(&self) -> bool {
        &&& self@.wf()
        &&& self.cursor_ok()
    }

    /// The index of the next stream byte follows the position.
    pub closed spec fn cursor_ok(&self) -> bool {
        self.cursor == if self.position + 1 < self.stream@.len() {
            self.position + 1
        } else {
            self.stream@.len() as int
        }
    }

    /// A lexer at the start of `stream`.
    pub fn new(stream: &'a [u8]) -> (l: Lexer<'a>)
        ensures
            l.wf(),
            l@ == LexerView::start(stream@),
    {
        Lexer {
            stream,
            cursor: 0,
            position: -1,
            cached_byte: None,
            cached_token: None,
            token_stack: Vec::new(),
            current_token: None,
        }
    }

    /// The index of the last byte read (`-1` before the first read).
    pub fn position(&self) -> (p: i64)
        ensures
            p == self@.position,
    {
        self.position
    }

    /// Reads one byte: a handed-back byte first, then the stream.
    fn next_byte(&mut self) -> (r: Option<u8>)
        requires
            old(self).wf(),
            old(self)@.has_room(),
        ensures
            final(self).wf(),
            (r, final(self)@) == old(self)@.byte_step(),
    {
        match self.cached_byte {
            Some(b) => {
                self.cached_byte = None;
                Some(b)
            },
            None => {
                self.position = self.position + 1;
                if self.cursor < self.stream.len() {
                    let b = self.stream[self.cursor];
                    self.cursor = self.cursor + 1;
                    Some(b)
                } else {
                    None
                }
            },
        }
    }
    /// Reads a number up to the byte `symbol`, which is handed back to be read
    /// again, going on from the value `init` of digits read before: the value
    /// and the number of bytes read before `symbol`.
    pub fn read_i64_before(&mut self, init: i64, symbol: u8) -> (r: Result<(i64, i64), Error>)
        requires
            old(self).wf(),
            old(self)@.has_room(),
        ensures
            final(self).wf(),
            match grammar::scan_numeral(old(self)@.input, old(self)@.next(), symbol, init as int, 1, 0) {
                Outcome::Done((n, read, k)) => {
                    &&& r matches Ok((a, b)) && a == n && b == read
                    &&& final(self)@ == LexerView { cached_byte: Some(symbol), ..old(self)@.read_to(k) }
                },
                Outcome::Failed(k, m) | Outcome::Aborts(k, m) => {
                    &&& r matches Err(e) && e.position == k && e.msg@ == m
                    &&& final(self)@ == old(self)@.read_to(k)
                },
            },
    {
        let ghost v0 = self@;
        let ghost s = self@.input;
        let ghost start = self@.next();
        let ghost goal = grammar::scan_numeral(s, start, symbol, init as int, 1, 0);
        let mut num: i64 = init;
        let mut sign: i64 = 1;
        let mut read: i64 = 0;
        loop
            invariant
                self.wf(),
                self@.has_room(),
                self@.input == s,
                self@.next() == start + read,
                read == 0 ==> self@ == v0,
                read > 0 ==> self@ == v0.read_to(start + read - 1),
                read > 0 ==> start + read <= s.len(),
                0 <= read,
                sign == 1 || sign == -1,
                grammar::scan_numeral(s, start + read, symbol, num as int, sign as int, read as int)
                    == goal,
                goal == grammar::scan_numeral(s, start, symbol, init as int, 1, 0),
                v0 == old(self)@,
                v0.has_room(),
                v0.input == s,
                start == v0.next(),
                0 <= start,
            decreases s.len() - (start + read),
        {
            let ghost k = start + read;
            let x = match self.next_byte() {
                Some(x) => x,
                None => {
                    return Err(error("invalid number", self.position));
                },
            };
            read = read + 1;
            if DIGIT_ZERO <= x && x <= DIGIT_NINE {
                if x == DIGIT_ZERO && sign == -1 && read == 2 {
                    return Err(error("Negative zero is not permitted", self.position));
                }
                if num == 0 && ((sign == 1 && read != 1) || (sign == -1 && read != 2)) {
                    return Err(error("Leading zero is not permitted", self.position));
                }
                let digit = (x - DIGIT_ZERO) as i64;
                let shifted = match num.checked_mul(10) {
                    Some(m) => m,
                    None => {
                        return Err(error("number out of range", self.position));
                    },
                };
                let next = if sign == -1 {
                    shifted.checked_sub(digit)
                } else {
                    shifted.checked_add(digit)
                };
                num = match next {
                    Some(n) => n,
                    None => {
                        return Err(error("number out of range", self.position));
                    },
                };
            } else if x == MINUS {
                if read != 1 {
                    return Err(error("`-` can only appear in the head of the number", self.position));
                }
                if num == i64::MIN {
                    return Err(error("number out of range", self.position));
                }
                num = -num;
                sign = -1;
            } else if x == symbol {
                if sign == -1 && read == 2 {
                    return Err(error("invalid number", self.position));
                }
                self.cached_byte = Some(symbol);
                return Ok((num, read - 1));
            } else {
                return Err(error("invalid number", self.position));
            }
        }
    }

    /// Reads the next `len` bytes.
    pub fn read_bytes(&mut self, len: usize) -> (r: Result<Vec<u8>, Error>)
        requires
            old(self).wf(),
            old(self)@.has_room(),
        ensures
            final(self).wf(),
            match grammar::read_span(old(self)@.input, old(self)@.next(), len as nat) {
                Outcome::Done((bytes, j)) => {
                    &&& r matches Ok(v) && v@ == bytes
                    &&& final(self)@ == if len == 0 {
                        old(self)@
                    } else {
                        old(self)@.read_to(j - 1)
                    }
                },
                Outcome::Failed(k, m) => {
                    &&& r matches Err(e) && e.position == k && e.msg@ == m
                    &&& final(self)@ == old(self)@.read_to(k)
                },
                Outcome::Aborts(..) => false,
            },
    {
        let ghost v0 = self@;
        let ghost s = self@.input;
        let ghost start = self@.next();
        let mut ret: Vec<u8> = Vec::new();
        let mut i: usize = 0;
        while i < len
            invariant
                self.wf(),
                self@.has_room(),
                self@.input == s,
                self@.next() == start + i,
                i == 0 ==> self@ == v0,
                i > 0 ==> self@ == v0.read_to(start + i - 1),
                i > 0 ==> start + i <= s.len(),
                i <= len,
                i > 0 ==> ret@ == s.subrange(start, start + i),
                ret@.len() == i,
                v0 == old(self)@,
                v0.has_room(),
                v0.input == s,
                start == v0.next(),
                0 <= start,
            decreases len - i,
        {
            match self.next_byte() {
                Some(byte) => ret.push(byte),
                None => {
                    let msg = text::short_stream_message(len, ret.len());
                    return Err(Error { msg, position: self.position });
                },
            }
            i = i + 1;
            assert(ret@ =~= s.subrange(start, start + i));
        }
        Ok(ret)
    }

    /// Takes the next token.
    pub(crate) fn next_token(&mut self) -> (r: Result<Token, Error>)
        requires
            old(self).wf(),
            old(self)@.has_room(),
        ensures
            final(self).wf(),
            final(self)@ == old(self)@.token_step().1,
            match old(self)@.token_step().0 {
                Outcome::Done(t) => r matches Ok(t2) && t2 == t,
                Outcome::Failed(p, m) | Outcome::Aborts(p, m) => r matches Err(e) && e.position == p
                    && e.msg@ == m,
            },
    {
        if let Some(token) = self.cached_token {
            self.cached_token = None;
            return Ok(token);
        }
        match self.next_byte() {
            Some(unknown) => {
                if unknown == INT_OPEN {
                    self.current_token = Some(Token::IntBegin);
                    self.token_stack.push(Token::IntBegin);
                    Ok(Token::IntBegin)
                } else if unknown == LIST_OPEN {
                    self.current_token = Some(Token::ListBegin);
                    self.token_stack.push(Token::ListBegin);
                    Ok(Token::ListBegin)
                } else if unknown == DICT_OPEN {
                    self.current_token = Some(Token::DictBegin);
                    self.token_stack.push(Token::DictBegin);
                    Ok(Token::DictBegin)
                } else if unknown == CLOSE {
                    match self.token_stack.pop() {
                        Some(Token::IntBegin) => {
                            self.current_token = None;
                            Ok(Token::IntEnd)
                        },
                        Some(Token::ListBegin) => {
                            self.current_token = None;
                            Ok(Token::ListEnd)
                        },
                        Some(Token::DictBegin) => {
                            self.current_token = None;
                            Ok(Token::DictEnd)
                        },
                        _ => Err(
                            error(
                                "`e` should be the end of number, list and dictionary.",
                                self.position,
                            ),
                        ),
                    }
                } else if DIGIT_ZERO <= unknown && unknown <= DIGIT_NINE {
                    let first = self.position;
                    proof {
                        grammar::lemma_length_at_bounds(self@.input, first as int);
                    }
                    match self.read_i64_before((unknown - DIGIT_ZERO) as i64, COLON) {
                        Ok((length, read)) => {
                            if length < 0 {
                                return Err(
                                    error("`-` can only appear in the head of the number", first + 1),
                                );
                            }
                            if unknown == DIGIT_ZERO && read > 0 {
                                return Err(error("Leading zero is not permitted", first + 1));
                            }
                            self.current_token = Some(Token::Length(length));
                            Ok(Token::Length(length))
                        },
                        Err(e) => Err(e),
                    }
                } else if unknown == COLON {
                    match self.current_token {
                        Some(Token::Length(_)) => {
                            self.current_token = Some(Token::Colon);
                            Ok(Token::Colon)
                        },
                        _ => Err(error("`:` should be after the length of stream.", self.position)),
                    }
                } else {
                    Err(Error { msg: text::unknown_token_message(unknown), position: self.position })
                }
            },
            None => Ok(Token::EOF),
        }
    }

    /// Looks at the next token without taking it: the next read of a token
    /// yields it again.
    pub fn look_ahead(&mut self) -> (r: Result<Token, Error>)
        requires
            old(self).wf(),
            old(self)@.has_room(),
        ensures
            final(self).wf(),
            final(self)@ == old(self)@.look_step().1,
            match old(self)@.look_step().0 {
                Outcome::Done(t) => r matches Ok(t2) && t2 == t,
                Outcome::Failed(p, m) | Outcome::Aborts(p, m) => r matches Err(e) && e.position == p
                    && e.msg@ == m,
            },
    {
        if let Some(token) = self.cached_token {
            return Ok(token);
        }
        let next_token = match self.next_token() {
            Ok(t) => t,
            Err(e) => {
                return Err(e);
            },
        };
        self.cached_token = Some(next_token);
        Ok(next_token)
    }
}

} // verus!
