//! The number lexer: a state machine that checks the grammar of a number
//! while it keeps the bytes exactly as they were read.

use vstd::prelude::*;
use vstd::std_specs::iter::IteratorSpec;
use crate::bytes::{
    is_whitespace, CARRIAGE_RETURN, CLOSE_BRACE, CLOSE_BRACKET, COLON, COMMA, DIGIT_0, DIGIT_9,
    DOT, LINE_FEED, LOWER_E, MINUS, PLUS, SPACE, UPPER_E,
};
use crate::cursor::{latin1, source, text, Cursor, Outcome};
use crate::error::{Error, ErrorType};
use crate::parser::Parser;

verus! {

/// How far into a number the lexer is.
#[derive(Clone, Copy, PartialEq, Eq, Structural, Debug)]
pub enum NumberState {
    /// Nothing but signs so far
    Start,
    /// A single leading `0`
    ZeroStart,
    /// Digits of the integer part
    PreDecimal,
    /// After the decimal point
    PostDecimal,
    /// After `e` or `E`, before a sign of the exponent
    InExp,
    /// After the sign of the exponent
    PastExp,
}

/// What the lexer does with one byte.
#[derive(Debug)]
pub enum NumberStep {
    /// The byte belongs to the number; go on in this state
    Push(NumberState),
    /// The byte ends the number and is left in place
    Stop,
    /// The byte cannot stand here
    Fail(ErrorType),
}

/// The classes of bytes that the lexer tells apart.
pub enum NumberByte {
    Plus,
    Minus,
    Zero,
    Nonzero,
    Dot,
    Exp,
    End,
    Other,
}

/// The class of the byte `b`. Whitespace and `,` `:` `]` `}` end a number.
pub open spec fn number_byte(b: u8) -> NumberByte {
    if b == PLUS {
        NumberByte::Plus
    } else if b == MINUS {
        NumberByte::Minus
    } else if b == DIGIT_0 {
        NumberByte::Zero
    } else if DIGIT_0 < b <= DIGIT_9 {
        NumberByte::Nonzero
    } else if b == DOT {
        NumberByte::Dot
    } else if b == LOWER_E || b == UPPER_E {
        NumberByte::Exp
    } else if is_whitespace(b) || b == CLOSE_BRACE || b == CLOSE_BRACKET || b == COMMA || b
        == COLON {
        NumberByte::End
    } else {
        NumberByte::Other
    }
}

/// The transition table of the lexer, by state and class of byte.
pub open spec fn number_step(state: NumberState, b: u8) -> NumberStep {
    match (state, number_byte(b)) {
        (_, NumberByte::End) => NumberStep::Stop,
        (_, NumberByte::Other) => NumberStep::Fail(ErrorType::UnexpectedCharacter(b as char)),
        // a sign opens the number or follows the exponent mark
        (NumberState::Start, NumberByte::Minus) => NumberStep::Push(NumberState::Start),
        (NumberState::InExp, NumberByte::Minus) => NumberStep::Push(NumberState::PastExp),
        (NumberState::InExp, NumberByte::Plus) => NumberStep::Push(NumberState::PastExp),
        (_, NumberByte::Minus) => NumberStep::Fail(ErrorType::UnexpectedCharacter(b as char)),
        (_, NumberByte::Plus) => NumberStep::Fail(ErrorType::UnexpectedCharacter(b as char)),
        // digits: a leading zero stands alone
        (NumberState::Start, NumberByte::Zero) => NumberStep::Push(NumberState::ZeroStart),
        (NumberState::Start, NumberByte::Nonzero) => NumberStep::Push(NumberState::PreDecimal),
        (NumberState::ZeroStart, NumberByte::Zero) => NumberStep::Fail(ErrorType::MalformedNumber),
        (NumberState::ZeroStart, NumberByte::Nonzero) => NumberStep::Fail(
            ErrorType::MalformedNumber,
        ),
        (_, NumberByte::Zero) => NumberStep::Push(state),
        (_, NumberByte::Nonzero) => NumberStep::Push(state),
        // the decimal point follows the integer part
        (NumberState::ZeroStart, NumberByte::Dot) => NumberStep::Push(NumberState::PostDecimal),
        (NumberState::PreDecimal, NumberByte::Dot) => NumberStep::Push(NumberState::PostDecimal),
        (_, NumberByte::Dot) => NumberStep::Fail(ErrorType::MalformedNumber),
        // the exponent mark follows digits
        (NumberState::ZeroStart, NumberByte::Exp) => NumberStep::Push(NumberState::InExp),
        (NumberState::PreDecimal, NumberByte::Exp) => NumberStep::Push(NumberState::InExp),
        (NumberState::PostDecimal, NumberByte::Exp) => NumberStep::Push(NumberState::InExp),
        (_, NumberByte::Exp) => NumberStep::Fail(ErrorType::MalformedNumber),
    }
}

/// The state after the bytes `s`, if each of them belongs to the number.
pub open spec fn number_run(state: NumberState, s: Seq<u8>) -> Option<NumberState>
    decreases s.len(),
{
    if s.len() == 0 {
        Some(state)
    } else {
        match number_step(state, s[0]) {
            NumberStep::Push(next) => number_run(next, s.drop_first()),
            _ => None,
        }
    }
}

/// The bytes `s` are a number: the lexer takes every one of them and has
/// seen more than signs.
pub open spec fn is_number(s: Seq<u8>) -> bool {
    number_run(NumberState::Start, s) matches Some(state) && state != NumberState::Start
}

impl NumberState {
    /// What the lexer does with the byte `b` in this state.
    pub fn step(self, b: u8) -> (step: NumberStep)
        ensures
            step == number_step(self, b),
    {
        if b == PLUS {
            if self == NumberState::InExp {
                NumberStep::Push(NumberState::PastExp)
            } else {
                NumberStep::Fail(ErrorType::UnexpectedCharacter('+'))
            }
        } else if b == MINUS {
            if self == NumberState::InExp {
                NumberStep::Push(NumberState::PastExp)
            } else if self != NumberState::Start {
                NumberStep::Fail(ErrorType::UnexpectedCharacter('-'))
            } else {
                NumberStep::Push(self)
            }
        } else if DIGIT_0 <= b && b <= DIGIT_9 {
            if self == NumberState::Start {
                if b == DIGIT_0 {
                    NumberStep::Push(NumberState::ZeroStart)
                } else {
                    NumberStep::Push(NumberState::PreDecimal)
                }
            } else if self == NumberState::ZeroStart {
                NumberStep::Fail(ErrorType::MalformedNumber)
            } else {
                NumberStep::Push(self)
            }
        } else if b == DOT {
            if self == NumberState::PreDecimal || self == NumberState::ZeroStart {
                NumberStep::Push(NumberState::PostDecimal)
            } else {
                NumberStep::Fail(ErrorType::MalformedNumber)
            }
        } else if b == SPACE || b == CARRIAGE_RETURN || b == LINE_FEED || b == CLOSE_BRACE || b
            == CLOSE_BRACKET || b == COMMA || b == COLON {
            NumberStep::Stop
        } else if b == LOWER_E || b == UPPER_E {
            if self == NumberState::ZeroStart || self == NumberState::PreDecimal || self
                == NumberState::PostDecimal {
                NumberStep::Push(NumberState::InExp)
            } else {
                NumberStep::Fail(ErrorType::MalformedNumber)
            }
        } else {
            NumberStep::Fail(ErrorType::UnexpectedCharacter(b as char))
        }
    }
}

impl Cursor {
    /// The number ends here: with nothing but signs read it is malformed,
    /// else it is the text read so far.
    pub open spec fn number_end(self, state: NumberState, read: Seq<char>) -> Outcome<Seq<char>> {
        if state == NumberState::Start {
            Outcome { after: self, result: Err(self.error_at(ErrorType::MalformedNumber)) }
        } else {
            Outcome { after: self, result: Ok(read) }
        }
    }

    /// Goes on lexing a number in `state`, with `read` already taken.
    pub open spec fn number_from(self, state: NumberState, read: Seq<char>) -> Outcome<Seq<char>>
        decreases self.unread(),
    {
        let seen = self.peek();
        match seen.result {
            Err(f) => Outcome { after: seen.after, result: Err(f) },
            Ok(None) => seen.after.number_end(state, read),
            Ok(Some(b)) => match number_step(state, b) {
                NumberStep::Push(next) => seen.after.eat().number_from(next, read.push(b as char)),
                NumberStep::Stop => seen.after.number_end(state, read),
                NumberStep::Fail(kind) => Outcome {
                    after: seen.after,
                    result: Err(seen.after.error_at(kind)),
                },
            },
        }
    }

    /// Lexes a number: the bytes up to the first one that ends it, exactly
    /// as they stand. The byte that ends it is looked at and not consumed.
    pub open spec fn parse_number(self) -> Outcome<Seq<char>> {
        self.number_from(NumberState::Start, Seq::empty())
    }

    /// Lexing a number only moves forward: the position stays in
    /// range, nothing is given back, and a failure is placed where the reader
    /// stands.
    pub proof fn lemma_number_from_advances(self, state: NumberState, read: Seq<char>)
        ensures
            self.number_from(state, read).after.within(self),
            self.fits() ==> self.number_from(state, read).after.fits(),
            self.number_from(state, read).placed(),
        decreases self.unread(),
    {
        let seen = self.peek();
        if let Ok(Some(b)) = seen.result {
            if let NumberStep::Push(next) = number_step(state, b) {
                seen.after.eat().lemma_number_from_advances(next, read.push(b as char));
            }
        }
    }
}

impl<I: Iterator<Item = std::io::Result<u8>>> Parser<I> {
    /// Lexes a number and returns its text unchanged.
    pub fn parse_number(&mut self) -> (number: Result<String, Error>)
        requires
            old(self).ready(),
            old(self).at(old(self).iter.remaining()).fits(),
        ensures
            text(number) == old(self).at(old(self).iter.remaining()).parse_number().result,
            final(self).came_from(
                final(self).iter.remaining(),
                old(self),
                old(self).iter.remaining(),
                old(self).at(old(self).iter.remaining()).parse_number().after,
            ),
    {
        let mut ret = String::new();
        let mut state = NumberState::Start;
        loop
            invariant
                self.ready(),
                self.at(self.iter.remaining()).fits(),
                self.at(self.iter.remaining()).number_from(state, ret@) == old(self).at(
                    old(self).iter.remaining(),
                ).parse_number(),
                self.spent(self.iter.remaining(), old(self), old(self).iter.remaining()),
                self.at(self.iter.remaining()).within(old(self).at(old(self).iter.remaining())),
            decreases self.budget(), self.holding(),
        {
            match self.peek()? {
                None => {
                    return self.number_end(state, ret);
                },
                Some(c) => {
                    match state.step(c) {
                        NumberStep::Push(next) => {
                            state = next;
                            ret.push(c as char);
                            self.eat();
                        },
                        NumberStep::Stop => {
                            return self.number_end(state, ret);
                        },
                        NumberStep::Fail(kind) => {
                            return Err(self.error_at(kind));
                        },
                    }
                },
            }
        }
    }

    /// The number ends here: with nothing but signs read it is malformed.
    fn number_end(&self, state: NumberState, read: String) -> (number: Result<String, Error>)
        ensures
            number == if state == NumberState::Start {
                Err::<String, Error>(
                    (Error { line: self.line, col: self.col, error: ErrorType::MalformedNumber }),
                )
            } else {
                Ok::<String, Error>(read)
            },
    {
        if state == NumberState::Start {
            Err(self.error_at(ErrorType::MalformedNumber))
        } else {
            Ok(read)
        }
    }
}

/// The bytes whose numbers are the characters of `t`.
pub open spec fn bytes_of(t: Seq<char>) -> Seq<u8> {
    t.map_values(|ch: char| ch as u8)
}

/// Running the lexer over `s` and then over one more byte is running it
/// over both.
pub proof fn lemma_number_run_push(state: NumberState, s: Seq<u8>, b: u8)
    requires
        number_run(state, s) matches Some(mid) && number_step(mid, b) is Push,
    ensures
        number_run(state, s.push(b)) == Some(number_step(number_run(state, s)->0, b)->Push_0),
    decreases s.len(),
{
    let next = number_step(state, s.push(b)[0])->Push_0;
    if s.len() == 0 {
        assert(s.push(b).drop_first() == Seq::<u8>::empty());
        assert(number_run(next, Seq::<u8>::empty()) == Some(next));
    } else {
        assert(s.push(b).drop_first() == s.drop_first().push(b));
        lemma_number_run_push(next, s.drop_first(), b);
    }
}

impl Cursor {
    /// While the reader looks at bytes that belong to the number, the lexer
    /// consumes them and keeps them as they are.
    pub proof fn lemma_number_from_run(self, state: NumberState, read: Seq<char>, s: Seq<u8>)
        requires
            self.sees(s),
            number_run(state, s) is Some,
        ensures
            self.number_from(state, read) == self.skip(s.len()).number_from(
                number_run(state, s)->0,
                read + latin1(s),
            ),
        decreases s.len(),
    {
        if s.len() == 0 {
            assert(read + latin1(s) == read);
        } else {
            self.lemma_sees_first(s);
            let next = self.peek().after.eat();
            next.lemma_number_from_run(
                number_step(state, s[0])->Push_0,
                read.push(s[0] as char),
                s.drop_first(),
            );
            assert(read.push(s[0] as char) + latin1(s.drop_first()) == read + latin1(s));
        }
    }

    /// A number that is followed by the end of the input, or by a byte that
    /// ends a number, is returned exactly as it stands, and nothing after it
    /// is consumed.
    pub proof fn lemma_number_reads_itself(self, s: Seq<u8>)
        requires
            self.sees(s),
            is_number(s),
            self.pending().len() == s.len() || (self.pending()[s.len() as int] matches Ok(b)
                && number_byte(b) is End),
        ensures
            self.parse_number().result == Ok::<Seq<char>, crate::cursor::Fault>(latin1(s)),
            self.parse_number().after == self.skip(s.len()).peek().after,
    {
        self.lemma_number_from_run(NumberState::Start, Seq::empty(), s);
        self.lemma_skip_seen(s);
        assert(Seq::<char>::empty() + latin1(s) == latin1(s));
        assert(s.len() > 0);
    }

    /// Whatever the lexer returns is the text of a number.
    pub proof fn lemma_number_from_is_number(self, state: NumberState, s: Seq<u8>)
        requires
            number_run(NumberState::Start, s) == Some(state),
            self.number_from(state, latin1(s)).result is Ok,
        ensures
            is_number(bytes_of(self.number_from(state, latin1(s)).result->Ok_0)),
            latin1(bytes_of(self.number_from(state, latin1(s)).result->Ok_0)) == self.number_from(
                state,
                latin1(s),
            ).result->Ok_0,
        decreases self.unread(),
    {
        let seen = self.peek();
        assert(bytes_of(latin1(s)) == s);
        if let Ok(Some(b)) = seen.result {
            if let NumberStep::Push(next) = number_step(state, b) {
                lemma_number_run_push(NumberState::Start, s, b);
                assert(latin1(s).push(b as char) == latin1(s.push(b)));
                seen.after.eat().lemma_number_from_is_number(next, s.push(b));
            }
        }
    }
}

/// Every byte of a number is below 0x80.
pub proof fn lemma_number_run_ascii(state: NumberState, s: Seq<u8>)
    requires
        number_run(state, s) is Some,
    ensures
        forall|i: int| 0 <= i < s.len() ==> s[i] < 0x80,
    decreases s.len(),
{
    if s.len() > 0 {
        lemma_number_run_ascii(number_step(state, s[0])->Push_0, s.drop_first());
        assert forall|i: int| 0 <= i < s.len() implies s[i] < 0x80 by {
            if i > 0 {
                assert(s[i] == s.drop_first()[i - 1]);
            }
        }
    }
}

/// The text of a number is byte for byte the number: its UTF-8 bytes are
/// the bytes that were matched.
pub proof fn lemma_number_text_bytes(s: Seq<u8>)
    requires
        is_number(s),
    ensures
        vstd::utf8::encode_utf8(latin1(s)) == s,
{
    lemma_number_run_ascii(NumberState::Start, s);
    let chars = latin1(s);
    assert(vstd::utf8::is_ascii_chars(chars)) by {
        assert forall|i: int| 0 <= i < chars.len() implies '\0' <= #[trigger] chars[i]
            <= '\u{7f}' by {
            assert(chars[i] == s[i] as char);
        }
    }
    vstd::utf8::is_ascii_chars_encode_utf8(chars);
    assert forall|i: int| 0 <= i < s.len() implies vstd::utf8::encode_utf8(chars)[i] == s[i] by {
        assert(chars[i] as u8 == vstd::utf8::encode_utf8(chars)[i]);
        assert(chars[i] == s[i] as char);
    }
    assert(vstd::utf8::encode_utf8(chars) =~= s);
}

/// Lexing is idempotent: the text that the lexer returned, offered again as
/// the whole input, comes back unchanged.
pub proof fn lemma_number_relexes(c: Cursor)
    requires
        c.parse_number().result is Ok,
    ensures
        Cursor::start(source(bytes_of(c.parse_number().result->Ok_0))).parse_number().result
            == c.parse_number().result,
{
    let found = c.parse_number().result->Ok_0;
    assert(latin1(Seq::<u8>::empty()) == Seq::<char>::empty());
    c.lemma_number_from_is_number(NumberState::Start, Seq::empty());
    lemma_number_is_read_back(bytes_of(found));
}

/// A number, offered as the whole input, is returned exactly as it stands.
pub proof fn lemma_number_is_read_back(s: Seq<u8>)
    requires
        is_number(s),
    ensures
        Cursor::start(source(s)).parse_number().result == Ok::<Seq<char>, crate::cursor::Fault>(
            latin1(s),
        ),
{
    Cursor::lemma_start_sees(s);
    Cursor::start(source(s)).lemma_number_reads_itself(s);
}

} // verus!
