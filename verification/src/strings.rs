//! The string lexer: quotes, escapes, and runs of `\u` escapes that are
//! decoded together as UTF-16. The bytes between the quotes are kept as
//! they are and an escape adds the UTF-8 bytes of what it stands for; at the
//! closing quote the bytes gathered are read as UTF-8.

use vstd::prelude::*;
use vstd::std_specs::iter::IteratorSpec;
use vstd::string::StringSliceAdditionalSpecFns;
use vstd::utf8::{decode_utf8, encode_utf8, valid_utf8};
use crate::bytes::{
    BACKSLASH, CARRIAGE_RETURN, LINE_FEED, LOWER_B, LOWER_F, LOWER_N, LOWER_R, LOWER_T, LOWER_U,
    QUOTE, SLASH,
};
use crate::cursor::{text, Cursor, Fault, Outcome};
use crate::error::{Error, ErrorType, Kind};
use crate::parser::Parser;
use crate::utf16::{code_unit, decode_units, decode_utf16, parse_code_unit};

verus! {

/// How far into a string the lexer is.
#[derive(Clone, Copy, PartialEq, Eq, Structural, Debug)]
pub enum StringState {
    /// Before the opening quote
    Start,
    /// Between the quotes
    Scanning,
    /// Directly after a backslash
    Escaping,
    /// After the closing quote
    Done,
}

/// `std::string::FromUtf8Error`, carried through as it is: nothing is known
/// of what it holds.
#[verifier::external_type_specification]
#[verifier::external_body]
pub struct ExFromUtf8Error(std::string::FromUtf8Error);

/// `String::from_utf8` makes a string of the bytes, which stay as they are,
/// and fails where the bytes are not UTF-8.
pub assume_specification[ std::string::String::from_utf8 ](vec: Vec<u8>) -> (r: Result<
    std::string::String,
    std::string::FromUtf8Error,
>)
    ensures
        r matches Ok(s) ==> encode_utf8(s@) == vec@,
        r is Err ==> !valid_utf8(vec@),
;

/// What the lexer does with one byte.
#[derive(Debug)]
pub enum StringStep {
    /// Consume the byte, add nothing, go on in this state
    Skip(StringState),
    /// Consume the byte, add this byte, go on scanning
    Push(u8),
    /// The byte opens a run of `\u` escapes
    Unicode,
    /// The byte cannot stand here
    Fail(ErrorType),
}

/// The byte that the byte after a backslash stands for, if it is a simple
/// escape. `b` gives 0x07 and `f` gives 0x0C.
pub open spec fn escaped(b: u8) -> Option<u8> {
    if b == QUOTE || b == BACKSLASH || b == SLASH {
        Some(b)
    } else if b == LOWER_B {
        Some(0x07)
    } else if b == LOWER_F {
        Some(0x0c)
    } else if b == LOWER_N {
        Some(LINE_FEED)
    } else if b == LOWER_R {
        Some(CARRIAGE_RETURN)
    } else if b == LOWER_T {
        Some(0x09)
    } else {
        None
    }
}

/// What is reported for a string whose bytes are not UTF-8.
pub open spec fn not_utf8() -> Seq<char> {
    "string is not valid UTF-8"@
}

/// The transition table of the lexer. It is not consulted once the
/// closing quote was consumed.
pub open spec fn string_step(state: StringState, b: u8) -> StringStep {
    match state {
        StringState::Start => if b == QUOTE {
            StringStep::Skip(StringState::Scanning)
        } else {
            StringStep::Fail(ErrorType::ExpectedString)
        },
        StringState::Scanning => if b == QUOTE {
            StringStep::Skip(StringState::Done)
        } else if b == BACKSLASH {
            StringStep::Skip(StringState::Escaping)
        } else {
            StringStep::Push(b)
        },
        StringState::Escaping => if b == LOWER_U {
            StringStep::Unicode
        } else {
            match escaped(b) {
                Some(c) => StringStep::Push(c),
                None => StringStep::Fail(ErrorType::MalformedEscape),
            }
        },
        StringState::Done => StringStep::Skip(StringState::Done),
    }
}

impl StringState {
    /// What the lexer does with the byte `b` in this state.
    pub fn step(self, b: u8) -> (step: StringStep)
        ensures
            step == string_step(self, b),
    {
        match self {
            StringState::Start => {
                if b == QUOTE {
                    StringStep::Skip(StringState::Scanning)
                } else {
                    StringStep::Fail(ErrorType::ExpectedString)
                }
            },
            StringState::Scanning => {
                if b == QUOTE {
                    StringStep::Skip(StringState::Done)
                } else if b == BACKSLASH {
                    StringStep::Skip(StringState::Escaping)
                } else {
                    StringStep::Push(b)
                }
            },
            StringState::Escaping => {
                if b == QUOTE || b == BACKSLASH || b == SLASH {
                    StringStep::Push(b)
                } else if b == LOWER_B {
                    StringStep::Push(7)
                } else if b == LOWER_F {
                    StringStep::Push(12)
                } else if b == LOWER_N {
                    StringStep::Push(LINE_FEED)
                } else if b == LOWER_R {
                    StringStep::Push(CARRIAGE_RETURN)
                } else if b == LOWER_T {
                    StringStep::Push(9)
                } else if b == LOWER_U {
                    StringStep::Unicode
                } else {
                    StringStep::Fail(ErrorType::MalformedEscape)
                }
            },
            StringState::Done => StringStep::Skip(StringState::Done),
        }
    }
}

impl Cursor {
    /// Looks at and consumes `n` bytes, which must exist, and adds them to
    /// `read` as characters.
    pub open spec fn take_chars(self, n: nat, read: Seq<char>) -> Outcome<Seq<char>>
        decreases n,
    {
        if n == 0 {
            Outcome { after: self, result: Ok(read) }
        } else {
            let seen = self.peek_noeof();
            match seen.result {
                Ok(b) => seen.after.eat().take_chars((n - 1) as nat, read.push(b as char)),
                Err(f) => Outcome { after: seen.after, result: Err(f) },
            }
        }
    }

    /// Taking bytes only moves forward: the position stays in range, a
    /// failure is placed where the reader stands, and where it succeeds `n`
    /// items are used up for `n` more characters.
    pub proof fn lemma_take_chars_advances(self, n: nat, read: Seq<char>)
        ensures
            self.take_chars(n, read).after.within(self),
            self.fits() ==> self.take_chars(n, read).after.fits(),
            self.take_chars(n, read).placed(),
            self.take_chars(n, read).result is Ok ==> self.take_chars(n, read).after.unread() + n
                <= self.unread(),
            self.take_chars(n, read).result matches Ok(t) ==> t.len() == read.len() + n,
        decreases n,
    {
        if n > 0 {
            let seen = self.peek_noeof();
            if let Ok(b) = seen.result {
                seen.after.eat().lemma_take_chars_advances((n - 1) as nat, read.push(b as char));
            }
        }
    }

    /// Reads a run of `\u` escapes, with the reader holding the `u` of the
    /// first. Each escape is four characters that write one code unit. The
    /// run goes on while the next two bytes are `\u`. It gives the code
    /// units and the state in which the lexer goes on: escaping, if a
    /// backslash was consumed and no `u` followed it, else scanning.
    pub open spec fn code_units(self, units: Seq<u16>) -> Outcome<(Seq<u16>, StringState)>
        decreases self.unread(),
    {
        let digits = self.eat().take_chars(4, Seq::empty());
        match digits.result {
            Err(f) => Outcome { after: digits.after, result: Err(f) },
            Ok(four) => match code_unit(four) {
                Err(kind) => Outcome {
                    after: digits.after,
                    result: Err(digits.after.error_at(kind)),
                },
                Ok(unit) => {
                    let seen = digits.after.peek();
                    match seen.result {
                        Err(f) => Outcome { after: seen.after, result: Err(f) },
                        Ok(b) => if b == Some(BACKSLASH) {
                            let then = seen.after.eat().peek();
                            match then.result {
                                Err(f) => Outcome { after: then.after, result: Err(f) },
                                Ok(b2) => if b2 == Some(LOWER_U) {
                                    proof {
                                        self.eat().lemma_take_chars_advances(4, Seq::empty());
                                    }
                                    then.after.code_units(units.push(unit))
                                } else {
                                    Outcome {
                                        after: then.after,
                                        result: Ok((units.push(unit), StringState::Escaping)),
                                    }
                                },
                            }
                        } else {
                            Outcome {
                                after: seen.after,
                                result: Ok((units.push(unit), StringState::Scanning)),
                            }
                        },
                    }
                },
            },
        }
    }

    /// A run of `\u` escapes only moves forward: the position stays in
    /// range and a failure is placed where the reader stands. Where it
    /// succeeds it used up at least four items, goes on scanning or escaping,
    /// and holds a byte unless the input ended.
    pub proof fn lemma_code_units_advances(self, units: Seq<u16>)
        ensures
            self.code_units(units).after.within(self),
            self.fits() ==> self.code_units(units).after.fits(),
            self.code_units(units).placed(),
            self.code_units(units).result is Ok ==> {
                &&& self.code_units(units).after.unread() + 4 <= self.unread()
                &&& self.code_units(units).after.held is None ==> self.code_units(
                    units,
                ).after.rest.len() == 0
                &&& self.code_units(units).result->Ok_0.1 != StringState::Done
                &&& self.code_units(units).result->Ok_0.1 != StringState::Start
            },
        decreases self.unread(),
    {
        self.eat().lemma_take_chars_advances(4, Seq::empty());
        let digits = self.eat().take_chars(4, Seq::empty());
        if let Ok(four) = digits.result {
            if let Ok(unit) = code_unit(four) {
                let seen = digits.after.peek();
                if seen.result == Ok::<Option<u8>, Fault>(Some(BACKSLASH)) {
                    let then = seen.after.eat().peek();
                    if then.result == Ok::<Option<u8>, Fault>(Some(LOWER_U)) {
                        then.after.lemma_code_units_advances(units.push(unit));
                    }
                }
            }
        }
    }

    /// The string ends here, with the bytes `read` gathered: they are read
    /// as UTF-8, and bytes that are not UTF-8 are a failure.
    pub open spec fn string_end(self, read: Seq<u8>) -> Outcome<Seq<char>> {
        if valid_utf8(read) {
            Outcome { after: self, result: Ok(decode_utf8(read)) }
        } else {
            Outcome { after: self, result: Err(self.fault(Kind::Other(not_utf8()))) }
        }
    }

    /// Goes on lexing a string in `state`, with the bytes `read` already
    /// gathered. A byte between the quotes is kept as it is, a simple escape
    /// adds one byte, and a run of `\u` escapes adds the UTF-8 bytes of the
    /// characters that it encodes.
    pub open spec fn string_from(self, state: StringState, read: Seq<u8>) -> Outcome<Seq<char>>
        decreases self.unread(),
    {
        if state == StringState::Done {
            self.string_end(read)
        } else {
            let seen = self.peek();
            match seen.result {
                Err(f) => Outcome { after: seen.after, result: Err(f) },
                Ok(None) => Outcome {
                    after: seen.after,
                    result: Err(seen.after.error_at(ErrorType::UnexpectedEOF)),
                },
                Ok(Some(b)) => match string_step(state, b) {
                    StringStep::Skip(next) => seen.after.eat().string_from(next, read),
                    StringStep::Push(kept) => seen.after.eat().string_from(
                        StringState::Scanning,
                        read.push(kept),
                    ),
                    StringStep::Fail(kind) => Outcome {
                        after: seen.after,
                        result: Err(seen.after.error_at(kind)),
                    },
                    StringStep::Unicode => {
                        let run = seen.after.code_units(Seq::empty());
                        match run.result {
                            Err(f) => Outcome { after: run.after, result: Err(f) },
                            Ok((units, next)) => match decode_utf16(units) {
                                None => Outcome {
                                    after: run.after,
                                    result: Err(run.after.error_at(ErrorType::UnpairedSurrogate)),
                                },
                                Some(chars) => {
                                    proof {
                                        seen.after.lemma_code_units_advances(Seq::empty());
                                    }
                                    run.after.string_from(next, read + encode_utf8(chars))
                                },
                            },
                        }
                    },
                },
            }
        }
    }

    /// Lexes a string, from its opening quote to its closing quote. Its
    /// text is the bytes between the quotes, with each escape replaced by
    /// what it stands for, read as UTF-8.
    pub open spec fn parse_string(self) -> Outcome<Seq<char>> {
        self.string_from(StringState::Start, Seq::empty())
    }

    /// Between the quotes, bytes that are neither a quote nor a backslash
    /// are kept one by one, up to the closing quote.
    pub proof fn lemma_scanning_keeps(self, read: Seq<u8>, body: Seq<u8>)
        requires
            self.sees(body.push(QUOTE)),
            forall|i: int| 0 <= i < body.len() ==> body[i] != QUOTE && body[i] != BACKSLASH,
        ensures
            self.string_from(StringState::Scanning, read) == self.skip(body.len() + 1).string_end(
                read + body,
            ),
        decreases body.len(),
    {
        let all = body.push(QUOTE);
        self.lemma_sees_first(all);
        let next = self.peek().after.eat();
        if body.len() == 0 {
            assert(all[0] == QUOTE);
            assert(read + body == read);
            assert(next.string_from(StringState::Done, read) == next.string_end(read));
            assert(next.skip(0) == next);
        } else {
            assert(all[0] == body[0]);
            assert(all.drop_first() == body.drop_first().push(QUOTE));
            next.lemma_scanning_keeps(read.push(body[0]), body.drop_first());
            assert(read.push(body[0]) + body.drop_first() == read + body);
        }
    }

    /// A string without escapes is the bytes between its quotes: where they
    /// are UTF-8 the text is the one whose UTF-8 bytes they are, and else the
    /// string is refused after its closing quote.
    pub proof fn lemma_plain_string(self, body: Seq<u8>)
        requires
            self.sees(seq![QUOTE] + body.push(QUOTE)),
            forall|i: int| 0 <= i < body.len() ==> body[i] != QUOTE && body[i] != BACKSLASH,
        ensures
            self.parse_string().after == self.skip(body.len() + 2),
            match self.parse_string().result {
                Ok(text) => valid_utf8(body) && encode_utf8(text) == body,
                Err(f) => !valid_utf8(body) && f == self.skip(body.len() + 2).fault(
                    Kind::Other(not_utf8()),
                ),
            },
    {
        let all = seq![QUOTE] + body.push(QUOTE);
        self.lemma_sees_first(all);
        assert(all.drop_first() == body.push(QUOTE));
        self.peek().after.eat().lemma_scanning_keeps(Seq::empty(), body);
        assert(Seq::<u8>::empty() + body == body);
        if valid_utf8(body) {
            vstd::utf8::decode_utf8_encode_utf8(body);
        }
    }

    /// The text of a string is the text whose UTF-8 bytes were gathered.
    pub proof fn lemma_string_end(self, read: Seq<u8>)
        ensures
            match self.string_end(read).result {
                Ok(text) => valid_utf8(read) && encode_utf8(text) == read,
                Err(f) => !valid_utf8(read),
            },
    {
        if valid_utf8(read) {
            vstd::utf8::decode_utf8_encode_utf8(read);
        }
    }

    /// Lexing a string only moves forward: the position stays in
    /// range, nothing is given back, and a failure is placed where the reader
    /// stands.
    pub proof fn lemma_string_from_advances(self, state: StringState, read: Seq<u8>)
        ensures
            self.string_from(state, read).after.within(self),
            self.fits() ==> self.string_from(state, read).after.fits(),
            self.string_from(state, read).placed(),
        decreases self.unread(),
    {
        if state != StringState::Done {
            let seen = self.peek();
            if let Ok(Some(b)) = seen.result {
                match string_step(state, b) {
                    StringStep::Skip(next) => {
                        seen.after.eat().lemma_string_from_advances(next, read);
                    },
                    StringStep::Push(kept) => {
                        seen.after.eat().lemma_string_from_advances(
                            StringState::Scanning,
                            read.push(kept),
                        );
                    },
                    StringStep::Fail(_) => {},
                    StringStep::Unicode => {
                        seen.after.lemma_code_units_advances(Seq::empty());
                        let run = seen.after.code_units(Seq::empty());
                        if let Ok((units, next)) = run.result {
                            if let Some(chars) = decode_utf16(units) {
                                run.after.lemma_string_from_advances(
                                    next,
                                    read + encode_utf8(chars),
                                );
                            }
                        }
                    },
                }
            }
        }
    }
}

impl<I: Iterator<Item = std::io::Result<u8>>> Parser<I> {
    /// Looks at and consumes `n` bytes and returns them as characters.
    fn take_chars(&mut self, n: usize) -> (taken: Result<String, Error>)
        requires
            old(self).ready(),
            old(self).at(old(self).iter.remaining()).fits(),
        ensures
            text(taken) == old(self).at(old(self).iter.remaining()).take_chars(
                n as nat,
                Seq::empty(),
            ).result,
            final(self).came_from(
                final(self).iter.remaining(),
                old(self),
                old(self).iter.remaining(),
                old(self).at(old(self).iter.remaining()).take_chars(n as nat, Seq::empty()).after,
            ),
    {
        let mut taken = String::new();
        let mut i: usize = 0;
        while i < n
            invariant
                i <= n,
                self.ready(),
                self.at(self.iter.remaining()).fits(),
                self.at(self.iter.remaining()).take_chars((n - i) as nat, taken@) == old(self).at(
                    old(self).iter.remaining(),
                ).take_chars(n as nat, Seq::empty()),
                self.spent(self.iter.remaining(), old(self), old(self).iter.remaining()),
                self.at(self.iter.remaining()).within(old(self).at(old(self).iter.remaining())),
            decreases n - i,
        {
            let b = self.peek_noeof()?;
            taken.push(b as char);
            self.eat();
            i += 1;
        }
        Ok(taken)
    }

    /// Reads a run of `\u` escapes, with the reader holding the `u` of the
    /// first, and returns its code units and the state to go on in.
    fn parse_code_units(&mut self) -> (run: Result<(Vec<u16>, StringState), Error>)
        requires
            old(self).peek is Some,
            old(self).ready(),
            old(self).at(old(self).iter.remaining()).fits(),
        ensures
            match old(self).at(old(self).iter.remaining()).code_units(Seq::empty()).result {
                Ok((units, next)) => run matches Ok(found) && found.0@ == units && found.1 == next,
                Err(f) => run matches Err(e) && e@ == f,
            },
            final(self).came_from(
                final(self).iter.remaining(),
                old(self),
                old(self).iter.remaining(),
                old(self).at(old(self).iter.remaining()).code_units(Seq::empty()).after,
            ),
    {
        let mut units: Vec<u16> = Vec::new();
        loop
            invariant
                self.peek is Some,
                self.ready(),
                self.at(self.iter.remaining()).fits(),
                self.at(self.iter.remaining()).code_units(units@) == old(self).at(
                    old(self).iter.remaining(),
                ).code_units(Seq::empty()),
                self.spent(self.iter.remaining(), old(self), old(self).iter.remaining()),
                self.at(self.iter.remaining()).within(old(self).at(old(self).iter.remaining())),
            decreases self.budget(), self.holding(),
        {
            let ghost here = self.at(self.iter.remaining());
            self.eat();
            proof {
                here.eat().lemma_take_chars_advances(4, Seq::empty());
            }
            let digits = self.take_chars(4)?;
            match parse_code_unit(digits.as_str()) {
                Err(kind) => {
                    return Err(self.error_at(kind));
                },
                Ok(unit) => {
                    units.push(unit);
                },
            }
            // check whether another code unit follows
            match self.peek()? {
                Some(b) => {
                    if b != BACKSLASH {
                        return Ok((units, StringState::Scanning));
                    }
                },
                None => {
                    return Ok((units, StringState::Scanning));
                },
            }
            self.eat();
            match self.peek()? {
                Some(b) => {
                    if b != LOWER_U {
                        return Ok((units, StringState::Escaping));
                    }
                },
                None => {
                    return Ok((units, StringState::Escaping));
                },
            }
        }
    }

    /// Lexes a string, from its opening quote to its closing quote. The
    /// bytes between the quotes are kept as they are and each escape is
    /// replaced by what it stands for. A string whose bytes are not UTF-8 is
    /// refused at its closing quote, as [`ErrorType::Other`].
    pub fn parse_string(&mut self) -> (string: Result<String, Error>)
        requires
            old(self).ready(),
            old(self).at(old(self).iter.remaining()).fits(),
        ensures
            text(string) == old(self).at(old(self).iter.remaining()).parse_string().result,
            final(self).came_from(
                final(self).iter.remaining(),
                old(self),
                old(self).iter.remaining(),
                old(self).at(old(self).iter.remaining()).parse_string().after,
            ),
    {
        let mut ret: Vec<u8> = Vec::new();
        let mut state = StringState::Start;
        loop
            invariant
                state != StringState::Done,
                self.ready(),
                self.at(self.iter.remaining()).fits(),
                self.at(self.iter.remaining()).string_from(state, ret@) == old(self).at(
                    old(self).iter.remaining(),
                ).parse_string(),
                self.spent(self.iter.remaining(), old(self), old(self).iter.remaining()),
                self.at(self.iter.remaining()).within(old(self).at(old(self).iter.remaining())),
            decreases self.budget(), self.holding(),
        {
            let c = self.peek_noeof()?;
            match state.step(c) {
                StringStep::Skip(next) => {
                    self.eat();
                    if next == StringState::Done {
                        assert(self.at(self.iter.remaining()).string_from(next, ret@) == self.at(
                            self.iter.remaining(),
                        ).string_end(ret@));
                        return self.string_end(ret);
                    }
                    state = next;
                },
                StringStep::Push(kept) => {
                    ret.push(kept);
                    self.eat();
                    state = StringState::Scanning;
                },
                StringStep::Fail(kind) => {
                    return Err(self.error_at(kind));
                },
                StringStep::Unicode => {
                    let ghost here = self.at(self.iter.remaining());
                    proof {
                        here.lemma_code_units_advances(Seq::empty());
                    }
                    let (units, next) = self.parse_code_units()?;
                    match decode_units(&units) {
                        None => {
                            return Err(self.error_at(ErrorType::UnpairedSurrogate));
                        },
                        Some(chars) => {
                            push_bytes(&mut ret, chars.as_str().as_bytes());
                        },
                    }
                    state = next;
                    // the run looked at the byte after it: none is held only at the end
                    if self.peek.is_none() {
                        assert(self.at(self.iter.remaining()).string_from(state, ret@).result == Err::<
                            Seq<char>,
                            Fault,
                        >(self.at(self.iter.remaining()).error_at(ErrorType::UnexpectedEOF)));
                        return Err(self.error_at(ErrorType::UnexpectedEOF));
                    }
                },
            }
        }
    }

    /// The string ends here: the bytes gathered are read as UTF-8.
    fn string_end(&self, read: Vec<u8>) -> (string: Result<String, Error>)
        ensures
            match string {
                Ok(found) => valid_utf8(read@) && found@ == decode_utf8(read@),
                Err(e) => !valid_utf8(read@) && e@ == (Fault {
                    line: self.line as nat,
                    col: self.col as nat,
                    kind: Kind::Other(not_utf8()),
                }),
            },
    {
        let ghost bytes = read@;
        match String::from_utf8(read) {
            Ok(string) => {
                proof {
                    vstd::utf8::encode_utf8_valid_utf8(string@);
                    vstd::utf8::encode_utf8_decode_utf8(string@);
                }
                Ok(string)
            },
            Err(_) => {
                let what = "string is not valid UTF-8".to_owned();
                Err(self.error_at(ErrorType::Other(what)))
            },
        }
    }
}

/// Appends the bytes `more` to `out`.
fn push_bytes(out: &mut Vec<u8>, more: &[u8])
    ensures
        final(out)@ == old(out)@ + more@,
{
    let mut i: usize = 0;
    while i < more.len()
        invariant
            i <= more@.len(),
            out@ == old(out)@ + more@.take(i as int),
        decreases more@.len() - i,
    {
        out.push(more[i]);
        assert(more@.take(i + 1) == more@.take(i as int).push(more@[i as int]));
        i += 1;
    }
    assert(more@.take(i as int) == more@);
}

} // verus!
