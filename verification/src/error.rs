//! Positioned errors and the kinds of failure a reader can report.

use vstd::prelude::*;

verus! {

/// `std::num::ParseIntError`, carried through as it is: nothing is known of
/// what it holds.
#[verifier::external_type_specification]
#[verifier::external_body]
pub struct ExParseIntError(std::num::ParseIntError);

/// `std::io::Error`, carried through as it is: nothing is known of what it
/// holds.
#[verifier::external_type_specification]
#[verifier::external_body]
pub struct ExIoError(std::io::Error);

/// `String::push` appends the character to the end of the string.
pub assume_specification[ std::string::String::push ](s: &mut std::string::String, ch: char)
    ensures
        final(s)@ == old(s)@.push(ch),
;

/// What went wrong while reading or binding JSON.
#[derive(Debug)]
pub enum ErrorType {
    /// Syntax error interpreting JSON, with what was wrong; a string whose
    /// bytes are not UTF-8 is one
    Other(String),
    /// A field that a binding layer needed was absent
    MissingField(&'static str),
    /// A field that a binding layer did not know
    UnknownField(String),
    /// A string was expected and something else was found
    ExpectedString,
    /// The input ended before the value was complete
    UnexpectedEOF,
    /// A character that cannot stand where it was found
    UnexpectedCharacter(char),
    /// A number held a bad or misplaced character
    MalformedNumber,
    /// An escape sequence was invalid
    MalformedEscape,
    /// An identifier that has no meaning
    UnknownIdent,
    /// The four characters after `\u` were not a code unit
    Unicode(std::num::ParseIntError),
    /// A UTF-16 run held a surrogate without its partner
    UnpairedSurrogate,
    /// The byte source failed
    Io(std::io::Error),
}

/// The mathematical value of an [`ErrorType`]: a message or a name is its
/// characters.
pub enum Kind {
    Other(Seq<char>),
    MissingField(Seq<char>),
    UnknownField(Seq<char>),
    ExpectedString,
    UnexpectedEOF,
    UnexpectedCharacter(char),
    MalformedNumber,
    MalformedEscape,
    UnknownIdent,
    Unicode(std::num::ParseIntError),
    UnpairedSurrogate,
    Io(std::io::Error),
}

impl View for ErrorType {
    type V = Kind;

    open spec fn view(&self) -> Kind {
        match self {
            ErrorType::Other(what) => Kind::Other(what@),
            ErrorType::MissingField(name) => Kind::MissingField(name@),
            ErrorType::UnknownField(name) => Kind::UnknownField(name@),
            ErrorType::ExpectedString => Kind::ExpectedString,
            ErrorType::UnexpectedEOF => Kind::UnexpectedEOF,
            ErrorType::UnexpectedCharacter(c) => Kind::UnexpectedCharacter(*c),
            ErrorType::MalformedNumber => Kind::MalformedNumber,
            ErrorType::MalformedEscape => Kind::MalformedEscape,
            ErrorType::UnknownIdent => Kind::UnknownIdent,
            ErrorType::Unicode(e) => Kind::Unicode(*e),
            ErrorType::UnpairedSurrogate => Kind::UnpairedSurrogate,
            ErrorType::Io(e) => Kind::Io(*e),
        }
    }
}

/// A failure together with the place at which it was detected.
#[derive(Debug)]
pub struct Error {
    /// Line of the last byte looked at, counted from 1
    pub line: usize,
    /// Column of the last byte looked at, counted from 1
    pub col: usize,
    /// The kind of failure
    pub error: ErrorType,
}

/// The character that writes the digit `d`.
pub open spec fn digit_char(d: nat) -> char {
    ((d + 48) as u8) as char
}

/// The digits of `n` in base ten, most significant first.
pub open spec fn decimal_text(n: nat) -> Seq<char>
    decreases n,
{
    if n < 10 {
        seq![digit_char(n)]
    } else {
        decimal_text(n / 10).push(digit_char(n % 10))
    }
}

/// Appends the decimal digits of `n` to `out`.
pub fn push_decimal(out: &mut String, n: usize)
    ensures
        final(out)@ == old(out)@ + decimal_text(n as nat),
    decreases n,
{
    if n >= 10 {
        push_decimal(out, n / 10);
    }
    let d: u8 = (n % 10) as u8;
    out.push((d + 48) as char);
    assert(out@ =~= old(out)@ + decimal_text(n as nat));
}

/// What the byte source's failure calls itself, by `std::error::Error::description`.
/// Nothing is claimed of the text.
#[verifier::external_body]
#[allow(deprecated)]
fn source_description(e: &std::io::Error) -> (text: &str) {
    std::error::Error::description(e)
}

/// What a failed code-unit parse calls itself, by `std::error::Error::description`.
/// Nothing is claimed of the text.
#[verifier::external_body]
#[allow(deprecated)]
fn digits_description(e: &std::num::ParseIntError) -> (text: &str) {
    std::error::Error::description(e)
}

impl ErrorType {
    /// The fixed name of a kind of failure. The two kinds that wrap another
    /// error have none: they are described by the error they wrap.
    pub open spec fn fixed_description(&self) -> Option<Seq<char>> {
        match self {
            ErrorType::ExpectedString => Some("expected string"@),
            ErrorType::UnexpectedEOF => Some("unexpected eof"@),
            ErrorType::UnexpectedCharacter(_) => Some("bad character"@),
            ErrorType::MalformedEscape => Some("bad escape"@),
            ErrorType::MalformedNumber => Some("malformed number"@),
            ErrorType::UnknownIdent => Some("unknown ident"@),
            ErrorType::Unicode(_) => None,
            ErrorType::UnpairedSurrogate => Some("UTF-16 unpaired surrogate"@),
            ErrorType::Io(_) => None,
            ErrorType::MissingField(_) => Some("missing field"@),
            ErrorType::UnknownField(_) => Some("unknown field"@),
            ErrorType::Other(_) => Some("syntax/other error"@),
        }
    }
}

impl Error {
    /// A short name for the kind of failure.
    pub fn description(&self) -> (text: &str)
        ensures
            self.error.fixed_description() matches Some(t) ==> text@ == t,
    {
        match &self.error {
            ErrorType::ExpectedString => "expected string",
            ErrorType::UnexpectedEOF => "unexpected eof",
            ErrorType::UnexpectedCharacter(_) => "bad character",
            ErrorType::MalformedEscape => "bad escape",
            ErrorType::MalformedNumber => "malformed number",
            ErrorType::UnknownIdent => "unknown ident",
            ErrorType::Unicode(e) => digits_description(e),
            ErrorType::UnpairedSurrogate => "UTF-16 unpaired surrogate",
            ErrorType::Io(e) => source_description(e),
            ErrorType::MissingField(_) => "missing field",
            ErrorType::UnknownField(_) => "unknown field",
            ErrorType::Other(_) => "syntax/other error",
        }
    }

    /// The text `line:col: ` that opens a positioned message.
    pub open spec fn place(&self) -> Seq<char> {
        decimal_text(self.line as nat) + seq![':'] + decimal_text(self.col as nat) + seq![':', ' ']
    }

    /// Whether `text` is the message of this error.
    ///
    /// The kinds that a binding layer raises carry no position. A wrapped
    /// error contributes whatever it displays as.
    pub open spec fn has_message(&self, text: Seq<char>) -> bool {
        match self.error {
            ErrorType::UnexpectedCharacter(c) => text == self.place() + "unexpected character "@.push(c),
            ErrorType::Io(e) => exists|shown: String| #[trigger]
                vstd::string::to_string_from_display_ensures::<std::io::Error>(&e, shown) && text
                    == self.place() + shown@,
            ErrorType::Unicode(e) => exists|shown: String| #[trigger]
                vstd::string::to_string_from_display_ensures::<std::num::ParseIntError>(&e, shown)
                    && text == self.place() + shown@,
            ErrorType::MissingField(name) => text == "missing field `"@ + name@ + "`"@,
            ErrorType::UnknownField(name) => text == "unknown field `"@ + name@ + "`"@,
            ErrorType::Other(what) => text == "syntax error: "@ + what@,
            _ => text == self.place() + self.error.fixed_description()->0,
        }
    }

    fn push_place(&self, out: &mut String)
        ensures
            final(out)@ == old(out)@ + self.place(),
    {
        push_decimal(out, self.line);
        out.push(':');
        push_decimal(out, self.col);
        out.push(':');
        out.push(' ');
        assert(out@ =~= old(out)@ + self.place());
    }

    /// The message of this error, as it is shown to a person.
    pub fn to_string(&self) -> (text: String)
        ensures
            self.has_message(text@),
    {
        let mut out = String::new();
        match &self.error {
            ErrorType::UnexpectedCharacter(c) => {
                self.push_place(&mut out);
                out.append("unexpected character ");
                out.push(*c);
                assert(out@ =~= self.place() + "unexpected character "@.push(*c));
            },
            ErrorType::Io(e) => {
                self.push_place(&mut out);
                let shown = e.to_string();
                out.append(shown.as_str());
                assert(out@ =~= self.place() + shown@);
            },
            ErrorType::Unicode(e) => {
                self.push_place(&mut out);
                let shown = e.to_string();
                out.append(shown.as_str());
                assert(out@ =~= self.place() + shown@);
            },
            ErrorType::MissingField(name) => {
                out.append("missing field `");
                out.append(name);
                out.append("`");
                assert(out@ =~= "missing field `"@ + name@ + "`"@);
            },
            ErrorType::UnknownField(name) => {
                out.append("unknown field `");
                out.append(name.as_str());
                out.append("`");
                assert(out@ =~= "unknown field `"@ + name@ + "`"@);
            },
            ErrorType::Other(what) => {
                out.append("syntax error: ");
                out.append(what.as_str());
                assert(out@ =~= "syntax error: "@ + what@);
            },
            _ => {
                self.push_place(&mut out);
                out.append(self.description());
                assert(out@ =~= self.place() + self.error.fixed_description()->0);
            },
        }
        out
    }
}

impl From<std::num::ParseIntError> for ErrorType {
    fn from(e: std::num::ParseIntError) -> (kind: ErrorType) {
        ErrorType::Unicode(e)
    }
}

impl vstd::std_specs::convert::FromSpecImpl<std::num::ParseIntError> for ErrorType {
    open spec fn obeys_from_spec() -> bool {
        true
    }

    open spec fn from_spec(e: std::num::ParseIntError) -> ErrorType {
        ErrorType::Unicode(e)
    }
}

impl From<std::io::Error> for ErrorType {
    fn from(e: std::io::Error) -> (kind: ErrorType) {
        ErrorType::Io(e)
    }
}

impl vstd::std_specs::convert::FromSpecImpl<std::io::Error> for ErrorType {
    open spec fn obeys_from_spec() -> bool {
        true
    }

    open spec fn from_spec(e: std::io::Error) -> ErrorType {
        ErrorType::Io(e)
    }
}

impl From<ErrorType> for Error {
    fn from(e: ErrorType) -> (error: Error) {
        Error { line: 1, col: 1, error: e }
    }
}

impl vstd::std_specs::convert::FromSpecImpl<ErrorType> for Error {
    open spec fn obeys_from_spec() -> bool {
        true
    }

    open spec fn from_spec(e: ErrorType) -> Error {
        Error { line: 1, col: 1, error: e }
    }
}

} // verus!
