//! The mathematical model of a reader: a byte source with one byte of
//! lookahead and a position that advances when a byte is first looked at.

use vstd::prelude::*;
use crate::bytes::{is_whitespace, LINE_FEED};
use crate::error::{Error, ErrorType, Kind};

verus! {

/// A reader as a value.
///
/// `rest` is what the byte source will still yield: bytes and failures, then
/// the end. `held` is a byte that was taken from the source and not consumed
/// yet. `line` and `col` already count the held byte.
pub struct Cursor {
    pub held: Option<u8>,
    pub line: nat,
    pub col: nat,
    pub rest: Seq<Result<u8, std::io::Error>>,
}

/// A failure and the position at which it was detected.
pub struct Fault {
    pub line: nat,
    pub col: nat,
    pub kind: Kind,
}

/// Where a step left the reader, and what it produced.
pub struct Outcome<T> {
    pub after: Cursor,
    pub result: Result<T, Fault>,
}

impl<T> Outcome<T> {
    /// A failure is placed where the reader stands after the step.
    pub open spec fn placed(self) -> bool {
        self.result matches Err(f) ==> f.line == self.after.line && f.col == self.after.col
    }
}

/// Where taking one item from the reader left it, and the item.
pub struct Taken {
    pub after: Cursor,
    pub item: Option<Result<u8, std::io::Error>>,
}

impl View for Error {
    type V = Fault;

    open spec fn view(&self) -> Fault {
        Fault { line: self.line as nat, col: self.col as nat, kind: self.error@ }
    }
}

/// The result of a step whose value needs no view, with the error as a [`Fault`].
pub open spec fn plain<T>(r: Result<T, Error>) -> Result<T, Fault> {
    match r {
        Ok(v) => Ok(v),
        Err(e) => Err(e@),
    }
}

/// The result of a step that produces text, as characters and a [`Fault`].
pub open spec fn text(r: Result<String, Error>) -> Result<Seq<char>, Fault> {
    match r {
        Ok(v) => Ok(v@),
        Err(e) => Err(e@),
    }
}

/// A source that yields the bytes `s` and then ends.
pub open spec fn source(s: Seq<u8>) -> Seq<Result<u8, std::io::Error>> {
    s.map_values(|b: u8| Ok::<u8, std::io::Error>(b))
}

/// Each byte as the character with the same number.
pub open spec fn latin1(s: Seq<u8>) -> Seq<char> {
    s.map_values(|b: u8| b as char)
}

/// The line that is reached from `line` when the bytes `s` are looked at:
/// every line feed is one more line.
pub open spec fn line_after(line: nat, s: Seq<u8>) -> nat
    decreases s.len(),
{
    if s.len() == 0 {
        line
    } else if s[0] == LINE_FEED {
        line_after(line + 1, s.drop_first())
    } else {
        line_after(line, s.drop_first())
    }
}

/// The column that is reached from `col` when the bytes `s` are looked at:
/// a line feed is column 0, every other byte is one more column.
pub open spec fn col_after(col: nat, s: Seq<u8>) -> nat
    decreases s.len(),
{
    if s.len() == 0 {
        col
    } else if s[0] == LINE_FEED {
        col_after(0, s.drop_first())
    } else {
        col_after(col + 1, s.drop_first())
    }
}

impl Cursor {
    /// A reader that has looked at nothing yet of the source `rest`.
    pub open spec fn start(rest: Seq<Result<u8, std::io::Error>>) -> Cursor {
        Cursor { held: None, line: 1, col: 0, rest }
    }

    /// The number of items that are not consumed yet.
    pub open spec fn unread(self) -> nat {
        self.rest.len() + if self.held is Some { 1nat } else { 0nat }
    }

    /// The position cannot leave the machine's range, whatever the source yields.
    pub open spec fn fits(self) -> bool {
        &&& self.line + self.rest.len() <= usize::MAX
        &&& self.col + self.rest.len() <= usize::MAX
    }

    /// `self` can be reached from `earlier` by taking and consuming items.
    pub open spec fn within(self, earlier: Cursor) -> bool {
        &&& self.unread() <= earlier.unread()
        &&& self.rest.len() <= earlier.rest.len()
        &&& earlier.line <= self.line
        &&& self.line + self.rest.len() <= earlier.line + earlier.rest.len()
        &&& self.col + self.rest.len() <= earlier.col + earlier.rest.len()
    }

    /// The failure `kind` at the reader's position.
    pub open spec fn fault(self, kind: Kind) -> Fault {
        Fault { line: self.line, col: self.col, kind }
    }

    /// The failure `ty` at the reader's position.
    pub open spec fn error_at(self, ty: ErrorType) -> Fault {
        self.fault(ty@)
    }

    /// The reader after the byte `b` came from the source: a line feed opens
    /// a new line, any other byte is one more column.
    pub open spec fn count(self, b: u8) -> Cursor {
        if b == LINE_FEED {
            Cursor { held: Some(b), line: self.line + 1, col: 0, rest: self.rest.drop_first() }
        } else {
            Cursor { held: Some(b), line: self.line, col: self.col + 1, rest: self.rest.drop_first() }
        }
    }

    /// Takes one item. A held byte is handed out and dropped. Otherwise the
    /// source is asked: a byte is counted, kept as held and handed out; a
    /// failure is handed out; at the end there is nothing.
    pub open spec fn next(self) -> Taken {
        if self.held is Some {
            Taken { after: Cursor { held: None, ..self }, item: Some(Ok(self.held->0)) }
        } else if self.rest.len() == 0 {
            Taken { after: self, item: None }
        } else {
            match self.rest[0] {
                Ok(b) => Taken { after: self.count(b), item: Some(Ok(b)) },
                Err(e) => Taken {
                    after: Cursor { rest: self.rest.drop_first(), ..self },
                    item: Some(Err(e)),
                },
            }
        }
    }

    /// Looks at the next byte without consuming it. The position advances
    /// only if the byte was not held yet. A failure of the source is reported
    /// at the position before it.
    pub open spec fn peek(self) -> Outcome<Option<u8>> {
        if self.held is Some {
            Outcome { after: self, result: Ok(self.held) }
        } else if self.rest.len() == 0 {
            Outcome { after: self, result: Ok(None) }
        } else {
            match self.rest[0] {
                Ok(b) => Outcome { after: self.count(b), result: Ok(Some(b)) },
                Err(e) => Outcome {
                    after: Cursor { rest: self.rest.drop_first(), ..self },
                    result: Err(self.error_at(ErrorType::Io(e))),
                },
            }
        }
    }

    /// Looks at the next byte, which must exist.
    pub open spec fn peek_noeof(self) -> Outcome<u8> {
        let seen = self.peek();
        match seen.result {
            Ok(Some(b)) => Outcome { after: seen.after, result: Ok(b) },
            Ok(None) => Outcome {
                after: seen.after,
                result: Err(seen.after.error_at(ErrorType::UnexpectedEOF)),
            },
            Err(f) => Outcome { after: seen.after, result: Err(f) },
        }
    }

    /// Consumes the held byte.
    pub open spec fn eat(self) -> Cursor {
        Cursor { held: None, ..self }
    }

    /// The items that the reader will look at, the held byte first.
    pub open spec fn pending(self) -> Seq<Result<u8, std::io::Error>> {
        match self.held {
            Some(b) => seq![Ok::<u8, std::io::Error>(b)] + self.rest,
            None => self.rest,
        }
    }

    /// The next items that the reader will look at are the bytes `s`.
    pub open spec fn sees(self, s: Seq<u8>) -> bool {
        &&& s.len() <= self.pending().len()
        &&& forall|i: int| 0 <= i < s.len() ==> self.pending()[i] == Ok::<u8, std::io::Error>(s[i])
    }

    /// The reader after it looked at and consumed `n` items.
    pub open spec fn skip(self, n: nat) -> Cursor
        decreases n,
    {
        if n == 0 {
            self
        } else {
            self.peek().after.eat().skip((n - 1) as nat)
        }
    }

    /// Consumes whitespace up to the first other byte, the end or a failure.
    pub open spec fn eat_whitespace(self) -> Outcome<()>
        decreases self.unread(),
    {
        let seen = self.peek();
        match seen.result {
            Ok(Some(b)) => if is_whitespace(b) {
                seen.after.eat().eat_whitespace()
            } else {
                Outcome { after: seen.after, result: Ok(()) }
            },
            Ok(None) => Outcome { after: seen.after, result: Ok(()) },
            Err(f) => Outcome { after: seen.after, result: Err(f) },
        }
    }

    /// Consumes the bytes of `ident` one by one. The first byte that differs,
    /// or the end, is an unknown identifier at that byte; it is not consumed.
    pub open spec fn eat_ident(self, ident: Seq<u8>) -> Outcome<()>
        decreases ident.len(),
    {
        if ident.len() == 0 {
            Outcome { after: self, result: Ok(()) }
        } else {
            let seen = self.peek();
            match seen.result {
                Ok(found) => if found == Some(ident[0]) {
                    seen.after.eat().eat_ident(ident.drop_first())
                } else {
                    Outcome {
                        after: seen.after,
                        result: Err(seen.after.error_at(ErrorType::UnknownIdent)),
                    }
                },
                Err(f) => Outcome { after: seen.after, result: Err(f) },
            }
        }
    }

    /// Looking at a byte only moves forward: the position stays in
    /// range, nothing is given back, and a failure is placed where the reader
    /// stands. A byte that was seen is held; where none was seen the input
    /// has ended.
    pub proof fn lemma_peek_advances(self)
        ensures
            self.peek().after.within(self),
            self.fits() ==> self.peek().after.fits(),
            self.peek().placed(),
            self.peek().result matches Ok(Some(b)) ==> self.peek().after.held == Some(b),
            self.peek().result matches Ok(None) ==> self.peek().after.unread() == 0,
    {
    }

    /// Skipping whitespace only moves forward: the position stays in
    /// range, nothing is given back, and a failure is placed where the reader
    /// stands.
    pub proof fn lemma_eat_whitespace_advances(self)
        ensures
            self.eat_whitespace().after.within(self),
            self.fits() ==> self.eat_whitespace().after.fits(),
            self.eat_whitespace().placed(),
        decreases self.unread(),
    {
        let seen = self.peek();
        if let Ok(Some(b)) = seen.result {
            if is_whitespace(b) {
                seen.after.eat().lemma_eat_whitespace_advances();
            }
        }
    }

    /// After whitespace was skipped the reader holds a byte that is no
    /// whitespace, or the input has ended; skipping again changes nothing.
    pub proof fn lemma_eat_whitespace_settles(self)
        ensures
            self.eat_whitespace().result is Ok ==> {
                let after = self.eat_whitespace().after;
                &&& after.held is Some || after.rest.len() == 0
                &&& after.held matches Some(b) ==> !is_whitespace(b)
                &&& after.eat_whitespace() == self.eat_whitespace()
                &&& after.peek() == (Outcome { after, result: Ok::<Option<u8>, Fault>(after.held) })
            },
        decreases self.unread(),
    {
        let seen = self.peek();
        if let Ok(Some(b)) = seen.result {
            if is_whitespace(b) {
                seen.after.eat().lemma_eat_whitespace_settles();
            }
        }
    }

    /// Matching an identifier only moves forward: the position stays in
    /// range, nothing is given back, and a failure is placed where the reader
    /// stands.
    pub proof fn lemma_eat_ident_advances(self, ident: Seq<u8>)
        ensures
            self.eat_ident(ident).after.within(self),
            self.fits() ==> self.eat_ident(ident).after.fits(),
            self.eat_ident(ident).placed(),
        decreases ident.len(),
    {
        if ident.len() > 0 {
            let seen = self.peek();
            if let Ok(found) = seen.result {
                if found == Some(ident[0]) {
                    seen.after.eat().lemma_eat_ident_advances(ident.drop_first());
                }
            }
        }
    }

    /// A byte is counted once, however often it is looked at: looking again
    /// changes nothing and gives the same byte.
    pub proof fn lemma_peek_again(self)
        ensures
            self.peek().result is Ok ==> self.peek().after.peek() == (Outcome {
                after: self.peek().after,
                result: self.peek().result,
            }),
    {
    }

    /// Where the reader will look at the byte `s[0]` next, looking gives that
    /// byte, and consuming it leaves the rest of `s` to look at.
    pub proof fn lemma_sees_first(self, s: Seq<u8>)
        requires
            self.sees(s),
            s.len() > 0,
        ensures
            self.peek().result == Ok::<Option<u8>, Fault>(Some(s[0])),
            self.peek().after.held == Some(s[0]),
            self.peek().after.eat().sees(s.drop_first()),
            self.peek().after.eat().pending() == self.pending().drop_first(),
            self.peek().after.eat().held is None,
    {
        assert(self.pending()[0] == Ok::<u8, std::io::Error>(s[0]));
        let next = self.peek().after.eat();
        assert(next.pending() == self.pending().drop_first());
        assert forall|i: int| 0 <= i < s.drop_first().len() implies next.pending()[i] == Ok::<
            u8,
            std::io::Error,
        >(s.drop_first()[i]) by {
            assert(next.pending()[i] == self.pending()[i + 1]);
        }
    }

    /// Consuming the bytes that the reader will look at next leaves what
    /// comes after them.
    pub proof fn lemma_skip_seen(self, s: Seq<u8>)
        requires
            self.sees(s),
        ensures
            self.skip(s.len()).pending() == self.pending().skip(s.len() as int),
            s.len() > 0 ==> self.skip(s.len()).held is None,
        decreases s.len(),
    {
        if s.len() == 0 {
            assert(self.pending().skip(0) == self.pending());
        } else {
            self.lemma_sees_first(s);
            let next = self.peek().after.eat();
            next.lemma_skip_seen(s.drop_first());
            assert(self.pending().drop_first().skip(s.len() - 1) == self.pending().skip(
                s.len() as int,
            ));
        }
    }

    /// The position counts the bytes that were looked at, each once: after
    /// the reader consumed `s` it stands where `s` ends, and looking at the
    /// byte `b` after that counts `b` too.
    pub proof fn lemma_position(self, s: Seq<u8>, b: u8)
        requires
            self.held is None,
            self.sees(s.push(b)),
        ensures
            self.skip(s.len()).line == line_after(self.line, s),
            self.skip(s.len()).col == col_after(self.col, s),
            self.skip(s.len()).peek().after.line == line_after(self.line, s.push(b)),
            self.skip(s.len()).peek().after.col == col_after(self.col, s.push(b)),
        decreases s.len(),
    {
        self.lemma_sees_first(s.push(b));
        if s.len() == 0 {
            assert(s.push(b)[0] == b);
            assert(s.push(b).drop_first() == Seq::<u8>::empty());
            assert(line_after(self.peek().after.line, Seq::<u8>::empty())
                == self.peek().after.line);
            assert(col_after(self.peek().after.col, Seq::<u8>::empty()) == self.peek().after.col);
        } else {
            assert(s.push(b)[0] == s[0]);
            assert(s.push(b).drop_first() == s.drop_first().push(b));
            self.peek().after.eat().lemma_position(s.drop_first(), b);
        }
    }

    /// A reader that has looked at nothing yet will look at the source.
    pub proof fn lemma_start_sees(s: Seq<u8>)
        ensures
            Cursor::start(source(s)).sees(s),
            Cursor::start(source(s)).pending() == source(s),
    {
    }

    /// Looking at a byte before consuming items changes nothing.
    pub proof fn lemma_skip_after_peek(self, n: nat)
        requires
            n > 0,
            self.peek().result is Ok,
        ensures
            self.peek().after.skip(n) == self.skip(n),
    {
        self.lemma_peek_again();
    }

    /// Consuming `n` items and then `m` is consuming `n + m`.
    pub proof fn lemma_skip_sum(self, n: nat, m: nat)
        ensures
            self.skip(n).skip(m) == self.skip(n + m),
        decreases n,
    {
        if n > 0 {
            self.peek().after.eat().lemma_skip_sum((n - 1) as nat, m);
        }
    }

    /// Where the reader will look at `a` and then `b`, it will look at `b`
    /// once `a` is consumed.
    pub proof fn lemma_sees_both(self, a: Seq<u8>, b: Seq<u8>)
        requires
            self.sees(a + b),
        ensures
            self.sees(a),
            self.skip(a.len()).sees(b),
    {
        assert forall|i: int| 0 <= i < a.len() implies self.pending()[i] == Ok::<
            u8,
            std::io::Error,
        >(a[i]) by {
            assert((a + b)[i] == a[i]);
        }
        self.lemma_skip_seen(a);
        assert forall|i: int| 0 <= i < b.len() implies self.skip(a.len()).pending()[i] == Ok::<
            u8,
            std::io::Error,
        >(b[i]) by {
            assert((a + b)[a.len() + i] == b[i]);
        }
    }

    /// Whitespace that is followed by another byte is consumed up to that
    /// byte, which is then held.
    pub proof fn lemma_eat_whitespace_reads(self, blanks: Seq<u8>, b: u8)
        requires
            self.sees(blanks.push(b)),
            forall|i: int| 0 <= i < blanks.len() ==> is_whitespace(#[trigger] blanks[i]),
            !is_whitespace(b),
        ensures
            self.eat_whitespace() == (Outcome {
                after: self.skip(blanks.len()).peek().after,
                result: Ok::<(), Fault>(()),
            }),
            self.skip(blanks.len()).peek().after.held == Some(b),
            self.skip(blanks.len()).peek().after.sees(seq![b]),
        decreases blanks.len(),
    {
        self.lemma_sees_first(blanks.push(b));
        if blanks.len() == 0 {
            assert(blanks.push(b)[0] == b);
        } else {
            assert(blanks.push(b)[0] == blanks[0]);
            assert(blanks.push(b).drop_first() == blanks.drop_first().push(b));
            self.peek().after.eat().lemma_eat_whitespace_reads(blanks.drop_first(), b);
        }
    }

    /// An identifier that the reader will look at is consumed whole.
    pub proof fn lemma_eat_ident_reads(self, ident: Seq<u8>)
        requires
            self.sees(ident),
        ensures
            self.eat_ident(ident) == (Outcome {
                after: self.skip(ident.len()),
                result: Ok::<(), Fault>(()),
            }),
        decreases ident.len(),
    {
        if ident.len() > 0 {
            self.lemma_sees_first(ident);
            self.peek().after.eat().lemma_eat_ident_reads(ident.drop_first());
        }
    }

    /// Matching an identifier fails only with an unknown identifier or with
    /// a failure of the source.
    pub proof fn lemma_eat_ident_failures(self, ident: Seq<u8>)
        ensures
            self.eat_ident(ident).result matches Err(f) ==> f.kind is UnknownIdent || f.kind is Io,
        decreases ident.len(),
    {
        if ident.len() > 0 {
            let seen = self.peek();
            if seen.result == Ok::<Option<u8>, Fault>(Some(ident[0])) {
                seen.after.eat().lemma_eat_ident_failures(ident.drop_first());
            }
        }
    }
}

} // verus!
