//! The reader itself: a byte source, one byte of lookahead, and the position.

use vstd::prelude::*;
use vstd::std_specs::iter::IteratorSpec;
use vstd::string::StringSliceAdditionalSpecFns;
use crate::bytes::{CARRIAGE_RETURN, LINE_FEED, SPACE};
use crate::cursor::{plain, Cursor};
use crate::error::{Error, ErrorType};

verus! {

/// Reads JSON from a source of bytes into a tree of text.
///
/// The fields are public so that contracts can speak of what the source
/// will still yield, `iter.remaining()`; [`Parser::at`] puts the reader's
/// state and that sequence together into a [`Cursor`].
pub struct Parser<I: Iterator<Item = std::io::Result<u8>>> {
    /// The byte source
    pub iter: I,
    /// A byte that was taken from the source and not consumed yet
    pub peek: Option<u8>,
    /// Line of the last byte taken, counted from 1
    pub line: usize,
    /// Column of the last byte taken, counted from 1; 0 at the start of a line
    pub col: usize,
}

impl<I: Iterator<Item = std::io::Result<u8>>> Parser<I> {
    /// The reader as a value, given what its source will still yield.
    pub open spec fn at(&self, rest: Seq<std::io::Result<u8>>) -> Cursor {
        Cursor { held: self.peek, line: self.line as nat, col: self.col as nat, rest }
    }

    /// The source ends after finitely many items, and says how far it is from
    /// its end.
    pub open spec fn ready(&self) -> bool {
        &&& self.iter.obeys_prophetic_iter_laws()
        &&& self.iter.decrease() is Some
    }

    /// A measure that falls whenever the source yields an item.
    pub open spec fn budget(&self) -> nat {
        self.iter.decrease()->0
    }

    /// 1 while a byte is held, else 0: what consuming the held byte spends.
    pub open spec fn holding(&self) -> nat {
        if self.peek is Some {
            1
        } else {
            0
        }
    }

    /// Since `before` the measure did not rise, and it fell if the source
    /// yielded anything.
    pub open spec fn spent(
        &self,
        rest: Seq<std::io::Result<u8>>,
        before: &Self,
        before_rest: Seq<std::io::Result<u8>>,
    ) -> bool {
        &&& self.budget() <= before.budget()
        &&& rest.len() < before_rest.len() ==> self.budget() < before.budget()
    }

    /// `self`, whose source will still yield `rest`, is the reader `before`
    /// (with `before_rest` to come) after it reached `target`. Unless the
    /// source ran dry on the way, the measure fell as [`Parser::spent`] says.
    pub open spec fn came_from(
        &self,
        rest: Seq<std::io::Result<u8>>,
        before: &Self,
        before_rest: Seq<std::io::Result<u8>>,
        target: Cursor,
    ) -> bool {
        &&& self.ready()
        &&& self.at(rest) == target
        &&& target.fits()
        &&& target.within(before.at(before_rest))
        &&& target.unread() > 0 ==> self.spent(rest, before, before_rest)
    }

    /// A reader at line 1, before the first column, that holds no byte.
    pub fn new(iter: I) -> (parser: Self)
        ensures
            parser.iter == iter,
            parser.peek is None,
            parser.line == 1,
            parser.col == 0,
            parser.at(iter.remaining()) == Cursor::start(iter.remaining()),
    {
        Parser { iter, peek: None, line: 1, col: 0 }
    }

    /// The failure `ty` at the reader's position.
    pub fn error_at(&self, ty: ErrorType) -> (e: Error)
        ensures
            e.line == self.line,
            e.col == self.col,
            e.error == ty,
    {
        Error { line: self.line, col: self.col, error: ty }
    }

    /// Takes one item: the held byte if there is one, else the next item of
    /// the source. A byte that comes from the source is counted and stays held.
    pub fn next(&mut self) -> (item: Option<std::io::Result<u8>>)
        requires
            old(self).ready(),
            old(self).at(old(self).iter.remaining()).fits(),
        ensures
            item == old(self).at(old(self).iter.remaining()).next().item,
            final(self).ready(),
            final(self).at(final(self).iter.remaining()) == old(self).at(
                old(self).iter.remaining(),
            ).next().after,
            final(self).at(final(self).iter.remaining()).fits(),
            final(self).at(final(self).iter.remaining()).within(
                old(self).at(old(self).iter.remaining()),
            ),
            old(self).at(old(self).iter.remaining()).unread() > 0 ==> final(self).spent(
                final(self).iter.remaining(),
                old(self),
                old(self).iter.remaining(),
            ),
    {
        let held = self.peek;
        self.peek = None;
        match held {
            Some(ch) => Some(Ok(ch)),
            None => {
                match self.iter.next() {
                    None => None,
                    Some(Err(e)) => Some(Err(e)),
                    Some(Ok(ch)) => {
                        if ch == LINE_FEED {
                            self.col = 0;
                            self.line += 1;
                        } else {
                            self.col += 1;
                        }
                        self.peek = Some(ch);
                        Some(Ok(ch))
                    },
                }
            },
        }
    }

    /// Looks at the next byte without consuming it.
    pub fn peek(&mut self) -> (seen: Result<Option<u8>, Error>)
        requires
            old(self).ready(),
            old(self).at(old(self).iter.remaining()).fits(),
        ensures
            plain(seen) == old(self).at(old(self).iter.remaining()).peek().result,
            final(self).came_from(
                final(self).iter.remaining(),
                old(self),
                old(self).iter.remaining(),
                old(self).at(old(self).iter.remaining()).peek().after,
            ),
    {
        match self.next() {
            Some(Ok(ch)) => {
                self.peek = Some(ch);
                Ok(Some(ch))
            },
            Some(Err(e)) => Err(self.error_at(ErrorType::Io(e))),
            None => Ok(None),
        }
    }

    /// Looks at the next byte; the end of the input is a failure.
    pub fn peek_noeof(&mut self) -> (seen: Result<u8, Error>)
        requires
            old(self).ready(),
            old(self).at(old(self).iter.remaining()).fits(),
        ensures
            plain(seen) == old(self).at(old(self).iter.remaining()).peek_noeof().result,
            final(self).came_from(
                final(self).iter.remaining(),
                old(self),
                old(self).iter.remaining(),
                old(self).at(old(self).iter.remaining()).peek_noeof().after,
            ),
    {
        match self.peek()? {
            Some(c) => Ok(c),
            None => Err(self.error_at(ErrorType::UnexpectedEOF)),
        }
    }

    /// Consumes the held byte: it must have been looked at before.
    pub fn eat(&mut self)
        requires
            old(self).peek is Some,
        ensures
            final(self).iter == old(self).iter,
            final(self).peek is None,
            final(self).line == old(self).line,
            final(self).col == old(self).col,
    {
        self.peek = None;
    }

    /// Consumes whitespace up to the first other byte or the end of the input.
    pub fn eat_whitespace(&mut self) -> (done: Result<(), Error>)
        requires
            old(self).ready(),
            old(self).at(old(self).iter.remaining()).fits(),
        ensures
            plain(done) == old(self).at(old(self).iter.remaining()).eat_whitespace().result,
            final(self).came_from(
                final(self).iter.remaining(),
                old(self),
                old(self).iter.remaining(),
                old(self).at(old(self).iter.remaining()).eat_whitespace().after,
            ),
    {
        loop
            invariant
                self.ready(),
                self.at(self.iter.remaining()).fits(),
                self.at(self.iter.remaining()).eat_whitespace() == old(self).at(
                    old(self).iter.remaining(),
                ).eat_whitespace(),
                self.spent(self.iter.remaining(), old(self), old(self).iter.remaining()),
                self.at(self.iter.remaining()).within(old(self).at(old(self).iter.remaining())),
            decreases self.budget(), self.holding(),
        {
            match self.peek()? {
                Some(b) => {
                    if b == SPACE || b == LINE_FEED || b == CARRIAGE_RETURN {
                        self.eat();
                    } else {
                        return Ok(());
                    }
                },
                None => {
                    return Ok(());
                },
            }
        }
    }

    /// Consumes the bytes of `ident` one by one; any other byte, or the end
    /// of the input, is an unknown identifier.
    pub fn eat_ident(&mut self, ident: &'static str) -> (done: Result<(), Error>)
        requires
            old(self).ready(),
            old(self).at(old(self).iter.remaining()).fits(),
        ensures
            plain(done) == old(self).at(old(self).iter.remaining()).eat_ident(
                ident.spec_bytes(),
            ).result,
            final(self).came_from(
                final(self).iter.remaining(),
                old(self),
                old(self).iter.remaining(),
                old(self).at(old(self).iter.remaining()).eat_ident(ident.spec_bytes()).after,
            ),
    {
        let bytes = ident.as_bytes();
        let mut i: usize = 0;
        assert(bytes@.skip(0) == bytes@);
        while i < bytes.len()
            invariant
                i <= bytes@.len(),
                bytes@ == ident.spec_bytes(),
                self.ready(),
                self.at(self.iter.remaining()).fits(),
                self.at(self.iter.remaining()).eat_ident(bytes@.skip(i as int)) == old(self).at(
                    old(self).iter.remaining(),
                ).eat_ident(bytes@),
                self.spent(self.iter.remaining(), old(self), old(self).iter.remaining()),
                self.at(self.iter.remaining()).within(old(self).at(old(self).iter.remaining())),
            decreases bytes@.len() - i,
        {
            assert(bytes@.skip(i as int).drop_first() == bytes@.skip(i + 1));
            match self.peek()? {
                Some(b) => {
                    if b == bytes[i] {
                        self.eat();
                    } else {
                        return Err(self.error_at(ErrorType::UnknownIdent));
                    }
                },
                None => {
                    return Err(self.error_at(ErrorType::UnknownIdent));
                },
            }
            i += 1;
        }
        Ok(())
    }
}

} // verus!
