//! The value parser: recursive descent over null, booleans, numbers,
//! strings, arrays and objects.

use vstd::prelude::*;
use vstd::std_specs::iter::IteratorSpec;
use vstd::string::StringSliceAdditionalSpecFns;
use crate::bytes::{
    is_whitespace, APOSTROPHE, CLOSE_BRACE, CLOSE_BRACKET, COLON, COMMA, DIGIT_0, DIGIT_9, LOWER_F, LOWER_N,
    LOWER_T, MINUS, OPEN_BRACE, OPEN_BRACKET, QUOTE,
};
use crate::cursor::{plain, source, text, Cursor, Fault, Outcome};
use crate::error::{Error, ErrorType};
use crate::json::{lemma_array_view, lemma_object_view, Json, JsonInner, Tree};
use crate::parser::Parser;

verus! {

/// The result of a step that produces a value, as a [`Tree`] and a [`Fault`].
pub open spec fn tree(r: Result<Json, Error>) -> Result<Tree, Fault> {
    match r {
        Ok(v) => Ok(v@),
        Err(e) => Err(e@),
    }
}

impl<T> Outcome<T> {
    /// The same step, with its value replaced by `value`.
    pub open spec fn giving<U>(self, value: U) -> Outcome<U> {
        Outcome {
            after: self.after,
            result: match self.result {
                Ok(_) => Ok(value),
                Err(f) => Err(f),
            },
        }
    }
}

/// The two values that hold other values.
#[derive(Clone, Copy, PartialEq, Eq, Structural, Debug)]
pub enum Container {
    /// `[` ... `]`
    Array,
    /// `{` ... `}`
    Object,
}

impl Container {
    /// The byte that closes the container.
    pub open spec fn closer(self) -> u8 {
        match self {
            Container::Array => CLOSE_BRACKET,
            Container::Object => CLOSE_BRACE,
        }
    }

    /// The failure for a byte `b` that stands where a `,` or the closing
    /// byte must stand.
    pub open spec fn stray(self, b: u8) -> ErrorType {
        match self {
            Container::Array => ErrorType::UnknownIdent,
            Container::Object => ErrorType::UnexpectedCharacter(b as char),
        }
    }
}

impl Cursor {
    /// This step failed with `fault`.
    pub open spec fn failed<T>(self, fault: Fault) -> Outcome<T> {
        Outcome { after: self, result: Err(fault) }
    }

    /// Goes to the next item of a container, with the reader after the
    /// opening byte or a `,`. Whitespace is skipped and the next byte is
    /// looked at, so it must exist. A container that is still `empty` may
    /// close here: the closing byte is consumed and the step gives `true`.
    /// Otherwise nothing more is consumed and the step gives `false`.
    pub open spec fn opening(self, kind: Container, empty: bool) -> Outcome<bool> {
        let blank = self.eat_whitespace();
        let first = blank.after.peek_noeof();
        match (blank.result, first.result) {
            (Err(f), _) => blank.after.failed(f),
            (Ok(_), Err(f)) => first.after.failed(f),
            (Ok(_), Ok(b)) => if empty && b == kind.closer() {
                Outcome { after: first.after.eat(), result: Ok(true) }
            } else {
                Outcome { after: first.after, result: Ok(false) }
            },
        }
    }

    /// Ends an item of a container. Whitespace is skipped; then the closing
    /// byte is consumed and the step gives `true`, or a `,` is consumed and
    /// the step gives `false`. Any other byte is a failure.
    pub open spec fn separator(self, kind: Container) -> Outcome<bool> {
        let blank = self.eat_whitespace();
        let last = blank.after.peek_noeof();
        match (blank.result, last.result) {
            (Err(f), _) => blank.after.failed(f),
            (Ok(_), Err(f)) => last.after.failed(f),
            (Ok(_), Ok(b)) => if b == COMMA {
                Outcome { after: last.after.eat(), result: Ok(false) }
            } else if b == kind.closer() {
                Outcome { after: last.after.eat(), result: Ok(true) }
            } else {
                last.after.failed(last.after.error_at(kind.stray(b)))
            },
        }
    }

    /// Reads the key of a member and the `:` after it, up to the first byte
    /// of the member's value, which is looked at and must exist.
    pub open spec fn member_key(self) -> Outcome<Seq<char>> {
        let key = self.parse_string();
        let gap = key.after.eat_whitespace();
        let colon = gap.after.peek_noeof();
        let space = colon.after.eat().eat_whitespace();
        let first = space.after.peek_noeof();
        if key.result is Err {
            key
        } else if gap.result is Err {
            gap.after.failed(gap.result->Err_0)
        } else if colon.result is Err {
            colon.after.failed(colon.result->Err_0)
        } else if colon.result->Ok_0 != COLON {
            colon.after.failed(
                colon.after.error_at(ErrorType::UnexpectedCharacter(colon.result->Ok_0 as char)),
            )
        } else if space.result is Err {
            space.after.failed(space.result->Err_0)
        } else if first.result is Err {
            first.after.failed(first.result->Err_0)
        } else {
            Outcome { after: first.after, result: key.result }
        }
    }

    /// Going to the next item only moves forward: the position stays in
    /// range, nothing is given back, and a failure is placed where the reader
    /// stands. Where it gives `false` the reader holds a byte.
    pub proof fn lemma_opening_advances(self, kind: Container, empty: bool)
        ensures
            self.opening(kind, empty).after.within(self),
            self.fits() ==> self.opening(kind, empty).after.fits(),
            self.opening(kind, empty).placed(),
            self.opening(kind, empty).result == Ok::<bool, Fault>(false) ==> self.opening(
                kind,
                empty,
            ).after.held is Some,
    {
        self.lemma_eat_whitespace_advances();
    }

    /// Ending an item only moves forward: the position stays in range,
    /// nothing is given back, and a failure is placed where the reader
    /// stands. Where it succeeds a byte was consumed and none is held.
    pub proof fn lemma_separator_advances(self, kind: Container)
        ensures
            self.separator(kind).after.within(self),
            self.fits() ==> self.separator(kind).after.fits(),
            self.separator(kind).placed(),
            self.separator(kind).result is Ok ==> self.separator(kind).after.unread()
                < self.unread(),
            self.separator(kind).result is Ok ==> self.separator(kind).after.held is None,
    {
        self.lemma_eat_whitespace_advances();
    }

    /// Reading a key only moves forward: the position stays in range,
    /// nothing is given back, and a failure is placed where the reader
    /// stands. Where it succeeds the reader holds a byte.
    pub proof fn lemma_member_key_advances(self)
        ensures
            self.member_key().after.within(self),
            self.fits() ==> self.member_key().after.fits(),
            self.member_key().placed(),
            self.member_key().result is Ok ==> self.member_key().after.held is Some,
    {
        self.lemma_string_from_advances(crate::strings::StringState::Start, Seq::empty());
        let key = self.parse_string();
        key.after.lemma_eat_whitespace_advances();
        let colon = key.after.eat_whitespace().after.peek_noeof();
        colon.after.eat().lemma_eat_whitespace_advances();
    }

    /// Parses one value. Whitespace before it is skipped; the first byte
    /// after that decides what is read. An apostrophe is handed to the string
    /// lexer, which accepts only a double quote.
    pub open spec fn parse(self) -> Outcome<Tree>
        decreases self.unread(), 0nat,
    {
        let blank = self.eat_whitespace();
        let seen = blank.after.peek();
        match (blank.result, seen.result) {
            (Err(f), _) => blank.after.failed(f),
            (Ok(_), Err(f)) => seen.after.failed(f),
            (Ok(_), Ok(None)) => seen.after.failed(seen.after.error_at(ErrorType::UnexpectedEOF)),
            (Ok(_), Ok(Some(b))) => if b == LOWER_N {
                seen.after.eat_ident("null".spec_bytes()).giving(Tree::Null)
            } else if b == LOWER_T {
                seen.after.eat_ident("true".spec_bytes()).giving(Tree::Bool(true))
            } else if b == LOWER_F {
                seen.after.eat_ident("false".spec_bytes()).giving(Tree::Bool(false))
            } else if b == MINUS || DIGIT_0 <= b <= DIGIT_9 {
                let number = seen.after.parse_number();
                match number.result {
                    Ok(text) => Outcome { after: number.after, result: Ok(Tree::Number(text)) },
                    Err(f) => number.after.failed(f),
                }
            } else if b == QUOTE || b == APOSTROPHE {
                let string = seen.after.parse_string();
                match string.result {
                    Ok(text) => Outcome { after: string.after, result: Ok(Tree::String(text)) },
                    Err(f) => string.after.failed(f),
                }
            } else if b == OPEN_BRACKET {
                proof {
                    self.lemma_eat_whitespace_advances();
                }
                seen.after.eat().elements(Seq::empty())
            } else if b == OPEN_BRACE {
                proof {
                    self.lemma_eat_whitespace_advances();
                }
                seen.after.eat().members(Seq::empty())
            } else {
                seen.after.failed(seen.after.error_at(ErrorType::UnknownIdent))
            },
        }
    }

    /// Parses the rest of an array, with `items` already read and the
    /// reader after `[` or `,`. The elements are kept in the order read.
    /// The bound on what is unread always holds, as
    /// [`Cursor::lemma_separator_advances`] and [`Cursor::lemma_parse_advances`]
    /// show; it makes the definition well founded.
    pub open spec fn elements(self, items: Seq<Tree>) -> Outcome<Tree>
        decreases self.unread(), 1nat,
    {
        let open = self.opening(Container::Array, items.len() == 0);
        match open.result {
            Err(f) => open.after.failed(f),
            Ok(true) => Outcome { after: open.after, result: Ok(Tree::Array(items)) },
            Ok(false) => {
                proof {
                    self.lemma_opening_advances(Container::Array, items.len() == 0);
                }
                let value = open.after.parse();
                let close = value.after.separator(Container::Array);
                match (value.result, close.result) {
                    (Err(f), _) => value.after.failed(f),
                    (Ok(_), Err(f)) => close.after.failed(f),
                    (Ok(item), Ok(closed)) => if !closed && close.after.unread() < self.unread() {
                        close.after.elements(items.push(item))
                    } else {
                        Outcome { after: close.after, result: Ok(Tree::Array(items.push(item))) }
                    },
                }
            },
        }
    }

    /// Parses the rest of an object, with `items` already read and the
    /// reader after `{` or `,`. The members are kept in the order read, and
    /// a key that occurs again is one more member. The bound on what is
    /// unread always holds, as [`Cursor::lemma_separator_advances`] and
    /// [`Cursor::lemma_parse_advances`] show; it makes the definition well
    /// founded.
    pub open spec fn members(self, items: Seq<(Seq<char>, Tree)>) -> Outcome<Tree>
        decreases self.unread(), 1nat,
    {
        let open = self.opening(Container::Object, items.len() == 0);
        match open.result {
            Err(f) => open.after.failed(f),
            Ok(true) => Outcome { after: open.after, result: Ok(Tree::Object(items)) },
            Ok(false) => {
                proof {
                    self.lemma_opening_advances(Container::Object, items.len() == 0);
                    open.after.lemma_member_key_advances();
                }
                let key = open.after.member_key();
                let value = key.after.parse();
                let close = value.after.separator(Container::Object);
                match (key.result, value.result, close.result) {
                    (Err(f), _, _) => key.after.failed(f),
                    (Ok(_), Err(f), _) => value.after.failed(f),
                    (Ok(_), Ok(_), Err(f)) => close.after.failed(f),
                    (Ok(name), Ok(item), Ok(closed)) => if !closed && close.after.unread()
                        < self.unread() {
                        close.after.members(items.push((name, item)))
                    } else {
                        Outcome {
                            after: close.after,
                            result: Ok(Tree::Object(items.push((name, item)))),
                        }
                    },
                }
            },
        }
    }

    /// After an element and a `,` the array goes on with one more item:
    /// the bound in [`Cursor::elements`] never stops it.
    pub proof fn lemma_elements_go_on(self, items: Seq<Tree>)
        ensures
            ({
                let open = self.opening(Container::Array, items.len() == 0);
                let value = open.after.parse();
                let close = value.after.separator(Container::Array);
                open.result == Ok::<bool, Fault>(false) && value.result is Ok && close.result
                    == Ok::<bool, Fault>(false) ==> self.elements(items) == close.after.elements(
                    items.push(value.result->Ok_0),
                )
            }),
    {
        self.lemma_opening_advances(Container::Array, items.len() == 0);
        let open = self.opening(Container::Array, items.len() == 0);
        open.after.lemma_parse_advances();
        open.after.parse().after.lemma_separator_advances(Container::Array);
    }

    /// After a member and a `,` the object goes on with one more member:
    /// the bound in [`Cursor::members`] never stops it.
    pub proof fn lemma_members_go_on(self, items: Seq<(Seq<char>, Tree)>)
        ensures
            ({
                let open = self.opening(Container::Object, items.len() == 0);
                let key = open.after.member_key();
                let value = key.after.parse();
                let close = value.after.separator(Container::Object);
                open.result == Ok::<bool, Fault>(false) && key.result is Ok && value.result is Ok
                    && close.result == Ok::<bool, Fault>(false) ==> self.members(items)
                    == close.after.members(items.push((key.result->Ok_0, value.result->Ok_0)))
            }),
    {
        self.lemma_opening_advances(Container::Object, items.len() == 0);
        let open = self.opening(Container::Object, items.len() == 0);
        open.after.lemma_member_key_advances();
        let key = open.after.member_key();
        key.after.lemma_parse_advances();
        key.after.parse().after.lemma_separator_advances(Container::Object);
    }

    /// An array keeps what was read: the elements read so far come first
    /// in the result, in their order.
    pub proof fn lemma_elements_keep(self, items: Seq<Tree>)
        ensures
            self.elements(items).result matches Ok(value) ==> value is Array && items.is_prefix_of(
                value->Array_0,
            ),
        decreases self.unread(),
    {
        self.lemma_elements_go_on(items);
        self.lemma_opening_advances(Container::Array, items.len() == 0);
        let open = self.opening(Container::Array, items.len() == 0);
        if open.result == Ok::<bool, Fault>(false) {
            open.after.lemma_parse_advances();
            let value = open.after.parse();
            value.after.lemma_separator_advances(Container::Array);
            let close = value.after.separator(Container::Array);
            if value.result is Ok && close.result is Ok {
                let more = items.push(value.result->Ok_0);
                assert(items.is_prefix_of(more));
                if close.result == Ok::<bool, Fault>(false) {
                    close.after.lemma_elements_keep(more);
                }
            }
        }
    }

    /// An object keeps what was read: the members read so far come first in
    /// the result, in their order, whether or not a key occurs again.
    pub proof fn lemma_members_keep(self, items: Seq<(Seq<char>, Tree)>)
        ensures
            self.members(items).result matches Ok(value) ==> value is Object && items.is_prefix_of(
                value->Object_0,
            ),
        decreases self.unread(),
    {
        self.lemma_members_go_on(items);
        self.lemma_opening_advances(Container::Object, items.len() == 0);
        let open = self.opening(Container::Object, items.len() == 0);
        if open.result == Ok::<bool, Fault>(false) {
            open.after.lemma_member_key_advances();
            let key = open.after.member_key();
            key.after.lemma_parse_advances();
            let value = key.after.parse();
            value.after.lemma_separator_advances(Container::Object);
            let close = value.after.separator(Container::Object);
            if key.result is Ok && value.result is Ok && close.result is Ok {
                let more = items.push((key.result->Ok_0, value.result->Ok_0));
                assert(items.is_prefix_of(more));
                if close.result == Ok::<bool, Fault>(false) {
                    close.after.lemma_members_keep(more);
                }
            }
        }
    }

    /// Parsing a value only moves forward: the position stays in
    /// range, nothing is given back, and a failure is placed where the reader
    /// stands.
    pub proof fn lemma_parse_advances(self)
        ensures
            self.parse().after.within(self),
            self.fits() ==> self.parse().after.fits(),
            self.parse().placed(),
        decreases self.unread(), 0nat,
    {
        self.lemma_eat_whitespace_advances();
        let blank = self.eat_whitespace();
        let seen = blank.after.peek();
        if blank.result is Ok {
            if let Ok(Some(b)) = seen.result {
                seen.after.lemma_eat_ident_advances("null".spec_bytes());
                seen.after.lemma_eat_ident_advances("true".spec_bytes());
                seen.after.lemma_eat_ident_advances("false".spec_bytes());
                seen.after.lemma_number_from_advances(
                    crate::number::NumberState::Start,
                    Seq::empty(),
                );
                seen.after.lemma_string_from_advances(
                    crate::strings::StringState::Start,
                    Seq::empty(),
                );
                if b == OPEN_BRACKET {
                    seen.after.eat().lemma_elements_advances(Seq::empty());
                } else if b == OPEN_BRACE {
                    seen.after.eat().lemma_members_advances(Seq::empty());
                }
            }
        }
    }

    /// Parsing the rest of an array only moves forward: the position
    /// stays in range, nothing is given back, and a failure is placed where
    /// the reader stands.
    pub proof fn lemma_elements_advances(self, items: Seq<Tree>)
        ensures
            self.elements(items).after.within(self),
            self.fits() ==> self.elements(items).after.fits(),
            self.elements(items).placed(),
        decreases self.unread(), 1nat,
    {
        self.lemma_opening_advances(Container::Array, items.len() == 0);
        let open = self.opening(Container::Array, items.len() == 0);
        if open.result == Ok::<bool, Fault>(false) {
            open.after.lemma_parse_advances();
            let value = open.after.parse();
            value.after.lemma_separator_advances(Container::Array);
            let close = value.after.separator(Container::Array);
            if value.result is Ok && close.result == Ok::<bool, Fault>(false) {
                close.after.lemma_elements_advances(items.push(value.result->Ok_0));
            }
        }
    }

    /// Parsing the rest of an object only moves forward: the position
    /// stays in range, nothing is given back, and a failure is placed where
    /// the reader stands.
    pub proof fn lemma_members_advances(self, items: Seq<(Seq<char>, Tree)>)
        ensures
            self.members(items).after.within(self),
            self.fits() ==> self.members(items).after.fits(),
            self.members(items).placed(),
        decreases self.unread(), 1nat,
    {
        self.lemma_opening_advances(Container::Object, items.len() == 0);
        let open = self.opening(Container::Object, items.len() == 0);
        if open.result == Ok::<bool, Fault>(false) {
            open.after.lemma_member_key_advances();
            let key = open.after.member_key();
            key.after.lemma_parse_advances();
            let value = key.after.parse();
            value.after.lemma_separator_advances(Container::Object);
            let close = value.after.separator(Container::Object);
            if key.result is Ok && value.result is Ok && close.result == Ok::<bool, Fault>(false) {
                close.after.lemma_members_advances(
                    items.push((key.result->Ok_0, value.result->Ok_0)),
                );
            }
        }
    }
}

impl<I: Iterator<Item = std::io::Result<u8>>> Parser<I> {
    /// Goes to the next item of a container; `true` if the container closed.
    fn opening(&mut self, kind: Container, empty: bool) -> (closed: Result<bool, Error>)
        requires
            old(self).ready(),
            old(self).at(old(self).iter.remaining()).fits(),
        ensures
            plain(closed) == old(self).at(old(self).iter.remaining()).opening(kind, empty).result,
            final(self).came_from(
                final(self).iter.remaining(),
                old(self),
                old(self).iter.remaining(),
                old(self).at(old(self).iter.remaining()).opening(kind, empty).after,
            ),
    {
        self.eat_whitespace()?;
        let b = self.peek_noeof()?;
        let closer = match kind {
            Container::Array => CLOSE_BRACKET,
            Container::Object => CLOSE_BRACE,
        };
        if empty && b == closer {
            self.eat();
            Ok(true)
        } else {
            Ok(false)
        }
    }

    /// Ends an item of a container; `true` if the container closed.
    fn separator(&mut self, kind: Container) -> (closed: Result<bool, Error>)
        requires
            old(self).ready(),
            old(self).at(old(self).iter.remaining()).fits(),
        ensures
            plain(closed) == old(self).at(old(self).iter.remaining()).separator(kind).result,
            final(self).came_from(
                final(self).iter.remaining(),
                old(self),
                old(self).iter.remaining(),
                old(self).at(old(self).iter.remaining()).separator(kind).after,
            ),
            closed is Ok ==> final(self).spent(
                final(self).iter.remaining(),
                old(self),
                old(self).iter.remaining(),
            ),
    {
        self.eat_whitespace()?;
        let b = self.peek_noeof()?;
        match kind {
            Container::Array => {
                if b == COMMA {
                    self.eat();
                    Ok(false)
                } else if b == CLOSE_BRACKET {
                    self.eat();
                    Ok(true)
                } else {
                    Err(self.error_at(ErrorType::UnknownIdent))
                }
            },
            Container::Object => {
                if b == COMMA {
                    self.eat();
                    Ok(false)
                } else if b == CLOSE_BRACE {
                    self.eat();
                    Ok(true)
                } else {
                    Err(self.error_at(ErrorType::UnexpectedCharacter(b as char)))
                }
            },
        }
    }

    /// Reads the key of a member and the `:` after it.
    fn member_key(&mut self) -> (key: Result<String, Error>)
        requires
            old(self).ready(),
            old(self).at(old(self).iter.remaining()).fits(),
        ensures
            text(key) == old(self).at(old(self).iter.remaining()).member_key().result,
            final(self).came_from(
                final(self).iter.remaining(),
                old(self),
                old(self).iter.remaining(),
                old(self).at(old(self).iter.remaining()).member_key().after,
            ),
    {
        let key = self.parse_string()?;
        self.eat_whitespace()?;
        let sep_ch = self.peek_noeof()?;
        if sep_ch != COLON {
            return Err(self.error_at(ErrorType::UnexpectedCharacter(sep_ch as char)));
        }
        self.eat();
        self.eat_whitespace()?;
        self.peek_noeof()?;
        Ok(key)
    }

    /// Parses one value from the source. Nothing after the value is
    /// consumed, so that a further value can be parsed from the same reader.
    pub fn parse(&mut self) -> (value: Result<Json, Error>)
        requires
            old(self).ready(),
            old(self).at(old(self).iter.remaining()).fits(),
        ensures
            tree(value) == old(self).at(old(self).iter.remaining()).parse().result,
            final(self).came_from(
                final(self).iter.remaining(),
                old(self),
                old(self).iter.remaining(),
                old(self).at(old(self).iter.remaining()).parse().after,
            ),
        decreases old(self).budget(),
    {
        self.eat_whitespace()?;
        let first_ch = match self.peek()? {
            Some(c) => c,
            None => {
                return Err(self.error_at(ErrorType::UnexpectedEOF));
            },
        };
        if first_ch == LOWER_N {
            self.eat_ident("null")?;
            Ok(Json(JsonInner::Null))
        } else if first_ch == LOWER_T {
            self.eat_ident("true")?;
            Ok(Json(JsonInner::Bool(true)))
        } else if first_ch == LOWER_F {
            self.eat_ident("false")?;
            Ok(Json(JsonInner::Bool(false)))
        } else if first_ch == MINUS || (DIGIT_0 <= first_ch && first_ch <= DIGIT_9) {
            Ok(Json(JsonInner::Number(self.parse_number()?)))
        } else if first_ch == QUOTE || first_ch == APOSTROPHE {
            Ok(Json(JsonInner::String(self.parse_string()?)))
        } else if first_ch == OPEN_BRACKET {
            self.eat();
            let mut ret: Vec<Json> = Vec::new();
            let ghost mut items: Seq<Tree> = Seq::empty();
            loop
                invariant
                    self.ready(),
                    self.peek is None,
                    self.at(self.iter.remaining()).fits(),
                    self.at(self.iter.remaining()).within(old(self).at(old(self).iter.remaining())),
                    self.spent(self.iter.remaining(), old(self), old(self).iter.remaining()),
                    items.len() == ret@.len(),
                    forall|i: int| 0 <= i < items.len() ==> items[i] == ret@[i]@,
                    self.at(self.iter.remaining()).elements(items) == old(self).at(
                        old(self).iter.remaining(),
                    ).parse(),
                decreases self.budget(),
            {
                let ghost head = self.at(self.iter.remaining());
                proof {
                    head.lemma_opening_advances(Container::Array, items.len() == 0);
                }
                if self.opening(Container::Array, ret.len() == 0)? {
                    proof {
                        lemma_array_view(ret, items);
                    }
                    return Ok(Json(JsonInner::Array(ret)));
                }
                let element = self.parse()?;
                let ghost ended = self.at(self.iter.remaining());
                proof {
                    ended.lemma_separator_advances(Container::Array);
                    items = items.push(element@);
                }
                ret.push(element);
                if self.separator(Container::Array)? {
                    proof {
                        lemma_array_view(ret, items);
                    }
                    return Ok(Json(JsonInner::Array(ret)));
                }
            }
        } else if first_ch == OPEN_BRACE {
            self.eat();
            let mut ret: Vec<(String, Json)> = Vec::new();
            let ghost mut items: Seq<(Seq<char>, Tree)> = Seq::empty();
            loop
                invariant
                    self.ready(),
                    self.peek is None,
                    self.at(self.iter.remaining()).fits(),
                    self.at(self.iter.remaining()).within(old(self).at(old(self).iter.remaining())),
                    self.spent(self.iter.remaining(), old(self), old(self).iter.remaining()),
                    items.len() == ret@.len(),
                    forall|i: int|
                        0 <= i < items.len() ==> items[i] == (ret@[i].0@, ret@[i].1@),
                    self.at(self.iter.remaining()).members(items) == old(self).at(
                        old(self).iter.remaining(),
                    ).parse(),
                decreases self.budget(),
            {
                let ghost head = self.at(self.iter.remaining());
                proof {
                    head.lemma_opening_advances(Container::Object, items.len() == 0);
                }
                if self.opening(Container::Object, ret.len() == 0)? {
                    proof {
                        lemma_object_view(ret, items);
                    }
                    return Ok(Json(JsonInner::Object(ret)));
                }
                let ghost start = self.at(self.iter.remaining());
                proof {
                    start.lemma_member_key_advances();
                }
                let key = self.member_key()?;
                let val = self.parse()?;
                let ghost ended = self.at(self.iter.remaining());
                proof {
                    ended.lemma_separator_advances(Container::Object);
                    items = items.push((key@, val@));
                }
                ret.push((key, val));
                if self.separator(Container::Object)? {
                    proof {
                        lemma_object_view(ret, items);
                    }
                    return Ok(Json(JsonInner::Object(ret)));
                }
            }
        } else {
            Err(self.error_at(ErrorType::UnknownIdent))
        }
    }
}

impl Json {
    /// Parses the first JSON value in `bytes`. What follows the value is
    /// not looked at, but for the one byte that ends a number.
    pub fn from_bytes(bytes: &[u8]) -> (value: Result<Json, Error>)
        requires
            bytes@.len() < usize::MAX,
        ensures
            tree(value) == Cursor::start(source(bytes@)).parse().result,
    {
        let mut items: Vec<std::io::Result<u8>> = Vec::new();
        let mut i: usize = 0;
        while i < bytes.len()
            invariant
                i <= bytes@.len(),
                items@ == source(bytes@.take(i as int)),
            decreases bytes@.len() - i,
        {
            items.push(Ok(bytes[i]));
            assert(bytes@.take(i + 1) == bytes@.take(i as int).push(bytes@[i as int]));
            assert(items@ == source(bytes@.take(i + 1)));
            i += 1;
        }
        assert(bytes@.take(i as int) == bytes@);
        let mut parser = Parser::new(items.into_iter());
        parser.parse()
    }

    /// Parses the first JSON value in `s`.
    pub fn from_str(s: &str) -> (value: Result<Json, Error>)
        requires
            s.spec_bytes().len() < usize::MAX,
        ensures
            tree(value) == Cursor::start(source(s.spec_bytes())).parse().result,
    {
        Json::from_bytes(s.as_bytes())
    }
}

/// The word that starts with the byte `b`.
pub open spec fn keyword(b: u8) -> Option<Seq<u8>> {
    if b == LOWER_N {
        Some("null".spec_bytes())
    } else if b == LOWER_T {
        Some("true".spec_bytes())
    } else if b == LOWER_F {
        Some("false".spec_bytes())
    } else {
        None
    }
}

/// The value that the word starting with the byte `b` stands for.
pub open spec fn keyword_value(b: u8) -> Tree {
    if b == LOWER_N {
        Tree::Null
    } else {
        Tree::Bool(b == LOWER_T)
    }
}

/// The bytes with which a value can start.
pub open spec fn starts_value(b: u8) -> bool {
    ||| keyword(b) is Some
    ||| b == MINUS
    ||| DIGIT_0 <= b <= DIGIT_9
    ||| b == QUOTE
    ||| b == APOSTROPHE
    ||| b == OPEN_BRACKET
    ||| b == OPEN_BRACE
}

/// Each of the three words starts with the byte that stands for it.
pub proof fn lemma_keyword_starts(b: u8)
    requires
        keyword(b) is Some,
    ensures
        keyword(b)->0.len() > 0,
        keyword(b)->0[0] == b,
{
    reveal_strlit("null");
    reveal_strlit("true");
    reveal_strlit("false");
    vstd::string::is_ascii_spec_bytes("null");
    vstd::string::is_ascii_spec_bytes("true");
    vstd::string::is_ascii_spec_bytes("false");
}

/// `null`, `true` and `false`, with any whitespace before them, parse to
/// the values they stand for, and nothing after the word is looked at.
pub proof fn lemma_keyword_parses(c: Cursor, blanks: Seq<u8>, b: u8)
    requires
        keyword(b) is Some,
        c.sees(blanks + keyword(b)->0),
        forall|i: int| 0 <= i < blanks.len() ==> is_whitespace(#[trigger] blanks[i]),
    ensures
        c.parse() == (Outcome {
            after: c.skip(blanks.len() + keyword(b)->0.len()),
            result: Ok::<Tree, Fault>(keyword_value(b)),
        }),
{
    let word = keyword(b)->0;
    lemma_keyword_starts(b);
    c.lemma_sees_both(blanks, word);
    assert(c.sees(blanks.push(b))) by {
        assert forall|i: int| 0 <= i < blanks.push(b).len() implies c.pending()[i] == Ok::<
            u8,
            std::io::Error,
        >(blanks.push(b)[i]) by {
            assert((blanks + word)[i] == blanks.push(b)[i]);
        }
    }
    c.lemma_eat_whitespace_reads(blanks, b);
    let at_word = c.skip(blanks.len());
    let seen = at_word.peek();
    seen.after.lemma_peek_again();
    at_word.lemma_peek_again();
    assert(seen.after.sees(word)) by {
        if at_word.held is None {
            assert(seen.after.pending() == at_word.pending());
        }
    }
    seen.after.lemma_eat_ident_reads(word);
    at_word.lemma_skip_after_peek(word.len());
    c.lemma_skip_sum(blanks.len(), word.len());
}

/// A byte that starts no value, with any whitespace before it, is an
/// unknown identifier at that byte.
pub proof fn lemma_bare_identifier(c: Cursor, blanks: Seq<u8>, b: u8)
    requires
        c.sees(blanks.push(b)),
        forall|i: int| 0 <= i < blanks.len() ==> is_whitespace(#[trigger] blanks[i]),
        !is_whitespace(b),
        !starts_value(b),
    ensures
        c.parse() == c.skip(blanks.len()).peek().after.failed::<Tree>(
            c.skip(blanks.len()).peek().after.error_at(ErrorType::UnknownIdent),
        ),
{
    c.lemma_eat_whitespace_reads(blanks, b);
    c.skip(blanks.len()).lemma_peek_again();
}

/// Input that starts like one of the three words is that word's value or
/// an unknown identifier, unless the source fails.
pub proof fn lemma_keyword_or_unknown(c: Cursor, blanks: Seq<u8>, b: u8)
    requires
        keyword(b) is Some,
        c.sees(blanks.push(b)),
        forall|i: int| 0 <= i < blanks.len() ==> is_whitespace(#[trigger] blanks[i]),
    ensures
        match c.parse().result {
            Ok(value) => value == keyword_value(b),
            Err(f) => f.kind is UnknownIdent || f.kind is Io,
        },
{
    c.lemma_eat_whitespace_reads(blanks, b);
    let seen = c.skip(blanks.len()).peek();
    c.skip(blanks.len()).lemma_peek_again();
    seen.after.lemma_eat_ident_failures(keyword(b)->0);
}

} // verus!
