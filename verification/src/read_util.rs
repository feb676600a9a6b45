//! Helpers to read nodes of an expected kind from a `Reader`.
use vstd::prelude::*;

use crate::reader::{kind_event, AtomText, ReadItem, ReadItemKind, Reader};
use crate::pos::{pos_text, push_pos, Pos};
use crate::read_into_tree::reader_failed_with;
use crate::text::{debug_str, push_str, str_debug_text};
use crate::writer::{accepts_node, writer_phase, WriteEvent};

verus! {

/// An error of the read helpers: an error of the reader, or an item that is
/// not of the expected kind, or an atom whose value could not be decoded.
#[derive(Clone, Debug, PartialEq)]
pub enum ReadUtilError<E, P> {
    ReaderError(E),
    ExpectedAtom { pos: P },
    ExpectedListBeginning { pos: P },
    ExpectedListEnding { pos: P },
    ExpectedNodeInList { pos: P },
    InvalidValue { value_type: String, pos: P },
}

impl<E, P> From<E> for ReadUtilError<E, P> {
    /// Wraps an error of the reader.
    fn from(e: E) -> (r: Self) {
        ReadUtilError::ReaderError(e)
    }
}

impl<E, P> vstd::std_specs::convert::FromSpecImpl<E> for ReadUtilError<E, P> {
    open spec fn obeys_from_spec() -> bool {
        true
    }

    open spec fn from_spec(v: E) -> Self {
        ReadUtilError::ReaderError(v)
    }
}

/// An error with a message and a short description, such as the error of a
/// reader.
pub trait ErrorText: Sized {
    /// The message of the error.
    spec fn text(&self) -> Seq<char>;

    /// The short description of the error.
    spec fn description_text(&self) -> Seq<char>;

    /// Returns the message of the error.
    fn to_string(&self) -> (r: String)
        ensures
            r@ == self.text(),
    ;

    /// Returns the short description of the error.
    fn description(&self) -> (r: &str)
        ensures
            r@ == self.description_text(),
    ;
}

/// The error of readers that never fail, such as `TreeReader`: it has no
/// values, so its text is never asked for.
impl ErrorText for core::convert::Infallible {
    open spec fn text(&self) -> Seq<char> {
        Seq::empty()
    }

    open spec fn description_text(&self) -> Seq<char> {
        Seq::empty()
    }

    fn to_string(&self) -> (r: String) {
        String::new()
    }

    fn description(&self) -> (r: &str) {
        proof {
            reveal_strlit("");
        }
        ""
    }
}

/// The description of each kind of error of the read helpers.
pub open spec fn read_util_error_description<E: ErrorText, P>(e: ReadUtilError<E, P>) -> Seq<char> {
    match e {
        ReadUtilError::ReaderError(x) => x.description_text(),
        ReadUtilError::ExpectedAtom { .. } => "expected atom"@,
        ReadUtilError::ExpectedListBeginning { .. } => "expected list beginning"@,
        ReadUtilError::ExpectedListEnding { .. } => "expected list ending"@,
        ReadUtilError::ExpectedNodeInList { .. } => "expected node in list"@,
        ReadUtilError::InvalidValue { .. } => "invalid value"@,
    }
}

/// The message of each error of the read helpers, with the position of the
/// item involved.
pub open spec fn read_util_error_message<E: ErrorText>(e: ReadUtilError<E, Pos>) -> Seq<char> {
    match e {
        ReadUtilError::ReaderError(x) => "reader error: "@ + x.text(),
        ReadUtilError::ExpectedAtom { pos } => "expected atom at "@ + pos_text(pos),
        ReadUtilError::ExpectedListBeginning { pos } => "expected list beginning at "@ + pos_text(
            pos,
        ),
        ReadUtilError::ExpectedListEnding { pos } => "expected list ending at "@ + pos_text(pos),
        ReadUtilError::ExpectedNodeInList { pos } => "expected node in list at "@ + pos_text(pos),
        ReadUtilError::InvalidValue { value_type, pos } => "invalid value of type "@
            + str_debug_text(value_type@) + " at "@ + pos_text(pos),
    }
}

/// The message of each error of the read helpers, for readers without
/// positions.
pub open spec fn read_util_error_message_no_pos<E: ErrorText>(e: ReadUtilError<E, ()>) -> Seq<
    char,
> {
    match e {
        ReadUtilError::ReaderError(x) => "reader error: "@ + x.text(),
        ReadUtilError::ExpectedAtom { .. } => "expected atom"@,
        ReadUtilError::ExpectedListBeginning { .. } => "expected list beginning"@,
        ReadUtilError::ExpectedListEnding { .. } => "expected list ending"@,
        ReadUtilError::ExpectedNodeInList { .. } => "expected node in list"@,
        ReadUtilError::InvalidValue { value_type, .. } => "invalid value of type "@
            + str_debug_text(value_type@),
    }
}

impl<E: ErrorText, P> ReadUtilError<E, P> {
    /// A short description of the kind of error; for an error of the
    /// reader, that of the reader's error.
    pub fn description(&self) -> (r: &str)
        ensures
            r@ == read_util_error_description(*self),
    {
        match self {
            ReadUtilError::ReaderError(e) => e.description(),
            ReadUtilError::ExpectedAtom { .. } => "expected atom",
            ReadUtilError::ExpectedListBeginning { .. } => "expected list beginning",
            ReadUtilError::ExpectedListEnding { .. } => "expected list ending",
            ReadUtilError::ExpectedNodeInList { .. } => "expected node in list",
            ReadUtilError::InvalidValue { .. } => "invalid value",
        }
    }
}

impl<E: ErrorText> ReadUtilError<E, Pos> {
    /// The message of the error (see `read_util_error_message`).
    pub fn to_string(&self) -> (r: String)
        ensures
            r@ == read_util_error_message(*self),
    {
        let mut s = String::new();
        match self {
            ReadUtilError::ReaderError(e) => {
                push_str(&mut s, "reader error: ");
                let t = e.to_string();
                push_str(&mut s, t.as_str());
            },
            ReadUtilError::ExpectedAtom { pos } => {
                push_str(&mut s, "expected atom at ");
                push_pos(&mut s, *pos);
            },
            ReadUtilError::ExpectedListBeginning { pos } => {
                push_str(&mut s, "expected list beginning at ");
                push_pos(&mut s, *pos);
            },
            ReadUtilError::ExpectedListEnding { pos } => {
                push_str(&mut s, "expected list ending at ");
                push_pos(&mut s, *pos);
            },
            ReadUtilError::ExpectedNodeInList { pos } => {
                push_str(&mut s, "expected node in list at ");
                push_pos(&mut s, *pos);
            },
            ReadUtilError::InvalidValue { value_type, pos } => {
                push_str(&mut s, "invalid value of type ");
                let d = debug_str(value_type.as_str());
                push_str(&mut s, d.as_str());
                push_str(&mut s, " at ");
                push_pos(&mut s, *pos);
            },
        }
        assert(s@ =~= read_util_error_message(*self));
        s
    }
}

impl<E: ErrorText> ReadUtilError<E, ()> {
    /// The message of the error (see `read_util_error_message_no_pos`).
    pub fn to_string(&self) -> (r: String)
        ensures
            r@ == read_util_error_message_no_pos(*self),
    {
        let mut s = String::new();
        match self {
            ReadUtilError::ReaderError(e) => {
                push_str(&mut s, "reader error: ");
                let t = e.to_string();
                push_str(&mut s, t.as_str());
            },
            ReadUtilError::ExpectedAtom { .. } => {
                push_str(&mut s, "expected atom");
            },
            ReadUtilError::ExpectedListBeginning { .. } => {
                push_str(&mut s, "expected list beginning");
            },
            ReadUtilError::ExpectedListEnding { .. } => {
                push_str(&mut s, "expected list ending");
            },
            ReadUtilError::ExpectedNodeInList { .. } => {
                push_str(&mut s, "expected node in list");
            },
            ReadUtilError::InvalidValue { value_type, .. } => {
                push_str(&mut s, "invalid value of type ");
                let d = debug_str(value_type.as_str());
                push_str(&mut s, d.as_str());
            },
        }
        assert(s@ =~= read_util_error_message_no_pos(*self));
        s
    }
}

/// A node being read: an atom, already read, or a list whose beginning has
/// been read and whose items can be read with the reader it holds.
pub enum NodeReadUtil<'a, R: Reader> {
    Atom(AtomReadUtil<R>),
    List(ListReadUtil<'a, R>),
}

/// An atom that has been read, with its position.
pub struct AtomReadUtil<R: Reader> {
    pub pos: R::Pos,
    pub atom: R::String,
}

/// A list whose beginning, at `beginning_pos`, has been read from `reader`.
pub struct ListReadUtil<'a, R: Reader> {
    pub beginning_pos: R::Pos,
    pub reader: &'a mut R,
}

/// Whether `r2` is `r1` after reading the item of kind `k` at position `p`.
pub open spec fn read_one<R: Reader>(r1: R, r2: R, k: WriteEvent, p: R::Pos) -> bool {
    &&& r1.next_read() == Some((k, p))
    &&& r2.same_source(&r1)
    &&& r2.reads() == r1.reads() + 1
    &&& r2.wf()
    &&& r2.consumed() == r1.consumed().push(k)
    &&& r2.positions() == r1.positions().push(p)
}

/// Whether `r` can read an item.
pub open spec fn can_read<R: Reader>(r: R) -> bool {
    r.wf() && accepts_node(writer_phase(r.consumed()))
}

impl<'a, R: Reader> NodeReadUtil<'a, R> {
    /// Reads an item from `reader` and gives an `Atom` or a `List` according
    /// to it. The next item must not end a list.
    pub fn new(reader: &'a mut R) -> (r: Result<Self, R::Error>)
        requires
            can_read(*old(reader)),
            !old(reader).ends_list_next(),
        ensures
            match r {
                Ok(NodeReadUtil::Atom(a)) => read_one(
                    *old(reader),
                    *final(reader),
                    WriteEvent::Atom(a.atom.text()),
                    a.pos,
                ),
                Ok(NodeReadUtil::List(l)) => {
                    &&& read_one(*old(reader), *l.reader, WriteEvent::BeginList, l.beginning_pos)
                    &&& *final(reader) == *final(l.reader)
                },
                Err(_) => final(reader).wf(),
            },
            match old(reader).next_error() {
                Some(e) => r matches Err(x) && x == e,
                None => r is Ok,
            },
    {
        match reader.read() {
            Ok(item) => match item.kind {
                ReadItemKind::Atom(s) => Ok(NodeReadUtil::Atom(AtomReadUtil::new(item.pos, s))),
                ReadItemKind::ListBeginning => Ok(
                    NodeReadUtil::List(ListReadUtil::new(item.pos, reader)),
                ),
                ReadItemKind::ListEnding => {
                    assert(false);
                    Ok(NodeReadUtil::List(ListReadUtil::new(item.pos, reader)))
                },
            },
            Err(e) => Err(e),
        }
    }

    /// Gives the atom, or `ExpectedAtom` at the list's beginning.
    pub fn expect_atom(self) -> (r: Result<AtomReadUtil<R>, ReadUtilError<R::Error, R::Pos>>)
        ensures
            match self {
                NodeReadUtil::Atom(a) => r == Ok::<AtomReadUtil<R>, ReadUtilError<R::Error, R::Pos>>(a),
                NodeReadUtil::List(l) => {
                    &&& r == Err::<AtomReadUtil<R>, ReadUtilError<R::Error, R::Pos>>(
                        ReadUtilError::ExpectedAtom { pos: l.beginning_pos },
                    )
                    &&& *final(l.reader) == *l.reader
                },
            },
    {
        match self {
            NodeReadUtil::Atom(atom_read_util) => Ok(atom_read_util),
            NodeReadUtil::List(list_read_util) => Err(
                ReadUtilError::ExpectedAtom { pos: list_read_util.into_beginning_pos() },
            ),
        }
    }

    /// Gives the list, or `ExpectedListBeginning` at the atom.
    pub fn expect_list(self) -> (r: Result<ListReadUtil<'a, R>, ReadUtilError<R::Error, R::Pos>>)
        ensures
            match self {
                NodeReadUtil::Atom(a) => r == Err::<ListReadUtil<'a, R>, ReadUtilError<R::Error, R::Pos>>(
                    ReadUtilError::ExpectedListBeginning { pos: a.pos },
                ),
                NodeReadUtil::List(l) => r == Ok::<ListReadUtil<'a, R>, ReadUtilError<R::Error, R::Pos>>(l),
            },
    {
        match self {
            NodeReadUtil::Atom(atom_read_util) => Err(
                ReadUtilError::ExpectedListBeginning { pos: atom_read_util.into_pos() },
            ),
            NodeReadUtil::List(list_read_util) => Ok(list_read_util),
        }
    }
}

impl<R: Reader> AtomReadUtil<R> {
    /// An atom read at `pos`.
    pub fn new(pos: R::Pos, atom: R::String) -> (r: Self)
        ensures
            r.pos == pos,
            r.atom == atom,
    {
        Self { pos, atom }
    }

    /// The atom's position.
    pub fn pos(&self) -> (r: &R::Pos)
        ensures
            *r == self.pos,
    {
        &self.pos
    }

    /// The atom's value.
    pub fn atom(&self) -> (r: &R::String)
        ensures
            *r == self.atom,
    {
        &self.atom
    }

    /// Consumes `self` and returns the atom's value.
    pub fn into_atom(self) -> (r: R::String)
        ensures
            r == self.atom,
    {
        self.atom
    }

    /// Consumes `self` and returns the atom's position.
    pub fn into_pos(self) -> (r: R::Pos)
        ensures
            r == self.pos,
    {
        self.pos
    }

    /// Consumes `self` and returns the atom's position and value.
    pub fn into_pos_atom(self) -> (r: (R::Pos, R::String))
        ensures
            r == (self.pos, self.atom),
    {
        (self.pos, self.atom)
    }

    /// Decodes the atom with `f`; when `f` gives `None`, the error is
    /// `InvalidValue` with `value_type` at the atom's position.
    pub fn decode<T, F>(self, f: F, value_type: &str) -> (r: Result<T, ReadUtilError<R::Error, R::Pos>>) where
        F: FnOnce(&str) -> Option<T>,

        requires
            forall|s: &str| call_requires(f, (s,)),
        ensures
            exists|s: &str|
                {
                    &&& s@ == self.atom.text()
                    &&& match r {
                        Ok(v) => call_ensures(f, (s,), Some(v)),
                        Err(e) => {
                            &&& call_ensures(f, (s,), None)
                            &&& e matches ReadUtilError::InvalidValue { value_type: vt, pos }
                                && vt@ == value_type@ && pos == self.pos
                        },
                    }
                },
    {
        let s = self.atom.as_str();
        let value = f(s);
        match value {
            Some(v) => Ok(v),
            None => Err(ReadUtilError::InvalidValue { value_type: value_type.to_owned(), pos: self.pos }),
        }
    }
}

impl<'a, R: Reader> ListReadUtil<'a, R> {
    /// A list whose beginning, at `beginning_pos`, has been read from `reader`.
    pub fn new(beginning_pos: R::Pos, reader: &'a mut R) -> (r: Self)
        ensures
            r.beginning_pos == beginning_pos,
            *r.reader == *old(reader),
            *final(reader) == *final(r.reader),
    {
        Self { beginning_pos, reader }
    }

    /// The position of the list's beginning.
    pub fn beginning_pos(&self) -> (r: &R::Pos)
        ensures
            *r == self.beginning_pos,
    {
        &self.beginning_pos
    }

    /// Consumes `self` and returns the position of the list's beginning.
    pub fn into_beginning_pos(self) -> (r: R::Pos)
        ensures
            r == self.beginning_pos,
            *final(self.reader) == *old(self.reader),
    {
        self.beginning_pos
    }

    /// Reads the ending of the list; any other item gives
    /// `ExpectedListEnding` at its position.
    pub fn expect_ending(self) -> (r: Result<R::Pos, ReadUtilError<R::Error, R::Pos>>)
        requires
            can_read(*old(self.reader)),
        ensures
            final(self.reader).wf(),
            match r {
                Ok(p) => read_one(*old(self.reader), *final(self.reader), WriteEvent::EndList, p),
                Err(ReadUtilError::ExpectedListEnding { pos }) => {
                    &&& final(self.reader).consumed().len() == old(self.reader).consumed().len() + 1
                    &&& final(self.reader).consumed().drop_last() == old(self.reader).consumed()
                    &&& !(final(self.reader).consumed().last() is EndList)
                    &&& final(self.reader).positions() == old(self.reader).positions().push(pos)
                    &&& old(self.reader).next_read() == Some(
                        (final(self.reader).consumed().last(), pos),
                    )
                    &&& final(self.reader).same_source(old(self.reader))
                    &&& final(self.reader).reads() == old(self.reader).reads() + 1
                },
                Err(ReadUtilError::ReaderError(_)) => true,
                Err(_) => false,
            },
            match old(self.reader).next_error() {
                Some(e) => r matches Err(ReadUtilError::ReaderError(x)) && x == e,
                None => {
                    &&& (r is Ok <==> old(self.reader).ends_list_next())
                    &&& !(r matches Err(ReadUtilError::ReaderError(_)))
                },
            },
    {
        let ghost c0 = self.reader.consumed();
        match self.reader.read() {
            Ok(item) => {
                assert(self.reader.consumed().drop_last() =~= c0);
                match item.kind {
                    ReadItemKind::ListEnding => Ok(item.pos),
                    _ => Err(ReadUtilError::ExpectedListEnding { pos: item.pos }),
                }
            },
            Err(e) => Err(ReadUtilError::ReaderError(e)),
        }
    }

    /// Reads the next item of the list; `None` if the list ends.
    pub fn try_next_item(&mut self) -> (r: Result<Option<NodeReadUtil<'_, R>>, R::Error>)
        requires
            can_read(*old(self).reader),
        ensures
            final(self).beginning_pos == old(self).beginning_pos,
            match r {
                Ok(None) => {
                    &&& final(self).reader.wf()
                    &&& final(self).reader.consumed() == old(self).reader.consumed().push(
                        WriteEvent::EndList,
                    )
                    &&& final(self).reader.positions().drop_last() == old(self).reader.positions()
                    &&& final(self).reader.positions().len() == old(self).reader.positions().len()
                        + 1
                    &&& old(self).reader.next_read() == Some(
                        (WriteEvent::EndList, final(self).reader.positions().last()),
                    )
                    &&& final(self).reader.same_source(old(self).reader)
                    &&& final(self).reader.reads() == old(self).reader.reads() + 1
                },
                Ok(Some(NodeReadUtil::Atom(a))) => read_one(
                    *old(self).reader,
                    *final(self).reader,
                    WriteEvent::Atom(a.atom.text()),
                    a.pos,
                ),
                Ok(Some(NodeReadUtil::List(l))) => {
                    &&& read_one(
                        *old(self).reader,
                        *l.reader,
                        WriteEvent::BeginList,
                        l.beginning_pos,
                    )
                    &&& *final(self).reader == *final(l.reader)
                },
                Err(_) => final(self).reader.wf(),
            },
            match old(self).reader.next_error() {
                Some(e) => r matches Err(x) && x == e,
                None => r is Ok,
            },
    {
        let ghost p0 = self.reader.positions();
        match self.reader.read() {
            Ok(item) => match item.kind {
                ReadItemKind::Atom(s) => Ok(
                    Some(NodeReadUtil::Atom(AtomReadUtil::new(item.pos, s))),
                ),
                ReadItemKind::ListBeginning => Ok(
                    Some(NodeReadUtil::List(ListReadUtil::new(item.pos, &mut *self.reader))),
                ),
                ReadItemKind::ListEnding => {
                    assert(self.reader.positions().drop_last() =~= p0);
                    Ok(None)
                },
            },
            Err(e) => Err(e),
        }
    }

    /// Reads the next item of the list; if the list ends, the error is
    /// `ExpectedNodeInList` at the list's ending.
    pub fn next_item(&mut self) -> (r: Result<NodeReadUtil<'_, R>, ReadUtilError<R::Error, R::Pos>>)
        requires
            can_read(*old(self).reader),
        ensures
            final(self).beginning_pos == old(self).beginning_pos,
            match r {
                Ok(NodeReadUtil::Atom(a)) => read_one(
                    *old(self).reader,
                    *final(self).reader,
                    WriteEvent::Atom(a.atom.text()),
                    a.pos,
                ),
                Ok(NodeReadUtil::List(l)) => {
                    &&& read_one(
                        *old(self).reader,
                        *l.reader,
                        WriteEvent::BeginList,
                        l.beginning_pos,
                    )
                    &&& *final(self).reader == *final(l.reader)
                },
                Err(ReadUtilError::ExpectedNodeInList { pos }) => read_one(
                    *old(self).reader,
                    *final(self).reader,
                    WriteEvent::EndList,
                    pos,
                ),
                Err(ReadUtilError::ReaderError(_)) => final(self).reader.wf(),
                Err(_) => false,
            },
            match old(self).reader.next_error() {
                Some(e) => r matches Err(ReadUtilError::ReaderError(x)) && x == e,
                None => if old(self).reader.ends_list_next() {
                    r matches Err(ReadUtilError::ExpectedNodeInList { .. })
                } else {
                    r is Ok
                },
            },
    {
        match self.reader.read() {
            Ok(item) => match item.kind {
                ReadItemKind::Atom(s) => Ok(NodeReadUtil::Atom(AtomReadUtil::new(item.pos, s))),
                ReadItemKind::ListBeginning => Ok(
                    NodeReadUtil::List(ListReadUtil::new(item.pos, &mut *self.reader)),
                ),
                ReadItemKind::ListEnding => Err(
                    ReadUtilError::ExpectedNodeInList { pos: item.pos },
                ),
            },
            Err(e) => Err(ReadUtilError::ReaderError(e)),
        }
    }

    /// Reads the rest of the list, whose items must be atoms, decoding each
    /// with `f` (see `AtomReadUtil::decode`). Unless `can_be_empty`, there
    /// must be at least one atom.
    pub fn decode_atoms<T, F>(self, f: F, value_type: &str, can_be_empty: bool) -> (r: Result<
        Vec<T>,
        ReadUtilError<R::Error, R::Pos>,
    >) where F: Fn(&str) -> Option<T>,

        requires
            can_read(*old(self.reader)),
            writer_phase(old(self.reader).consumed()) is Writing,
            forall|s: &str| call_requires(f, (s,)),
        ensures
            r matches Ok(v) ==> {
                &&& final(self.reader).wf()
                &&& exists|atoms: Seq<Seq<char>>|
                    #[trigger] decoded_atoms(
                        old(self.reader).consumed(),
                        final(self.reader).consumed(),
                        atoms,
                        v@,
                        f,
                        can_be_empty,
                    )
            },
            final(self.reader).wf(),
            r matches Err(e) ==> decode_atoms_error(
                old(self.reader).consumed(),
                final(self.reader).consumed(),
                final(self.reader).positions().last(),
                e,
                f,
                value_type@,
                can_be_empty,
            ),
            old(self.reader).next_error() matches Some(e) ==> r == Err::<
                Vec<T>,
                ReadUtilError<R::Error, R::Pos>,
            >(ReadUtilError::ReaderError(e)),
            r matches Err(ReadUtilError::ReaderError(e)) ==> reader_failed_with(
                *old(self.reader),
                *final(self.reader),
                e,
            ),
            R::infallible() ==> !(r matches Err(ReadUtilError::ReaderError(_))),
    {
        let r = decode_rest(self.reader, &f, value_type, can_be_empty, Vec::new());
        proof {
            if r is Ok {
                let v = r->Ok_0;
                assert(v@.skip(0) =~= v@);
            }
        }
        r
    }
}

/// Reads the rest of a list whose items must be atoms, decoding each with
/// `f` after the values `acc`; unless `can_be_empty`, there must be at
/// least one atom.
fn decode_rest<R: Reader, T, F>(
    reader: &mut R,
    f: &F,
    value_type: &str,
    can_be_empty: bool,
    acc: Vec<T>,
) -> (r: Result<Vec<T>, ReadUtilError<R::Error, R::Pos>>) where F: Fn(&str) -> Option<T>,

    requires
        can_read(*old(reader)),
        writer_phase(old(reader).consumed()) is Writing,
        forall|s: &str| call_requires(*f, (s,)),
    ensures
        r matches Ok(v) ==> {
            &&& final(reader).wf()
            &&& v@.take(acc@.len() as int) == acc@
            &&& v@.len() >= acc@.len()
            &&& exists|atoms: Seq<Seq<char>>|
                #[trigger] decoded_atoms(
                    old(reader).consumed(),
                    final(reader).consumed(),
                    atoms,
                    v@.skip(acc@.len() as int),
                    *f,
                    can_be_empty,
                )
        },
        final(reader).wf(),
        r matches Err(e) ==> decode_atoms_error(
            old(reader).consumed(),
            final(reader).consumed(),
            final(reader).positions().last(),
            e,
            *f,
            value_type@,
            can_be_empty,
        ),
        old(reader).next_error() matches Some(e) ==> r == Err::<
            Vec<T>,
            ReadUtilError<R::Error, R::Pos>,
        >(ReadUtilError::ReaderError(e)),
        r matches Err(ReadUtilError::ReaderError(e)) ==> reader_failed_with(
            *old(reader),
            *final(reader),
            e,
        ),
        R::infallible() ==> !(r matches Err(ReadUtilError::ReaderError(_))),
    decreases old(reader).bound(),
{
    let ghost c0 = reader.consumed();
    let ghost first = *reader;
    proof {
        R::lemma_same_source(&first, &first, &first);
    }
    match reader.read() {
        Ok(item) => {
            let ghost mid = *reader;
            proof {
                assert(reader.consumed().drop_last() =~= c0);
            }
            let ReadItem { pos, kind } = item;
            match kind {
                ReadItemKind::Atom(a) => {
                    let s = a.as_str();
                    match f(s) {
                        Some(x) => {
                            let ghost c1 = reader.consumed();
                            let mut acc = acc;
                            let ghost acc0 = acc@;
                            acc.push(x);
                            let ghost acc1 = acc@;
                            let r = decode_rest(reader, f, value_type, true, acc);
                            proof {
                                if r is Err && r->Err_0 is ReaderError {
                                    let e = r->Err_0->ReaderError_0;
                                    let w = choose|w: R|
                                        #[trigger] w.next_error() == Some(e) && w.consumed()
                                            == final(reader).consumed() && w.same_source(&mid);
                                    R::lemma_same_source(&w, &mid, &first);
                                }
                                if r is Err {
                                    let e = r->Err_0;
                                    let c2 = final(reader).consumed();
                                    match e {
                                        ReadUtilError::ExpectedAtom { .. } => {
                                            let inner = choose|atoms: Seq<Seq<char>>|
                                                #[trigger] all_decoded(atoms, *f) && c2 == c1
                                                    + atom_events(atoms) + seq![WriteEvent::BeginList];
                                            let all = seq![a.text()] + inner;
                                            assert(atom_events(all) =~= seq![WriteEvent::Atom(a.text())]
                                                + atom_events(inner));
                                            assert(all_decoded(all, *f)) by {
                                                assert forall|i: int| 0 <= i < all.len() implies exists|
                                                    t: &str,
                                                    w: T,
                                                | t@ == #[trigger] all[i] && call_ensures(*f, (t,), Some(w)) by {
                                                    if i == 0 {
                                                        assert(s@ == all[0] && call_ensures(*f, (s,), Some(x)));
                                                    } else {
                                                        assert(all[i] == inner[i - 1]);
                                                    }
                                                }
                                            }
                                            assert(c2 =~= c0 + atom_events(all) + seq![WriteEvent::BeginList]);
                                        },
                                        ReadUtilError::InvalidValue { .. } => {
                                            let (inner, t) = choose|atoms: Seq<Seq<char>>, t: &str|
                                                #![trigger all_decoded(atoms, *f), call_ensures(*f, (t,), None)]
                                                all_decoded(atoms, *f) && c2 == c1
                                                    + atom_events(atoms) + seq![WriteEvent::Atom(t@)]
                                                    && call_ensures(*f, (t,), None);
                                            let all = seq![a.text()] + inner;
                                            assert(atom_events(all) =~= seq![WriteEvent::Atom(a.text())]
                                                + atom_events(inner));
                                            assert(all_decoded(all, *f)) by {
                                                assert forall|i: int| 0 <= i < all.len() implies exists|
                                                    u: &str,
                                                    w: T,
                                                | u@ == #[trigger] all[i] && call_ensures(*f, (u,), Some(w)) by {
                                                    if i == 0 {
                                                        assert(s@ == all[0] && call_ensures(*f, (s,), Some(x)));
                                                    } else {
                                                        assert(all[i] == inner[i - 1]);
                                                    }
                                                }
                                            }
                                            assert(c2 =~= c0 + atom_events(all) + seq![WriteEvent::Atom(t@)]);
                                        },
                                        _ => {},
                                    }
                                }
                                if r is Ok {
                                    let v = r->Ok_0;
                                    let atoms = choose|atoms: Seq<Seq<char>>|
                                        #[trigger] decoded_atoms(
                                            c1,
                                            final(reader).consumed(),
                                            atoms,
                                            v@.skip(acc0.len() as int + 1),
                                            *f,
                                            true,
                                        );
                                    let all = seq![a.text()] + atoms;
                                    assert(v@.take(acc0.len() as int) =~= acc0) by {
                                        assert(v@.take(acc0.len() as int + 1).take(acc0.len() as int)
                                            =~= v@.take(acc0.len() as int));
                                    }
                                    assert(atom_events(all) =~= seq![WriteEvent::Atom(a.text())]
                                        + atom_events(atoms));
                                    assert(acc1 == acc0.push(x));
                                    assert(v@.take(acc0.len() as int + 1)[acc0.len() as int] == x);
                                    assert(v@[acc0.len() as int] == x);
                                    assert(v@.skip(acc0.len() as int) =~= seq![x] + v@.skip(
                                        acc0.len() as int + 1,
                                    ));
                                    assert forall|i: int| 0 <= i < all.len() implies exists|t: &str|
                                        t@ == #[trigger] all[i] && call_ensures(
                                            *f,
                                            (t,),
                                            Some(v@.skip(acc0.len() as int)[i]),
                                        ) by {
                                        if i == 0 {
                                            assert(s@ == all[0]);
                                        } else {
                                            assert(all[i] == atoms[i - 1]);
                                            assert(v@.skip(acc0.len() as int)[i] == v@.skip(
                                                acc0.len() as int + 1,
                                            )[i - 1]);
                                        }
                                    }
                                    assert(final(reader).consumed() =~= c0 + atom_events(all)
                                        + seq![WriteEvent::EndList]);
                                    assert(decoded_atoms(
                                        c0,
                                        final(reader).consumed(),
                                        all,
                                        v@.skip(acc0.len() as int),
                                        *f,
                                        can_be_empty,
                                    ));
                                }
                            }
                            r
                        },
                        None => {
                            proof {
                                let atoms = Seq::<Seq<char>>::empty();
                                assert(atom_events(atoms) =~= Seq::<WriteEvent>::empty());
                                assert(reader.consumed() =~= c0 + atom_events(atoms) + seq![
                                    WriteEvent::Atom(s@),
                                ]);
                                assert(all_decoded(atoms, *f));
                            }
                            Err(ReadUtilError::InvalidValue { value_type: value_type.to_owned(), pos })
                        },
                    }
                },
                ReadItemKind::ListBeginning => {
                    proof {
                        let atoms = Seq::<Seq<char>>::empty();
                        assert(atom_events(atoms) =~= Seq::<WriteEvent>::empty());
                        assert(reader.consumed() =~= c0 + atom_events(atoms) + seq![
                            WriteEvent::BeginList,
                        ]);
                        assert(all_decoded(atoms, *f));
                    }
                    Err(ReadUtilError::ExpectedAtom { pos })
                },
                ReadItemKind::ListEnding => {
                    if !can_be_empty {
                        Err(ReadUtilError::ExpectedNodeInList { pos })
                    } else {
                        proof {
                            let atoms = Seq::<Seq<char>>::empty();
                            assert(atom_events(atoms) =~= Seq::<WriteEvent>::empty());
                            assert(reader.consumed() =~= c0 + atom_events(atoms) + seq![
                                WriteEvent::EndList,
                            ]);
                            assert(acc@.take(acc@.len() as int) =~= acc@);
                            assert(acc@.skip(acc@.len() as int) =~= Seq::<T>::empty());
                            assert(decoded_atoms(
                                c0,
                                reader.consumed(),
                                atoms,
                                acc@.skip(acc@.len() as int),
                                *f,
                                can_be_empty,
                            ));
                        }
                        Ok(acc)
                    }
                },
            }
        },
        Err(e) => {
            assert(first.next_error() == Some(e));
            Err(ReadUtilError::ReaderError(e))
        },
    }
}

/// Whether reading from `c0` to `c1` read the atoms `atoms` then the end
/// of the list, and `vals` are their values as `f` decoded them.
pub open spec fn decoded_atoms<T, F: Fn(&str) -> Option<T>>(
    c0: Seq<WriteEvent>,
    c1: Seq<WriteEvent>,
    atoms: Seq<Seq<char>>,
    vals: Seq<T>,
    f: F,
    can_be_empty: bool,
) -> bool {
    &&& c1 == c0 + atom_events(atoms) + seq![WriteEvent::EndList]
    &&& vals.len() == atoms.len()
    &&& !can_be_empty ==> atoms.len() >= 1
    &&& forall|i: int|
        0 <= i < atoms.len() ==> exists|s: &str|
            s@ == #[trigger] atoms[i] && call_ensures(f, (s,), Some(vals[i]))
}

/// Whether `f` decoded each of the atoms `atoms` to some value.
pub open spec fn all_decoded<T, F: Fn(&str) -> Option<T>>(atoms: Seq<Seq<char>>, f: F) -> bool {
    forall|i: int|
        0 <= i < atoms.len() ==> exists|s: &str, v: T|
            s@ == #[trigger] atoms[i] && call_ensures(f, (s,), Some(v))
}

/// Whether reading from `c0` to `c1`, whose last position is `p1`, failed
/// with `e` while decoding the atoms of a list with `f`: a list instead of
/// an atom, an atom that `f` did not decode, or the end of the list where
/// an atom was needed; or an error of the reader.
pub open spec fn decode_atoms_error<E, P, T, F: Fn(&str) -> Option<T>>(
    c0: Seq<WriteEvent>,
    c1: Seq<WriteEvent>,
    p1: P,
    e: ReadUtilError<E, P>,
    f: F,
    value_type: Seq<char>,
    can_be_empty: bool,
) -> bool {
    match e {
        ReadUtilError::ReaderError(_) => true,
        ReadUtilError::ExpectedAtom { pos } => {
            &&& pos == p1
            &&& exists|atoms: Seq<Seq<char>>|
                #[trigger] all_decoded(atoms, f) && c1 == c0 + atom_events(atoms) + seq![
                    WriteEvent::BeginList,
                ]
        },
        ReadUtilError::InvalidValue { value_type: vt, pos } => {
            &&& pos == p1
            &&& vt@ == value_type
            &&& exists|atoms: Seq<Seq<char>>, s: &str|
                #![trigger all_decoded(atoms, f), call_ensures(f, (s,), None)]
                all_decoded(atoms, f) && c1 == c0 + atom_events(atoms) + seq![WriteEvent::Atom(s@)]
                    && call_ensures(f, (s,), None)
        },
        ReadUtilError::ExpectedNodeInList { pos } => {
            &&& pos == p1
            &&& !can_be_empty
            &&& c1 == c0.push(WriteEvent::EndList)
        },
        _ => false,
    }
}

/// The events of the atoms `atoms`.
pub open spec fn atom_events(atoms: Seq<Seq<char>>) -> Seq<WriteEvent> {
    Seq::new(atoms.len(), |i: int| WriteEvent::Atom(atoms[i]))
}

} // verus!
