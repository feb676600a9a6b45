//! Reading SISE nodes from a generic source.
use vstd::prelude::*;

use crate::writer::{phase_step, writer_phase, WriteEvent, WriterPhase};

verus! {

/// The text of an atom handed out by a reader, which can be turned into an
/// owned `String`.
pub trait AtomText: Sized {
    /// The characters of the atom.
    spec fn text(&self) -> Seq<char>;

    /// The atom as an owned `String`.
    fn into_string(self) -> (s: String)
        ensures
            s@ == self.text(),
    ;

    /// The atom as a string slice.
    fn as_str(&self) -> (s: &str)
        ensures
            s@ == self.text(),
    ;
}

impl AtomText for String {
    open spec fn text(&self) -> Seq<char> {
        self@
    }

    fn into_string(self) -> (s: String) {
        self
    }

    fn as_str(&self) -> (s: &str) {
        String::as_str(self)
    }
}

impl<'a> AtomText for &'a str {
    open spec fn text(&self) -> Seq<char> {
        (**self)@
    }

    fn into_string(self) -> (s: String) {
        self.to_owned()
    }

    fn as_str(&self) -> (s: &str) {
        *self
    }
}

/// An item read by a `Reader`.
#[derive(Clone, Debug, PartialEq, Eq)]
pub struct ReadItem<S, P> {
    /// Position of the read item.
    pub pos: P,
    /// The kind of item, including its value if it is an atom.
    pub kind: ReadItemKind<S>,
}

/// The kind of an item read by a `Reader`.
#[derive(Clone, Debug, PartialEq, Eq)]
pub enum ReadItemKind<S> {
    /// An atom.
    Atom(S),
    /// The beginning of a list (i.e., a `(`).
    ListBeginning,
    /// The ending of a list (i.e., a `)`).
    ListEnding,
}

/// The event that reading an item of kind `k` stands for.
pub open spec fn kind_event<S: AtomText>(k: ReadItemKind<S>) -> WriteEvent {
    match k {
        ReadItemKind::Atom(a) => WriteEvent::Atom(a.text()),
        ReadItemKind::ListBeginning => WriteEvent::BeginList,
        ReadItemKind::ListEnding => WriteEvent::EndList,
    }
}

impl<S> ReadItemKind<S> {
    /// Returns whether `self` is an `Atom`.
    pub fn is_atom(&self) -> (r: bool)
        ensures
            r == (self is Atom),
    {
        match self {
            ReadItemKind::Atom(_) => true,
            _ => false,
        }
    }

    /// If `self` is an atom, returns its value, otherwise returns `None`.
    pub fn as_atom(&self) -> (r: Option<&S>)
        ensures
            match self {
                ReadItemKind::Atom(a) => r == Some(a),
                _ => r is None,
            },
    {
        match self {
            ReadItemKind::Atom(atom) => Some(atom),
            _ => None,
        }
    }

    /// Consumes `self` and returns its value if it is an atom, otherwise
    /// returns `None`.
    pub fn into_atom(self) -> (r: Option<S>)
        ensures
            match self {
                ReadItemKind::Atom(a) => r == Some(a),
                _ => r is None,
            },
    {
        match self {
            ReadItemKind::Atom(atom) => Some(atom),
            _ => None,
        }
    }

    /// Returns whether `self` is a `ListBeginning`.
    pub fn is_list_beginning(&self) -> (r: bool)
        ensures
            r == (self is ListBeginning),
    {
        match self {
            ReadItemKind::ListBeginning => true,
            _ => false,
        }
    }

    /// Returns whether `self` is a `ListEnding`.
    pub fn is_list_ending(&self) -> (r: bool)
        ensures
            r == (self is ListEnding),
    {
        match self {
            ReadItemKind::ListEnding => true,
            _ => false,
        }
    }
}

/// A source of SISE nodes, read one item at a time. `consumed` gives the
/// items read so far, as events; they always form the beginning of a
/// correct sequence (see `writer_phase`).
pub trait Reader: Sized {
    /// The error type that may be produced while reading.
    type Error;

    /// The text of atoms.
    type String: AtomText;

    /// A type that represent the position of a node.
    type Pos;

    /// Whether the reader is in a consistent state.
    spec fn wf(&self) -> bool;

    /// The items read so far, as events.
    spec fn consumed(&self) -> Seq<WriteEvent>;

    /// The positions of the items read so far.
    spec fn positions(&self) -> Seq<Self::Pos>;

    /// The number of reads so far, those that failed included.
    spec fn reads(&self) -> nat;

    /// A bound that every successful read lowers.
    spec fn bound(&self) -> nat;

    /// Whether the next successful read returns the ending of a list.
    spec fn ends_list_next(&self) -> bool;

    /// Whether reads from this kind of reader never fail.
    spec fn infallible() -> bool;

    /// The error that the next read gives, if it fails.
    spec fn next_error(&self) -> Option<Self::Error>;

    /// The item that the next read gives, as an event, with its position,
    /// if it succeeds.
    spec fn next_read(&self) -> Option<(WriteEvent, Self::Pos)>;

    /// Whether `self` reads from the same source (a text, a tree) as
    /// `other`. Reading does not change the source.
    spec fn same_source(&self, other: &Self) -> bool;

    /// Reading from the same source is reflexive and transitive.
    proof fn lemma_same_source(a: &Self, b: &Self, c: &Self)
        ensures
            a.same_source(a),
            a.same_source(b) && b.same_source(c) ==> a.same_source(c),
    ;

    /// Reads from the source and returns a `ReadItem`. The root node must
    /// not have been completely read.
    fn read(&mut self) -> (r: Result<ReadItem<Self::String, Self::Pos>, Self::Error>)
        requires
            old(self).wf(),
            writer_phase(old(self).consumed()) is Beginning || writer_phase(
                old(self).consumed(),
            ) is Writing,
        ensures
            final(self).wf(),
            final(self).same_source(old(self)),
            final(self).reads() == old(self).reads() + 1,
            match old(self).next_error() {
                Some(e) => r == Err::<ReadItem<Self::String, Self::Pos>, Self::Error>(e),
                None => r is Ok,
            },
            Self::infallible() ==> old(self).next_error() is None,
            r is Err ==> final(self).consumed() == old(self).consumed(),
            r matches Ok(item) ==> {
                &&& old(self).next_read() == Some((kind_event(item.kind), item.pos))
                &&& final(self).consumed() == old(self).consumed().push(kind_event(item.kind))
                &&& final(self).positions() == old(self).positions().push(item.pos)
                &&& !(phase_step(writer_phase(old(self).consumed()), kind_event(item.kind)) is Invalid)
                &&& (item.kind is ListEnding <==> old(self).ends_list_next())
                &&& final(self).bound() < old(self).bound()
            },
    ;

    /// Finishes the reader, consuming it. It must be called only after the
    /// root node has been completely read. It may return an error if an
    /// error is found after the root node.
    fn finish(self) -> (r: Result<(), Self::Error>)
        requires
            self.wf(),
            writer_phase(self.consumed()) is Finished,
    ;
}

} // verus!
