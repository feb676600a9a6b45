//! Writers whose options are passed by reference.
use vstd::prelude::*;
use std::convert::Infallible;

use crate::compact_string_writer::compact_render;
use crate::util::is_valid_atom;
use crate::writer::{accepts_node, writer_phase, WriteEvent};

verus! {

/// Options for writers that take none.
#[derive(Copy, Clone, Debug, PartialEq, Eq, Default)]
pub struct VoidWriterOptions;

/// A writer of SISE nodes whose options are passed by reference. Each call
/// asks the writer to do one event (see `WriteEvent`); `events` gives those
/// asked so far.
pub trait Writer: Sized {
    /// Type of data returned by the writer.
    type Result;

    /// The error type that may be produced while writing.
    type Error;

    /// Type of options that can be passed to `write_atom`.
    type AtomOptions;

    /// Type of options that can be passed to `begin_list`.
    type BeginListOptions;

    /// Type of options that can be passed to `end_list`.
    type EndListOptions;

    /// Type of options that can be passed to `finish`.
    type FinishOptions;

    /// The events done so far.
    spec fn events(&self) -> Seq<WriteEvent>;

    /// Whether the writer is in a consistent state.
    spec fn wf(&self) -> bool;

    /// Whether the writer never fails.
    spec fn infallible() -> bool;

    /// Writes an atom.
    fn write_atom(&mut self, atom: &str, opts: &Self::AtomOptions) -> (r: Result<(), Self::Error>)
        requires
            old(self).wf(),
            accepts_node(writer_phase(old(self).events())),
            is_valid_atom(atom@),
        ensures
            final(self).wf(),
            r is Ok ==> final(self).events() == old(self).events().push(WriteEvent::Atom(atom@)),
            Self::infallible() ==> r is Ok,
    ;

    /// Begins a list.
    fn begin_list(&mut self, opts: &Self::BeginListOptions) -> (r: Result<(), Self::Error>)
        requires
            old(self).wf(),
            accepts_node(writer_phase(old(self).events())),
        ensures
            final(self).wf(),
            r is Ok ==> final(self).events() == old(self).events().push(WriteEvent::BeginList),
            Self::infallible() ==> r is Ok,
    ;

    /// Ends a list.
    fn end_list(&mut self, opts: &Self::EndListOptions) -> (r: Result<(), Self::Error>)
        requires
            old(self).wf(),
            writer_phase(old(self).events()) is Writing,
        ensures
            final(self).wf(),
            r is Ok ==> final(self).events() == old(self).events().push(WriteEvent::EndList),
            Self::infallible() ==> r is Ok,
    ;

    /// Consumes the writer and returns the result. It must be called only
    /// after the root node has been completely written.
    fn finish(self, opts: &Self::FinishOptions) -> (r: Result<Self::Result, Self::Error>)
        requires
            self.wf(),
            writer_phase(self.events()) is Finished,
        ensures
            Self::infallible() ==> r is Ok,
    ;
}

/// Writer that writes everything into a single line string, after the text
/// that the string already holds (see `crate::compact_string_writer`).
pub struct CompactStringWriter {
    inner: crate::compact_string_writer::CompactStringWriter,
}

impl CompactStringWriter {
    /// The text that the destination held before writing.
    pub closed spec fn initial(&self) -> Seq<char> {
        self.inner.initial()
    }

    /// Creates a writer that appends to `dst`.
    pub fn new(dst: String) -> (w: Self)
        ensures
            w.wf(),
            w.events() == Seq::<WriteEvent>::empty(),
            w.initial() == dst@,
    {
        CompactStringWriter { inner: crate::compact_string_writer::CompactStringWriter::new(dst) }
    }
}

impl Writer for CompactStringWriter {
    type Result = String;
    type Error = Infallible;
    type AtomOptions = VoidWriterOptions;
    type BeginListOptions = VoidWriterOptions;
    type EndListOptions = VoidWriterOptions;
    type FinishOptions = VoidWriterOptions;

    closed spec fn events(&self) -> Seq<WriteEvent> {
        crate::writer::Writer::events(&self.inner)
    }

    closed spec fn wf(&self) -> bool {
        crate::writer::Writer::wf(&self.inner)
    }

    open spec fn infallible() -> bool {
        true
    }

    fn write_atom(&mut self, atom: &str, opts: &VoidWriterOptions) -> (r: Result<(), Infallible>) {
        crate::writer::Writer::write_atom(&mut self.inner, atom, ())
    }

    fn begin_list(&mut self, opts: &VoidWriterOptions) -> (r: Result<(), Infallible>) {
        crate::writer::Writer::begin_list(&mut self.inner, ())
    }

    fn end_list(&mut self, opts: &VoidWriterOptions) -> (r: Result<(), Infallible>) {
        crate::writer::Writer::end_list(&mut self.inner, ())
    }

    fn finish(self, opts: &VoidWriterOptions) -> (r: Result<String, Infallible>)
        ensures
            r matches Ok(s) && s@ == self.initial() + compact_render(self.events()),
    {
        crate::writer::Writer::finish(self.inner, ())
    }
}

} // verus!
