//! Writing SISE nodes into a generic destination.
use vstd::prelude::*;

use crate::tree::NodeValue;
use crate::util::is_valid_atom;

verus! {

/// What a writer is asked to do, one call at a time.
pub enum WriteEvent {
    /// Write the atom.
    Atom(Seq<char>),
    /// Begin a list.
    BeginList,
    /// End the innermost list.
    EndList,
}

/// Where a writer stands: before the root node, inside the root list (with
/// the number of lists opened inside it), after the root node, or in a state
/// that no correct sequence of calls reaches.
pub enum WriterPhase {
    Beginning,
    Writing(nat),
    Finished,
    Invalid,
}

/// The phase after `e`, from phase `p`.
pub open spec fn phase_step(p: WriterPhase, e: WriteEvent) -> WriterPhase {
    match p {
        WriterPhase::Beginning => match e {
            WriteEvent::Atom(_) => WriterPhase::Finished,
            WriteEvent::BeginList => WriterPhase::Writing(0),
            WriteEvent::EndList => WriterPhase::Invalid,
        },
        WriterPhase::Writing(d) => match e {
            WriteEvent::Atom(_) => WriterPhase::Writing(d),
            WriteEvent::BeginList => WriterPhase::Writing(d + 1),
            WriteEvent::EndList => if d == 0 {
                WriterPhase::Finished
            } else {
                WriterPhase::Writing((d - 1) as nat)
            },
        },
        _ => WriterPhase::Invalid,
    }
}

/// The phase after `events`, from phase `p`.
pub open spec fn phase_after(p: WriterPhase, events: Seq<WriteEvent>) -> WriterPhase
    decreases events.len(),
{
    if events.len() == 0 {
        p
    } else {
        phase_step(phase_after(p, events.drop_last()), events.last())
    }
}

/// The phase of a writer that has been asked to do `events`.
pub open spec fn writer_phase(events: Seq<WriteEvent>) -> WriterPhase {
    phase_after(WriterPhase::Beginning, events)
}

/// Whether a writer in phase `p` can write a node (an atom or a list).
pub open spec fn accepts_node(p: WriterPhase) -> bool {
    p is Beginning || p is Writing
}

/// The events that write the node `v`.
pub open spec fn tree_events(v: NodeValue) -> Seq<WriteEvent>
    decreases v, 1int,
{
    match v {
        NodeValue::Atom(a) => seq![WriteEvent::Atom(a)],
        NodeValue::List(items) => seq![WriteEvent::BeginList] + items_events(items) + seq![
            WriteEvent::EndList,
        ],
    }
}

/// The events that write the nodes `items`, one after the other.
pub open spec fn items_events(items: Seq<NodeValue>) -> Seq<WriteEvent>
    decreases items, 0int,
{
    if items.len() == 0 {
        Seq::empty()
    } else {
        items_events(items.drop_last()) + tree_events(items.last())
    }
}

/// Whether every atom of `items` is valid.
pub open spec fn all_valid_items(items: Seq<NodeValue>) -> bool {
    forall|k: int| 0 <= k < items.len() ==> crate::syntax::is_valid_tree(#[trigger] items[k])
}

/// Options for writers that can write a node on a new line.
pub trait MaybeMultilineOptions: Sized {
    /// The options that `break_line` gives.
    spec fn spec_break_line() -> Self;

    /// The options that `break_line_at(len)` gives.
    spec fn spec_break_line_at(len: usize) -> Self;

    /// The options that `no_break_line` gives.
    spec fn spec_no_break_line() -> Self;

    /// If supported, the node shall be written in a new line.
    fn break_line() -> (r: Self)
        ensures
            r == Self::spec_break_line(),
    ;

    /// If supported, the node shall be written in a new line if the current
    /// line is at least `len` long.
    fn break_line_at(len: usize) -> (r: Self)
        ensures
            r == Self::spec_break_line_at(len),
    ;

    /// If supported, the node shall be written in the current line.
    fn no_break_line() -> (r: Self)
        ensures
            r == Self::spec_no_break_line(),
    ;
}

/// Writers without options take `()` for every node.
impl MaybeMultilineOptions for () {
    open spec fn spec_break_line() -> Self {
        ()
    }

    open spec fn spec_break_line_at(len: usize) -> Self {
        ()
    }

    open spec fn spec_no_break_line() -> Self {
        ()
    }

    fn break_line() -> Self {
    }

    fn break_line_at(_len: usize) -> Self {
    }

    fn no_break_line() -> Self {
    }
}

/// A writer of SISE nodes. Each call asks the writer to do one event (see
/// `WriteEvent`); `events` gives those asked so far.
pub trait Writer: Sized {
    /// Type of data returned by the writer.
    type Result;

    /// The error type that may be produced while writing.
    type Error;

    /// Type of options that can be passed to `write_atom`.
    type AtomOptions;

    /// Type of options that can be passed to `begin_list`.
    type BeginListOptions;

    /// Type of options that can be passed to `end_list`.
    type EndListOptions;

    /// Type of options that can be passed to `finish`.
    type FinishOptions;

    /// The events done so far.
    spec fn events(&self) -> Seq<WriteEvent>;

    /// Whether the writer is in a consistent state.
    spec fn wf(&self) -> bool;

    /// Whether the writer never fails.
    spec fn infallible() -> bool;

    /// The options given to the atoms written so far, in order.
    spec fn atom_options(&self) -> Seq<Self::AtomOptions>;

    /// The number of calls of `write_atom`, `begin_list` and `end_list` so
    /// far, including those that failed.
    spec fn calls(&self) -> nat;

    /// Writes an atom.
    fn write_atom(&mut self, atom: &str, opts: Self::AtomOptions) -> (r: Result<(), Self::Error>)
        requires
            old(self).wf(),
            accepts_node(writer_phase(old(self).events())),
            is_valid_atom(atom@),
        ensures
            final(self).wf(),
            r is Ok ==> final(self).events() == old(self).events().push(WriteEvent::Atom(atom@)),
            r is Ok ==> final(self).atom_options() == old(self).atom_options().push(opts),
            r is Err ==> final(self).events() == old(self).events() && final(self).atom_options()
                == old(self).atom_options(),
            final(self).calls() == old(self).calls() + 1,
            Self::infallible() ==> r is Ok,
    ;

    /// Begins a list.
    fn begin_list(&mut self, opts: Self::BeginListOptions) -> (r: Result<(), Self::Error>)
        requires
            old(self).wf(),
            accepts_node(writer_phase(old(self).events())),
        ensures
            final(self).wf(),
            r is Ok ==> final(self).events() == old(self).events().push(WriteEvent::BeginList),
            r is Err ==> final(self).events() == old(self).events(),
            final(self).atom_options() == old(self).atom_options(),
            final(self).calls() == old(self).calls() + 1,
            Self::infallible() ==> r is Ok,
    ;

    /// Ends a list.
    fn end_list(&mut self, opts: Self::EndListOptions) -> (r: Result<(), Self::Error>)
        requires
            old(self).wf(),
            writer_phase(old(self).events()) is Writing,
        ensures
            final(self).wf(),
            r is Ok ==> final(self).events() == old(self).events().push(WriteEvent::EndList),
            r is Err ==> final(self).events() == old(self).events(),
            final(self).atom_options() == old(self).atom_options(),
            final(self).calls() == old(self).calls() + 1,
            Self::infallible() ==> r is Ok,
    ;

    /// Consumes the writer and returns the result. It must be called only
    /// after the root node has been completely written.
    fn finish(self, opts: Self::FinishOptions) -> (r: Result<Self::Result, Self::Error>)
        requires
            self.wf(),
            writer_phase(self.events()) is Finished,
        ensures
            Self::infallible() ==> r is Ok,
    ;
}

/// Phases compose: doing `a` then `b` from `p` is doing `a + b`.
pub proof fn lemma_phase_after_concat(p: WriterPhase, a: Seq<WriteEvent>, b: Seq<WriteEvent>)
    ensures
        phase_after(p, a + b) == phase_after(phase_after(p, a), b),
    decreases b.len(),
{
    if b.len() == 0 {
        assert(a + b =~= a);
    } else {
        assert((a + b).drop_last() =~= a + b.drop_last());
        assert((a + b).last() == b.last());
        lemma_phase_after_concat(p, a, b.drop_last());
    }
}

/// The phase after a single event.
pub proof fn lemma_phase_single(p: WriterPhase, e: WriteEvent)
    ensures
        phase_after(p, seq![e]) == phase_step(p, e),
{
    reveal_with_fuel(phase_after, 2);
    assert(seq![e].drop_last() =~= Seq::<WriteEvent>::empty());
    assert(seq![e].last() == e);
}

/// Writing a whole node inside a list leaves the phase as it was, and
/// writing it from the beginning finishes the writer.
pub proof fn lemma_tree_events_phase(v: NodeValue, d: nat)
    ensures
        phase_after(WriterPhase::Writing(d), tree_events(v)) == WriterPhase::Writing(d),
        phase_after(WriterPhase::Beginning, tree_events(v)) == WriterPhase::Finished,
    decreases v, 1int,
{
    match v {
        NodeValue::Atom(a) => {
            lemma_phase_single(WriterPhase::Writing(d), WriteEvent::Atom(a));
            lemma_phase_single(WriterPhase::Beginning, WriteEvent::Atom(a));
        },
        NodeValue::List(items) => {
            let open = seq![WriteEvent::BeginList];
            let close = seq![WriteEvent::EndList];
            let body = items_events(items);
            assert(tree_events(v) == open + body + close);
            lemma_phase_single(WriterPhase::Writing(d), WriteEvent::BeginList);
            lemma_phase_single(WriterPhase::Beginning, WriteEvent::BeginList);
            lemma_phase_single(WriterPhase::Writing(d + 1), WriteEvent::EndList);
            lemma_phase_single(WriterPhase::Writing(0), WriteEvent::EndList);
            lemma_items_events_phase(items, d + 1);
            lemma_items_events_phase(items, 0);
            lemma_phase_after_concat(WriterPhase::Writing(d), open, body);
            lemma_phase_after_concat(WriterPhase::Writing(d), open + body, close);
            lemma_phase_after_concat(WriterPhase::Beginning, open, body);
            lemma_phase_after_concat(WriterPhase::Beginning, open + body, close);
        },
    }
}

/// Writing whole nodes inside a list leaves the phase as it was.
pub proof fn lemma_items_events_phase(items: Seq<NodeValue>, d: nat)
    ensures
        phase_after(WriterPhase::Writing(d), items_events(items)) == WriterPhase::Writing(d),
    decreases items, 0int,
{
    if items.len() > 0 {
        assert(decreases_to!(items => items.last()));
        lemma_items_events_phase(items.drop_last(), d);
        lemma_tree_events_phase(items.last(), d);
        lemma_phase_after_concat(
            WriterPhase::Writing(d),
            items_events(items.drop_last()),
            tree_events(items.last()),
        );
    }
}

} // verus!
