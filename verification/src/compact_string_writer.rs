//! A writer that writes everything on a single line.
use vstd::prelude::*;
use std::convert::Infallible;

use crate::text::{push_char, push_str};
use crate::util::is_valid_atom;
use crate::syntax::{
    compact_parts, compact_text, finish_step, is_valid_tree, join_with_spaces,
    lemma_compact_roundtrip, lemma_valid_item, read_tree, ParserState, SyntaxError,
};
use crate::tree::NodeValue;
use crate::writer::{
    items_events, lemma_items_events_phase, lemma_phase_after_concat, lemma_tree_events_phase,
    phase_after, tree_events, writer_phase, WriteEvent, Writer, WriterPhase,
};

verus! {

/// What writing `e` adds to the compact text, after `before`: nodes in a list
/// are separated by single spaces.
pub open spec fn compact_piece(before: Seq<WriteEvent>, e: WriteEvent) -> Seq<char> {
    let sep = writer_phase(before) is Writing && !(before.last() is BeginList);
    match e {
        WriteEvent::Atom(a) => if sep {
            seq![' '] + a
        } else {
            a
        },
        WriteEvent::BeginList => if sep {
            seq![' ', '(']
        } else {
            seq!['(']
        },
        WriteEvent::EndList => seq![')'],
    }
}

/// The compact text of `events`.
pub open spec fn compact_render(events: Seq<WriteEvent>) -> Seq<char>
    decreases events.len(),
{
    if events.len() == 0 {
        Seq::empty()
    } else {
        compact_render(events.drop_last()) + compact_piece(events.drop_last(), events.last())
    }
}

/// Writer that writes everything into a single line string, after the text
/// that the string already holds.
pub struct CompactStringWriter {
    dst: String,
    phase: Phase,
    list_beginning: bool,
    open_lists: Vec<()>,
    log: Ghost<Seq<WriteEvent>>,
    opts: Ghost<Seq<()>>,
    initial: Ghost<Seq<char>>,
}

enum Phase {
    Beginning,
    Writing,
    Finished,
}

impl CompactStringWriter {
    /// The text that the destination held before writing.
    pub closed spec fn initial(&self) -> Seq<char> {
        self.initial@
    }

    /// The text of the destination.
    pub closed spec fn text(&self) -> Seq<char> {
        self.dst@
    }

    /// Creates a writer that appends to `dst`.
    pub fn new(dst: String) -> (w: Self)
        ensures
            w.wf(),
            w.events() == Seq::<WriteEvent>::empty(),
            w.initial() == dst@,
            w.text() == dst@,
    {
        let ghost initial = dst@;
        CompactStringWriter {
            dst,
            phase: Phase::Beginning,
            list_beginning: false,
            open_lists: Vec::new(),
            log: Ghost(Seq::empty()),
            opts: Ghost(Seq::empty()),
            initial: Ghost(initial),
        }
    }

    proof fn lemma_render_step(&self, e: WriteEvent)
        ensures
            compact_render(self.log@.push(e)) == compact_render(self.log@) + compact_piece(
                self.log@,
                e,
            ),
            writer_phase(self.log@.push(e)) == crate::writer::phase_step(writer_phase(self.log@), e),
    {
        assert(self.log@.push(e).drop_last() =~= self.log@);
    }
}

impl Writer for CompactStringWriter {
    type Result = String;
    type Error = Infallible;
    type AtomOptions = ();
    type BeginListOptions = ();
    type EndListOptions = ();
    type FinishOptions = ();

    closed spec fn events(&self) -> Seq<WriteEvent> {
        self.log@
    }

    closed spec fn wf(&self) -> bool {
        &&& self.dst@ == self.initial@ + compact_render(self.log@)
        &&& match self.phase {
            Phase::Beginning => self.log@.len() == 0 && self.open_lists@.len() == 0,
            Phase::Writing => writer_phase(self.log@) == WriterPhase::Writing(
                self.open_lists@.len(),
            ) && self.list_beginning == (self.log@.last() is BeginList),
            Phase::Finished => writer_phase(self.log@) is Finished,
        }
    }

    closed spec fn atom_options(&self) -> Seq<()> {
        self.opts@
    }

    closed spec fn calls(&self) -> nat {
        self.log@.len()
    }

    open spec fn infallible() -> bool {
        true
    }

    fn write_atom(&mut self, atom: &str, opts: ()) -> (r: Result<(), Infallible>)
        ensures
            final(self).initial() == old(self).initial(),
            final(self).text() == old(self).text() + compact_piece(
                old(self).events(),
                WriteEvent::Atom(atom@),
            ),
    {
        proof {
            self.lemma_render_step(WriteEvent::Atom(atom@));
        }
        match self.phase {
            Phase::Beginning => {
                push_str(&mut self.dst, atom);
                self.phase = Phase::Finished;
            },
            Phase::Writing => {
                if !self.list_beginning {
                    push_char(&mut self.dst, ' ');
                }
                push_str(&mut self.dst, atom);
                self.list_beginning = false;
            },
            Phase::Finished => {},
        }
        self.opts = Ghost(self.opts@.push(opts));
        self.log = Ghost(self.log@.push(WriteEvent::Atom(atom@)));
        assert(self.dst@ =~= self.initial@ + compact_render(self.log@));
        Ok(())
    }

    fn begin_list(&mut self, opts: ()) -> (r: Result<(), Infallible>)
        ensures
            final(self).initial() == old(self).initial(),
            final(self).text() == old(self).text() + compact_piece(
                old(self).events(),
                WriteEvent::BeginList,
            ),
    {
        proof {
            self.lemma_render_step(WriteEvent::BeginList);
        }
        match self.phase {
            Phase::Beginning => {
                push_char(&mut self.dst, '(');
                self.phase = Phase::Writing;
            },
            Phase::Writing => {
                if !self.list_beginning {
                    push_char(&mut self.dst, ' ');
                }
                push_char(&mut self.dst, '(');
                self.open_lists.push(());
            },
            Phase::Finished => {},
        }
        self.list_beginning = true;
        self.log = Ghost(self.log@.push(WriteEvent::BeginList));
        assert(self.dst@ =~= self.initial@ + compact_render(self.log@));
        Ok(())
    }

    fn end_list(&mut self, opts: ()) -> (r: Result<(), Infallible>)
        ensures
            final(self).initial() == old(self).initial(),
            final(self).text() == old(self).text() + compact_piece(
                old(self).events(),
                WriteEvent::EndList,
            ),
    {
        proof {
            self.lemma_render_step(WriteEvent::EndList);
        }
        push_char(&mut self.dst, ')');
        if self.open_lists.len() == 0 {
            self.phase = Phase::Finished;
        } else {
            self.open_lists.pop();
            self.list_beginning = false;
        }
        self.log = Ghost(self.log@.push(WriteEvent::EndList));
        assert(self.dst@ =~= self.initial@ + compact_render(self.log@));
        Ok(())
    }

    fn finish(self, opts: ()) -> (r: Result<String, Infallible>)
        ensures
            r matches Ok(s) && s@ == self.initial() + compact_render(self.events()),
    {
        Ok(self.dst)
    }
}

/// The compact text after one more event.
proof fn lemma_render_push(a: Seq<WriteEvent>, e: WriteEvent)
    ensures
        compact_render(a.push(e)) == compact_render(a) + compact_piece(a, e),
        writer_phase(a.push(e)) == crate::writer::phase_step(writer_phase(a), e),
{
    assert(a.push(e).drop_last() =~= a);
}

/// The separator that the compact text puts before a node written after
/// `before`.
pub open spec fn compact_sep(before: Seq<WriteEvent>) -> Seq<char> {
    if writer_phase(before) is Writing && !(before.last() is BeginList) {
        seq![' ']
    } else {
        Seq::empty()
    }
}

/// Writing a node after `before`, inside a list, adds the separator and the
/// node's compact text, and leaves a last event that is not a list's beginning.
proof fn lemma_render_node(before: Seq<WriteEvent>, v: NodeValue, d: nat)
    requires
        writer_phase(before) == WriterPhase::Writing(d),
    ensures
        compact_render(before + tree_events(v)) == compact_render(before) + compact_sep(before)
            + compact_text(v),
        !((before + tree_events(v)).last() is BeginList),
        writer_phase(before + tree_events(v)) == WriterPhase::Writing(d),
    decreases v, 1int,
{
    lemma_tree_events_phase(v, d);
    lemma_phase_after_concat(WriterPhase::Beginning, before, tree_events(v));
    match v {
        NodeValue::Atom(a) => {
            assert(before + tree_events(v) =~= before.push(WriteEvent::Atom(a)));
            lemma_render_push(before, WriteEvent::Atom(a));
        },
        NodeValue::List(items) => {
            let b1 = before.push(WriteEvent::BeginList);
            lemma_render_push(before, WriteEvent::BeginList);
            lemma_render_items(b1, items, d + 1);
            let b2 = b1 + items_events(items);
            lemma_render_push(b2, WriteEvent::EndList);
            assert(before + tree_events(v) =~= b2.push(WriteEvent::EndList));
            assert(compact_sep(before) + seq!['('] =~= compact_piece(before, WriteEvent::BeginList));
            assert(compact_text(v) == seq!['('] + join_with_spaces(compact_parts(items)) + seq![')']);
            assert(compact_render(before + tree_events(v)) =~= compact_render(before) + compact_sep(
                before,
            ) + compact_text(v));
        },
    }
}

/// Writing the items of a list just begun after `b1` adds their compact
/// texts, separated by single spaces.
proof fn lemma_render_items(b1: Seq<WriteEvent>, items: Seq<NodeValue>, d: nat)
    requires
        writer_phase(b1) == WriterPhase::Writing(d),
        b1.len() > 0,
        b1.last() is BeginList,
    ensures
        compact_render(b1 + items_events(items)) == compact_render(b1) + join_with_spaces(
            compact_parts(items),
        ),
        writer_phase(b1 + items_events(items)) == WriterPhase::Writing(d),
        items.len() > 0 ==> !((b1 + items_events(items)).last() is BeginList),
        items.len() == 0 ==> b1 + items_events(items) == b1,
    decreases items, 0int,
{
    lemma_items_events_phase(items, d);
    lemma_phase_after_concat(WriterPhase::Beginning, b1, items_events(items));
    if items.len() == 0 {
        assert(b1 + items_events(items) =~= b1);
        assert(compact_parts(items) =~= Seq::<Seq<char>>::empty());
        assert(compact_render(b1) + join_with_spaces(compact_parts(items)) =~= compact_render(b1));
    } else {
        let init = items.drop_last();
        let last = items.last();
        assert(decreases_to!(items => last));
        lemma_render_items(b1, init, d);
        let b2 = b1 + items_events(init);
        lemma_render_node(b2, last, d);
        assert(b1 + items_events(items) =~= b2 + tree_events(last));
        let parts = compact_parts(items);
        assert(compact_parts(init) =~= parts.drop_last());
        assert(parts.last() == compact_text(last));
        if init.len() == 0 {
            assert(compact_sep(b2) =~= Seq::<char>::empty());
            assert(join_with_spaces(parts) == parts[0]);
            assert(compact_render(b1 + items_events(items)) =~= compact_render(b1) + join_with_spaces(parts));
        } else {
            assert(compact_sep(b2) =~= seq![' ']);
            assert(join_with_spaces(parts) == join_with_spaces(parts.drop_last()) + seq![' ']
                + parts.last());
            assert(compact_render(b1 + items_events(items)) =~= compact_render(b1) + join_with_spaces(parts));
        }
    }
}

/// Writing a tree into a compact writer gives its compact text; when its
/// atoms are valid, reading that text back gives the same tree, and nothing
/// follows it.
pub proof fn lemma_compact_write_read(v: NodeValue)
    requires
        is_valid_tree(v),
    ensures
        compact_render(tree_events(v)) == compact_text(v),
        read_tree(compact_render(tree_events(v)), 0, ParserState::Beginning) == (
            Ok::<NodeValue, SyntaxError>(v),
            compact_render(tree_events(v)).len() as int,
            ParserState::Finishing,
        ),
        finish_step(compact_render(tree_events(v)), compact_render(tree_events(v)).len() as int)
            == Ok::<(), SyntaxError>(()),
{
    let e = Seq::<WriteEvent>::empty();
    match v {
        NodeValue::Atom(a) => {
            assert(tree_events(v) =~= e.push(WriteEvent::Atom(a)));
            lemma_render_push(e, WriteEvent::Atom(a));
            assert(compact_render(tree_events(v)) =~= compact_text(v));
        },
        NodeValue::List(items) => {
            let b1 = e.push(WriteEvent::BeginList);
            lemma_render_push(e, WriteEvent::BeginList);
            lemma_render_items(b1, items, 0);
            let b2 = b1 + items_events(items);
            lemma_render_push(b2, WriteEvent::EndList);
            assert(tree_events(v) =~= b2.push(WriteEvent::EndList));
            assert(compact_render(tree_events(v)) =~= compact_text(v));
        },
    }
    lemma_compact_roundtrip(v);
}

} // verus!
