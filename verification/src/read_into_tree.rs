//! Reading a tree of nodes from any reader.
use vstd::prelude::*;

use crate::parse_tree::{node_frames, node_stack_values};
use crate::parser::{lemma_parse_run_events_prefix, Parser};
use crate::reader::{kind_event, AtomText, ReadItemKind, Reader};
use crate::syntax::add_to_innermost;
use crate::tree::{lemma_node_list_value, node_values, Node, NodeValue};
use crate::writer::{
    accepts_node, items_events, phase_step, tree_events, writer_phase, WriteEvent, WriterPhase,
};

verus! {

/// The events of the lists `frames` (outermost first) that have been begun
/// and whose items so far are the values in each frame.
pub open spec fn open_events(frames: Seq<Seq<NodeValue>>) -> Seq<WriteEvent>
    decreases frames.len(),
{
    if frames.len() == 0 {
        Seq::empty()
    } else {
        open_events(frames.drop_last()) + seq![WriteEvent::BeginList] + items_events(frames.last())
    }
}

/// The phase of a reader `k` lists deeper than phase `p`, where a node can be read.
pub open spec fn deeper(p: WriterPhase, k: nat) -> WriterPhase {
    match p {
        WriterPhase::Writing(d) => WriterPhase::Writing(d + 1 + k),
        _ => WriterPhase::Writing(k),
    }
}

/// Adding an item to the innermost open list adds its events.
pub proof fn lemma_open_events_add(frames: Seq<Seq<NodeValue>>, v: NodeValue)
    requires
        frames.len() > 0,
    ensures
        open_events(add_to_innermost(frames, v)) == open_events(frames) + tree_events(v),
{
    let f2 = add_to_innermost(frames, v);
    assert(f2.drop_last() =~= frames.drop_last());
    assert(f2.last() == frames.last().push(v));
    assert(frames.last().push(v).drop_last() =~= frames.last());
}

/// Beginning a list adds a frame.
pub proof fn lemma_open_events_push(frames: Seq<Seq<NodeValue>>)
    ensures
        open_events(frames.push(Seq::empty())) == open_events(frames) + seq![WriteEvent::BeginList],
{
    assert(frames.push(Seq::empty()).drop_last() =~= frames);
    assert(open_events(frames.push(Seq::empty())) =~= open_events(frames) + seq![
        WriteEvent::BeginList,
    ]);
}

/// Ending the innermost list adds it to the enclosing one.
pub proof fn lemma_open_events_close(frames: Seq<Seq<NodeValue>>)
    requires
        frames.len() > 1,
    ensures
        open_events(add_to_innermost(frames.drop_last(), NodeValue::List(frames.last())))
            == open_events(frames).push(WriteEvent::EndList),
{
    let inner = frames.last();
    lemma_open_events_add(frames.drop_last(), NodeValue::List(inner));
    assert(open_events(add_to_innermost(frames.drop_last(), NodeValue::List(inner)))
        =~= open_events(frames).push(WriteEvent::EndList));
}

/// The events of a single open list.
pub proof fn lemma_open_events_single(f: Seq<NodeValue>)
    ensures
        open_events(seq![f]) == seq![WriteEvent::BeginList] + items_events(f),
{
    reveal_with_fuel(open_events, 2);
    assert(seq![f].drop_last() =~= Seq::<Seq<NodeValue>>::empty());
    assert(seq![f].last() == f);
    assert(open_events(seq![f]) =~= seq![WriteEvent::BeginList] + items_events(f));
}

/// The phase after a single event.
proof fn lemma_phase_push(a: Seq<WriteEvent>, e: WriteEvent)
    ensures
        writer_phase(a.push(e)) == phase_step(writer_phase(a), e),
{
    assert(a.push(e).drop_last() =~= a);
}

/// Reading one node is determined by the items read: where the events of
/// `n1` and those of `n2` both begin the same sequence of items `stream`
/// (as when two readers give the same items), `n1` and `n2` are the same
/// node, so every form of `read_into_tree` gives the same node.
pub proof fn lemma_same_items_same_node(n1: NodeValue, n2: NodeValue, stream: Seq<WriteEvent>)
    requires
        tree_events(n1).len() <= stream.len(),
        tree_events(n2).len() <= stream.len(),
        tree_events(n1) == stream.take(tree_events(n1).len() as int),
        tree_events(n2) == stream.take(tree_events(n2).len() as int),
    ensures
        n1 == n2,
{
    let e1 = tree_events(n1);
    let e2 = tree_events(n2);
    if e1.len() <= e2.len() {
        assert(e1 + e2.skip(e1.len() as int) =~= e2);
        crate::tree_reader::lemma_read_back(n2, n1, e2.skip(e1.len() as int));
    } else {
        assert(e2 + e1.skip(e2.len() as int) =~= e1);
        crate::tree_reader::lemma_read_back(n1, n2, e1.skip(e2.len() as int));
    }
}

/// Two readers that give the same sequence of items `stream` and have read
/// the same items so far read the same node next (as `read_into_tree` and
/// its other forms do), with the same items.
pub proof fn lemma_readers_read_same_node<R: Reader>(
    a0: R,
    a1: R,
    na: NodeValue,
    b0: R,
    b1: R,
    nb: NodeValue,
    stream: Seq<WriteEvent>,
)
    requires
        a0.consumed() == b0.consumed(),
        a1.consumed() == a0.consumed() + tree_events(na),
        b1.consumed() == b0.consumed() + tree_events(nb),
        a1.consumed().len() <= stream.len(),
        b1.consumed().len() <= stream.len(),
        a1.consumed() == stream.take(a1.consumed().len() as int),
        b1.consumed() == stream.take(b1.consumed().len() as int),
    ensures
        na == nb,
        a1.consumed() == b1.consumed(),
{
    let c0 = a0.consumed();
    let rest = stream.skip(c0.len() as int);
    assert(tree_events(na) =~= a1.consumed().skip(c0.len() as int));
    assert(tree_events(nb) =~= b1.consumed().skip(c0.len() as int));
    assert(tree_events(na) =~= rest.take(tree_events(na).len() as int));
    assert(tree_events(nb) =~= rest.take(tree_events(nb).len() as int));
    lemma_same_items_same_node(na, nb, rest);
}

/// Two parsers over the same input that have read the same items give the
/// same items next, so what both read as a whole node (as `read_into_tree`
/// does) is the same node, read with the same items.
pub proof fn lemma_parsers_read_same_node<'a, 'b>(
    a0: Parser<'a>,
    a1: Parser<'a>,
    na: NodeValue,
    b0: Parser<'b>,
    b1: Parser<'b>,
    nb: NodeValue,
)
    requires
        a1.wf(),
        b1.wf(),
        a1.input() == b1.input(),
        a0.items_read() == b0.items_read(),
        a1.items_read() == a0.items_read() + tree_events(na),
        b1.items_read() == b0.items_read() + tree_events(nb),
    ensures
        na == nb,
        a1.items_read() == b1.items_read(),
{
    a1.lemma_steps_from_beginning();
    b1.lemma_steps_from_beginning();
    let s = a1.input();
    let c0 = a0.items_read();
    let ea = tree_events(na);
    let eb = tree_events(nb);
    if a1.steps() <= b1.steps() {
        lemma_parse_run_events_prefix(s, a1.steps(), b1.steps());
        assert(eb.take(ea.len() as int) =~= (c0 + eb).take((c0 + ea).len() as int).skip(
            c0.len() as int,
        ));
        assert(ea =~= (c0 + ea).skip(c0.len() as int));
        assert(eb.take(eb.len() as int) =~= eb);
        lemma_same_items_same_node(na, nb, eb);
    } else {
        lemma_parse_run_events_prefix(s, b1.steps(), a1.steps());
        assert(ea.take(eb.len() as int) =~= (c0 + ea).take((c0 + eb).len() as int).skip(
            c0.len() as int,
        ));
        assert(eb =~= (c0 + eb).skip(c0.len() as int));
        assert(ea.take(ea.len() as int) =~= ea);
        lemma_same_items_same_node(na, nb, ea);
    }
}

/// Whether reading from `r0` ended, in `r1`, with the error `e` that the
/// reader itself gave: a read from a state of the same source, with the
/// items of `r1` read, failed with `e`.
pub open spec fn reader_failed_with<R: Reader>(r0: R, r1: R, e: R::Error) -> bool {
    exists|s: R|
        #[trigger] s.next_error() == Some(e) && s.consumed() == r1.consumed() && s.same_source(&r0)
}

/// Reads one node from `reader`, which must be able to give one (the next
/// item does not end a list). On success, the node is the one whose items
/// were read.
pub fn read_into_tree<R: Reader>(reader: &mut R) -> (r: Result<Node, R::Error>)
    requires
        old(reader).wf(),
        accepts_node(writer_phase(old(reader).consumed())),
        !old(reader).ends_list_next(),
    ensures
        final(reader).wf(),
        final(reader).same_source(old(reader)),
        r matches Ok(n) ==> final(reader).consumed() == old(reader).consumed() + tree_events(n@),
        R::infallible() ==> r is Ok,
        r matches Err(e) ==> reader_failed_with(*old(reader), *final(reader), e),
{
    let ghost start = reader.consumed();
    let ghost p0 = writer_phase(start);
    let ghost first = *reader;
    proof {
        R::lemma_same_source(&first, &first, &first);
    }
    let item = match reader.read() {
        Ok(item) => item,
        Err(e) => {
            assert(first.next_error() == Some(e));
            return Err(e);
        },
    };
    proof {
        lemma_phase_push(start, kind_event(item.kind));
    }
    match item.kind {
        ReadItemKind::Atom(atom) => {
            let n = Node::Atom(atom.into_string());
            assert(reader.consumed() =~= start + tree_events(n@));
            return Ok(n);
        },
        ReadItemKind::ListEnding => {
            assert(false);
            return Ok(Node::List(Vec::new()));
        },
        ReadItemKind::ListBeginning => {},
    }
    let mut stack: Vec<Vec<Node>> = Vec::new();
    let mut current: Vec<Node> = Vec::new();
    proof {
        assert(node_values(current@) =~= Seq::<NodeValue>::empty());
        assert(node_frames(stack@, current@) =~= seq![Seq::<NodeValue>::empty()]);
        lemma_open_events_single(Seq::<NodeValue>::empty());
        assert(items_events(Seq::<NodeValue>::empty()) =~= Seq::<WriteEvent>::empty());
        assert(reader.consumed() =~= start + open_events(node_frames(stack@, current@)));
    }
    loop
        invariant
            reader.wf(),
            start == old(reader).consumed(),
            p0 == writer_phase(start),
            accepts_node(p0),
            writer_phase(reader.consumed()) == deeper(p0, stack@.len() as nat),
            reader.consumed() == start + open_events(node_frames(stack@, current@)),
            reader.same_source(old(reader)),
        decreases reader.bound(),
    {
        let ghost frames = node_frames(stack@, current@);
        let ghost before = reader.consumed();
        let ghost r0 = *reader;
        proof {
            assert(frames.len() == stack@.len() + 1);
            assert(frames.last() == node_values(current@));
        }
        let item = match reader.read() {
            Ok(item) => item,
            Err(e) => {
                proof {
                    R::lemma_same_source(&*reader, &r0, old(reader));
                }
                assert(r0.next_error() == Some(e));
                return Err(e);
            },
        };
        proof {
            R::lemma_same_source(&*reader, &r0, old(reader));
            lemma_phase_push(before, kind_event(item.kind));
        }
        match item.kind {
            ReadItemKind::Atom(atom) => {
                let n = Node::Atom(atom.into_string());
                let ghost prev = current@;
                current.push(n);
                proof {
                    assert(node_values(current@) =~= node_values(prev).push(n@));
                    assert(node_frames(stack@, current@) =~= add_to_innermost(frames, n@));
                    lemma_open_events_add(frames, n@);
                    assert(reader.consumed() =~= start + open_events(node_frames(stack@, current@)));
                }
            },
            ReadItemKind::ListBeginning => {
                let ghost old_stack = stack@;
                let mut c: Vec<Node> = Vec::new();
                std::mem::swap(&mut c, &mut current);
                stack.push(c);
                proof {
                    assert(node_stack_values(stack@) =~= node_stack_values(old_stack).push(
                        node_values(c@),
                    ));
                    assert(node_values(current@) =~= Seq::<NodeValue>::empty());
                    assert(node_frames(stack@, current@) =~= frames.push(Seq::empty()));
                    lemma_open_events_push(frames);
                    assert(reader.consumed() =~= start + open_events(node_frames(stack@, current@)));
                }
            },
            ReadItemKind::ListEnding => {
                let ghost old_stack = stack@;
                match stack.pop() {
                    Some(parent) => {
                        let mut done = parent;
                        std::mem::swap(&mut done, &mut current);
                        proof {
                            lemma_node_list_value(done);
                            assert(node_stack_values(stack@) =~= node_stack_values(
                                old_stack,
                            ).drop_last());
                            assert(node_stack_values(old_stack).last() == node_values(current@));
                        }
                        let ghost prev = current@;
                        current.push(Node::List(done));
                        proof {
                            assert(node_values(current@) =~= node_values(prev).push(
                                Node::List(done)@,
                            ));
                            assert(node_frames(stack@, current@) =~= add_to_innermost(
                                frames.drop_last(),
                                NodeValue::List(frames.last()),
                            ));
                            lemma_open_events_close(frames);
                            assert(reader.consumed() =~= start + open_events(
                                node_frames(stack@, current@),
                            ));
                        }
                    },
                    None => {
                        proof {
                            lemma_node_list_value(current);
                            assert(frames =~= seq![node_values(current@)]);
                            lemma_open_events_single(node_values(current@));
                        }
                        let n = Node::List(current);
                        assert(reader.consumed() =~= start + tree_events(n@));
                        return Ok(n);
                    },
                }
            },
        }
    }
}

} // verus!
