//! Reading a tree of nodes together with the positions of its items.
use vstd::prelude::*;

use crate::parse_tree::{node_frames, node_stack_values};
use crate::read_into_tree::{
    reader_failed_with,
    deeper, lemma_open_events_add, lemma_open_events_close, lemma_open_events_push,
    lemma_open_events_single, open_events,
};
use crate::reader::{kind_event, AtomText, ReadItemKind, Reader};
use crate::syntax::add_to_innermost;
use crate::tree::{lemma_node_list_value, node_values, Node, NodeValue};
use crate::writer::{accepts_node, phase_step, tree_events, writer_phase, WriteEvent};

verus! {

/// The positions of a node read by a `Reader`: that of the atom or of the
/// list's beginning, and for a list those of its items and of its ending.
#[derive(Debug, PartialEq, Eq)]
pub struct PosTree<P> {
    pub pos: P,
    pub list: Option<PosTreeList<P>>,
}

/// The positions of a list's items and of its ending.
#[derive(Debug, PartialEq, Eq)]
pub struct PosTreeList<P> {
    pub items: Vec<PosTree<P>>,
    pub ending_pos: P,
}

/// The positions of `t`, in the order they were read.
pub open spec fn pos_order<P>(t: PosTree<P>) -> Seq<P>
    decreases t, 1int,
{
    match t.list {
        None => seq![t.pos],
        Some(l) => seq![t.pos] + items_pos_order(l.items@) + seq![l.ending_pos],
    }
}

/// The positions of the trees `items`, in the order they were read.
pub open spec fn items_pos_order<P>(items: Seq<PosTree<P>>) -> Seq<P>
    decreases items, 0int,
{
    if items.len() == 0 {
        Seq::empty()
    } else {
        items_pos_order(items.drop_last()) + pos_order(items.last())
    }
}

/// The shape of a node: the same lists, with empty atoms.
pub open spec fn node_shape(v: NodeValue) -> NodeValue
    decreases v,
{
    match v {
        NodeValue::Atom(_) => NodeValue::Atom(Seq::empty()),
        NodeValue::List(items) => NodeValue::List(
            Seq::new(
                items.len(),
                |i: int|
                    if 0 <= i < items.len() {
                        node_shape(items[i])
                    } else {
                        NodeValue::Atom(Seq::empty())
                    },
            ),
        ),
    }
}

/// The shape of the node whose positions `t` holds.
pub open spec fn pos_shape<P>(t: PosTree<P>) -> NodeValue
    decreases t,
{
    match t.list {
        None => NodeValue::Atom(Seq::empty()),
        Some(l) => NodeValue::List(
            Seq::new(
                l.items@.len(),
                |i: int|
                    if 0 <= i < l.items@.len() {
                        pos_shape(l.items@[i])
                    } else {
                        NodeValue::Atom(Seq::empty())
                    },
            ),
        ),
    }
}

/// A list being read: the position of its beginning, its items and their
/// positions.
struct Frame<P> {
    beginning_pos: P,
    list_items: Vec<Node>,
    pos_tree_items: Vec<PosTree<P>>,
}

/// The events and positions of the lists begun, outermost first, each with
/// the items read so far.
spec fn open_positions<P>(stack: Seq<Frame<P>>) -> Seq<P>
    decreases stack.len(),
{
    if stack.len() == 0 {
        Seq::empty()
    } else {
        open_positions(stack.drop_last()) + seq![stack.last().beginning_pos] + items_pos_order(
            stack.last().pos_tree_items@,
        )
    }
}

spec fn frame_nodes<P>(f: Frame<P>) -> Seq<NodeValue> {
    node_values(f.list_items@)
}

spec fn frames_of<P>(stack: Seq<Frame<P>>) -> Seq<Seq<NodeValue>> {
    Seq::new(stack.len(), |k: int| frame_nodes(stack[k]))
}

/// Whether the items of each frame have the shapes of their position trees.
spec fn frames_fit<P>(stack: Seq<Frame<P>>) -> bool {
    forall|k: int|
        0 <= k < stack.len() ==> {
            &&& (#[trigger] stack[k]).list_items@.len() == stack[k].pos_tree_items@.len()
            &&& forall|j: int|
                0 <= j < stack[k].list_items@.len() ==> node_shape(
                    #[trigger] stack[k].list_items@[j]@,
                ) == pos_shape(stack[k].pos_tree_items@[j])
        }
}

proof fn lemma_items_pos_push<P>(items: Seq<PosTree<P>>, t: PosTree<P>)
    ensures
        items_pos_order(items.push(t)) == items_pos_order(items) + pos_order(t),
{
    assert(items.push(t).drop_last() =~= items);
}

proof fn lemma_frames_push<P>(stack: Seq<Frame<P>>, f: Frame<P>)
    ensures
        frames_of(stack.push(f)) == frames_of(stack).push(frame_nodes(f)),
        open_positions(stack.push(f)) == open_positions(stack) + seq![f.beginning_pos]
            + items_pos_order(f.pos_tree_items@),
{
    assert(frames_of(stack.push(f)) =~= frames_of(stack).push(frame_nodes(f)));
    assert(stack.push(f).drop_last() =~= stack);
}

/// The shape of a list read into `items` with positions `pos_items`.
proof fn lemma_list_shape<P>(items: Vec<Node>, pos_items: Vec<PosTree<P>>, bpos: P, epos: P)
    requires
        items@.len() == pos_items@.len(),
        forall|j: int|
            0 <= j < items@.len() ==> node_shape(#[trigger] items@[j]@) == pos_shape(
                pos_items@[j],
            ),
    ensures
        node_shape(Node::List(items)@) == pos_shape(
            PosTree { pos: bpos, list: Some(PosTreeList { items: pos_items, ending_pos: epos }) },
        ),
{
    lemma_node_list_value(items);
    let t = PosTree { pos: bpos, list: Some(PosTreeList { items: pos_items, ending_pos: epos }) };
    let vals = node_values(items@);
    assert(node_shape(NodeValue::List(vals))->List_0 =~= pos_shape(t)->List_0);
}

/// Reads one node from `reader`, which must be able to give one (the next
/// item does not end a list), with the positions of its items. On success,
/// the node is the one whose items were read, and the position tree has its
/// shape and the positions of those items.
pub fn read_into_tree<R: Reader>(reader: &mut R) -> (r: Result<(Node, PosTree<R::Pos>), R::Error>)
    requires
        old(reader).wf(),
        accepts_node(writer_phase(old(reader).consumed())),
        !old(reader).ends_list_next(),
    ensures
        final(reader).wf(),
        final(reader).same_source(old(reader)),
        r matches Ok((n, t)) ==> {
            &&& final(reader).consumed() == old(reader).consumed() + tree_events(n@)
            &&& final(reader).positions() == old(reader).positions() + pos_order(t)
            &&& pos_shape(t) == node_shape(n@)
        },
        R::infallible() ==> r is Ok,
        r matches Err(e) ==> reader_failed_with(*old(reader), *final(reader), e),
{
    let ghost start = reader.consumed();
    let ghost start_pos = reader.positions();
    let ghost p0 = writer_phase(start);
    let ghost first = *reader;
    proof {
        R::lemma_same_source(&first, &first, &first);
    }
    let item = match reader.read() {
        Ok(item) => item,
        Err(e) => {
            assert(first.next_error() == Some(e));
            return Err(e);
        },
    };
    proof {
        assert(start.push(kind_event(item.kind)).drop_last() =~= start);
    }
    let first_pos = item.pos;
    match item.kind {
        ReadItemKind::Atom(atom) => {
            let n = Node::Atom(atom.into_string());
            let t = PosTree { pos: first_pos, list: None };
            assert(reader.consumed() =~= start + tree_events(n@));
            assert(reader.positions() =~= start_pos + pos_order(t));
            return Ok((n, t));
        },
        ReadItemKind::ListEnding => {
            assert(false);
            return Ok((Node::List(Vec::new()), PosTree { pos: first_pos, list: None }));
        },
        ReadItemKind::ListBeginning => {},
    }
    let mut stack: Vec<Frame<R::Pos>> = Vec::new();
    let mut current = Frame {
        beginning_pos: first_pos,
        list_items: Vec::new(),
        pos_tree_items: Vec::new(),
    };
    proof {
        lemma_frames_push(stack@, current);
        assert(frames_of(stack@) =~= Seq::<Seq<NodeValue>>::empty());
        assert(open_positions(stack@) =~= Seq::<R::Pos>::empty());
        assert(frame_nodes(current) =~= Seq::<NodeValue>::empty());
        assert(items_pos_order(current.pos_tree_items@) =~= Seq::<R::Pos>::empty());
        lemma_open_events_single(Seq::<NodeValue>::empty());
        assert(frames_of(stack@.push(current)) =~= seq![Seq::<NodeValue>::empty()]);
        assert(reader.consumed() =~= start + open_events(frames_of(stack@.push(current))));
        assert(reader.positions() =~= start_pos + open_positions(stack@.push(current)));
        assert(frames_fit(stack@.push(current)));
    }
    loop
        invariant
            reader.wf(),
            start == old(reader).consumed(),
            start_pos == old(reader).positions(),
            p0 == writer_phase(start),
            accepts_node(p0),
            writer_phase(reader.consumed()) == deeper(p0, stack@.len() as nat),
            reader.consumed() == start + open_events(frames_of(stack@.push(current))),
            reader.positions() == start_pos + open_positions(stack@.push(current)),
            frames_fit(stack@.push(current)),
            reader.same_source(old(reader)),
        decreases reader.bound(),
    {
        let ghost r0 = *reader;
        let ghost all = stack@.push(current);
        let ghost frames = frames_of(all);
        let ghost before = reader.consumed();
        let ghost before_pos = reader.positions();
        proof {
            lemma_frames_push(stack@, current);
            assert(frames.len() == stack@.len() + 1);
            assert(frames.last() == frame_nodes(current));
            assert(all.last() == current);
        }
        let item = match reader.read() {
            Ok(item) => item,
            Err(e) => {
                proof {
                    R::lemma_same_source(&*reader, &r0, old(reader));
                }
                assert(r0.next_error() == Some(e));
                return Err(e);
            },
        };
        proof {
            R::lemma_same_source(&*reader, &r0, old(reader));
            assert(before.push(kind_event(item.kind)).drop_last() =~= before);
        }
        match item.kind {
            ReadItemKind::Atom(atom) => {
                let n = Node::Atom(atom.into_string());
                let t = PosTree { pos: item.pos, list: None };
                let ghost prev = current;
                current.list_items.push(n);
                current.pos_tree_items.push(t);
                proof {
                    lemma_frames_push(stack@, current);
                    lemma_items_pos_push(prev.pos_tree_items@, t);
                    assert(frame_nodes(current) =~= frame_nodes(prev).push(n@));
                    assert(frames_of(stack@.push(current)) =~= add_to_innermost(frames, n@));
                    lemma_open_events_add(frames, n@);
                    assert(reader.consumed() =~= start + open_events(frames_of(stack@.push(current))));
                    assert(reader.positions() =~= start_pos + open_positions(stack@.push(current)));
                    assert forall|k: int| 0 <= k < stack@.push(current).len() implies {
                        &&& (#[trigger] stack@.push(current)[k]).list_items@.len() == stack@.push(
                            current,
                        )[k].pos_tree_items@.len()
                        &&& forall|j: int|
                            0 <= j < stack@.push(current)[k].list_items@.len() ==> node_shape(
                                #[trigger] stack@.push(current)[k].list_items@[j]@,
                            ) == pos_shape(stack@.push(current)[k].pos_tree_items@[j])
                    } by {
                        if k < stack@.len() {
                            assert(stack@.push(current)[k] == all[k]);
                        }
                    }
                }
            },
            ReadItemKind::ListBeginning => {
                let mut c = Frame {
                    beginning_pos: item.pos,
                    list_items: Vec::new(),
                    pos_tree_items: Vec::new(),
                };
                std::mem::swap(&mut c, &mut current);
                let ghost old_stack = stack@;
                stack.push(c);
                proof {
                    assert(stack@ == all);
                    lemma_frames_push(stack@, current);
                    assert(frame_nodes(current) =~= Seq::<NodeValue>::empty());
                    assert(items_pos_order(current.pos_tree_items@) =~= Seq::<R::Pos>::empty());
                    assert(frames_of(stack@.push(current)) =~= frames.push(Seq::empty()));
                    lemma_open_events_push(frames);
                    assert(reader.consumed() =~= start + open_events(frames_of(stack@.push(current))));
                    assert(reader.positions() =~= start_pos + open_positions(stack@.push(current)));
                    assert forall|k: int| 0 <= k < stack@.push(current).len() implies {
                        &&& (#[trigger] stack@.push(current)[k]).list_items@.len() == stack@.push(
                            current,
                        )[k].pos_tree_items@.len()
                        &&& forall|j: int|
                            0 <= j < stack@.push(current)[k].list_items@.len() ==> node_shape(
                                #[trigger] stack@.push(current)[k].list_items@[j]@,
                            ) == pos_shape(stack@.push(current)[k].pos_tree_items@[j])
                    } by {
                        if k < stack@.len() {
                            assert(stack@.push(current)[k] == all[k]);
                        }
                    }
                }
            },
            ReadItemKind::ListEnding => {
                let ghost old_stack = stack@;
                match stack.pop() {
                    Some(parent) => {
                        let mut done = parent;
                        std::mem::swap(&mut done, &mut current);
                        proof {
                            assert(all[all.len() - 1] == done);
                            assert(frames_fit(all));
                            assert(all[all.len() - 1].list_items@.len() == all[all.len()
                                - 1].pos_tree_items@.len());
                            lemma_list_shape(
                                done.list_items,
                                done.pos_tree_items,
                                done.beginning_pos,
                                item.pos,
                            );
                            lemma_node_list_value(done.list_items);
                            assert(old_stack.drop_last() =~= stack@);
                            assert(old_stack.last() == current);
                        }
                        let t = PosTree {
                            pos: done.beginning_pos,
                            list: Some(
                                PosTreeList { items: done.pos_tree_items, ending_pos: item.pos },
                            ),
                        };
                        let n = Node::List(done.list_items);
                        let ghost prev = current;
                        current.list_items.push(n);
                        current.pos_tree_items.push(t);
                        proof {
                            lemma_frames_push(stack@, current);
                            lemma_frames_push(stack@, prev);
                            lemma_items_pos_push(prev.pos_tree_items@, t);
                            assert(stack@.push(prev) =~= old_stack);
                            assert(frame_nodes(current) =~= frame_nodes(prev).push(n@));
                            assert(frames_of(stack@.push(current)) =~= add_to_innermost(
                                frames.drop_last(),
                                NodeValue::List(frames.last()),
                            ));
                            lemma_open_events_close(frames);
                            assert(reader.consumed() =~= start + open_events(
                                frames_of(stack@.push(current)),
                            ));
                            assert(reader.positions() =~= start_pos + open_positions(
                                stack@.push(current),
                            ));
                            assert forall|k: int| 0 <= k < stack@.push(current).len() implies {
                                &&& (#[trigger] stack@.push(current)[k]).list_items@.len()
                                    == stack@.push(current)[k].pos_tree_items@.len()
                                &&& forall|j: int|
                                    0 <= j < stack@.push(current)[k].list_items@.len()
                                        ==> node_shape(
                                        #[trigger] stack@.push(current)[k].list_items@[j]@,
                                    ) == pos_shape(stack@.push(current)[k].pos_tree_items@[j])
                            } by {
                                if k < stack@.len() {
                                    assert(stack@.push(current)[k] == all[k]);
                                } else {
                                    assert(stack@.push(current)[k] == current);
                                    assert(all[k] == prev);
                                }
                            }
                        }
                    },
                    None => {
                        proof {
                            assert(all =~= seq![current]);
                            assert(frames_fit(all));
                            assert(all[0] == current);
                            lemma_list_shape(
                                current.list_items,
                                current.pos_tree_items,
                                current.beginning_pos,
                                item.pos,
                            );
                            lemma_node_list_value(current.list_items);
                            assert(frames =~= seq![frame_nodes(current)]);
                            lemma_open_events_single(frame_nodes(current));
                            assert(stack@ =~= Seq::<Frame<R::Pos>>::empty());
                            assert(open_positions(stack@) =~= Seq::<R::Pos>::empty());
                        }
                        let n = Node::List(current.list_items);
                        let t = PosTree {
                            pos: current.beginning_pos,
                            list: Some(
                                PosTreeList {
                                    items: current.pos_tree_items,
                                    ending_pos: item.pos,
                                },
                            ),
                        };
                        assert(reader.consumed() =~= start + tree_events(n@));
                        assert(reader.positions() =~= start_pos + pos_order(t));
                        return Ok((n, t));
                    },
                }
            },
        }
    }
}

/// Reads one node from `reader`, which must be able to give one (the next
/// item does not end a list). On success, the node is the one whose items
/// were read.
pub fn read_into_tree_without_pos<R: Reader>(reader: &mut R) -> (r: Result<Node, R::Error>)
    requires
        old(reader).wf(),
        accepts_node(writer_phase(old(reader).consumed())),
        !old(reader).ends_list_next(),
    ensures
        final(reader).wf(),
        final(reader).same_source(old(reader)),
        r matches Ok(n) ==> final(reader).consumed() == old(reader).consumed() + tree_events(n@),
        R::infallible() ==> r is Ok,
        r matches Err(e) ==> reader_failed_with(*old(reader), *final(reader), e),
{
    crate::read_into_tree::read_into_tree(reader)
}

} // verus!
