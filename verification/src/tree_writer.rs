//! A writer that builds a tree of nodes.
use vstd::prelude::*;
use std::convert::Infallible;

use crate::syntax::{add_to_innermost, is_valid_tree};
use crate::parse_tree::{node_frames, node_stack_values};
use crate::tree::{lemma_node_list_value, node_values, Node, NodeValue};
use crate::util::is_valid_atom;
use crate::writer::{
    items_events, tree_events, writer_phase, WriteEvent, Writer, WriterPhase,
};

verus! {

/// What building a tree from events has produced: the lists still open
/// (innermost last) and the root node once it is complete.
pub struct TreeBuild {
    pub frames: Seq<Seq<NodeValue>>,
    pub root: Option<NodeValue>,
}

/// The build after the event `e`.
pub open spec fn build_step(b: TreeBuild, e: WriteEvent) -> TreeBuild {
    match e {
        WriteEvent::Atom(a) => if b.frames.len() == 0 {
            TreeBuild { frames: b.frames, root: Some(NodeValue::Atom(a)) }
        } else {
            TreeBuild { frames: add_to_innermost(b.frames, NodeValue::Atom(a)), root: b.root }
        },
        WriteEvent::BeginList => TreeBuild { frames: b.frames.push(Seq::empty()), root: b.root },
        WriteEvent::EndList => if b.frames.len() <= 1 {
            TreeBuild { frames: Seq::empty(), root: Some(NodeValue::List(b.frames.last())) }
        } else {
            TreeBuild {
                frames: add_to_innermost(b.frames.drop_last(), NodeValue::List(b.frames.last())),
                root: b.root,
            }
        },
    }
}

/// The build after `events`, from `b`.
pub open spec fn build_after(b: TreeBuild, events: Seq<WriteEvent>) -> TreeBuild
    decreases events.len(),
{
    if events.len() == 0 {
        b
    } else {
        build_step(build_after(b, events.drop_last()), events.last())
    }
}

/// Nothing built yet.
pub open spec fn empty_build() -> TreeBuild {
    TreeBuild { frames: Seq::empty(), root: None }
}

/// The tree built from `events`, once its root node is complete.
pub open spec fn built_tree(events: Seq<WriteEvent>) -> Option<NodeValue> {
    build_after(empty_build(), events).root
}

/// Writer that builds a `Node` tree.
pub struct TreeWriter {
    phase: Phase,
    stack: Vec<Vec<Node>>,
    current: Vec<Node>,
    root: Option<Node>,
    log: Ghost<Seq<WriteEvent>>,
    opts: Ghost<Seq<()>>,
}

enum Phase {
    Beginning,
    Writing,
    Finished,
}

impl TreeWriter {
    /// Creates a writer that has built nothing yet.
    pub fn new() -> (w: Self)
        ensures
            w.wf(),
            w.events() == Seq::<WriteEvent>::empty(),
    {
        TreeWriter {
            phase: Phase::Beginning,
            stack: Vec::new(),
            current: Vec::new(),
            root: None,
            log: Ghost(Seq::empty()),
            opts: Ghost(Seq::empty()),
        }
    }

    proof fn lemma_build_push(a: Seq<WriteEvent>, e: WriteEvent)
        ensures
            build_after(empty_build(), a.push(e)) == build_step(build_after(empty_build(), a), e),
            writer_phase(a.push(e)) == crate::writer::phase_step(writer_phase(a), e),
    {
        assert(a.push(e).drop_last() =~= a);
    }
}

impl Default for TreeWriter {
    /// Same as `TreeWriter::new`.
    fn default() -> (w: Self)
        ensures
            w.wf(),
            w.events() == Seq::<WriteEvent>::empty(),
    {
        Self::new()
    }
}

impl Writer for TreeWriter {
    type Result = Node;
    type Error = Infallible;
    type AtomOptions = ();
    type BeginListOptions = ();
    type EndListOptions = ();
    type FinishOptions = ();

    closed spec fn events(&self) -> Seq<WriteEvent> {
        self.log@
    }

    closed spec fn wf(&self) -> bool {
        let b = build_after(empty_build(), self.log@);
        match self.phase {
            Phase::Beginning => self.log@.len() == 0 && self.stack@.len() == 0
                && self.current@.len() == 0 && self.root is None,
            Phase::Writing => writer_phase(self.log@) == WriterPhase::Writing(self.stack@.len())
                && b.frames == node_frames(self.stack@, self.current@) && self.root is None,
            Phase::Finished => {
                &&& writer_phase(self.log@) is Finished
                &&& b.frames.len() == 0
                &&& self.root matches Some(n) && b.root == Some(n@)
            },
        }
    }

    closed spec fn atom_options(&self) -> Seq<()> {
        self.opts@
    }

    closed spec fn calls(&self) -> nat {
        self.log@.len()
    }

    open spec fn infallible() -> bool {
        true
    }

    fn write_atom(&mut self, atom: &str, opts: ()) -> (r: Result<(), Infallible>) {
        proof {
            Self::lemma_build_push(self.log@, WriteEvent::Atom(atom@));
        }
        let n = Node::Atom(atom.to_owned());
        match self.phase {
            Phase::Beginning => {
                self.root = Some(n);
                self.phase = Phase::Finished;
            },
            Phase::Writing => {
                let ghost frames = node_frames(self.stack@, self.current@);
                let ghost before = self.current@;
                self.current.push(n);
                proof {
                    assert(node_values(self.current@) =~= node_values(before).push(n@));
                    assert(node_frames(self.stack@, self.current@) =~= add_to_innermost(
                        frames,
                        n@,
                    ));
                }
            },
            Phase::Finished => {},
        }
        self.opts = Ghost(self.opts@.push(opts));
        self.log = Ghost(self.log@.push(WriteEvent::Atom(atom@)));
        Ok(())
    }

    fn begin_list(&mut self, opts: ()) -> (r: Result<(), Infallible>) {
        proof {
            Self::lemma_build_push(self.log@, WriteEvent::BeginList);
        }
        match self.phase {
            Phase::Beginning => {
                self.phase = Phase::Writing;
                assert(node_values(self.current@) =~= Seq::<NodeValue>::empty());
                assert(node_frames(self.stack@, self.current@) =~= seq![Seq::<NodeValue>::empty()]);
            },
            Phase::Writing => {
                let ghost frames = node_frames(self.stack@, self.current@);
                let ghost old_stack = self.stack@;
                let mut c: Vec<Node> = Vec::new();
                std::mem::swap(&mut c, &mut self.current);
                self.stack.push(c);
                proof {
                    assert(node_stack_values(self.stack@) =~= node_stack_values(old_stack).push(
                        node_values(c@),
                    ));
                    assert(node_values(self.current@) =~= Seq::<NodeValue>::empty());
                    assert(node_frames(self.stack@, self.current@) =~= frames.push(Seq::empty()));
                }
            },
            Phase::Finished => {},
        }
        self.log = Ghost(self.log@.push(WriteEvent::BeginList));
        Ok(())
    }

    fn end_list(&mut self, opts: ()) -> (r: Result<(), Infallible>) {
        proof {
            Self::lemma_build_push(self.log@, WriteEvent::EndList);
        }
        let ghost frames = node_frames(self.stack@, self.current@);
        let ghost old_stack = self.stack@;
        proof {
            assert(frames.last() == node_values(self.current@));
        }
        match self.stack.pop() {
            Some(parent) => {
                let mut done = parent;
                std::mem::swap(&mut done, &mut self.current);
                proof {
                    lemma_node_list_value(done);
                    assert(node_stack_values(self.stack@) =~= node_stack_values(old_stack).drop_last());
                    assert(node_stack_values(old_stack).last() == node_values(self.current@));
                }
                let ghost before = self.current@;
                self.current.push(Node::List(done));
                proof {
                    assert(node_values(self.current@) =~= node_values(before).push(
                        Node::List(done)@,
                    ));
                    assert(node_frames(self.stack@, self.current@) =~= add_to_innermost(
                        frames.drop_last(),
                        NodeValue::List(frames.last()),
                    ));
                }
            },
            None => {
                let mut done: Vec<Node> = Vec::new();
                std::mem::swap(&mut done, &mut self.current);
                proof {
                    lemma_node_list_value(done);
                }
                self.root = Some(Node::List(done));
                self.phase = Phase::Finished;
            },
        }
        self.log = Ghost(self.log@.push(WriteEvent::EndList));
        Ok(())
    }

    fn finish(self, opts: ()) -> (r: Result<Node, Infallible>)
        ensures
            r matches Ok(n) && built_tree(self.events()) == Some(n@),
    {
        match self.root {
            Some(n) => Ok(n),
            None => Ok(Node::List(Vec::new())),
        }
    }
}

/// Builds compose: `a` then `b` from `x` is `a + b`.
proof fn lemma_build_concat(x: TreeBuild, a: Seq<WriteEvent>, b: Seq<WriteEvent>)
    ensures
        build_after(x, a + b) == build_after(build_after(x, a), b),
    decreases b.len(),
{
    if b.len() == 0 {
        assert(a + b =~= a);
    } else {
        assert((a + b).drop_last() =~= a + b.drop_last());
        assert((a + b).last() == b.last());
        lemma_build_concat(x, a, b.drop_last());
    }
}

proof fn lemma_build_single(x: TreeBuild, e: WriteEvent)
    ensures
        build_after(x, seq![e]) == build_step(x, e),
{
    reveal_with_fuel(build_after, 2);
    assert(seq![e].drop_last() =~= Seq::<WriteEvent>::empty());
    assert(seq![e].last() == e);
}

/// Building a whole node inside an open list adds it to that list.
proof fn lemma_build_node(x: TreeBuild, v: NodeValue)
    requires
        x.frames.len() > 0,
    ensures
        build_after(x, tree_events(v)) == (TreeBuild {
            frames: add_to_innermost(x.frames, v),
            root: x.root,
        }),
    decreases v, 1int,
{
    match v {
        NodeValue::Atom(a) => {
            lemma_build_single(x, WriteEvent::Atom(a));
        },
        NodeValue::List(items) => {
            let open = seq![WriteEvent::BeginList];
            let close = seq![WriteEvent::EndList];
            let body = items_events(items);
            assert(tree_events(v) == open + body + close);
            lemma_build_single(x, WriteEvent::BeginList);
            let x1 = build_step(x, WriteEvent::BeginList);
            lemma_build_items(x1, items);
            let x2 = build_after(x1, body);
            assert(x2.frames.drop_last() =~= x.frames);
            lemma_build_single(x2, WriteEvent::EndList);
            lemma_build_concat(x, open, body);
            lemma_build_concat(x, open + body, close);
            assert(x1.frames.last() + items =~= items);
        },
    }
}

/// Building whole nodes inside an open list adds them to that list.
proof fn lemma_build_items(x: TreeBuild, items: Seq<NodeValue>)
    requires
        x.frames.len() > 0,
    ensures
        build_after(x, items_events(items)) == (TreeBuild {
            frames: x.frames.update(x.frames.len() - 1, x.frames.last() + items),
            root: x.root,
        }),
    decreases items, 0int,
{
    if items.len() == 0 {
        assert(x.frames.update(x.frames.len() - 1, x.frames.last() + items) =~= x.frames);
    } else {
        let init = items.drop_last();
        let last = items.last();
        assert(decreases_to!(items => last));
        lemma_build_items(x, init);
        let x1 = build_after(x, items_events(init));
        lemma_build_node(x1, last);
        lemma_build_concat(x, items_events(init), tree_events(last));
        assert(x1.frames.last() == x.frames.last() + init);
        assert((x.frames.last() + init).push(last) =~= x.frames.last() + items);
        assert(add_to_innermost(x1.frames, last) =~= x.frames.update(
            x.frames.len() - 1,
            x.frames.last() + items,
        ));
    }
}

/// Writing a tree into a `TreeWriter` builds the same tree.
pub proof fn lemma_tree_write_build(v: NodeValue)
    ensures
        built_tree(tree_events(v)) == Some(v),
{
    let x = empty_build();
    match v {
        NodeValue::Atom(a) => {
            lemma_build_single(x, WriteEvent::Atom(a));
        },
        NodeValue::List(items) => {
            let open = seq![WriteEvent::BeginList];
            let close = seq![WriteEvent::EndList];
            let body = items_events(items);
            assert(tree_events(v) == open + body + close);
            lemma_build_single(x, WriteEvent::BeginList);
            let x1 = build_step(x, WriteEvent::BeginList);
            lemma_build_items(x1, items);
            let x2 = build_after(x1, body);
            lemma_build_single(x2, WriteEvent::EndList);
            lemma_build_concat(x, open, body);
            lemma_build_concat(x, open + body, close);
            assert(x1.frames.last() + items =~= items);
        },
    }
}

} // verus!
