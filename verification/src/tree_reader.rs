//! A reader that reads the nodes of a tree.
use vstd::prelude::*;
use std::convert::Infallible;

use crate::reader::{kind_event, ReadItem, ReadItemKind, Reader};
use crate::tree::{lemma_node_list_value, node_values, Node, NodeValue};
use crate::tree_writer::{built_tree, lemma_tree_write_build};
use crate::writer::{
    items_events, lemma_phase_after_concat, lemma_tree_events_phase, phase_after, phase_step,
    tree_events, writer_phase, WriteEvent, WriterPhase,
};

verus! {

/// The events left in a list being read from its `i`-th item on, with its end.
pub open spec fn frame_pending(list: Seq<Node>, i: int) -> Seq<WriteEvent> {
    items_events(node_values(list).skip(i)) + seq![WriteEvent::EndList]
}

/// The events left in the enclosing lists on `stack` (innermost last).
pub open spec fn stack_pending<'a>(stack: Seq<(&'a Vec<Node>, usize)>) -> Seq<WriteEvent>
    decreases stack.len(),
{
    if stack.len() == 0 {
        Seq::empty()
    } else {
        frame_pending(stack.last().0@, stack.last().1 as int) + stack_pending(stack.drop_last())
    }
}

/// Reader that reads the nodes of a tree, in order.
pub struct TreeReader<'a> {
    root: &'a Node,
    phase: Phase,
    stack: Vec<(&'a Vec<Node>, usize)>,
    current: Option<(&'a Vec<Node>, usize)>,
    log: Ghost<Seq<WriteEvent>>,
}

enum Phase {
    Beginning,
    Reading,
    Finished,
}

/// The events of `a + b` are those of `a`, then those of `b`.
pub proof fn lemma_items_events_concat(a: Seq<NodeValue>, b: Seq<NodeValue>)
    ensures
        items_events(a + b) == items_events(a) + items_events(b),
    decreases b.len(),
{
    if b.len() == 0 {
        assert(a + b =~= a);
        assert(items_events(a) + items_events(b) =~= items_events(a));
    } else {
        assert((a + b).drop_last() =~= a + b.drop_last());
        assert((a + b).last() == b.last());
        lemma_items_events_concat(a, b.drop_last());
        assert(items_events(a + b) =~= items_events(a) + items_events(b));
    }
}

/// The events of the items from the `i`-th on are those of the `i`-th, then
/// those of the rest.
pub proof fn lemma_items_events_skip(s: Seq<NodeValue>, i: int)
    requires
        0 <= i < s.len(),
    ensures
        items_events(s.skip(i)) == tree_events(s[i]) + items_events(s.skip(i + 1)),
{
    assert(s.skip(i) =~= seq![s[i]] + s.skip(i + 1));
    lemma_items_events_concat(seq![s[i]], s.skip(i + 1));
    reveal_with_fuel(items_events, 2);
    assert(seq![s[i]].drop_last() =~= Seq::<NodeValue>::empty());
    assert(items_events(seq![s[i]]) =~= tree_events(s[i]));
}

/// Once the root node is complete, no more events can follow.
pub proof fn lemma_phase_after_finished(p: WriterPhase, x: Seq<WriteEvent>)
    requires
        p is Finished || p is Invalid,
        x.len() > 0,
    ensures
        phase_after(p, x) is Invalid,
    decreases x.len(),
{
    if x.len() > 1 {
        lemma_phase_after_finished(p, x.drop_last());
    } else {
        reveal_with_fuel(phase_after, 2);
        assert(x.drop_last() =~= Seq::<WriteEvent>::empty());
    }
}

/// A tree is determined by its events, and the events of a tree are not the
/// beginning of the events of another one: whatever reads, from a reader of
/// `t`, the events of a whole node `n` has read `t` itself.
pub proof fn lemma_read_back(t: NodeValue, n: NodeValue, pending: Seq<WriteEvent>)
    requires
        tree_events(n) + pending == tree_events(t),
    ensures
        n == t,
        pending.len() == 0,
{
    lemma_tree_events_phase(t, 0);
    lemma_tree_events_phase(n, 0);
    lemma_phase_after_concat(WriterPhase::Beginning, tree_events(n), pending);
    if pending.len() > 0 {
        lemma_phase_after_finished(WriterPhase::Finished, pending);
    }
    assert(tree_events(n) + pending =~= tree_events(n));
    lemma_tree_write_build(t);
    lemma_tree_write_build(n);
}

impl<'a> TreeReader<'a> {
    /// The tree being read.
    pub closed spec fn tree(&self) -> NodeValue {
        self.root@
    }

    /// The events left to read.
    pub closed spec fn pending(&self) -> Seq<WriteEvent> {
        match self.phase {
            Phase::Beginning => tree_events(self.root@),
            Phase::Reading => match self.current {
                Some((l, i)) => frame_pending(l@, i as int) + stack_pending(self.stack@),
                None => Seq::empty(),
            },
            Phase::Finished => Seq::empty(),
        }
    }

    /// What a consistent reader has read, and what it will read.
    pub proof fn lemma_pending(&self)
        requires
            self.wf(),
        ensures
            self.consumed() + self.pending() == tree_events(self.tree()),
            self.pending().len() == 0 <==> writer_phase(self.consumed()) is Finished,
    {
        if self.phase is Reading {
            let (l, i) = self.current->Some_0;
            assert(frame_pending(l@, i as int).len() > 0);
        }
    }

    /// Reading back: once a reader of the tree `t` has read the events of a
    /// whole node `n` (as `read_into_tree` does), `n` is `t` and the reader
    /// has nothing left to read.
    pub proof fn lemma_reads_back_tree(&self, n: NodeValue)
        requires
            self.wf(),
            self.consumed() == tree_events(n),
        ensures
            n == self.tree(),
            writer_phase(self.consumed()) is Finished,
    {
        self.lemma_pending();
        lemma_read_back(self.tree(), n, self.pending());
    }

    /// Creates a reader of the nodes of `root_node`.
    pub fn new(root_node: &'a Node) -> (r: Self)
        ensures
            r.wf(),
            r.consumed() == Seq::<WriteEvent>::empty(),
            r.tree() == root_node@,
            !r.ends_list_next(),
            r.reads() == 0,
    {
        let r = TreeReader {
            root: root_node,
            phase: Phase::Beginning,
            stack: Vec::new(),
            current: None,
            log: Ghost(Seq::empty()),
        };
        assert(r.log@ + r.pending() =~= tree_events(root_node@));
        proof {
            match root_node@ {
                crate::tree::NodeValue::Atom(a) => {},
                crate::tree::NodeValue::List(items) => {
                    assert(tree_events(root_node@)[0] == WriteEvent::BeginList);
                },
            }
        }
        r
    }
}

impl<'a> Reader for TreeReader<'a> {
    type Error = Infallible;
    type String = &'a str;
    type Pos = ();

    closed spec fn wf(&self) -> bool {
        &&& self.log@ + self.pending() == tree_events(self.root@)
        &&& forall|k: int|
            0 <= k < self.stack@.len() ==> #[trigger] self.stack@[k].1 <= self.stack@[k].0@.len()
        &&& match self.phase {
            Phase::Beginning => self.log@.len() == 0 && self.stack@.len() == 0,
            Phase::Reading => {
                &&& writer_phase(self.log@) == WriterPhase::Writing(self.stack@.len())
                &&& self.current matches Some((l, i)) && i <= l@.len()
            },
            Phase::Finished => writer_phase(self.log@) is Finished,
        }
    }

    closed spec fn consumed(&self) -> Seq<WriteEvent> {
        self.log@
    }

    open spec fn positions(&self) -> Seq<()> {
        Seq::new(self.consumed().len(), |i: int| ())
    }

    closed spec fn bound(&self) -> nat {
        self.pending().len()
    }

    open spec fn infallible() -> bool {
        true
    }

    open spec fn next_error(&self) -> Option<Self::Error> {
        None
    }

    open spec fn next_read(&self) -> Option<(WriteEvent, ())> {
        if self.pending().len() > 0 {
            Some((self.pending()[0], ()))
        } else {
            None
        }
    }

    open spec fn same_source(&self, other: &Self) -> bool {
        self.tree() == other.tree()
    }

    proof fn lemma_same_source(a: &Self, b: &Self, c: &Self) {
    }

    closed spec fn reads(&self) -> nat {
        self.log@.len()
    }

    closed spec fn ends_list_next(&self) -> bool {
        self.pending().len() > 0 && self.pending()[0] is EndList
    }

    fn read(&mut self) -> (r: Result<ReadItem<&'a str, ()>, Infallible>)
        ensures
            r is Ok,
            final(self).tree() == old(self).tree(),
    {
        let ghost log0 = self.log@;
        let ghost pending0 = self.pending();
        let kind: ReadItemKind<&'a str>;
        match self.phase {
            Phase::Beginning => {
                match self.root {
                    Node::Atom(atom) => {
                        self.phase = Phase::Finished;
                        kind = ReadItemKind::Atom(atom.as_str());
                    },
                    Node::List(list) => {
                        self.phase = Phase::Reading;
                        self.current = Some((list, 0));
                        proof {
                            lemma_node_list_value(*list);
                            assert(node_values(list@).skip(0) =~= node_values(list@));
                            assert(self.stack@.len() == 0);
                        }
                        kind = ReadItemKind::ListBeginning;
                    },
                }
            },
            Phase::Reading => match self.current {
                Some((list, i)) => {
                    if i < list.len() {
                        let node = &list[i];
                        proof {
                            lemma_items_events_skip(node_values(list@), i as int);
                            assert(node_values(list@)[i as int] == node@);
                        }
                        match node {
                            Node::Atom(atom) => {
                                self.current = Some((list, i + 1));
                                kind = ReadItemKind::Atom(atom.as_str());
                            },
                            Node::List(sub) => {
                                let ghost old_stack = self.stack@;
                                self.stack.push((list, i + 1));
                                self.current = Some((sub, 0));
                                proof {
                                    lemma_node_list_value(*sub);
                                    assert(node_values(sub@).skip(0) =~= node_values(sub@));
                                    assert(self.stack@.drop_last() =~= old_stack);
                                }
                                kind = ReadItemKind::ListBeginning;
                            },
                        }
                    } else {
                        proof {
                            assert(node_values(list@).skip(i as int) =~= Seq::<NodeValue>::empty());
                        }
                        let ghost old_stack = self.stack@;
                        match self.stack.pop() {
                            Some(parent) => {
                                self.current = Some(parent);
                                proof {
                                    assert(old_stack.drop_last() =~= self.stack@);
                                    assert(old_stack.last() == parent);
                                }
                            },
                            None => {
                                self.current = None;
                                self.phase = Phase::Finished;
                            },
                        }
                        kind = ReadItemKind::ListEnding;
                    }
                },
                None => {
                    kind = ReadItemKind::ListEnding;
                },
            },
            Phase::Finished => {
                kind = ReadItemKind::ListEnding;
            },
        }
        self.log = Ghost(self.log@.push(kind_event(kind)));
        proof {
            assert(log0.push(kind_event(kind)).drop_last() =~= log0);
            assert(pending0 =~= seq![kind_event(kind)] + self.pending());
            assert(self.log@ + self.pending() =~= log0 + pending0);
            assert(Seq::new(self.log@.len(), |i: int| ()) =~= Seq::new(log0.len(), |i: int| ()).push(()));
        }
        Ok(ReadItem { pos: (), kind })
    }

    fn finish(self) -> (r: Result<(), Infallible>)
        ensures
            r is Ok,
    {
        Ok(())
    }
}

} // verus!
