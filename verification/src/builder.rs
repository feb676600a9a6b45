//! Building a tree of nodes one node at a time.
use vstd::prelude::*;

use crate::parse_tree::{node_frames, node_stack_values};
use crate::syntax::add_to_innermost;
use crate::tree::{lemma_node_list_value, node_values, value_at_path, Node, NodeValue};

verus! {

/// The storage of a `Builder`: the lists being built, innermost last; the
/// outermost one is the root list.
pub struct BuilderBase {
    stack: Vec<Vec<Node>>,
    current: Vec<Node>,
}

/// Builds nodes into a `BuilderBase`. It cannot end lists that were open
/// when it was created (the first `min_depth` enclosing ones).
pub struct Builder<'a> {
    pub base: &'a mut BuilderBase,
    pub min_depth: usize,
}

/// The index path of the last node added: for each enclosing list, the
/// index of the list it holds open, then the index of the last node of the
/// innermost list if it has one.
pub open spec fn last_path(frames: Seq<Seq<NodeValue>>) -> Seq<usize> {
    Seq::new((frames.len() - 1) as nat, |i: int| frames[i].len() as usize) + if frames.last().len()
        > 0 {
        seq![(frames.last().len() - 1) as usize]
    } else {
        Seq::empty()
    }
}

impl BuilderBase {
    /// The values of the lists being built, outermost first.
    pub closed spec fn frames(&self) -> Seq<Seq<NodeValue>> {
        node_frames(self.stack@, self.current@)
    }

    /// The root list is always open: there is at least one frame.
    pub proof fn lemma_frames_nonempty(&self)
        ensures
            self.frames().len() >= 1,
    {
    }

    /// A storage with an empty root list.
    pub fn new() -> (b: Self)
        ensures
            b.frames() == seq![Seq::<NodeValue>::empty()],
    {
        let b = Self { stack: Vec::new(), current: Vec::new() };
        assert(node_values(b.current@) =~= Seq::<NodeValue>::empty());
        assert(b.frames() =~= seq![Seq::<NodeValue>::empty()]);
        b
    }

    /// A builder that builds into `self`, which must be empty.
    pub fn builder(&mut self) -> (b: Builder<'_>)
        requires
            old(self).frames() == seq![Seq::<NodeValue>::empty()],
        ensures
            *b.base == *old(self),
            b.min_depth == 0,
            *final(self) == *final(b.base),
    {
        proof {
            assert(self.frames().len() == self.stack@.len() + 1);
            assert(self.frames().last() == node_values(self.current@));
        }
        Builder { base: self, min_depth: 0 }
    }

    /// The root list. No other list may be open.
    pub fn into_node(self) -> (n: Node)
        requires
            self.frames().len() == 1,
        ensures
            n@ == NodeValue::List(self.frames()[0]),
    {
        proof {
            lemma_node_list_value(self.current);
        }
        Node::List(self.current)
    }
}

impl Default for BuilderBase {
    /// Same as `BuilderBase::new`.
    fn default() -> (b: Self)
        ensures
            b.frames() == seq![Seq::<NodeValue>::empty()],
    {
        Self::new()
    }
}

impl<'a> Builder<'a> {
    /// Returns the index path of the last inserted node (see `last_path`).
    pub fn last_index_path(&self) -> (p: Vec<usize>)
        ensures
            p@ == last_path(old(self.base).frames()),
    {
        let ghost frames = self.base.frames();
        let mut path: Vec<usize> = Vec::new();
        let mut i: usize = 0;
        while i < self.base.stack.len()
            invariant
                i <= self.base.stack@.len(),
                frames == self.base.frames(),
                path@ == Seq::new(i as nat, |k: int| frames[k].len() as usize),
            decreases self.base.stack@.len() - i,
        {
            path.push(self.base.stack[i].len());
            i = i + 1;
            assert(path@ =~= Seq::new(i as nat, |k: int| frames[k].len() as usize));
        }
        proof {
            assert(frames.len() == self.base.stack@.len() + 1);
            assert(frames.last() == node_values(self.base.current@));
        }
        if self.base.current.len() > 0 {
            path.push(self.base.current.len() - 1);
        }
        assert(path@ =~= last_path(frames));
        path
    }

    /// A builder over the same storage that cannot end the lists open now.
    pub fn sub_builder(&mut self) -> (b: Builder<'_>)
        ensures
            *b.base == *old(self).base,
            b.min_depth == old(self).base.frames().len() - 1,
            *final(self).base == *final(b.base),
            final(self).min_depth == old(self).min_depth,
            *final(final(self).base) == *final(old(self).base),
    {
        let min_depth = self.base.stack.len();
        Builder { base: &mut *self.base, min_depth }
    }

    /// Adds `node` to the innermost open list.
    pub fn add_node<T: Into<Node>>(&mut self, node: T)
        ensures
            final(self).min_depth == old(self).min_depth,
            *final(final(self).base) == *final(old(self).base),
            exists|n: Node|
                call_ensures(T::into, (node,), n) && final(self).base.frames() == add_to_innermost(
                    old(self).base.frames(),
                    n@,
                ),
    {
        let ghost frames = self.base.frames();
        let ghost before = self.base.current@;
        let n: Node = node.into();
        self.base.current.push(n);
        proof {
            assert(node_values(self.base.current@) =~= node_values(before).push(n@));
            assert(self.base.frames() =~= add_to_innermost(frames, n@));
        }
    }

    /// Begins a list, which will be added to the current one when it ends.
    pub fn begin_list(&mut self)
        ensures
            final(self).min_depth == old(self).min_depth,
            *final(final(self).base) == *final(old(self).base),
            final(self).base.frames() == old(self).base.frames().push(Seq::empty()),
    {
        let ghost frames = self.base.frames();
        let ghost old_stack = self.base.stack@;
        let mut c: Vec<Node> = Vec::new();
        std::mem::swap(&mut c, &mut self.base.current);
        self.base.stack.push(c);
        proof {
            assert(node_stack_values(self.base.stack@) =~= node_stack_values(old_stack).push(
                node_values(c@),
            ));
            assert(node_values(self.base.current@) =~= Seq::<NodeValue>::empty());
            assert(self.base.frames() =~= frames.push(Seq::empty()));
        }
    }

    /// Ends the innermost list, adding it to the enclosing one. It must not
    /// be one that was open when the builder was created.
    pub fn end_list(&mut self)
        requires
            old(self).base.frames().len() - 1 > old(self).min_depth,
        ensures
            final(self).min_depth == old(self).min_depth,
            *final(final(self).base) == *final(old(self).base),
            final(self).base.frames() == add_to_innermost(
                old(self).base.frames().drop_last(),
                NodeValue::List(old(self).base.frames().last()),
            ),
    {
        let ghost frames = self.base.frames();
        let ghost old_stack = self.base.stack@;
        proof {
            assert(frames.last() == node_values(self.base.current@));
        }
        match self.base.stack.pop() {
            Some(parent) => {
                let mut done = parent;
                std::mem::swap(&mut done, &mut self.base.current);
                proof {
                    lemma_node_list_value(done);
                    assert(node_stack_values(self.base.stack@) =~= node_stack_values(
                        old_stack,
                    ).drop_last());
                    assert(node_stack_values(old_stack).last() == node_values(self.base.current@));
                }
                let ghost before = self.base.current@;
                self.base.current.push(Node::List(done));
                proof {
                    assert(node_values(self.base.current@) =~= node_values(before).push(
                        Node::List(done)@,
                    ));
                    assert(self.base.frames() =~= add_to_innermost(
                        frames.drop_last(),
                        NodeValue::List(frames.last()),
                    ));
                }
            },
            None => {},
        }
    }

    /// Finishes the builder; the lists it began must have ended.
    pub fn finish(self)
        requires
            self.base.frames().len() - 1 == self.min_depth,
        ensures
            *final(self.base) == *old(self.base),
    {
    }
}

/// The tree that the lists open in `frames` make if they all end now: each
/// list is added to the one that encloses it, and the root list is the
/// tree.
pub open spec fn close_all(frames: Seq<Seq<NodeValue>>) -> NodeValue
    decreases frames.len(),
{
    if frames.len() <= 1 {
        NodeValue::List(if frames.len() == 1 { frames[0] } else { Seq::empty() })
    } else {
        close_all(add_to_innermost(frames.drop_last(), NodeValue::List(frames.last())))
    }
}

/// The index of each open list in the list that encloses it.
spec fn open_path(frames: Seq<Seq<NodeValue>>) -> Seq<usize> {
    Seq::new((frames.len() - 1) as nat, |i: int| frames[i].len() as usize)
}

/// In the tree that the open lists make, the path of the open lists leads
/// to the innermost one.
proof fn lemma_open_path(frames: Seq<Seq<NodeValue>>, q: Seq<usize>)
    requires
        frames.len() >= 1,
        forall|i: int| 0 <= i < frames.len() - 1 ==> #[trigger] frames[i].len() < usize::MAX,
    ensures
        value_at_path(close_all(frames), open_path(frames) + q) == value_at_path(
            NodeValue::List(frames.last()),
            q,
        ),
    decreases frames.len(),
{
    if frames.len() == 1 {
        assert(open_path(frames) + q =~= q);
    } else {
        let k = frames.len() - 1;
        let g = add_to_innermost(frames.drop_last(), NodeValue::List(frames.last()));
        assert forall|i: int| 0 <= i < g.len() - 1 implies #[trigger] g[i].len() < usize::MAX by {
            assert(g[i] == frames[i]);
        }
        let step = seq![frames[k - 1].len() as usize] + q;
        lemma_open_path(g, step);
        assert(open_path(g) + step =~= open_path(frames) + q);
        let parent = g.last();
        assert(parent == frames[k - 1].push(NodeValue::List(frames.last())));
        assert(step[0] == frames[k - 1].len());
        assert(step.drop_first() =~= q);
        assert(parent[frames[k - 1].len() as int] == NodeValue::List(frames.last()));
    }
}

/// `last_index_path` gives the index path of the last node added, or of the
/// list last begun: if all the open lists end now, that path leads to that
/// node (a list begun last is still empty).
pub proof fn lemma_last_index_path(frames: Seq<Seq<NodeValue>>)
    requires
        frames.len() >= 1,
        forall|i: int| 0 <= i < frames.len() ==> #[trigger] frames[i].len() < usize::MAX,
    ensures
        value_at_path(close_all(frames), last_path(frames)) == Some(
            if frames.last().len() > 0 {
                frames.last().last()
            } else {
                NodeValue::List(Seq::empty())
            },
        ),
{
    reveal_with_fuel(value_at_path, 2);
    let l = frames.last();
    if l.len() > 0 {
        let q = seq![(l.len() - 1) as usize];
        lemma_open_path(frames, q);
        assert(last_path(frames) =~= open_path(frames) + q);
        assert(q.drop_first() =~= Seq::<usize>::empty());
    } else {
        lemma_open_path(frames, Seq::empty());
        assert(last_path(frames) =~= open_path(frames) + Seq::<usize>::empty());
        assert(l =~= Seq::<NodeValue>::empty());
    }
}

} // verus!
