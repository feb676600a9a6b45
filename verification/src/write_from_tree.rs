//! Writing a tree of nodes with any writer.
use vstd::prelude::*;

use crate::syntax::is_valid_tree;
use crate::tree::{node_values, Node, NodeValue};
use crate::writer::{
    accepts_node, items_events, lemma_phase_after_concat, lemma_tree_events_phase, phase_after,
    tree_events, writer_phase, MaybeMultilineOptions, WriteEvent, Writer, WriterPhase,
};

verus! {

/// Options that `write_from_tree` gives to atoms: one for the first item of
/// a list, one for the others.
pub trait WriteFromTreeAtomOptions: Sized {
    /// The options that `list_beginning` gives.
    spec fn spec_list_beginning() -> Self;

    /// The options that `non_list_beginning` gives.
    spec fn spec_non_list_beginning() -> Self;

    /// The options for an atom that is the first item of a list.
    fn list_beginning() -> (r: Self)
        ensures
            r == Self::spec_list_beginning(),
    ;

    /// The options for an atom that is not the first item of a list.
    fn non_list_beginning() -> (r: Self)
        ensures
            r == Self::spec_non_list_beginning(),
    ;
}

impl<T: MaybeMultilineOptions> WriteFromTreeAtomOptions for T {
    /// The first atom of a list stays on the line of the list's `(`:
    /// `T::no_break_line()`.
    open spec fn spec_list_beginning() -> Self {
        T::spec_no_break_line()
    }

    /// Other atoms go on a new line where the writer supports it:
    /// `T::break_line()`.
    open spec fn spec_non_list_beginning() -> Self {
        T::spec_break_line()
    }

    fn list_beginning() -> Self {
        T::no_break_line()
    }

    fn non_list_beginning() -> Self {
        T::break_line()
    }
}

/// The events of `items` are those of all but the last, then those of the last.
pub proof fn lemma_items_events_push(items: Seq<NodeValue>, k: int)
    requires
        0 <= k < items.len(),
    ensures
        items_events(items.take(k + 1)) == items_events(items.take(k)) + tree_events(items[k]),
{
    assert(items.take(k + 1).drop_last() =~= items.take(k));
    assert(items.take(k + 1).last() == items[k]);
}

/// The options that `write_from_tree` gives to the atoms of `v`, in order,
/// where `v` is an item of a list and `first` says whether it is the list's
/// first item.
pub open spec fn node_atom_options<O: WriteFromTreeAtomOptions>(v: NodeValue, first: bool) -> Seq<
    O,
>
    decreases v, 1int,
{
    match v {
        NodeValue::Atom(_) => seq![
            if first {
                O::spec_list_beginning()
            } else {
                O::spec_non_list_beginning()
            },
        ],
        NodeValue::List(items) => items_atom_options::<O>(items),
    }
}

/// The options that `write_from_tree` gives to the atoms of the items of a
/// list, in order: the first item is a list beginning, the others are not.
pub open spec fn items_atom_options<O: WriteFromTreeAtomOptions>(items: Seq<NodeValue>) -> Seq<O>
    decreases items, 0int,
{
    if items.len() == 0 {
        Seq::empty()
    } else {
        items_atom_options::<O>(items.drop_last()) + node_atom_options::<O>(
            items.last(),
            items.len() == 1,
        )
    }
}

/// Whether a writer that went from `w0` to `w1` while asked to do the
/// events `planned` stopped at its first failure: a part of `planned` was
/// done, the next call failed, and no call followed.
pub open spec fn stopped_at_failure<W: Writer>(w0: W, w1: W, planned: Seq<WriteEvent>) -> bool {
    exists|k: int|
        #![trigger planned.take(k)]
        0 <= k < planned.len() && w1.events() == w0.events() + planned.take(k) && w1.calls()
            == w0.calls() + k + 1
}

/// The options of the first `k + 1` items are those of the first `k`, then
/// those of item `k`.
proof fn lemma_items_atom_options_push<O: WriteFromTreeAtomOptions>(items: Seq<NodeValue>, k: int)
    requires
        0 <= k < items.len(),
    ensures
        items_atom_options::<O>(items.take(k + 1)) == items_atom_options::<O>(items.take(k))
            + node_atom_options::<O>(items[k], k == 0),
{
    assert(items.take(k + 1).drop_last() =~= items.take(k));
    assert(items.take(k + 1).last() == items[k]);
}

/// A failure at step `j` of item `i` is a failure at a step of the whole
/// sequence of items.
proof fn lemma_failed_in_item(items: Seq<NodeValue>, i: int, j: int)
    requires
        0 <= i < items.len(),
        0 <= j < tree_events(items[i]).len(),
    ensures
        items_events(items.take(i)).len() + j < items_events(items).len(),
        items_events(items).take(items_events(items.take(i)).len() + j) == items_events(
            items.take(i),
        ) + tree_events(items[i]).take(j),
{
    lemma_items_events_push(items, i);
    crate::tree_reader::lemma_items_events_concat(items.take(i + 1), items.skip(i + 1));
    assert(items.take(i + 1) + items.skip(i + 1) =~= items);
    let a = items_events(items.take(i));
    let t = tree_events(items[i]);
    let rest = items_events(items.skip(i + 1));
    assert(items_events(items) == a + t + rest);
    assert((a + t + rest).take(a.len() + j) =~= a + t.take(j));
}

/// Writes the nodes `list`, the items of a list that `writer` has begun.
fn write_items<W: Writer>(writer: &mut W, list: &Vec<Node>) -> (r: Result<(), W::Error>) where
    W::AtomOptions: Default + WriteFromTreeAtomOptions,
    W::BeginListOptions: Default,
    W::EndListOptions: Default,

    requires
        old(writer).wf(),
        writer_phase(old(writer).events()) is Writing,
        forall|k: int| 0 <= k < list@.len() ==> is_valid_tree(#[trigger] list@[k]@),
    ensures
        final(writer).wf(),
        r is Ok ==> final(writer).events() == old(writer).events() + items_events(
            node_values(list@),
        ),
        r is Ok ==> final(writer).atom_options() == old(writer).atom_options()
            + items_atom_options::<W::AtomOptions>(node_values(list@)),
        r is Ok ==> final(writer).calls() == old(writer).calls() + items_events(
            node_values(list@),
        ).len(),
        r is Err ==> stopped_at_failure(*old(writer), *final(writer), items_events(node_values(list@))),
        W::infallible() ==> r is Ok,
    decreases list@, 0int,
{
    let ghost values = node_values(list@);
    let ghost start = old(writer).events();
    let ghost w0 = *old(writer);
    let ghost phase = writer_phase(start);
    let mut i: usize = 0;
    proof {
        assert(values.take(0) =~= Seq::<NodeValue>::empty());
        assert(start + items_events(values.take(0)) =~= start);
        assert(w0.atom_options() + items_atom_options::<W::AtomOptions>(values.take(0))
            =~= w0.atom_options());
    }
    while i < list.len()
        invariant
            writer.wf(),
            i <= list@.len(),
            values == node_values(list@),
            start == old(writer).events(),
            w0 == *old(writer),
            phase == writer_phase(start),
            phase is Writing,
            writer_phase(writer.events()) == phase,
            writer.events() == start + items_events(values.take(i as int)),
            writer.atom_options() == w0.atom_options() + items_atom_options::<W::AtomOptions>(
                values.take(i as int),
            ),
            writer.calls() == w0.calls() + items_events(values.take(i as int)).len(),
            forall|k: int| 0 <= k < list@.len() ==> is_valid_tree(#[trigger] list@[k]@),
        decreases list@.len() - i,
    {
        let ghost before = writer.events();
        let ghost wb = *writer;
        let node = &list[i];
        proof {
            lemma_items_events_push(values, i as int);
            lemma_items_atom_options_push::<W::AtomOptions>(values, i as int);
            lemma_tree_events_phase(node@, phase->Writing_0);
            lemma_phase_after_concat(WriterPhase::Beginning, before, tree_events(node@));
            assert(values[i as int] == node@);
        }
        match node {
            Node::Atom(atom) => {
                let opts = if i == 0 {
                    W::AtomOptions::list_beginning()
                } else {
                    W::AtomOptions::non_list_beginning()
                };
                assert(tree_events(node@) =~= seq![WriteEvent::Atom(atom@)]);
                match writer.write_atom(atom.as_str(), opts) {
                    Ok(()) => {},
                    Err(e) => {
                        proof {
                            lemma_failed_in_item(values, i as int, 0);
                            assert(tree_events(values[i as int]).take(0) =~= Seq::<WriteEvent>::empty());
                            assert(writer.events() =~= start + items_events(values).take(
                                items_events(values.take(i as int)).len() as int,
                            ));
                        }
                        return Err(e);
                    },
                }
            },
            Node::List(sub) => {
                proof {
                    crate::tree::lemma_node_list_value(*sub);
                    assert forall|k: int| 0 <= k < sub@.len() implies is_valid_tree(
                        #[trigger] sub@[k]@,
                    ) by {
                        crate::syntax::lemma_valid_item(node_values(sub@), k);
                    }
                }
                assert(decreases_to!(list@ => list@[i as int]));
                assert(decreases_to!(list@[i as int] => sub));
                assert(decreases_to!(sub => sub@));
                match write_list(writer, sub) {
                    Ok(()) => {},
                    Err(e) => {
                        proof {
                            let t = tree_events(values[i as int]);
                            let j = choose|j: int|
                                #![trigger t.take(j)]
                                0 <= j < t.len() && writer.events() == wb.events() + t.take(j)
                                    && writer.calls() == wb.calls() + j + 1;
                            lemma_failed_in_item(values, i as int, j);
                            assert(writer.events() =~= start + items_events(values).take(
                                items_events(values.take(i as int)).len() + j,
                            ));
                        }
                        return Err(e);
                    },
                }
            },
        }
        assert(writer.events() =~= before + tree_events(node@));
        i = i + 1;
        assert(writer.events() =~= start + items_events(values.take(i as int)));
        assert(writer.atom_options() =~= w0.atom_options() + items_atom_options::<W::AtomOptions>(
            values.take(i as int),
        ));
    }
    assert(values.take(i as int) =~= values);
    Ok(())
}

/// Writes the list whose items are `list`.
fn write_list<W: Writer>(writer: &mut W, list: &Vec<Node>) -> (r: Result<(), W::Error>) where
    W::AtomOptions: Default + WriteFromTreeAtomOptions,
    W::BeginListOptions: Default,
    W::EndListOptions: Default,

    requires
        old(writer).wf(),
        accepts_node(writer_phase(old(writer).events())),
        forall|k: int| 0 <= k < list@.len() ==> is_valid_tree(#[trigger] list@[k]@),
    ensures
        final(writer).wf(),
        r is Ok ==> final(writer).events() == old(writer).events() + tree_events(
            NodeValue::List(node_values(list@)),
        ),
        r is Ok ==> final(writer).atom_options() == old(writer).atom_options()
            + items_atom_options::<W::AtomOptions>(node_values(list@)),
        r is Ok ==> final(writer).calls() == old(writer).calls() + tree_events(
            NodeValue::List(node_values(list@)),
        ).len(),
        r is Err ==> stopped_at_failure(
            *old(writer),
            *final(writer),
            tree_events(NodeValue::List(node_values(list@))),
        ),
        W::infallible() ==> r is Ok,
    decreases list@, 1int,
{
    let ghost start = old(writer).events();
    let ghost w0 = *old(writer);
    let ghost values = node_values(list@);
    let ghost planned = tree_events(NodeValue::List(values));
    let ghost inner = items_events(values);
    assert(planned =~= seq![WriteEvent::BeginList] + inner + seq![WriteEvent::EndList]);
    match writer.begin_list(W::BeginListOptions::default()) {
        Ok(()) => {},
        Err(e) => {
            assert(writer.events() =~= start + planned.take(0));
            return Err(e);
        },
    }
    proof {
        assert(start.push(WriteEvent::BeginList).drop_last() =~= start);
    }
    let ghost w1 = *writer;
    match write_items(writer, list) {
        Ok(()) => {},
        Err(e) => {
            proof {
                let j = choose|j: int|
                    #![trigger inner.take(j)]
                    0 <= j < inner.len() && writer.events() == w1.events() + inner.take(j)
                        && writer.calls() == w1.calls() + j + 1;
                assert(planned.take(1 + j) =~= seq![WriteEvent::BeginList] + inner.take(j));
                assert(writer.events() =~= start + planned.take(1 + j));
            }
            return Err(e);
        },
    }
    proof {
        lemma_items_events_phase_after(writer_phase(start.push(WriteEvent::BeginList)), values);
        lemma_phase_after_concat(
            WriterPhase::Beginning,
            start.push(WriteEvent::BeginList),
            inner,
        );
    }
    match writer.end_list(W::EndListOptions::default()) {
        Ok(()) => {},
        Err(e) => {
            proof {
                assert(planned.take(1 + inner.len() as int) =~= seq![WriteEvent::BeginList] + inner);
                assert(writer.events() =~= start + planned.take(1 + inner.len() as int));
            }
            return Err(e);
        },
    }
    assert(writer.events() =~= start + planned);
    Ok(())
}

proof fn lemma_items_events_phase_after(p: WriterPhase, items: Seq<NodeValue>)
    requires
        p is Writing,
    ensures
        phase_after(p, items_events(items)) == p,
{
    crate::writer::lemma_items_events_phase(items, p->Writing_0);
}

/// Writes the tree `root_node` with `writer`, which must be able to take a
/// node. The first atom of each list gets `list_beginning` options, the
/// other atoms `non_list_beginning` ones; lists get default options, and so
/// does a root node that is an atom. A writer error is returned as it is,
/// and no call is made after it.
pub fn write_from_tree<W: Writer>(writer: &mut W, root_node: &Node) -> (r: Result<(), W::Error>) where
    W::AtomOptions: Default + WriteFromTreeAtomOptions,
    W::BeginListOptions: Default,
    W::EndListOptions: Default,

    requires
        old(writer).wf(),
        accepts_node(writer_phase(old(writer).events())),
        is_valid_tree(root_node@),
    ensures
        final(writer).wf(),
        r is Ok ==> final(writer).events() == old(writer).events() + tree_events(root_node@),
        r is Ok ==> final(writer).calls() == old(writer).calls() + tree_events(root_node@).len(),
        r is Ok && root_node@ is List ==> final(writer).atom_options() == old(
            writer,
        ).atom_options() + items_atom_options::<W::AtomOptions>(root_node@->List_0),
        r is Ok && root_node@ is Atom ==> final(writer).atom_options().drop_last() == old(
            writer,
        ).atom_options() && final(writer).atom_options().len() == old(writer).atom_options().len()
            + 1,
        r is Ok && root_node@ is Atom ==> call_ensures(
            <W::AtomOptions as Default>::default,
            (),
            final(writer).atom_options().last(),
        ),
        r is Err ==> stopped_at_failure(*old(writer), *final(writer), tree_events(root_node@)),
        W::infallible() ==> r is Ok,
{
    match root_node {
        Node::Atom(atom) => {
            let r = writer.write_atom(atom.as_str(), W::AtomOptions::default());
            assert(tree_events(root_node@) =~= seq![WriteEvent::Atom(atom@)]);
            assert(old(writer).events().push(WriteEvent::Atom(atom@)) =~= old(writer).events() + seq![WriteEvent::Atom(atom@)]);
            assert(old(writer).events() =~= old(writer).events() + tree_events(root_node@).take(0));
            proof {
                if r is Ok {
                    assert(writer.atom_options().drop_last() =~= old(writer).atom_options());
                }
            }
            r
        },
        Node::List(list) => {
            proof {
                crate::tree::lemma_node_list_value(*list);
                assert forall|k: int| 0 <= k < list@.len() implies is_valid_tree(
                    #[trigger] list@[k]@,
                ) by {
                    crate::syntax::lemma_valid_item(node_values(list@), k);
                }
            }
            write_list(writer, list)
        },
    }
}

} // verus!
