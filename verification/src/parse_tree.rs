//! Building trees from a parser.
use vstd::prelude::*;

use crate::parser::{error_at, ParseError, ParsedItem, Parser};
use crate::syntax::{
    add_to_innermost, can_read_node, lemma_lex_token_bounds, open_lists, read_items, read_tree,
    SyntaxError,
};
use crate::tree::{
    lemma_node_list_value, lemma_tree_node_list_value, node_values, tree_node_values, Node,
    NodeValue, TreeNode,
};

use crate::parser::{lemma_parse_run_events_prefix, parse_run_events, parse_step_result};
use crate::syntax::next_item_step;
use crate::read_into_tree::{
    lemma_open_events_add, lemma_open_events_close, lemma_open_events_push,
    lemma_open_events_single, lemma_same_items_same_node, open_events,
};
use crate::tree_reader::lemma_phase_after_finished;
use crate::writer::{
    items_events, lemma_items_events_phase, lemma_phase_after_concat, lemma_phase_single,
    lemma_tree_events_phase, phase_after, tree_events, WriteEvent, WriterPhase,
};

verus! {

/// Whether the items that a parser over `s` gives from step `k` on form
/// the node `v`: each of the next steps succeeds, and together they give
/// the events of `v`.
pub open spec fn next_items_form(s: Seq<char>, k: nat, v: NodeValue) -> bool {
    &&& forall|i: nat|
        k <= i < k + tree_events(v).len() ==> (#[trigger] parse_step_result(s, i)) is Ok
    &&& parse_run_events(s, k + tree_events(v).len()) == parse_run_events(s, k) + tree_events(v)
}

/// Lists that have begun and not ended leave a writer inside them.
proof fn lemma_open_events_phase(frames: Seq<Seq<NodeValue>>)
    requires
        frames.len() >= 1,
    ensures
        phase_after(WriterPhase::Beginning, open_events(frames)) == WriterPhase::Writing(
            (frames.len() - 1) as nat,
        ),
    decreases frames.len(),
{
    let before = open_events(frames.drop_last());
    let p = phase_after(WriterPhase::Beginning, before);
    if frames.len() == 1 {
        assert(frames.drop_last().len() == 0);
        assert(p == WriterPhase::Beginning);
    } else {
        lemma_open_events_phase(frames.drop_last());
    }
    let d = (frames.len() - 1) as nat;
    lemma_phase_single(p, WriteEvent::BeginList);
    lemma_phase_after_concat(WriterPhase::Beginning, before, seq![WriteEvent::BeginList]);
    lemma_items_events_phase(frames.last(), d);
    lemma_phase_after_concat(
        WriterPhase::Beginning,
        before + seq![WriteEvent::BeginList],
        items_events(frames.last()),
    );
}

/// The events of lists that have not ended do not begin with a whole node.
proof fn lemma_open_events_not_node(frames: Seq<Seq<NodeValue>>, v: NodeValue)
    requires
        frames.len() >= 1,
    ensures
        !(tree_events(v).len() <= open_events(frames).len() && open_events(frames).take(
            tree_events(v).len() as int,
        ) == tree_events(v)),
{
    let o = open_events(frames);
    let t = tree_events(v);
    if t.len() <= o.len() && o.take(t.len() as int) == t {
        let rest = o.skip(t.len() as int);
        assert(o =~= t + rest);
        lemma_open_events_phase(frames);
        lemma_tree_events_phase(v, 0);
        lemma_phase_after_concat(WriterPhase::Beginning, t, rest);
        if rest.len() > 0 {
            lemma_phase_after_finished(WriterPhase::Finished, rest);
        }
    }
}

/// A node whose events the next steps give is the node that the next
/// items form.
proof fn lemma_read_node_is_next(s: Seq<char>, k: nat, v: NodeValue, n: NodeValue)
    requires
        next_items_form(s, k, v),
        parse_run_events(s, k + tree_events(n).len()) == parse_run_events(s, k) + tree_events(n),
    ensures
        n == v,
{
    let c0 = parse_run_events(s, k);
    let ev = tree_events(v);
    let en = tree_events(n);
    if en.len() <= ev.len() {
        lemma_parse_run_events_prefix(s, k + en.len(), k + ev.len());
        assert(ev.take(en.len() as int) =~= (c0 + ev).take((c0 + en).len() as int).skip(
            c0.len() as int,
        ));
        assert(en =~= (c0 + en).skip(c0.len() as int));
        assert(ev.take(ev.len() as int) =~= ev);
        lemma_same_items_same_node(n, v, ev);
    } else {
        lemma_parse_run_events_prefix(s, k + ev.len(), k + en.len());
        assert(en.take(ev.len() as int) =~= (c0 + en).take((c0 + ev).len() as int).skip(
            c0.len() as int,
        ));
        assert(ev =~= (c0 + ev).skip(c0.len() as int));
        assert(en.take(en.len() as int) =~= en);
        lemma_same_items_same_node(n, v, en);
    }
}

/// Where the next items form a node, each step succeeds until a whole node
/// has been read.
proof fn lemma_no_failure_before_node(
    s: Seq<char>,
    k: nat,
    v: NodeValue,
    consumed: Seq<WriteEvent>,
)
    requires
        next_items_form(s, k, v),
        parse_run_events(s, k + consumed.len()) == parse_run_events(s, k) + consumed,
        !(tree_events(v).len() <= consumed.len() && consumed.take(tree_events(v).len() as int)
            == tree_events(v)),
    ensures
        parse_step_result(s, k + consumed.len()) is Ok,
{
    let c0 = parse_run_events(s, k);
    let ev = tree_events(v);
    if consumed.len() < ev.len() {
        let i: nat = k + consumed.len();
        assert(parse_step_result(s, i) is Ok);
    } else {
        lemma_parse_run_events_prefix(s, k + ev.len(), k + consumed.len());
        assert(consumed.take(ev.len() as int) =~= (c0 + consumed).take((c0 + ev).len() as int).skip(
            c0.len() as int,
        ));
        assert(ev =~= (c0 + ev).skip(c0.len() as int));
    }
}

/// A parser that went from `p0` to `p1` reading the events of `n`, one per
/// step, read the node that the next items formed, if they formed one.
proof fn lemma_next_node_read(p0: Parser, p1: Parser, n: NodeValue)
    requires
        p0.wf(),
        p1.wf(),
        p1.input() == p0.input(),
        p1.items_read() == p0.items_read() + tree_events(n),
        p1.steps() == p0.steps() + tree_events(n).len(),
    ensures
        forall|v: NodeValue| #[trigger] next_items_form(p0.input(), p0.steps(), v) ==> v == n,
{
    p0.lemma_steps_from_beginning();
    p1.lemma_steps_from_beginning();
    assert forall|v: NodeValue| #[trigger] next_items_form(p0.input(), p0.steps(), v) implies v
        == n by {
        lemma_read_node_is_next(p0.input(), p0.steps(), v, n);
    }
}

/// A parser that went from `p0` to `pb` reading `consumed`, one event per
/// step and no whole node, and whose next step fails, did not stand before
/// the items of a node.
proof fn lemma_next_node_failed(p0: Parser, pb: Parser, consumed: Seq<WriteEvent>)
    requires
        p0.wf(),
        pb.wf(),
        pb.input() == p0.input(),
        pb.items_read() == p0.items_read() + consumed,
        pb.steps() == p0.steps() + consumed.len(),
        next_item_step(pb.input(), pb.position(), pb.parser_state()).0 is Err,
        forall|v: NodeValue|
            !(tree_events(v).len() <= consumed.len() && consumed.take(
                #[trigger] tree_events(v).len() as int,
            ) == tree_events(v)),
    ensures
        forall|v: NodeValue| !#[trigger] next_items_form(p0.input(), p0.steps(), v),
{
    p0.lemma_steps_from_beginning();
    pb.lemma_steps_from_beginning();
    assert forall|v: NodeValue| !#[trigger] next_items_form(p0.input(), p0.steps(), v) by {
        if next_items_form(p0.input(), p0.steps(), v) {
            lemma_no_failure_before_node(p0.input(), p0.steps(), v, consumed);
        }
    }
}

/// The values of the lists on `stack`.
pub open spec fn node_stack_values(stack: Seq<Vec<Node>>) -> Seq<Seq<NodeValue>> {
    Seq::new(stack.len(), |k: int| node_values(stack[k]@))
}

/// The values of the lists being built: those on `stack`, then `current`.
pub open spec fn node_frames(stack: Seq<Vec<Node>>, current: Seq<Node>) -> Seq<Seq<NodeValue>> {
    node_stack_values(stack).push(node_values(current))
}

/// Parses one node into a tree of `Node` (see `read_tree`). It does not consume
/// the parser, so it can also be used to parse a sub-tree.
pub fn parse_into_tree(parser: &mut Parser<'_>) -> (r: Result<Node, ParseError>)
    requires
        old(parser).wf(),
        can_read_node(old(parser).input(), old(parser).position(), old(parser).parser_state()),
    ensures
        final(parser).wf(),
        ({
            let (res, next, st) = read_tree(
                old(parser).input(),
                old(parser).position(),
                old(parser).parser_state(),
            );
            &&& final(parser).input() == old(parser).input()
            &&& final(parser).position() == next
            &&& final(parser).parser_state() == st
            &&& match r {
                Ok(n) => res == Ok::<NodeValue, SyntaxError>(n@),
                Err(e) => res matches Err(se) && e == error_at(old(parser).input(), se),
            }
        }),
        r matches Ok(n) ==> final(parser).items_read() == old(parser).items_read() + tree_events(
            n@,
        ),
        forall|v: NodeValue|
            #[trigger] next_items_form(old(parser).input(), old(parser).steps(), v) ==> (r matches Ok(
                t,
            ) && t@ == v),
{
    let ghost start = parser.items_read();
    let ghost s = parser.input();
    let ghost goal = read_tree(s, parser.position(), parser.parser_state());
    let ghost p0 = *parser;
    match parser.next_item() {
        Err(e) => {
            proof {
                assert forall|v: NodeValue|
                    !(tree_events(v).len() <= 0 && Seq::<WriteEvent>::empty().take(
                        #[trigger] tree_events(v).len() as int,
                    ) == tree_events(v)) by {
                    assert(tree_events(v).len() > 0);
                }
                assert(p0.items_read() =~= p0.items_read() + Seq::<WriteEvent>::empty());
                lemma_next_node_failed(p0, p0, Seq::<WriteEvent>::empty());
            }
            return Err(e);
        },
        Ok(ParsedItem::Atom(atom, _)) => {
            let n = Node::Atom(atom.to_owned());
            assert(parser.items_read() =~= start + tree_events(n@));
            proof {
                lemma_next_node_read(p0, *parser, n@);
            }
            return Ok(n);
        },
        Ok(ParsedItem::ListEnd(_)) => {
            assert(false);
            return Err(ParseError::UnexpectedEof { pos: 0 });
        },
        Ok(ParsedItem::ListStart(_)) => {},
    }
    let mut stack: Vec<Vec<Node>> = Vec::new();
    let mut current: Vec<Node> = Vec::new();
    proof {
        parser.lemma_position_bounds();
        assert(node_values(current@) =~= Seq::<NodeValue>::empty());
        assert(node_frames(stack@, current@) =~= seq![Seq::<NodeValue>::empty()]);
        lemma_open_events_single(Seq::<NodeValue>::empty());
        assert(items_events(Seq::<NodeValue>::empty()) =~= Seq::<WriteEvent>::empty());
        assert(parser.items_read() =~= start + open_events(node_frames(stack@, current@)));
    }
    loop
        invariant
            p0 == *old(parser),
            p0.wf(),
            parser.steps() + start.len() == p0.steps() + parser.items_read().len(),
            start == old(parser).items_read(),
            parser.items_read() == start + open_events(node_frames(stack@, current@)),
            parser.wf(),
            parser.input() == s,
            s == old(parser).input(),
            goal == read_tree(old(parser).input(), old(parser).position(), old(parser).parser_state()),
            0 <= parser.position() <= s.len(),
            node_frames(stack@, current@).len() - 1 <= open_lists(parser.parser_state()),
            read_items(s, parser.position(), parser.parser_state(), node_frames(stack@, current@))
                == goal,
        decreases s.len() - parser.position(),
    {
        let ghost frames = node_frames(stack@, current@);
        let ghost pos = parser.position();
        let ghost st = parser.parser_state();
        proof {
            lemma_lex_token_bounds(s, pos);
            assert(frames.len() == stack@.len() + 1);
            assert(frames.last() == node_values(current@));
        }
        let ghost pb = *parser;
        match parser.next_item() {
            Err(e) => {
                proof {
                    let consumed = open_events(frames);
                    assert forall|v: NodeValue|
                        !(tree_events(v).len() <= consumed.len() && consumed.take(
                            #[trigger] tree_events(v).len() as int,
                        ) == tree_events(v)) by {
                        lemma_open_events_not_node(frames, v);
                    }
                    lemma_next_node_failed(p0, pb, consumed);
                }
                return Err(e);
            },
            Ok(ParsedItem::Atom(atom, _)) => {
                let n = Node::Atom(atom.to_owned());

                let ghost before = current@;

                current.push(n);
                assert(node_values(current@) =~= node_values(before).push(n@));
                assert(node_frames(stack@, current@) =~= add_to_innermost(frames, n@));
                proof {
                    lemma_open_events_add(frames, n@);
                }
                assert(parser.items_read() =~= start + open_events(node_frames(stack@, current@)));
            },
            Ok(ParsedItem::ListStart(_)) => {
                let c = current;
                let ghost old_stack = stack@;
                stack.push(c);
                current = Vec::new();
                assert(node_stack_values(stack@) =~= node_stack_values(old_stack).push(node_values(c@)));
                assert(node_values(current@) =~= Seq::<NodeValue>::empty());
                assert(node_frames(stack@, current@) =~= frames.push(Seq::empty()));
                proof {
                    lemma_open_events_push(frames);
                }
                assert(parser.items_read() =~= start + open_events(node_frames(stack@, current@)));
            },
            Ok(ParsedItem::ListEnd(_)) => {
                let ghost old_stack = stack@;
                match stack.pop() {
                    Some(prev) => {
                        let done = current;
                        current = prev;
                        proof {
                            lemma_node_list_value(done);
                            assert(node_stack_values(stack@) =~= node_stack_values(old_stack).drop_last());
                            assert(node_stack_values(old_stack).last() == node_values(prev@));
                        }
                        let ghost before = current@;
                        current.push(Node::List(done));
                        assert(node_values(current@) =~= node_values(before).push(Node::List(done)@));
                        assert(node_frames(stack@, current@) =~= add_to_innermost(
                            frames.drop_last(),
                            NodeValue::List(frames.last()),
                        ));
                        proof {
                            lemma_open_events_close(frames);
                        }
                        assert(parser.items_read() =~= start + open_events(
                            node_frames(stack@, current@),
                        ));
                    },
                    None => {
                        proof {
                            lemma_node_list_value(current);
                            assert(frames =~= seq![node_values(current@)]);
                            lemma_open_events_single(node_values(current@));
                        }
                        let n = Node::List(current);
                        assert(parser.items_read() =~= start + tree_events(n@));
                        proof {
                            lemma_next_node_read(p0, *parser, n@);
                        }
                        return Ok(n);
                    },
                }
            },
        }
    }
}

/// The values of the lists on `stack`.
pub open spec fn tree_node_stack_values(stack: Seq<Vec<TreeNode>>) -> Seq<Seq<NodeValue>> {
    Seq::new(stack.len(), |k: int| tree_node_values(stack[k]@))
}

/// The values of the lists being built: those on `stack`, then `current`.
pub open spec fn tree_node_frames(stack: Seq<Vec<TreeNode>>, current: Seq<TreeNode>) -> Seq<Seq<NodeValue>> {
    tree_node_stack_values(stack).push(tree_node_values(current))
}

/// Parses one node into a tree of `TreeNode` (see `read_tree`). It does not consume
/// the parser, so it can also be used to parse a sub-tree.
pub fn parse_tree(parser: &mut Parser<'_>) -> (r: Result<TreeNode, ParseError>)
    requires
        old(parser).wf(),
        can_read_node(old(parser).input(), old(parser).position(), old(parser).parser_state()),
    ensures
        final(parser).wf(),
        ({
            let (res, next, st) = read_tree(
                old(parser).input(),
                old(parser).position(),
                old(parser).parser_state(),
            );
            &&& final(parser).input() == old(parser).input()
            &&& final(parser).position() == next
            &&& final(parser).parser_state() == st
            &&& match r {
                Ok(n) => res == Ok::<NodeValue, SyntaxError>(n@),
                Err(e) => res matches Err(se) && e == error_at(old(parser).input(), se),
            }
        }),
        r matches Ok(n) ==> final(parser).items_read() == old(parser).items_read() + tree_events(
            n@,
        ),
        forall|v: NodeValue|
            #[trigger] next_items_form(old(parser).input(), old(parser).steps(), v) ==> (r matches Ok(
                t,
            ) && t@ == v),
{
    let ghost start = parser.items_read();
    let ghost s = parser.input();
    let ghost goal = read_tree(s, parser.position(), parser.parser_state());
    let ghost p0 = *parser;
    match parser.next_item() {
        Err(e) => {
            proof {
                assert forall|v: NodeValue|
                    !(tree_events(v).len() <= 0 && Seq::<WriteEvent>::empty().take(
                        #[trigger] tree_events(v).len() as int,
                    ) == tree_events(v)) by {
                    assert(tree_events(v).len() > 0);
                }
                assert(p0.items_read() =~= p0.items_read() + Seq::<WriteEvent>::empty());
                lemma_next_node_failed(p0, p0, Seq::<WriteEvent>::empty());
            }
            return Err(e);
        },
        Ok(ParsedItem::Atom(atom, _)) => {
            let n = TreeNode::Atom(atom.to_owned());
            assert(parser.items_read() =~= start + tree_events(n@));
            proof {
                lemma_next_node_read(p0, *parser, n@);
            }
            return Ok(n);
        },
        Ok(ParsedItem::ListEnd(_)) => {
            assert(false);
            return Err(ParseError::UnexpectedEof { pos: 0 });
        },
        Ok(ParsedItem::ListStart(_)) => {},
    }
    let mut stack: Vec<Vec<TreeNode>> = Vec::new();
    let mut current: Vec<TreeNode> = Vec::new();
    proof {
        parser.lemma_position_bounds();
        assert(tree_node_values(current@) =~= Seq::<NodeValue>::empty());
        assert(tree_node_frames(stack@, current@) =~= seq![Seq::<NodeValue>::empty()]);
        lemma_open_events_single(Seq::<NodeValue>::empty());
        assert(items_events(Seq::<NodeValue>::empty()) =~= Seq::<WriteEvent>::empty());
        assert(parser.items_read() =~= start + open_events(tree_node_frames(stack@, current@)));
    }
    loop
        invariant
            p0 == *old(parser),
            p0.wf(),
            parser.steps() + start.len() == p0.steps() + parser.items_read().len(),
            start == old(parser).items_read(),
            parser.items_read() == start + open_events(tree_node_frames(stack@, current@)),
            parser.wf(),
            parser.input() == s,
            s == old(parser).input(),
            goal == read_tree(old(parser).input(), old(parser).position(), old(parser).parser_state()),
            0 <= parser.position() <= s.len(),
            tree_node_frames(stack@, current@).len() - 1 <= open_lists(parser.parser_state()),
            read_items(s, parser.position(), parser.parser_state(), tree_node_frames(stack@, current@))
                == goal,
        decreases s.len() - parser.position(),
    {
        let ghost frames = tree_node_frames(stack@, current@);
        let ghost pos = parser.position();
        let ghost st = parser.parser_state();
        proof {
            lemma_lex_token_bounds(s, pos);
            assert(frames.len() == stack@.len() + 1);
            assert(frames.last() == tree_node_values(current@));
        }
        let ghost pb = *parser;
        match parser.next_item() {
            Err(e) => {
                proof {
                    let consumed = open_events(frames);
                    assert forall|v: NodeValue|
                        !(tree_events(v).len() <= consumed.len() && consumed.take(
                            #[trigger] tree_events(v).len() as int,
                        ) == tree_events(v)) by {
                        lemma_open_events_not_node(frames, v);
                    }
                    lemma_next_node_failed(p0, pb, consumed);
                }
                return Err(e);
            },
            Ok(ParsedItem::Atom(atom, _)) => {
                let n = TreeNode::Atom(atom.to_owned());
                let ghost before = current@;
                current.push(n);
                assert(tree_node_values(current@) =~= tree_node_values(before).push(n@));
                assert(tree_node_frames(stack@, current@) =~= add_to_innermost(frames, n@));
                proof {
                    lemma_open_events_add(frames, n@);
                }
                assert(parser.items_read() =~= start + open_events(tree_node_frames(stack@, current@)));
            },
            Ok(ParsedItem::ListStart(_)) => {
                let c = current;
                let ghost old_stack = stack@;
                stack.push(c);
                current = Vec::new();
                assert(tree_node_stack_values(stack@) =~= tree_node_stack_values(old_stack).push(tree_node_values(c@)));
                assert(tree_node_values(current@) =~= Seq::<NodeValue>::empty());
                assert(tree_node_frames(stack@, current@) =~= frames.push(Seq::empty()));
                proof {
                    lemma_open_events_push(frames);
                }
                assert(parser.items_read() =~= start + open_events(tree_node_frames(stack@, current@)));
            },
            Ok(ParsedItem::ListEnd(_)) => {
                let ghost old_stack = stack@;
                match stack.pop() {
                    Some(prev) => {
                        let done = current;
                        current = prev;
                        proof {
                            lemma_tree_node_list_value(done);
                            assert(tree_node_stack_values(stack@) =~= tree_node_stack_values(old_stack).drop_last());
                            assert(tree_node_stack_values(old_stack).last() == tree_node_values(prev@));
                        }
                        let ghost before = current@;
                        current.push(TreeNode::List(done));
                        assert(tree_node_values(current@) =~= tree_node_values(before).push(TreeNode::List(done)@));
                        assert(tree_node_frames(stack@, current@) =~= add_to_innermost(
                            frames.drop_last(),
                            NodeValue::List(frames.last()),
                        ));
                        proof {
                            lemma_open_events_close(frames);
                        }
                        assert(parser.items_read() =~= start + open_events(
                            tree_node_frames(stack@, current@),
                        ));
                    },
                    None => {
                        proof {
                            lemma_tree_node_list_value(current);
                            assert(frames =~= seq![tree_node_values(current@)]);
                            lemma_open_events_single(tree_node_values(current@));
                        }
                        let n = TreeNode::List(current);
                        assert(parser.items_read() =~= start + tree_events(n@));
                        proof {
                            lemma_next_node_read(p0, *parser, n@);
                        }
                        return Ok(n);
                    },
                }
            },
        }
    }
}

} // verus!
