//! Serializing trees of `TreeNode` into spaced text.
use vstd::prelude::*;

use crate::spaced_string_writer::{
    byte_len, event_shapes, spaced_run, spaced_step, SpacedEvent, SpacedLine, SpacedPhase,
    SpacedStringWriter, SpacedStringWriterNodeOptions, SpacedStringWriterStyle,
};
use crate::syntax::{compact_parts, compact_text, is_valid_tree, join_with_spaces, lemma_valid_item};
use crate::compact_string_writer::{compact_render, lemma_compact_write_read};
use crate::util::{atom_accepts_from, is_valid_atom, AtomState};
use crate::text::push_str;
use crate::tree::{lemma_tree_node_list_value, tree_node_values, NodeValue, TreeNode};
use crate::write_from_tree::lemma_items_events_push;
use crate::writer::{
    accepts_node, items_events, lemma_phase_after_concat, lemma_tree_events_phase, tree_events,
    writer_phase, WriteEvent, Writer, WriterPhase,
};

verus! {

/// The line break and the indentation that a `Serializer` writes.
#[derive(Copy, Clone, Debug, PartialEq, Eq)]
pub struct SerializerStyle<'a> {
    pub line_break: &'a str,
    pub indentation: &'a str,
}

/// Writes nodes as spaced text (see `SpacedStringWriter`), taking for each
/// node the line length from which it goes on a new line.
pub struct Serializer<'a> {
    writer: SpacedStringWriter<'a>,
}

impl<'a> Serializer<'a> {
    /// Whether the serializer is in a consistent state.
    pub closed spec fn wf(&self) -> bool {
        self.writer.wf()
    }

    /// The nodes written so far, with the line lengths they were given.
    pub closed spec fn spaced_log(&self) -> Seq<SpacedEvent> {
        self.writer.spaced_log()
    }

    /// The nodes written so far.
    pub closed spec fn events(&self) -> Seq<WriteEvent> {
        self.writer.events()
    }

    /// The line break of the style.
    pub closed spec fn line_break(&self) -> Seq<char> {
        self.writer.style().line_break@
    }

    /// The indentation of the style.
    pub closed spec fn indentation(&self) -> Seq<char> {
        self.writer.style().indentation@
    }

    /// The text that the destination held before writing.
    pub closed spec fn initial(&self) -> Seq<char> {
        self.writer.initial()
    }

    /// The text written so far, after the initial text.
    pub open spec fn written(&self) -> Seq<char> {
        spaced_run(self.line_break(), self.indentation(), self.spaced_log()).0
    }

    /// The text of the destination.
    pub closed spec fn text(&self) -> Seq<char> {
        self.writer.text()
    }

    /// Creates a serializer that appends to `dst` in `style`.
    pub fn new(style: SerializerStyle<'a>, dst: String) -> (s: Self)
        ensures
            s.wf(),
            s.spaced_log() == Seq::<SpacedEvent>::empty(),
            s.events() == Seq::<WriteEvent>::empty(),
            s.initial() == dst@,
            s.line_break() == style.line_break@,
            s.indentation() == style.indentation@,
    {
        let writer = SpacedStringWriter::new(
            SpacedStringWriterStyle { line_break: style.line_break, indentation: style.indentation },
            dst,
        );
        Serializer { writer }
    }

    /// Writes an atom; it goes on a new line when the current line is at
    /// least `break_line_at` bytes long.
    pub fn put_atom(&mut self, atom: &str, break_line_at: usize)
        requires
            old(self).wf(),
            accepts_node(writer_phase(old(self).events())),
            crate::util::is_valid_atom(atom@),
        ensures
            final(self).wf(),
            final(self).spaced_log() == old(self).spaced_log().push(
                SpacedEvent::Atom(atom@, break_line_at as nat),
            ),
            final(self).events() == old(self).events().push(WriteEvent::Atom(atom@)),
            final(self).initial() == old(self).initial(),
            final(self).line_break() == old(self).line_break(),
            final(self).indentation() == old(self).indentation(),
    {
        let _ = self.writer.write_atom(
            atom,
            SpacedStringWriterNodeOptions { break_line_len: break_line_at },
        );
    }

    /// Begins a list; it goes on a new line when the current line is at
    /// least `break_line_at` bytes long.
    pub fn begin_list(&mut self, break_line_at: usize)
        requires
            old(self).wf(),
            accepts_node(writer_phase(old(self).events())),
        ensures
            final(self).wf(),
            final(self).spaced_log() == old(self).spaced_log().push(
                SpacedEvent::BeginList(break_line_at as nat),
            ),
            final(self).events() == old(self).events().push(WriteEvent::BeginList),
            final(self).initial() == old(self).initial(),
            final(self).line_break() == old(self).line_break(),
            final(self).indentation() == old(self).indentation(),
    {
        let _ = self.writer.begin_list(SpacedStringWriterNodeOptions { break_line_len: break_line_at });
    }

    /// Ends the innermost list.
    pub fn end_list(&mut self)
        requires
            old(self).wf(),
            writer_phase(old(self).events()) is Writing,
        ensures
            final(self).wf(),
            final(self).spaced_log() == old(self).spaced_log().push(SpacedEvent::EndList),
            final(self).events() == old(self).events().push(WriteEvent::EndList),
            final(self).initial() == old(self).initial(),
            final(self).line_break() == old(self).line_break(),
            final(self).indentation() == old(self).indentation(),
    {
        let _ = self.writer.end_list(());
    }

    /// Returns the text, with a line break at its end when
    /// `line_break_at_end`. The root node must be complete.
    pub fn finish(self, line_break_at_end: bool) -> (r: String)
        requires
            self.wf(),
            writer_phase(self.events()) is Finished,
        ensures
            r@ == self.initial() + self.written() + if line_break_at_end {
                self.line_break()
            } else {
                Seq::<char>::empty()
            },
    {
        let line_break = self.writer.get_style().line_break;
        let mut text = match self.writer.finish(()) {
            Ok(s) => s,
            Err(_) => String::new(),
        };
        if line_break_at_end {
            push_str(&mut text, line_break);
        } else {
            assert(text@ =~= text@ + Seq::<char>::empty());
        }
        text
    }
}

/// The spaced events that `serialize_tree` asks for `v`: every node gets
/// `brk`, but the first item of a list if it is an atom, which stays on the
/// line of the list's `(`.
pub open spec fn serial_events(v: NodeValue, brk: nat) -> Seq<SpacedEvent>
    decreases v, 1int,
{
    match v {
        NodeValue::Atom(a) => seq![SpacedEvent::Atom(a, brk)],
        NodeValue::List(items) => seq![SpacedEvent::BeginList(brk)] + serial_items(items, brk)
            + seq![SpacedEvent::EndList],
    }
}

/// The spaced events that `serialize_tree` asks for the items of a list.
pub open spec fn serial_items(items: Seq<NodeValue>, brk: nat) -> Seq<SpacedEvent>
    decreases items, 0int,
{
    if items.len() == 0 {
        Seq::empty()
    } else {
        serial_items(items.drop_last(), brk) + match items.last() {
            NodeValue::Atom(a) => seq![
                SpacedEvent::Atom(a, if items.len() == 1 { usize::MAX as nat } else { brk }),
            ],
            NodeValue::List(_) => serial_events(items.last(), brk),
        }
    }
}

/// The serial events of `items` are those of all but the last, then those
/// of the last.
proof fn lemma_serial_items_push(items: Seq<NodeValue>, k: int, brk: nat)
    requires
        0 <= k < items.len(),
    ensures
        serial_items(items.take(k + 1), brk) == serial_items(items.take(k), brk) + match items[k] {
            NodeValue::Atom(a) => seq![
                SpacedEvent::Atom(a, if k == 0 { usize::MAX as nat } else { brk }),
            ],
            NodeValue::List(_) => serial_events(items[k], brk),
        },
{
    assert(items.take(k + 1).drop_last() =~= items.take(k));
    assert(items.take(k + 1).last() == items[k]);
}

/// Writes the items of a list that `serializer` has begun.
fn serialize_items(serializer: &mut Serializer, list: &Vec<TreeNode>, brk: usize)
    requires
        old(serializer).wf(),
        writer_phase(old(serializer).events()) is Writing,
        forall|k: int| 0 <= k < list@.len() ==> is_valid_tree(#[trigger] list@[k]@),
    ensures
        final(serializer).wf(),
        final(serializer).spaced_log() == old(serializer).spaced_log() + serial_items(
            tree_node_values(list@),
            brk as nat,
        ),
        final(serializer).events() == old(serializer).events() + items_events(
            tree_node_values(list@),
        ),
        final(serializer).initial() == old(serializer).initial(),
        final(serializer).line_break() == old(serializer).line_break(),
        final(serializer).indentation() == old(serializer).indentation(),
    decreases list@, 0int,
{
    let ghost values = tree_node_values(list@);
    let ghost start = old(serializer).events();
    let ghost start_log = old(serializer).spaced_log();
    let ghost phase = writer_phase(start);
    let mut i: usize = 0;
    proof {
        assert(values.take(0) =~= Seq::<NodeValue>::empty());
        assert(start + items_events(values.take(0)) =~= start);
        assert(start_log + serial_items(values.take(0), brk as nat) =~= start_log);
    }
    while i < list.len()
        invariant
            serializer.wf(),
            i <= list@.len(),
            values == tree_node_values(list@),
            start == old(serializer).events(),
            start_log == old(serializer).spaced_log(),
            phase == writer_phase(start),
            phase is Writing,
            writer_phase(serializer.events()) == phase,
            serializer.events() == start + items_events(values.take(i as int)),
            serializer.spaced_log() == start_log + serial_items(values.take(i as int), brk as nat),
            serializer.initial() == old(serializer).initial(),
            serializer.line_break() == old(serializer).line_break(),
            serializer.indentation() == old(serializer).indentation(),
            forall|k: int| 0 <= k < list@.len() ==> is_valid_tree(#[trigger] list@[k]@),
        decreases list@.len() - i,
    {
        let ghost before = serializer.events();
        let ghost before_log = serializer.spaced_log();
        let node = &list[i];
        proof {
            lemma_items_events_push(values, i as int);
            lemma_serial_items_push(values, i as int, brk as nat);
            lemma_tree_events_phase(node@, phase->Writing_0);
            lemma_phase_after_concat(WriterPhase::Beginning, before, tree_events(node@));
            assert(values[i as int] == node@);
        }
        match node {
            TreeNode::Atom(atom) => {
                let b = if i == 0 {
                    usize::MAX
                } else {
                    brk
                };
                serializer.put_atom(atom.as_str(), b);
                assert(tree_events(node@) =~= seq![WriteEvent::Atom(atom@)]);
            },
            TreeNode::List(sub) => {
                proof {
                    lemma_tree_node_list_value(*sub);
                    assert forall|k: int| 0 <= k < sub@.len() implies is_valid_tree(
                        #[trigger] sub@[k]@,
                    ) by {
                        lemma_valid_item(tree_node_values(sub@), k);
                    }
                }
                assert(decreases_to!(list@ => list@[i as int]));
                assert(decreases_to!(list@[i as int] => sub));
                assert(decreases_to!(sub => sub@));
                serialize_list(serializer, sub, brk);
            },
        }
        assert(serializer.events() =~= before + tree_events(node@));
        i = i + 1;
        assert(serializer.events() =~= start + items_events(values.take(i as int)));
        assert(serializer.spaced_log() =~= start_log + serial_items(values.take(i as int), brk as nat));
    }
    assert(values.take(i as int) =~= values);
}

/// Writes the list whose items are `list`.
fn serialize_list(serializer: &mut Serializer, list: &Vec<TreeNode>, brk: usize)
    requires
        old(serializer).wf(),
        accepts_node(writer_phase(old(serializer).events())),
        forall|k: int| 0 <= k < list@.len() ==> is_valid_tree(#[trigger] list@[k]@),
    ensures
        final(serializer).wf(),
        final(serializer).spaced_log() == old(serializer).spaced_log() + serial_events(
            NodeValue::List(tree_node_values(list@)),
            brk as nat,
        ),
        final(serializer).events() == old(serializer).events() + tree_events(
            NodeValue::List(tree_node_values(list@)),
        ),
        final(serializer).initial() == old(serializer).initial(),
        final(serializer).line_break() == old(serializer).line_break(),
        final(serializer).indentation() == old(serializer).indentation(),
    decreases list@, 1int,
{
    let ghost start = old(serializer).events();
    serializer.begin_list(brk);
    proof {
        assert(start.push(WriteEvent::BeginList).drop_last() =~= start);
    }
    serialize_items(serializer, list, brk);
    proof {
        crate::writer::lemma_items_events_phase(
            tree_node_values(list@),
            writer_phase(start.push(WriteEvent::BeginList))->Writing_0,
        );
        lemma_phase_after_concat(
            WriterPhase::Beginning,
            start.push(WriteEvent::BeginList),
            items_events(tree_node_values(list@)),
        );
    }
    serializer.end_list();
    assert(serializer.events() =~= start + tree_events(NodeValue::List(tree_node_values(list@))));
    assert(serializer.spaced_log() =~= old(serializer).spaced_log() + serial_events(
        NodeValue::List(tree_node_values(list@)),
        brk as nat,
    ));
}

/// Writes the tree `root_node` with `serializer`: every node goes on a new
/// line when the current line is at least `break_line_at` bytes long, but
/// the first item of a list if it is an atom.
pub fn serialize_tree(serializer: &mut Serializer, root_node: &TreeNode, break_line_at: usize)
    requires
        old(serializer).wf(),
        accepts_node(writer_phase(old(serializer).events())),
        is_valid_tree(root_node@),
    ensures
        final(serializer).wf(),
        final(serializer).spaced_log() == old(serializer).spaced_log() + serial_events(
            root_node@,
            break_line_at as nat,
        ),
        final(serializer).events() == old(serializer).events() + tree_events(root_node@),
        final(serializer).initial() == old(serializer).initial(),
        final(serializer).line_break() == old(serializer).line_break(),
        final(serializer).indentation() == old(serializer).indentation(),
{
    match root_node {
        TreeNode::Atom(atom) => {
            serializer.put_atom(atom.as_str(), break_line_at);
            assert(serializer.events() =~= old(serializer).events() + tree_events(root_node@));
            assert(serializer.spaced_log() =~= old(serializer).spaced_log() + serial_events(
                root_node@,
                break_line_at as nat,
            ));
        },
        TreeNode::List(list) => {
            proof {
                lemma_tree_node_list_value(*list);
                assert forall|k: int| 0 <= k < list@.len() implies is_valid_tree(
                    #[trigger] list@[k]@,
                ) by {
                    lemma_valid_item(tree_node_values(list@), k);
                }
            }
            serialize_list(serializer, list, break_line_at);
        },
    }
}

/// What a spaced writer in phase `p` writes for `log`, and its phase after
/// that.
spec fn spaced_from(lb: Seq<char>, ind: Seq<char>, p: SpacedPhase, log: Seq<SpacedEvent>) -> (
    Seq<char>,
    SpacedPhase,
)
    decreases log.len(),
{
    if log.len() == 0 {
        (Seq::empty(), p)
    } else {
        let (out, q) = spaced_from(lb, ind, p, log.drop_last());
        let (more, r) = spaced_step(lb, ind, q, log.last());
        (out + more, r)
    }
}

proof fn lemma_spaced_run_from(lb: Seq<char>, ind: Seq<char>, log: Seq<SpacedEvent>)
    ensures
        spaced_run(lb, ind, log) == spaced_from(lb, ind, SpacedPhase::Beginning, log),
    decreases log.len(),
{
    if log.len() > 0 {
        lemma_spaced_run_from(lb, ind, log.drop_last());
    }
}

proof fn lemma_spaced_from_concat(
    lb: Seq<char>,
    ind: Seq<char>,
    p: SpacedPhase,
    a: Seq<SpacedEvent>,
    b: Seq<SpacedEvent>,
)
    ensures
        spaced_from(lb, ind, p, a + b) == (
            spaced_from(lb, ind, p, a).0 + spaced_from(lb, ind, spaced_from(lb, ind, p, a).1, b).0,
            spaced_from(lb, ind, spaced_from(lb, ind, p, a).1, b).1,
        ),
    decreases b.len(),
{
    if b.len() == 0 {
        assert(a + b =~= a);
        assert(spaced_from(lb, ind, p, a).0 + Seq::<char>::empty() =~= spaced_from(lb, ind, p, a).0);
    } else {
        lemma_spaced_from_concat(lb, ind, p, a, b.drop_last());
        assert((a + b).drop_last() =~= a + b.drop_last());
        assert((a + b).last() == b.last());
        let o1 = spaced_from(lb, ind, p, a).0;
        let p1 = spaced_from(lb, ind, p, a).1;
        let o2 = spaced_from(lb, ind, p1, b.drop_last()).0;
        let more = spaced_step(lb, ind, spaced_from(lb, ind, p1, b.drop_last()).1, b.last()).0;
        assert(o1 + o2 + more =~= o1 + (o2 + more));
    }
}

/// The characters of a valid atom are ASCII.
proof fn lemma_atom_ascii(s: Seq<char>, i: int, st: AtomState)
    requires
        0 <= i,
        atom_accepts_from(s, i, st),
    ensures
        forall|k: int| i <= k < s.len() ==> (#[trigger] s[k] as u32) < 0x80,
    decreases s.len() - i,
{
    if i < s.len() {
        let c = s[i];
        match st {
            AtomState::Beginning | AtomState::Normal => {
                if c == '"' {
                    lemma_atom_ascii(s, i + 1, AtomState::InString);
                } else {
                    lemma_atom_ascii(s, i + 1, AtomState::Normal);
                }
            },
            AtomState::InString => {
                if c == '"' {
                    lemma_atom_ascii(s, i + 1, AtomState::Normal);
                } else if c == '\\' {
                    lemma_atom_ascii(s, i + 1, AtomState::StringBackslash);
                } else {
                    lemma_atom_ascii(s, i + 1, AtomState::InString);
                }
            },
            AtomState::StringBackslash => {
                lemma_atom_ascii(s, i + 1, AtomState::InString);
            },
        }
    }
}

/// ASCII text takes one byte per character.
proof fn lemma_ascii_utf8_len(s: Seq<char>)
    requires
        forall|k: int| 0 <= k < s.len() ==> (#[trigger] s[k] as u32) < 0x80,
    ensures
        vstd::utf8::encode_utf8(s).len() == s.len(),
    decreases s.len(),
{
    if s.len() > 0 {
        assert forall|k: int| 0 <= k < s.drop_first().len() implies (#[trigger] s.drop_first()[k] as u32)
            < 0x80 by {
            assert(s.drop_first()[k] == s[k + 1]);
        }
        lemma_ascii_utf8_len(s.drop_first());
        assert((s[0] as u32) < 0x80);
    }
}

/// A valid atom takes one byte per character.
proof fn lemma_atom_byte_len(a: Seq<char>)
    requires
        is_valid_atom(a),
        a.len() <= usize::MAX,
    ensures
        byte_len(a) == a.len(),
{
    lemma_atom_ascii(a, 0, AtomState::Beginning);
    lemma_ascii_utf8_len(a);
}

/// What a spaced writer writes before a node that stays on its line: a
/// space, unless the node begins a list.
spec fn line_sep(s: SpacedLine) -> Seq<char> {
    if s.list_beginning {
        Seq::empty()
    } else {
        seq![' ']
    }
}

/// The phase after writing, on the line of `s`, text `n` bytes long.
spec fn after_on_line(s: SpacedLine, n: nat) -> SpacedPhase {
    SpacedPhase::Writing(
        SpacedLine { stack: s.stack, list_beginning: false, line_broken: false, line_len: s.line_len + n },
    )
}

/// With `usize::MAX` as the line length for new lines, a node that fits on
/// the line is written as its compact text, after a space unless it begins
/// a list.
proof fn lemma_serial_node_compact(lb: Seq<char>, ind: Seq<char>, s: SpacedLine, v: NodeValue)
    requires
        is_valid_tree(v),
        !s.line_broken,
        s.line_len + line_sep(s).len() + compact_text(v).len() < usize::MAX,
    ensures
        spaced_from(lb, ind, SpacedPhase::Writing(s), serial_events(v, usize::MAX as nat)) == (
            line_sep(s) + compact_text(v),
            after_on_line(s, line_sep(s).len() + compact_text(v).len()),
        ),
    decreases v, 1int,
{
    reveal_with_fuel(spaced_from, 2);
    let ev = serial_events(v, usize::MAX as nat);
    match v {
        NodeValue::Atom(a) => {
            lemma_atom_byte_len(a);
            assert(ev.drop_last() =~= Seq::<SpacedEvent>::empty());
            let r = after_on_line(s, line_sep(s).len() + compact_text(v).len());
            assert(spaced_step(lb, ind, SpacedPhase::Writing(s), ev.last()) == (line_sep(s) + a, r));
            assert(Seq::<char>::empty() + (line_sep(s) + a) =~= line_sep(s) + a);
        },
        NodeValue::List(items) => {
            let open = seq![SpacedEvent::BeginList(usize::MAX as nat)];
            let body = serial_items(items, usize::MAX as nat);
            let close = seq![SpacedEvent::EndList];
            assert(ev == open + body + close);
            let join = join_with_spaces(compact_parts(items));
            assert(compact_text(v) == seq!['('] + join + seq![')']);
            let s1 = SpacedLine {
                stack: s.stack.push(false),
                list_beginning: true,
                line_broken: false,
                line_len: s.line_len + line_sep(s).len() + 1,
            };
            assert(open.drop_last() =~= Seq::<SpacedEvent>::empty());
            assert(spaced_step(lb, ind, SpacedPhase::Writing(s), open.last()) == (
                line_sep(s) + seq!['('],
                SpacedPhase::Writing(s1),
            ));
            assert(Seq::<char>::empty() + (line_sep(s) + seq!['(']) =~= line_sep(s) + seq!['(']);
            assert(spaced_from(lb, ind, SpacedPhase::Writing(s), open) == (
                line_sep(s) + seq!['('],
                SpacedPhase::Writing(s1),
            ));
            assert forall|k: int| 0 <= k < items.len() implies is_valid_tree(#[trigger] items[k]) by {
                lemma_valid_item(items, k);
            }
            lemma_serial_items_compact(lb, ind, s1, items);
            let s2 = SpacedLine {
                stack: s1.stack,
                list_beginning: items.len() == 0,
                line_broken: false,
                line_len: s1.line_len + join.len(),
            };
            assert(spaced_from(lb, ind, SpacedPhase::Writing(s1), body) == (join, SpacedPhase::Writing(s2)));
            lemma_spaced_from_concat(lb, ind, SpacedPhase::Writing(s), open, body);
            assert(close.drop_last() =~= Seq::<SpacedEvent>::empty());
            assert(s2.stack.drop_last() =~= s.stack);
            assert(spaced_step(lb, ind, SpacedPhase::Writing(s2), close.last()) == (
                seq![')'],
                after_on_line(s, line_sep(s).len() + compact_text(v).len()),
            ));
            assert(Seq::<char>::empty() + seq![')'] =~= seq![')']);
            lemma_spaced_from_concat(lb, ind, SpacedPhase::Writing(s), open + body, close);
            assert(line_sep(s) + seq!['('] + join + seq![')'] =~= line_sep(s) + compact_text(v));
        },
    }
}

/// With `usize::MAX` as the line length for new lines, the items of a list
/// that fit on the line are written as their compact texts separated by
/// spaces.
proof fn lemma_serial_items_compact(lb: Seq<char>, ind: Seq<char>, s: SpacedLine, items: Seq<NodeValue>)
    requires
        forall|k: int| 0 <= k < items.len() ==> is_valid_tree(#[trigger] items[k]),
        !s.line_broken,
        s.list_beginning,
        s.line_len + join_with_spaces(compact_parts(items)).len() < usize::MAX,
    ensures
        spaced_from(lb, ind, SpacedPhase::Writing(s), serial_items(items, usize::MAX as nat)) == (
            join_with_spaces(compact_parts(items)),
            SpacedPhase::Writing(
                SpacedLine {
                    stack: s.stack,
                    list_beginning: items.len() == 0,
                    line_broken: false,
                    line_len: s.line_len + join_with_spaces(compact_parts(items)).len(),
                },
            ),
        ),
    decreases items, 0int,
{
    if items.len() == 0 {
        assert(compact_parts(items) =~= Seq::<Seq<char>>::empty());
        assert(SpacedLine { line_len: s.line_len + 0, ..s } == s);
    } else {
        let init = items.drop_last();
        let last = items.last();
        let parts = compact_parts(items);
        assert(compact_parts(init) =~= parts.drop_last());
        assert(parts.last() == compact_text(last));
        let j0 = join_with_spaces(compact_parts(init));
        let j = join_with_spaces(parts);
        assert(j0.len() <= j.len()) by {
            if items.len() > 1 {
                assert(j == j0 + seq![' '] + parts.last());
            } else {
                assert(j0 =~= Seq::<char>::empty());
            }
        }
        lemma_serial_items_compact(lb, ind, s, init);
        let s1 = SpacedLine {
            stack: s.stack,
            list_beginning: init.len() == 0,
            line_broken: false,
            line_len: s.line_len + j0.len(),
        };
        let piece = match last {
            NodeValue::Atom(a) => seq![
                SpacedEvent::Atom(a, if items.len() == 1 { usize::MAX as nat } else { usize::MAX as nat }),
            ],
            NodeValue::List(_) => serial_events(last, usize::MAX as nat),
        };
        assert(piece == serial_events(last, usize::MAX as nat));
        assert(serial_items(items, usize::MAX as nat) == serial_items(init, usize::MAX as nat) + piece);
        assert(j == j0 + line_sep(s1) + compact_text(last)) by {
            if items.len() > 1 {
                assert(j == j0 + seq![' '] + parts.last());
            } else {
                assert(j0 =~= Seq::<char>::empty());
                assert(j == parts[0]);
                assert(j =~= j0 + line_sep(s1) + compact_text(last));
            }
        }
        lemma_valid_item(items, items.len() - 1);
        lemma_serial_node_compact(lb, ind, s1, last);
        lemma_spaced_from_concat(
            lb,
            ind,
            SpacedPhase::Writing(s),
            serial_items(init, usize::MAX as nat),
            piece,
        );
        assert(j0 + (line_sep(s1) + compact_text(last)) =~= j);
    }
}

/// With `usize::MAX` as the line length from which nodes go on a new line,
/// `serialize_tree` writes the compact text of the tree, whatever the
/// style: the text that a `CompactStringWriter` writes for it. (The text
/// must be shorter than `usize::MAX` bytes, the largest line length that is
/// counted.)
pub proof fn lemma_serialize_compact(lb: Seq<char>, ind: Seq<char>, v: NodeValue)
    requires
        is_valid_tree(v),
        compact_text(v).len() < usize::MAX,
    ensures
        spaced_run(lb, ind, serial_events(v, usize::MAX as nat)).0 == compact_text(v),
        spaced_run(lb, ind, serial_events(v, usize::MAX as nat)).0 == compact_render(tree_events(v)),
{
    reveal_with_fuel(spaced_from, 2);
    lemma_compact_write_read(v);
    lemma_spaced_run_from(lb, ind, serial_events(v, usize::MAX as nat));
    let ev = serial_events(v, usize::MAX as nat);
    match v {
        NodeValue::Atom(a) => {
            assert(ev.drop_last() =~= Seq::<SpacedEvent>::empty());
            assert(Seq::<char>::empty() + a =~= a);
        },
        NodeValue::List(items) => {
            let open = seq![SpacedEvent::BeginList(usize::MAX as nat)];
            let body = serial_items(items, usize::MAX as nat);
            let close = seq![SpacedEvent::EndList];
            assert(ev == open + body + close);
            let join = join_with_spaces(compact_parts(items));
            let s1 = SpacedLine { stack: Seq::empty(), list_beginning: true, line_broken: false, line_len: 1 };
            assert(open.drop_last() =~= Seq::<SpacedEvent>::empty());
            assert(Seq::<char>::empty() + seq!['('] =~= seq!['(']);
            assert(spaced_from(lb, ind, SpacedPhase::Beginning, open) == (seq!['('], SpacedPhase::Writing(s1)));
            assert forall|k: int| 0 <= k < items.len() implies is_valid_tree(#[trigger] items[k]) by {
                lemma_valid_item(items, k);
            }
            lemma_serial_items_compact(lb, ind, s1, items);
            lemma_spaced_from_concat(lb, ind, SpacedPhase::Beginning, open, body);
            assert(close.drop_last() =~= Seq::<SpacedEvent>::empty());
            assert(Seq::<char>::empty() + seq![')'] =~= seq![')']);
            lemma_spaced_from_concat(lb, ind, SpacedPhase::Beginning, open + body, close);
            assert(seq!['('] + join + seq![')'] =~= compact_text(v));
        },
    }
}

} // verus!
