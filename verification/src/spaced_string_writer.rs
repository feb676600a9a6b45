//! A writer that writes nodes on several lines, with indentation.
use vstd::prelude::*;
use std::convert::Infallible;

use crate::text::{push_char, push_str};
use crate::util::is_valid_atom;
use crate::syntax::{add_to_innermost, read_items, ParserState};
use crate::tree::NodeValue;
use crate::writer::{
    accepts_node, items_events, phase_step, tree_events, writer_phase, MaybeMultilineOptions,
    WriteEvent, Writer, WriterPhase,
};

verus! {

/// The line break and the indentation that a `SpacedStringWriter` writes.
#[derive(Copy, Clone, Debug, PartialEq, Eq)]
pub struct SpacedStringWriterStyle<'a> {
    pub line_break: &'a str,
    pub indentation: &'a str,
}

/// Options of a node written by a `SpacedStringWriter`: the node goes on a
/// new line when the current line is at least `break_line_len` bytes long.
#[derive(Copy, Clone, Debug)]
pub struct SpacedStringWriterNodeOptions {
    pub break_line_len: usize,
}

impl SpacedStringWriterNodeOptions {
    /// Options that always put the node on a new line.
    pub fn break_line() -> (r: Self)
        ensures
            r.break_line_len == 0,
    {
        Self { break_line_len: 0 }
    }

    /// Options that keep the node on the current line.
    pub fn no_break_line() -> (r: Self)
        ensures
            r.break_line_len == usize::MAX,
    {
        Self { break_line_len: usize::MAX }
    }
}

impl Default for SpacedStringWriterNodeOptions {
    /// Returns `SpacedStringWriterNodeOptions::break_line()`.
    fn default() -> (r: Self)
        ensures
            r.break_line_len == 0,
    {
        Self::break_line()
    }
}

impl MaybeMultilineOptions for SpacedStringWriterNodeOptions {
    open spec fn spec_break_line() -> Self {
        Self { break_line_len: 0 }
    }

    open spec fn spec_break_line_at(len: usize) -> Self {
        Self { break_line_len: len }
    }

    open spec fn spec_no_break_line() -> Self {
        Self { break_line_len: usize::MAX }
    }

    fn break_line() -> (r: Self)
        ensures
            r.break_line_len == 0,
    {
        Self { break_line_len: 0 }
    }

    fn break_line_at(len: usize) -> (r: Self)
        ensures
            r.break_line_len == len,
    {
        Self { break_line_len: len }
    }

    fn no_break_line() -> (r: Self)
        ensures
            r.break_line_len == usize::MAX,
    {
        Self { break_line_len: usize::MAX }
    }
}

/// What a spaced writer is asked to do: like `WriteEvent`, with the
/// `break_line_len` of the node's options.
pub enum SpacedEvent {
    Atom(Seq<char>, nat),
    BeginList(nat),
    EndList,
}

/// The shape of a spaced event, without its options.
pub open spec fn event_shape(e: SpacedEvent) -> WriteEvent {
    match e {
        SpacedEvent::Atom(a, _) => WriteEvent::Atom(a),
        SpacedEvent::BeginList(_) => WriteEvent::BeginList,
        SpacedEvent::EndList => WriteEvent::EndList,
    }
}

/// The shapes of spaced events.
pub open spec fn event_shapes(log: Seq<SpacedEvent>) -> Seq<WriteEvent> {
    Seq::new(log.len(), |i: int| event_shape(log[i]))
}

/// Where a spaced writer stands inside the root list: for each enclosing
/// list, whether its lines were broken; whether the current list has no item
/// yet; whether its lines were broken; and the length of the current line in
/// bytes (which stops growing at `usize::MAX`).
pub struct SpacedLine {
    pub stack: Seq<bool>,
    pub list_beginning: bool,
    pub line_broken: bool,
    pub line_len: nat,
}

/// Where a spaced writer stands.
pub enum SpacedPhase {
    Beginning,
    Writing(SpacedLine),
    Finished,
}

/// `a + b`, or `usize::MAX` if that is smaller.
pub open spec fn sat_add(a: nat, b: nat) -> nat {
    if a + b > usize::MAX {
        usize::MAX as nat
    } else {
        a + b
    }
}

/// The number of bytes of the UTF-8 encoding of `s`, as `str::len` gives it.
pub open spec fn byte_len(s: Seq<char>) -> nat {
    (vstd::utf8::encode_utf8(s).len() as usize) as nat
}

/// A character below 0x80 takes one byte.
proof fn lemma_byte_len_ascii(c: char)
    requires
        (c as u32) < 0x80,
    ensures
        byte_len(seq![c]) == 1,
{
    let s = seq![c];
    assert(s.drop_first() =~= Seq::<char>::empty());
    assert(s[0] == c);
    assert(vstd::utf8::encode_utf8(s.drop_first()) =~= Seq::<u8>::empty());
    assert(vstd::utf8::encode_utf8(s) =~= vstd::utf8::encode_scalar(c as u32));
}

/// `n` copies of `ind`.
pub open spec fn indent_text(ind: Seq<char>, n: nat) -> Seq<char>
    decreases n,
{
    if n == 0 {
        Seq::empty()
    } else {
        indent_text(ind, (n - 1) as nat) + ind
    }
}

/// The length of `n` copies of an indentation `k` bytes long (which stops
/// growing at `usize::MAX`).
pub open spec fn indent_len(k: nat, n: nat) -> nat
    decreases n,
{
    if n == 0 {
        0
    } else {
        sat_add(indent_len(k, (n - 1) as nat), k)
    }
}

/// What a spaced writer in phase `p` writes for `e`, with line break `lb` and
/// indentation `ind`, and its phase after that.
pub open spec fn spaced_step(lb: Seq<char>, ind: Seq<char>, p: SpacedPhase, e: SpacedEvent) -> (
    Seq<char>,
    SpacedPhase,
) {
    match p {
        SpacedPhase::Beginning => match e {
            SpacedEvent::Atom(a, _) => (a, SpacedPhase::Finished),
            SpacedEvent::BeginList(_) => (
                seq!['('],
                SpacedPhase::Writing(
                    SpacedLine {
                        stack: Seq::empty(),
                        list_beginning: true,
                        line_broken: false,
                        line_len: 1,
                    },
                ),
            ),
            SpacedEvent::EndList => (Seq::empty(), SpacedPhase::Finished),
        },
        SpacedPhase::Writing(s) => {
            let k = byte_len(ind);
            let depth = s.stack.len();
            let sep: Seq<char> = if s.list_beginning {
                Seq::empty()
            } else {
                seq![' ']
            };
            let len_after_sep = if s.list_beginning {
                s.line_len
            } else {
                sat_add(s.line_len, 1)
            };
            match e {
                SpacedEvent::Atom(a, brk) => if s.line_len < brk {
                    (
                        sep + a,
                        SpacedPhase::Writing(
                            SpacedLine {
                                list_beginning: false,
                                line_len: sat_add(len_after_sep, byte_len(a)),
                                ..s
                            },
                        ),
                    )
                } else {
                    (
                        lb + indent_text(ind, depth + 1) + a,
                        SpacedPhase::Writing(
                            SpacedLine {
                                list_beginning: false,
                                line_broken: true,
                                line_len: sat_add(indent_len(k, depth + 1), byte_len(a)),
                                ..s
                            },
                        ),
                    )
                },
                SpacedEvent::BeginList(brk) => if s.line_len < brk {
                    (
                        sep + seq!['('],
                        SpacedPhase::Writing(
                            SpacedLine {
                                stack: s.stack.push(s.line_broken),
                                list_beginning: true,
                                line_broken: false,
                                line_len: sat_add(len_after_sep, 1),
                            },
                        ),
                    )
                } else {
                    (
                        lb + indent_text(ind, depth + 1) + seq!['('],
                        SpacedPhase::Writing(
                            SpacedLine {
                                stack: s.stack.push(true),
                                list_beginning: true,
                                line_broken: false,
                                line_len: sat_add(indent_len(k, depth + 1), 1),
                            },
                        ),
                    )
                },
                SpacedEvent::EndList => {
                    let out = if s.line_broken {
                        lb + indent_text(ind, depth) + seq![')']
                    } else {
                        seq![')']
                    };
                    let len = sat_add(
                        if s.line_broken {
                            indent_len(k, depth)
                        } else {
                            s.line_len
                        },
                        1,
                    );
                    if depth == 0 {
                        (out, SpacedPhase::Finished)
                    } else {
                        (
                            out,
                            SpacedPhase::Writing(
                                SpacedLine {
                                    stack: s.stack.drop_last(),
                                    list_beginning: false,
                                    line_broken: s.line_broken || s.stack.last(),
                                    line_len: len,
                                },
                            ),
                        )
                    }
                },
            }
        },
        SpacedPhase::Finished => (Seq::empty(), SpacedPhase::Finished),
    }
}

/// What a spaced writer writes for `log`, and its phase after that.
pub open spec fn spaced_run(lb: Seq<char>, ind: Seq<char>, log: Seq<SpacedEvent>) -> (
    Seq<char>,
    SpacedPhase,
)
    decreases log.len(),
{
    if log.len() == 0 {
        (Seq::empty(), SpacedPhase::Beginning)
    } else {
        let (out, p) = spaced_run(lb, ind, log.drop_last());
        let (more, q) = spaced_step(lb, ind, p, log.last());
        (out + more, q)
    }
}

/// Whether `t` holds a line feed or a carriage return.
pub open spec fn has_line_break(t: Seq<char>) -> bool {
    exists|i: int| 0 <= i < t.len() && (t[i] == '\n' || t[i] == '\r')
}

/// Whether `lb` is a line break: not empty, and made of line feeds and
/// carriage returns.
pub open spec fn is_line_break(lb: Seq<char>) -> bool {
    &&& lb.len() > 0
    &&& forall|i: int| 0 <= i < lb.len() ==> (lb[i] == '\n' || lb[i] == '\r')
}

/// Whether no atom of `log` holds a line feed or a carriage return.
pub open spec fn atoms_on_one_line(log: Seq<SpacedEvent>) -> bool {
    forall|i: int|
        0 <= i < log.len() ==> (#[trigger] log[i] matches SpacedEvent::Atom(a, _) ==> !has_line_break(a))
}

/// The number of lists that enclose a list begun in phase `p`.
pub open spec fn enclosing_lists(p: SpacedPhase) -> nat {
    match p {
        SpacedPhase::Writing(s) => s.stack.len() + 1,
        _ => 0,
    }
}

/// What a spaced writer in phase `p` writes for `log`, and its phase after
/// that.
pub open spec fn spaced_from(lb: Seq<char>, ind: Seq<char>, p: SpacedPhase, log: Seq<SpacedEvent>) -> (
    Seq<char>,
    SpacedPhase,
)
    decreases log.len(),
{
    if log.len() == 0 {
        (Seq::empty(), p)
    } else {
        let (out, q) = spaced_from(lb, ind, p, log.drop_last());
        let (more, r) = spaced_step(lb, ind, q, log.last());
        (out + more, r)
    }
}

proof fn lemma_run_from(lb: Seq<char>, ind: Seq<char>, log: Seq<SpacedEvent>)
    ensures
        spaced_run(lb, ind, log) == spaced_from(lb, ind, SpacedPhase::Beginning, log),
    decreases log.len(),
{
    if log.len() > 0 {
        lemma_run_from(lb, ind, log.drop_last());
    }
}

proof fn lemma_from_concat(
    lb: Seq<char>,
    ind: Seq<char>,
    p: SpacedPhase,
    a: Seq<SpacedEvent>,
    b: Seq<SpacedEvent>,
)
    ensures
        spaced_from(lb, ind, p, a + b) == ({
            let (o1, q1) = spaced_from(lb, ind, p, a);
            let (o2, q2) = spaced_from(lb, ind, q1, b);
            (o1 + o2, q2)
        }),
    decreases b.len(),
{
    if b.len() == 0 {
        assert(a + b =~= a);
        let (o1, q1) = spaced_from(lb, ind, p, a);
        assert(o1 + Seq::<char>::empty() =~= o1);
    } else {
        assert((a + b).drop_last() =~= a + b.drop_last());
        assert((a + b).last() == b.last());
        lemma_from_concat(lb, ind, p, a, b.drop_last());
        let (o1, q1) = spaced_from(lb, ind, p, a);
        let (o2, q2) = spaced_from(lb, ind, q1, b.drop_last());
        let (m, r) = spaced_step(lb, ind, q2, b.last());
        assert(o1 + o2 + m =~= o1 + (o2 + m));
    }
}

proof fn lemma_has_line_break_concat(a: Seq<char>, b: Seq<char>)
    ensures
        has_line_break(a + b) == (has_line_break(a) || has_line_break(b)),
{
    if has_line_break(a + b) {
        let i = choose|i: int| 0 <= i < (a + b).len() && ((a + b)[i] == '\n' || (a + b)[i] == '\r');
        if i < a.len() {
            assert(a[i] == (a + b)[i]);
        } else {
            assert(b[i - a.len()] == (a + b)[i]);
        }
    }
    if has_line_break(a) {
        let i = choose|i: int| 0 <= i < a.len() && (a[i] == '\n' || a[i] == '\r');
        assert((a + b)[i] == a[i]);
    }
    if has_line_break(b) {
        let i = choose|i: int| 0 <= i < b.len() && (b[i] == '\n' || b[i] == '\r');
        assert((a + b)[a.len() + i] == b[i]);
    }
}

/// What starts with a line break holds one.
proof fn lemma_starts_with_line_break(lb: Seq<char>, rest: Seq<char>)
    requires
        is_line_break(lb),
    ensures
        has_line_break(lb + rest),
{
    assert((lb + rest)[0] == lb[0]);
}

proof fn lemma_event_shapes_split(es: Seq<SpacedEvent>, k: int)
    requires
        0 <= k <= es.len(),
    ensures
        event_shapes(es.take(k)) == event_shapes(es).take(k),
        event_shapes(es.skip(k)) == event_shapes(es).skip(k),
        event_shapes(es).len() == es.len(),
{
    assert(event_shapes(es.take(k)) =~= event_shapes(es).take(k));
    assert(event_shapes(es.skip(k)) =~= event_shapes(es).skip(k));
}

proof fn lemma_atoms_on_one_line_split(es: Seq<SpacedEvent>, k: int)
    requires
        0 <= k <= es.len(),
        atoms_on_one_line(es),
    ensures
        atoms_on_one_line(es.take(k)),
        atoms_on_one_line(es.skip(k)),
{
    assert forall|j: int| 0 <= j < es.take(k).len() implies (#[trigger] es.take(k)[j] matches SpacedEvent::Atom(
        a,
        _,
    ) ==> !has_line_break(a)) by {
        assert(es.take(k)[j] == es[j]);
    }
    assert forall|j: int| 0 <= j < es.skip(k).len() implies (#[trigger] es.skip(k)[j] matches SpacedEvent::Atom(
        a,
        _,
    ) ==> !has_line_break(a)) by {
        assert(es.skip(k)[j] == es[j + k]);
    }
}

proof fn lemma_no_line_break_short(t: Seq<char>)
    requires
        t.len() == 0 || t == seq![' '] || t == seq!['('] || t == seq![')'] || t == seq![' ', '('],
    ensures
        !has_line_break(t),
{
    if has_line_break(t) {
        let i = choose|i: int| 0 <= i < t.len() && (t[i] == '\n' || t[i] == '\r');
        if t == seq![' ', '('] {
            assert(t[i] == ' ' || t[i] == '(');
        }
    }
}

/// An atom written inside a list keeps the enclosing lists, and breaks the
/// list exactly when its text holds a line break.
proof fn lemma_atom_step_line_break(lb: Seq<char>, ind: Seq<char>, s: SpacedLine, a: Seq<char>, brk: nat)
    requires
        is_line_break(lb),
        !has_line_break(a),
    ensures
        ({
            let (o, q) = spaced_step(lb, ind, SpacedPhase::Writing(s), SpacedEvent::Atom(a, brk));
            &&& q is Writing
            &&& q->Writing_0.stack == s.stack
            &&& q->Writing_0.line_broken == (s.line_broken || has_line_break(o))
        }),
{
    let sep: Seq<char> = if s.list_beginning {
        Seq::empty()
    } else {
        seq![' ']
    };
    if s.line_len < brk {
        lemma_no_line_break_short(sep);
        lemma_has_line_break_concat(sep, a);
    } else {
        let rest = indent_text(ind, s.stack.len() + 1) + a;
        lemma_starts_with_line_break(lb, rest);
        assert(lb + indent_text(ind, s.stack.len() + 1) + a =~= lb + rest);
    }
}

/// Beginning a list inside a list records, for the enclosing list, whether
/// it is broken, counting the line break before the new list's `(`.
proof fn lemma_begin_step_line_break(lb: Seq<char>, ind: Seq<char>, s: SpacedLine, brk: nat)
    requires
        is_line_break(lb),
    ensures
        ({
            let (o, q) = spaced_step(lb, ind, SpacedPhase::Writing(s), SpacedEvent::BeginList(brk));
            &&& q is Writing
            &&& q->Writing_0.stack.drop_last() == s.stack
            &&& q->Writing_0.stack.len() == s.stack.len() + 1
            &&& q->Writing_0.stack.last() == (s.line_broken || has_line_break(o))
            &&& !q->Writing_0.line_broken
        }),
{
    let (o, q) = spaced_step(lb, ind, SpacedPhase::Writing(s), SpacedEvent::BeginList(brk));
    assert(q->Writing_0.stack.drop_last() =~= s.stack);
    if s.line_len < brk {
        if s.list_beginning {
            assert(o =~= seq!['(']);
        } else {
            assert(o =~= seq![' ', '(']);
        }
        lemma_no_line_break_short(o);
    } else {
        let rest = indent_text(ind, s.stack.len() + 1) + seq!['('];
        lemma_starts_with_line_break(lb, rest);
        assert(o =~= lb + rest);
    }
}

/// Ending a list inside a list writes a line break exactly when the ending
/// list is broken, and the enclosing list is broken afterwards when it was
/// before or the ending list was.
proof fn lemma_end_step_line_break(lb: Seq<char>, ind: Seq<char>, s: SpacedLine)
    requires
        is_line_break(lb),
        s.stack.len() > 0,
    ensures
        ({
            let (o, q) = spaced_step(lb, ind, SpacedPhase::Writing(s), SpacedEvent::EndList);
            &&& q is Writing
            &&& q->Writing_0.stack == s.stack.drop_last()
            &&& q->Writing_0.line_broken == (s.line_broken || s.stack.last())
            &&& has_line_break(o) == s.line_broken
        }),
{
    let (o, q) = spaced_step(lb, ind, SpacedPhase::Writing(s), SpacedEvent::EndList);
    if s.line_broken {
        let rest = indent_text(ind, s.stack.len()) + seq![')'];
        lemma_starts_with_line_break(lb, rest);
        assert(o =~= lb + rest);
    } else {
        lemma_no_line_break_short(o);
    }
}

/// Writing a whole node inside a list keeps the enclosing lists, and the
/// list counts as broken afterwards exactly when it was broken before or
/// the node's text holds a line break.
proof fn lemma_node_line_break(
    lb: Seq<char>,
    ind: Seq<char>,
    s: SpacedLine,
    es: Seq<SpacedEvent>,
    v: NodeValue,
)
    requires
        is_line_break(lb),
        event_shapes(es) == tree_events(v),
        atoms_on_one_line(es),
    ensures
        ({
            let (o, q) = spaced_from(lb, ind, SpacedPhase::Writing(s), es);
            &&& q is Writing
            &&& q->Writing_0.stack == s.stack
            &&& q->Writing_0.line_broken == (s.line_broken || has_line_break(o))
        }),
    decreases v, 1int,
{
    lemma_event_shapes_split(es, 0);
    match v {
        NodeValue::Atom(a) => {
            assert(es.len() == 1);
            assert(event_shape(es[0]) == event_shapes(es)[0]);
            assert(es.drop_last() =~= Seq::<SpacedEvent>::empty());
            let e = es[0];
            assert(e matches SpacedEvent::Atom(x, _) && x == a);
            assert(es[0] == es.last());
            lemma_atom_step_line_break(lb, ind, s, a, e->Atom_1);
            assert(spaced_from(lb, ind, SpacedPhase::Writing(s), es.drop_last()) == (
                Seq::<char>::empty(),
                SpacedPhase::Writing(s),
            ));
            let (o, q) = spaced_step(lb, ind, SpacedPhase::Writing(s), e);
            assert(Seq::<char>::empty() + o =~= o);
        },
        NodeValue::List(items) => {
            let n = es.len();
            let body = items_events(items);
            let shapes = seq![WriteEvent::BeginList] + body + seq![WriteEvent::EndList];
            assert(tree_events(v) == shapes);
            let rest = es.skip(1);
            let mid = rest.take(n - 2);
            lemma_event_shapes_split(es, 1);
            lemma_event_shapes_split(rest, n - 2);
            assert(shapes.skip(1).take(n - 2) =~= body);
            lemma_atoms_on_one_line_split(es, 1);
            lemma_atoms_on_one_line_split(rest, n - 2);
            let first = es[0];
            let last = es[n - 1];
            assert(event_shape(first) == event_shapes(es)[0]);
            assert(event_shape(last) == event_shapes(es)[n - 1]);
            assert(es =~= seq![first] + mid + seq![last]);
            assert(first matches SpacedEvent::BeginList(_));
            assert(last == SpacedEvent::EndList);
            lemma_from_concat(lb, ind, SpacedPhase::Writing(s), seq![first], mid);
            lemma_from_concat(lb, ind, SpacedPhase::Writing(s), seq![first] + mid, seq![last]);
            lemma_single_from(lb, ind, SpacedPhase::Writing(s), first);
            let (o1, p1) = spaced_step(lb, ind, SpacedPhase::Writing(s), first);
            lemma_begin_step_line_break(lb, ind, s, first->BeginList_0);
            let s1 = p1->Writing_0;
            lemma_items_line_break(lb, ind, s1, mid, items);
            let (o2, p2) = spaced_from(lb, ind, p1, mid);
            let s2 = p2->Writing_0;
            lemma_single_from(lb, ind, p2, last);
            lemma_end_step_line_break(lb, ind, s2);
            let (o3, p3) = spaced_step(lb, ind, p2, last);
            lemma_has_line_break_concat(o1, o2);
            lemma_has_line_break_concat(o1 + o2, o3);
        },
    }
}

proof fn lemma_single_from(lb: Seq<char>, ind: Seq<char>, p: SpacedPhase, e: SpacedEvent)
    ensures
        spaced_from(lb, ind, p, seq![e]) == spaced_step(lb, ind, p, e),
{
    reveal_with_fuel(spaced_from, 2);
    assert(seq![e].drop_last() =~= Seq::<SpacedEvent>::empty());
    assert(seq![e].last() == e);
    let (o, q) = spaced_step(lb, ind, p, e);
    assert(Seq::<char>::empty() + o =~= o);
}

/// Writing whole nodes inside a list keeps the enclosing lists, and the
/// list counts as broken afterwards exactly when it was broken before or
/// the nodes' text holds a line break.
proof fn lemma_items_line_break(
    lb: Seq<char>,
    ind: Seq<char>,
    s: SpacedLine,
    es: Seq<SpacedEvent>,
    items: Seq<NodeValue>,
)
    requires
        is_line_break(lb),
        event_shapes(es) == items_events(items),
        atoms_on_one_line(es),
    ensures
        ({
            let (o, q) = spaced_from(lb, ind, SpacedPhase::Writing(s), es);
            &&& q is Writing
            &&& q->Writing_0.stack == s.stack
            &&& q->Writing_0.line_broken == (s.line_broken || has_line_break(o))
        }),
    decreases items, 0int,
{
    lemma_event_shapes_split(es, 0);
    if items.len() == 0 {
        assert(es.len() == 0);
        lemma_no_line_break_short(Seq::<char>::empty());
    } else {
        let init = items.drop_last();
        let k = items_events(init).len() as int;
        assert(items_events(items) == items_events(init) + tree_events(items.last()));
        let es1 = es.take(k);
        let es2 = es.skip(k);
        assert(es =~= es1 + es2);
        lemma_event_shapes_split(es, k);
        assert(items_events(items).take(k) =~= items_events(init));
        assert(items_events(items).skip(k) =~= tree_events(items.last()));
        lemma_atoms_on_one_line_split(es, k);
        assert(decreases_to!(items => items.last()));
        lemma_items_line_break(lb, ind, s, es1, init);
        lemma_from_concat(lb, ind, SpacedPhase::Writing(s), es1, es2);
        let (o1, p1) = spaced_from(lb, ind, SpacedPhase::Writing(s), es1);
        lemma_node_line_break(lb, ind, p1->Writing_0, es2, items.last());
        let (o2, p2) = spaced_from(lb, ind, p1, es2);
        lemma_has_line_break_concat(o1, o2);
    }
}

/// A list closes on a line of its own exactly when a line break was written
/// inside it: after the items `body` of a list begun after `pre`, the list's
/// `)` follows a line break and the indentation of its enclosing lists if
/// the text written for the items holds a line break (their own, or one
/// inside a list among them), and follows them directly otherwise.
pub proof fn lemma_list_closing_line(
    lb: Seq<char>,
    ind: Seq<char>,
    pre: Seq<SpacedEvent>,
    brk: nat,
    body: Seq<SpacedEvent>,
    items: Seq<NodeValue>,
)
    requires
        is_line_break(lb),
        !(spaced_run(lb, ind, pre).1 is Finished),
        event_shapes(body) == items_events(items),
        atoms_on_one_line(body),
    ensures
        ({
            let opened = spaced_run(lb, ind, pre.push(SpacedEvent::BeginList(brk))).0;
            let filled = spaced_run(lb, ind, pre.push(SpacedEvent::BeginList(brk)) + body).0;
            let closed = spaced_run(
                lb,
                ind,
                (pre.push(SpacedEvent::BeginList(brk)) + body).push(SpacedEvent::EndList),
            ).0;
            let inside = filled.skip(opened.len() as int);
            &&& opened.len() <= filled.len()
            &&& filled.take(opened.len() as int) == opened
            &&& closed == filled + if has_line_break(inside) {
                lb + indent_text(ind, enclosing_lists(spaced_run(lb, ind, pre).1)) + seq![')']
            } else {
                seq![')']
            }
        }),
{
    let b = SpacedEvent::BeginList(brk);
    let e = SpacedEvent::EndList;
    let l1 = pre.push(b);
    let l2 = l1 + body;
    let l3 = l2.push(e);
    lemma_run_from(lb, ind, pre);
    lemma_run_from(lb, ind, l1);
    lemma_run_from(lb, ind, l2);
    lemma_run_from(lb, ind, l3);
    lemma_from_concat(lb, ind, SpacedPhase::Beginning, l1, body);
    let (o0, p0) = spaced_run(lb, ind, pre);
    let (o1, p1) = spaced_from(lb, ind, SpacedPhase::Beginning, l1);
    assert(l1.drop_last() =~= pre);
    assert((o1, p1) == ({
        let (m, r) = spaced_step(lb, ind, p0, b);
        (o0 + m, r)
    }));
    let s1 = p1->Writing_0;
    assert(!s1.line_broken);
    assert(s1.stack.len() == enclosing_lists(p0));
    lemma_items_line_break(lb, ind, s1, body, items);
    let (o2, p2) = spaced_from(lb, ind, p1, body);
    assert(l3.drop_last() =~= l2);
    let filled = o1 + o2;
    assert(filled.take(o1.len() as int) =~= o1);
    assert(filled.skip(o1.len() as int) =~= o2);
}

/// Whether `c` separates tokens: a space, a tab, a line feed or a carriage
/// return.
pub open spec fn is_blank(c: char) -> bool {
    c == ' ' || c == '\t' || c == '\n' || c == '\r'
}

/// Whether every character of `t` separates tokens.
pub open spec fn is_blank_text(t: Seq<char>) -> bool {
    forall|i: int| 0 <= i < t.len() ==> is_blank(#[trigger] t[i])
}

/// Whether every atom of `log` is valid.
pub open spec fn atoms_valid(log: Seq<SpacedEvent>) -> bool {
    forall|i: int|
        0 <= i < log.len() ==> (#[trigger] log[i] matches SpacedEvent::Atom(a, _) ==> is_valid_atom(a))
}

proof fn lemma_atoms_valid_split(es: Seq<SpacedEvent>, k: int)
    requires
        0 <= k <= es.len(),
        atoms_valid(es),
    ensures
        atoms_valid(es.take(k)),
        atoms_valid(es.skip(k)),
{
    assert forall|j: int| 0 <= j < es.take(k).len() implies (#[trigger] es.take(k)[j] matches SpacedEvent::Atom(
        a,
        _,
    ) ==> is_valid_atom(a)) by {
        assert(es.take(k)[j] == es[j]);
    }
    assert forall|j: int| 0 <= j < es.skip(k).len() implies (#[trigger] es.skip(k)[j] matches SpacedEvent::Atom(
        a,
        _,
    ) ==> is_valid_atom(a)) by {
        assert(es.skip(k)[j] == es[j + k]);
    }
}

proof fn lemma_indent_blank(ind: Seq<char>, n: nat)
    requires
        is_blank_text(ind),
    ensures
        is_blank_text(indent_text(ind, n)),
    decreases n,
{
    if n > 0 {
        lemma_indent_blank(ind, (n - 1) as nat);
        let a = indent_text(ind, (n - 1) as nat);
        assert forall|i: int| 0 <= i < (a + ind).len() implies is_blank(#[trigger] (a + ind)[i]) by {
            if i < a.len() {
                assert((a + ind)[i] == a[i]);
            } else {
                assert((a + ind)[i] == ind[i - a.len()]);
            }
        }
    }
}

/// What a spaced writer writes before a node: nothing at the beginning of a
/// list that stays on its line, a space between nodes on one line, or a
/// line break and the indentation.
pub open spec fn node_gap(lb: Seq<char>, ind: Seq<char>, s: SpacedLine, brk: nat) -> Seq<char> {
    if s.line_len < brk {
        if s.list_beginning {
            Seq::empty()
        } else {
            seq![' ']
        }
    } else {
        lb + indent_text(ind, s.stack.len() + 1)
    }
}

proof fn lemma_node_gap(lb: Seq<char>, ind: Seq<char>, s: SpacedLine, brk: nat)
    requires
        is_line_break(lb),
        is_blank_text(ind),
    ensures
        is_blank_text(node_gap(lb, ind, s, brk)),
        !s.list_beginning ==> node_gap(lb, ind, s, brk).len() > 0,
{
    let g = node_gap(lb, ind, s, brk);
    if !(s.line_len < brk) {
        let it = indent_text(ind, s.stack.len() + 1);
        lemma_indent_blank(ind, s.stack.len() + 1);
        assert forall|i: int| 0 <= i < g.len() implies is_blank(#[trigger] g[i]) by {
            if i < lb.len() {
                assert(g[i] == lb[i]);
            } else {
                assert(g[i] == it[i - lb.len()]);
            }
        }
    }
}

/// What a node's text looks like from outside: it is not empty, it starts
/// with a blank after another node, and it leaves the writer inside the
/// same lists, past the beginning of the list.
proof fn lemma_node_state(lb: Seq<char>, ind: Seq<char>, s: SpacedLine, es: Seq<SpacedEvent>, v: NodeValue)
    requires
        is_line_break(lb),
        event_shapes(es) == tree_events(v),
        atoms_valid(es),
    ensures
        ({
            let (o, q) = spaced_from(lb, ind, SpacedPhase::Writing(s), es);
            &&& o.len() > 0
            &&& !s.list_beginning ==> is_blank(o[0])
            &&& q is Writing
            &&& !q->Writing_0.list_beginning
            &&& q->Writing_0.stack == s.stack
        }),
    decreases v, 1int,
{
    lemma_event_shapes_split(es, 0);
    let e = es[0];
    match v {
        NodeValue::Atom(a) => {
            assert(es.len() == 1);
            assert(event_shape(es[0]) == event_shapes(es)[0]);
            assert(es =~= seq![e]);
            lemma_single_from(lb, ind, SpacedPhase::Writing(s), e);
            assert(e matches SpacedEvent::Atom(x, _) && x == a);
            let brk = e->Atom_1;
            assert(is_valid_atom(a));
            assert(a.len() > 0);
            let g = node_gap(lb, ind, s, brk);
            let o = spaced_from(lb, ind, SpacedPhase::Writing(s), es).0;
            assert(o =~= g + a);
            if !s.list_beginning {
                assert(o[0] == g[0]);
                assert(lb[0] == '\n' || lb[0] == '\r');
                if !(s.line_len < brk) {
                    assert(g[0] == lb[0]);
                }
            }
        },
        NodeValue::List(items) => {
            let n = es.len();
            let body = items_events(items);
            let shapes = seq![WriteEvent::BeginList] + body + seq![WriteEvent::EndList];
            assert(tree_events(v) == shapes);
            let rest = es.skip(1);
            let mid = rest.take(n - 2);
            lemma_event_shapes_split(es, 1);
            lemma_event_shapes_split(rest, n - 2);
            assert(shapes.skip(1).take(n - 2) =~= body);
            lemma_atoms_valid_split(es, 1);
            lemma_atoms_valid_split(rest, n - 2);
            let first = es[0];
            let last = es[n - 1];
            assert(event_shape(first) == event_shapes(es)[0]);
            assert(event_shape(last) == event_shapes(es)[n - 1]);
            assert(es =~= seq![first] + mid + seq![last]);
            assert(last == SpacedEvent::EndList);
            let brk = first->BeginList_0;
            lemma_from_concat(lb, ind, SpacedPhase::Writing(s), seq![first], mid);
            lemma_from_concat(lb, ind, SpacedPhase::Writing(s), seq![first] + mid, seq![last]);
            lemma_single_from(lb, ind, SpacedPhase::Writing(s), first);
            let (o1, p1) = spaced_step(lb, ind, SpacedPhase::Writing(s), first);
            let g = node_gap(lb, ind, s, brk);
            assert(o1 =~= g + seq!['(']);
            let s1 = p1->Writing_0;
            lemma_items_state(lb, ind, s1, mid, items);
            let (o2, p2) = spaced_from(lb, ind, p1, mid);
            let s2 = p2->Writing_0;
            assert(s2.stack.len() > 0);
            lemma_single_from(lb, ind, p2, last);
            let (o3, p3) = spaced_step(lb, ind, p2, last);
            let o = o1 + o2 + o3;
            assert(o[0] == o1[0]);
            if !s.list_beginning {
                assert(o1[0] == g[0]);
                if !(s.line_len < brk) {
                    assert(g[0] == lb[0]);
                }
            }
            assert(s2.stack.drop_last() =~= s.stack);
        },
    }
}

/// What the text of a list's items looks like from outside: it leaves the
/// writer inside the same lists, past the beginning of the list unless
/// there are no items, in which case nothing is written.
proof fn lemma_items_state(
    lb: Seq<char>,
    ind: Seq<char>,
    s: SpacedLine,
    es: Seq<SpacedEvent>,
    items: Seq<NodeValue>,
)
    requires
        is_line_break(lb),
        event_shapes(es) == items_events(items),
        atoms_valid(es),
    ensures
        ({
            let (o, q) = spaced_from(lb, ind, SpacedPhase::Writing(s), es);
            &&& q is Writing
            &&& q->Writing_0.stack == s.stack
            &&& items.len() > 0 ==> !q->Writing_0.list_beginning
            &&& items.len() == 0 ==> q == SpacedPhase::Writing(s) && o.len() == 0
        }),
    decreases items, 0int,
{
    lemma_event_shapes_split(es, 0);
    if items.len() == 0 {
        assert(es.len() == 0);
    } else {
        let init = items.drop_last();
        let k = items_events(init).len() as int;
        assert(items_events(items) == items_events(init) + tree_events(items.last()));
        let es1 = es.take(k);
        let es2 = es.skip(k);
        assert(es =~= es1 + es2);
        lemma_event_shapes_split(es, k);
        assert(items_events(items).take(k) =~= items_events(init));
        assert(items_events(items).skip(k) =~= tree_events(items.last()));
        lemma_atoms_valid_split(es, k);
        assert(decreases_to!(items => items.last()));
        lemma_items_state(lb, ind, s, es1, init);
        lemma_from_concat(lb, ind, SpacedPhase::Writing(s), es1, es2);
        let (o1, p1) = spaced_from(lb, ind, SpacedPhase::Writing(s), es1);
        lemma_node_state(lb, ind, p1->Writing_0, es2, items.last());
    }
}

/// Blank characters where the next token is looked for change nothing that
/// is read.
proof fn lemma_skip_blank(t: Seq<char>, i: int, k: int, d: nat, frames: Seq<Seq<NodeValue>>)
    requires
        0 <= i,
        0 <= k,
        i + k <= t.len(),
        forall|j: int| i <= j < i + k ==> is_blank(#[trigger] t[j]),
        frames.len() > 0,
        frames.len() - 1 <= d,
    ensures
        read_items(t, i, ParserState::Parsing(d), frames) == read_items(
            t,
            i + k,
            ParserState::Parsing(d),
            frames,
        ),
    decreases k,
{
    if k > 0 {
        assert(is_blank(t[i]));
        crate::syntax::lemma_whitespace_skipped(t, i, ParserState::Parsing(d), frames);
        lemma_skip_blank(t, i + 1, k - 1, d, frames);
    }
}

/// The text of one node, written from inside a list, is read back as that
/// node: reading from where it starts adds the node to the innermost open
/// list and stops where the text ends.
#[verifier::spinoff_prover]
#[verifier::rlimit(80)]
proof fn lemma_node_reads_back(
    lb: Seq<char>,
    ind: Seq<char>,
    s: SpacedLine,
    es: Seq<SpacedEvent>,
    v: NodeValue,
    t: Seq<char>,
    i: int,
    d: nat,
    frames: Seq<Seq<NodeValue>>,
)
    requires
        is_line_break(lb),
        is_blank_text(ind),
        event_shapes(es) == tree_events(v),
        atoms_valid(es),
        0 <= i,
        frames.len() > 0,
        frames.len() - 1 <= d,
        ({
            let o = spaced_from(lb, ind, SpacedPhase::Writing(s), es).0;
            &&& i + o.len() < t.len()
            &&& t.subrange(i, i + o.len()) == o
            &&& crate::syntax::ends_atom(t[i + o.len()])
        }),
    ensures
        ({
            let (o, q) = spaced_from(lb, ind, SpacedPhase::Writing(s), es);
            &&& o.len() > 0
            &&& !s.list_beginning ==> is_blank(o[0])
            &&& q is Writing
            &&& !q->Writing_0.list_beginning
            &&& q->Writing_0.stack == s.stack
            &&& read_items(t, i, ParserState::Parsing(d), frames) == read_items(
                t,
                i + o.len(),
                ParserState::Parsing(d),
                add_to_innermost(frames, v),
            )
        }),
    decreases v, 1int,
{
    lemma_event_shapes_split(es, 0);
    match v {
        NodeValue::Atom(a) => {
            assert(es.len() == 1);
            assert(event_shape(es[0]) == event_shapes(es)[0]);
            let e = es[0];
            assert(es =~= seq![e]);
            lemma_single_from(lb, ind, SpacedPhase::Writing(s), e);
            assert(e matches SpacedEvent::Atom(x, _) && x == a);
            let brk = e->Atom_1;
            assert(is_valid_atom(a));
            let g = node_gap(lb, ind, s, brk);
            lemma_node_gap(lb, ind, s, brk);
            let o = spaced_from(lb, ind, SpacedPhase::Writing(s), es).0;
            assert(o =~= g + a);
            assert forall|j: int| i <= j < i + g.len() implies is_blank(#[trigger] t[j]) by {
                assert(t[j] == t.subrange(i, i + o.len())[j - i]);
                assert(o[j - i] == g[j - i]);
            }
            lemma_skip_blank(t, i, g.len() as int, d, frames);
            let j = i + g.len();
            assert(t.subrange(j, j + a.len()) =~= a) by {
                assert forall|m: int| 0 <= m < a.len() implies t.subrange(j, j + a.len())[m] == a[m] by {
                    assert(t[j + m] == t.subrange(i, i + o.len())[g.len() + m]);
                    assert(o[g.len() + m] == a[m]);
                }
            }
            crate::syntax::lemma_lex_valid_atom(t, j, a);
            if !s.list_beginning {
                assert(o[0] == g[0]);
            }
        },
        NodeValue::List(items) => {
            let n = es.len();
            let body = items_events(items);
            let shapes = seq![WriteEvent::BeginList] + body + seq![WriteEvent::EndList];
            assert(tree_events(v) == shapes);
            let rest = es.skip(1);
            let mid = rest.take(n - 2);
            lemma_event_shapes_split(es, 1);
            lemma_event_shapes_split(rest, n - 2);
            assert(shapes.skip(1).take(n - 2) =~= body);
            lemma_atoms_valid_split(es, 1);
            lemma_atoms_valid_split(rest, n - 2);
            let first = es[0];
            let last = es[n - 1];
            assert(event_shape(first) == event_shapes(es)[0]);
            assert(event_shape(last) == event_shapes(es)[n - 1]);
            assert(es =~= seq![first] + mid + seq![last]);
            assert(last == SpacedEvent::EndList);
            let brk = first->BeginList_0;
            lemma_from_concat(lb, ind, SpacedPhase::Writing(s), seq![first], mid);
            lemma_from_concat(lb, ind, SpacedPhase::Writing(s), seq![first] + mid, seq![last]);
            lemma_single_from(lb, ind, SpacedPhase::Writing(s), first);
            let (o1, p1) = spaced_step(lb, ind, SpacedPhase::Writing(s), first);
            let g = node_gap(lb, ind, s, brk);
            lemma_node_gap(lb, ind, s, brk);
            assert(o1 =~= g + seq!['(']);
            let s1 = p1->Writing_0;
            let (o2, p2) = spaced_from(lb, ind, p1, mid);
            lemma_single_from(lb, ind, p2, last);
            let (o3, p3) = spaced_step(lb, ind, p2, last);
            let o = o1 + o2 + o3;
            assert(spaced_from(lb, ind, SpacedPhase::Writing(s), es).0 == o);
            lemma_items_state(lb, ind, s1, mid, items);
            let s2 = p2->Writing_0;
            assert(s2.stack.len() > 0);
            assert(o3.len() > 0);
            assert(o3[0] == ')' || o3[0] == lb[0]);
            // the gap and the opening parenthesis
            assert forall|j: int| i <= j < i + g.len() implies is_blank(#[trigger] t[j]) by {
                assert(t[j] == t.subrange(i, i + o.len())[j - i]);
                assert(o[j - i] == g[j - i]);
            }
            lemma_skip_blank(t, i, g.len() as int, d, frames);
            let jo = i + g.len();
            assert(t[jo] == t.subrange(i, i + o.len())[g.len() as int]);
            assert(o[g.len() as int] == '(');
            let inner = frames.push(Seq::<NodeValue>::empty());
            assert(read_items(t, jo, ParserState::Parsing(d), frames) == read_items(
                t,
                jo + 1,
                ParserState::Parsing(d + 1),
                inner,
            ));
            // the items
            let ji = jo + 1;
            assert(t.subrange(ji, ji + o2.len()) =~= o2) by {
                assert forall|m: int| 0 <= m < o2.len() implies t.subrange(ji, ji + o2.len())[m]
                    == o2[m] by {
                    assert(t[ji + m] == t.subrange(i, i + o.len())[o1.len() + m]);
                    assert(o[o1.len() + m] == o2[m]);
                }
            }
            assert(t[ji + o2.len()] == t.subrange(i, i + o.len())[(o1.len() + o2.len()) as int]);
            assert(o[(o1.len() + o2.len()) as int] == o3[0]);
            lemma_items_reads_back(lb, ind, s1, mid, items, t, ji, d + 1, inner);
            // the closing parenthesis
            let g2: Seq<char> = if s2.line_broken {
                lb + indent_text(ind, s2.stack.len())
            } else {
                Seq::empty()
            };
            assert(s2.stack.len() > 0);
            assert(o3 =~= g2 + seq![')']);
            assert(is_blank_text(g2)) by {
                if s2.line_broken {
                    lemma_indent_blank(ind, s2.stack.len());
                    let it = indent_text(ind, s2.stack.len());
                    assert forall|m: int| 0 <= m < g2.len() implies is_blank(#[trigger] g2[m]) by {
                        if m < lb.len() {
                            assert(g2[m] == lb[m]);
                        } else {
                            assert(g2[m] == it[m - lb.len()]);
                        }
                    }
                }
            }
            let jc = ji + o2.len();
            let full = inner.update(inner.len() - 1, items);
            assert(full =~= frames.push(items));
            assert forall|j: int| jc <= j < jc + g2.len() implies is_blank(#[trigger] t[j]) by {
                assert(t[j] == t.subrange(i, i + o.len())[o1.len() + o2.len() + (j - jc)]);
                assert(o[o1.len() + o2.len() + (j - jc)] == g2[j - jc]);
            }
            lemma_skip_blank(t, jc, g2.len() as int, d + 1, full);
            let je = jc + g2.len();
            assert(t[je] == t.subrange(i, i + o.len())[(o1.len() + o2.len() + g2.len()) as int]);
            assert(o[(o1.len() + o2.len() + g2.len()) as int] == ')');
            assert(full.drop_last() =~= frames);
            assert(full.last() == items);
            assert(read_items(t, je, ParserState::Parsing(d + 1), full) == read_items(
                t,
                je + 1,
                ParserState::Parsing(d),
                add_to_innermost(frames, NodeValue::List(items)),
            ));
            assert(i + o.len() == je + 1);
            if !s.list_beginning {
                assert(o[0] == g[0]);
            } else {
                assert(o[0] == o1[0]);
            }
            lemma_end_step_line_break(lb, ind, s2);
        },
    }
}

/// The text of the items of a list, written from inside it, is read back as
/// those items, added to the innermost open list.
proof fn lemma_items_reads_back(
    lb: Seq<char>,
    ind: Seq<char>,
    s: SpacedLine,
    es: Seq<SpacedEvent>,
    items: Seq<NodeValue>,
    t: Seq<char>,
    i: int,
    d: nat,
    frames: Seq<Seq<NodeValue>>,
)
    requires
        is_line_break(lb),
        is_blank_text(ind),
        event_shapes(es) == items_events(items),
        atoms_valid(es),
        0 <= i,
        frames.len() > 0,
        frames.len() - 1 <= d,
        ({
            let o = spaced_from(lb, ind, SpacedPhase::Writing(s), es).0;
            &&& i + o.len() < t.len()
            &&& t.subrange(i, i + o.len()) == o
            &&& o.len() > 0 ==> crate::syntax::ends_atom(t[i + o.len()])
        }),
    ensures
        ({
            let (o, q) = spaced_from(lb, ind, SpacedPhase::Writing(s), es);
            &&& q is Writing
            &&& q->Writing_0.stack == s.stack
            &&& items.len() > 0 ==> !q->Writing_0.list_beginning
            &&& items.len() == 0 ==> q == SpacedPhase::Writing(s) && o.len() == 0
            &&& read_items(t, i, ParserState::Parsing(d), frames) == read_items(
                t,
                i + o.len(),
                ParserState::Parsing(d),
                frames.update(frames.len() - 1, frames.last() + items),
            )
        }),
    decreases items, 0int,
{
    lemma_event_shapes_split(es, 0);
    if items.len() == 0 {
        assert(es.len() == 0);
        assert(frames.update(frames.len() - 1, frames.last() + items) =~= frames);
    } else {
        let init = items.drop_last();
        let k = items_events(init).len() as int;
        assert(items_events(items) == items_events(init) + tree_events(items.last()));
        let es1 = es.take(k);
        let es2 = es.skip(k);
        assert(es =~= es1 + es2);
        lemma_event_shapes_split(es, k);
        assert(items_events(items).take(k) =~= items_events(init));
        assert(items_events(items).skip(k) =~= tree_events(items.last()));
        lemma_atoms_valid_split(es, k);
        lemma_from_concat(lb, ind, SpacedPhase::Writing(s), es1, es2);
        let (o1, p1) = spaced_from(lb, ind, SpacedPhase::Writing(s), es1);
        let (o2, p2) = spaced_from(lb, ind, p1, es2);
        let o = o1 + o2;
        assert(t.subrange(i, i + o1.len()) =~= o1) by {
            assert forall|m: int| 0 <= m < o1.len() implies t.subrange(i, i + o1.len())[m] == o1[m] by {
                assert(t[i + m] == t.subrange(i, i + o.len())[m]);
                assert(o[m] == o1[m]);
            }
        }
        assert(t.subrange(i + o1.len(), i + o1.len() + o2.len()) =~= o2) by {
            assert forall|m: int| 0 <= m < o2.len() implies t.subrange(
                i + o1.len(),
                i + o1.len() + o2.len(),
            )[m] == o2[m] by {
                assert(t[i + o1.len() + m] == t.subrange(i, i + o.len())[o1.len() + m]);
                assert(o[o1.len() + m] == o2[m]);
            }
        }
        assert(decreases_to!(items => items.last()));
        lemma_items_state(lb, ind, s, es1, init);
        let s1 = p1->Writing_0;
        lemma_node_state(lb, ind, s1, es2, items.last());
        if o1.len() > 0 {
            assert(!s1.list_beginning);
            assert(t[i + o1.len()] == o2[0]);
        }
        lemma_items_reads_back(lb, ind, s, es1, init, t, i, d, frames);
        let f1 = frames.update(frames.len() - 1, frames.last() + init);
        lemma_node_reads_back(lb, ind, s1, es2, items.last(), t, i + o1.len(), d, f1);
        assert(f1.last() == frames.last() + init);
        assert((frames.last() + init).push(items.last()) =~= frames.last() + items);
        assert(add_to_innermost(f1, items.last()) =~= frames.update(
            frames.len() - 1,
            frames.last() + items,
        ));
    }
}

/// The text that a spaced writer writes for a whole tree is read back as
/// that tree: whatever the options of its nodes, with a line break made of
/// line feeds and carriage returns and an indentation made of blanks, the
/// parser reads the tree from it and nothing follows.
#[verifier::spinoff_prover]
#[verifier::rlimit(80)]
pub proof fn lemma_spaced_text_reads_back(
    lb: Seq<char>,
    ind: Seq<char>,
    log: Seq<SpacedEvent>,
    v: NodeValue,
)
    requires
        is_line_break(lb),
        is_blank_text(ind),
        event_shapes(log) == tree_events(v),
        atoms_valid(log),
    ensures
        ({
            let out = spaced_run(lb, ind, log).0;
            &&& crate::syntax::read_tree(out, 0, ParserState::Beginning) == (
                Ok::<NodeValue, crate::syntax::SyntaxError>(v),
                out.len() as int,
                ParserState::Finishing,
            )
            &&& crate::syntax::finish_step(out, out.len() as int) == Ok::<
                (),
                crate::syntax::SyntaxError,
            >(())
        }),
{
    lemma_run_from(lb, ind, log);
    lemma_event_shapes_split(log, 0);
    let out = spaced_run(lb, ind, log).0;
    match v {
        NodeValue::Atom(a) => {
            assert(log.len() == 1);
            assert(event_shape(log[0]) == event_shapes(log)[0]);
            let e = log[0];
            assert(log =~= seq![e]);
            lemma_single_from(lb, ind, SpacedPhase::Beginning, e);
            assert(e matches SpacedEvent::Atom(x, _) && x == a);
            assert(is_valid_atom(a));
            assert(out == a);
            assert(out.subrange(0, a.len() as int) =~= a);
            crate::syntax::lemma_lex_valid_atom(out, 0, a);
        },
        NodeValue::List(items) => {
            let n = log.len();
            let body = items_events(items);
            let shapes = seq![WriteEvent::BeginList] + body + seq![WriteEvent::EndList];
            assert(tree_events(v) == shapes);
            let rest = log.skip(1);
            let mid = rest.take(n - 2);
            lemma_event_shapes_split(log, 1);
            lemma_event_shapes_split(rest, n - 2);
            assert(shapes.skip(1).take(n - 2) =~= body);
            lemma_atoms_valid_split(log, 1);
            lemma_atoms_valid_split(rest, n - 2);
            let first = log[0];
            let last = log[n - 1];
            assert(event_shape(first) == event_shapes(log)[0]);
            assert(event_shape(last) == event_shapes(log)[n - 1]);
            assert(log =~= seq![first] + mid + seq![last]);
            assert(last == SpacedEvent::EndList);
            lemma_from_concat(lb, ind, SpacedPhase::Beginning, seq![first], mid);
            lemma_from_concat(lb, ind, SpacedPhase::Beginning, seq![first] + mid, seq![last]);
            lemma_single_from(lb, ind, SpacedPhase::Beginning, first);
            let (o1, p1) = spaced_step(lb, ind, SpacedPhase::Beginning, first);
            let s1 = p1->Writing_0;
            assert(o1 == seq!['(']);
            let (o2, p2) = spaced_from(lb, ind, p1, mid);
            lemma_items_state(lb, ind, s1, mid, items);
            let s2 = p2->Writing_0;
            assert(s2.stack.len() == 0);
            lemma_single_from(lb, ind, p2, last);
            let (o3, p3) = spaced_step(lb, ind, p2, last);
            assert(out == o1 + o2 + o3);
            let g2: Seq<char> = if s2.line_broken {
                lb
            } else {
                Seq::empty()
            };
            assert(indent_text(ind, 0) =~= Seq::<char>::empty());
            assert(o3 =~= g2 + seq![')']);
            assert(out.subrange(1, 1 + o2.len() as int) =~= o2);
            assert(out[1 + o2.len() as int] == o3[0]);
            assert(o3[0] == ')' || o3[0] == lb[0]);
            let f0 = seq![Seq::<NodeValue>::empty()];
            lemma_items_reads_back(lb, ind, s1, mid, items, out, 1, 0, f0);
            let full = f0.update(0, items);
            assert(f0.update(f0.len() - 1, f0.last() + items) =~= full);
            let jc: int = 1 + o2.len() as int;
            assert forall|j: int| jc <= j < jc + g2.len() implies is_blank(#[trigger] out[j]) by {
                assert(out[j] == g2[j - jc]);
                assert(g2[j - jc] == lb[j - jc]);
            }
            lemma_skip_blank(out, jc, g2.len() as int, 0, full);
            let je: int = jc + g2.len();
            assert(out[je] == ')');
            assert(full =~= seq![items]);
            assert(out[0] == '(');
        },
    }
}

/// The current line of `t`: what follows its last line feed or carriage
/// return (all of `t` if it holds none).
pub open spec fn current_line(t: Seq<char>) -> Seq<char>
    decreases t.len(),
{
    if t.len() == 0 {
        t
    } else if t.last() == '\n' || t.last() == '\r' {
        Seq::empty()
    } else {
        current_line(t.drop_last()).push(t.last())
    }
}

/// Whether `ind` is made of spaces and tabs.
pub open spec fn is_indentation(ind: Seq<char>) -> bool {
    forall|i: int| 0 <= i < ind.len() ==> (#[trigger] ind[i] == ' ' || ind[i] == '\t')
}

proof fn lemma_current_line_short(t: Seq<char>)
    ensures
        current_line(t).len() <= t.len(),
    decreases t.len(),
{
    if t.len() > 0 {
        lemma_current_line_short(t.drop_last());
    }
}

/// Text without line breaks continues the current line.
proof fn lemma_current_line_append(a: Seq<char>, b: Seq<char>)
    requires
        !has_line_break(b),
    ensures
        current_line(a + b) == current_line(a) + b,
    decreases b.len(),
{
    if b.len() == 0 {
        assert(a + b =~= a);
        assert(current_line(a) + b =~= current_line(a));
    } else {
        assert((a + b).drop_last() =~= a + b.drop_last());
        assert((a + b).last() == b.last());
        assert(!has_line_break(b.drop_last())) by {
            if has_line_break(b.drop_last()) {
                let i = choose|i: int|
                    0 <= i < b.drop_last().len() && (b.drop_last()[i] == '\n' || b.drop_last()[i]
                        == '\r');
                assert(b[i] == b.drop_last()[i]);
            }
        }
        assert(!(b.last() == '\n' || b.last() == '\r')) by {
            if b.last() == '\n' || b.last() == '\r' {
                assert(b[b.len() - 1] == b.last());
            }
        }
        lemma_current_line_append(a, b.drop_last());
        assert(current_line(a) + b.drop_last() + seq![b.last()] =~= current_line(a) + b);
        assert((current_line(a) + b.drop_last()).push(b.last()) =~= current_line(a) + b);
    }
}

/// After a line break, the current line is what follows it.
proof fn lemma_current_line_after_break(a: Seq<char>, lb: Seq<char>, rest: Seq<char>)
    requires
        is_line_break(lb),
        !has_line_break(rest),
    ensures
        current_line(a + lb + rest) == rest,
{
    let x = a + lb;
    assert(x.last() == lb[lb.len() - 1]);
    assert(x.len() > 0);
    assert(current_line(x) == Seq::<char>::empty());
    lemma_current_line_append(x, rest);
    assert(Seq::<char>::empty() + rest =~= rest);
}

/// Characters below 0x80 take one byte each.
proof fn lemma_ascii_encode_len(t: Seq<char>)
    requires
        forall|i: int| 0 <= i < t.len() ==> (#[trigger] t[i] as u32) < 0x80,
    ensures
        vstd::utf8::encode_utf8(t).len() == t.len(),
    decreases t.len(),
{
    if t.len() > 0 {
        assert forall|i: int| 0 <= i < t.drop_first().len() implies (#[trigger] t.drop_first()[i] as u32)
            < 0x80 by {
            assert(t.drop_first()[i] == t[i + 1]);
        }
        lemma_ascii_encode_len(t.drop_first());
        assert((t[0] as u32) < 0x80);
    }
}

/// The characters of a valid atom are ASCII, and none is a line break.
proof fn lemma_atom_chars(a: Seq<char>, i: int, st: crate::util::AtomState)
    requires
        0 <= i <= a.len(),
        crate::util::atom_accepts_from(a, i, st),
    ensures
        forall|j: int|
            i <= j < a.len() ==> (#[trigger] a[j] as u32) < 0x80 && a[j] != '\n' && a[j] != '\r',
    decreases a.len() - i,
{
    if i < a.len() {
        let c = a[i];
        let next = match st {
            crate::util::AtomState::Beginning | crate::util::AtomState::Normal => if c == '"' {
                crate::util::AtomState::InString
            } else {
                crate::util::AtomState::Normal
            },
            crate::util::AtomState::InString => if c == '"' {
                crate::util::AtomState::Normal
            } else if c == '\\' {
                crate::util::AtomState::StringBackslash
            } else {
                crate::util::AtomState::InString
            },
            crate::util::AtomState::StringBackslash => crate::util::AtomState::InString,
        };
        lemma_atom_chars(a, i + 1, next);
    }
}

proof fn lemma_valid_atom_ascii(a: Seq<char>)
    requires
        is_valid_atom(a),
    ensures
        !has_line_break(a),
        byte_len(a) == a.len() || a.len() > usize::MAX,
{
    lemma_atom_chars(a, 0, crate::util::AtomState::Beginning);
    lemma_ascii_encode_len(a);
    if has_line_break(a) {
        let i = choose|i: int| 0 <= i < a.len() && (a[i] == '\n' || a[i] == '\r');
        assert(a[i] as u32 >= 0);
    }
}

proof fn lemma_indent_sizes(ind: Seq<char>, n: nat)
    requires
        is_indentation(ind),
        n * ind.len() <= usize::MAX,
    ensures
        indent_text(ind, n).len() == n * ind.len(),
        indent_len(byte_len(ind), n) == n * ind.len(),
        !has_line_break(indent_text(ind, n)),
        byte_len(ind) == ind.len() || n == 0,
    decreases n,
{
    if n > 0 {
        let m = (n - 1) as nat;
        let l = ind.len();
        assert(m * l + l == n * l && m * l <= n * l && l <= n * l) by (nonlinear_arith)
            requires
                m + 1 == n,
        ;
        lemma_indent_sizes(ind, m);
        assert(indent_text(ind, n) == indent_text(ind, m) + ind);
        assert(indent_len(byte_len(ind), n) == sat_add(indent_len(byte_len(ind), m), byte_len(ind)));
        assert forall|i: int| 0 <= i < ind.len() implies (#[trigger] ind[i] as u32) < 0x80 by {
            assert(ind[i] == ' ' || ind[i] == '\t');
        }
        lemma_ascii_encode_len(ind);
        let a = indent_text(ind, (n - 1) as nat);
        lemma_has_line_break_concat(a, ind);
        if has_line_break(ind) {
            let i = choose|i: int| 0 <= i < ind.len() && (ind[i] == '\n' || ind[i] == '\r');
            assert(ind[i] == ' ' || ind[i] == '\t');
        }
    } else {
        assert(n * ind.len() == 0) by (nonlinear_arith)
            requires
                n == 0,
        ;
    }
}

proof fn lemma_run_beginning(lb: Seq<char>, ind: Seq<char>, log: Seq<SpacedEvent>)
    requires
        spaced_run(lb, ind, log).1 is Beginning,
    ensures
        log.len() == 0,
    decreases log.len(),
{
    if log.len() > 0 {
        let (out, p) = spaced_run(lb, ind, log.drop_last());
        if p is Beginning {
            lemma_run_beginning(lb, ind, log.drop_last());
        }
    }
}

/// What a spaced writer counts as the length of the current line is the
/// length of the current line of what it has written.
pub proof fn lemma_line_len_counts(lb: Seq<char>, ind: Seq<char>, log: Seq<SpacedEvent>)
    requires
        is_line_break(lb),
        is_indentation(ind),
        atoms_valid(log),
        spaced_run(lb, ind, log).0.len() <= usize::MAX,
    ensures
        spaced_run(lb, ind, log).1 matches SpacedPhase::Writing(s) ==> s.line_len == current_line(
            spaced_run(lb, ind, log).0,
        ).len(),
    decreases log.len(),
{
    if log.len() > 0 {
        let init = log.drop_last();
        let e = log.last();
        let (out0, p) = spaced_run(lb, ind, init);
        let (more, q) = spaced_step(lb, ind, p, e);
        let out = out0 + more;
        assert(spaced_run(lb, ind, log) == (out, q));
        assert(atoms_valid(init)) by {
            assert forall|j: int| 0 <= j < init.len() implies (#[trigger] init[j] matches SpacedEvent::Atom(
                a,
                _,
            ) ==> is_valid_atom(a)) by {
                assert(init[j] == log[j]);
            }
        }
        lemma_line_len_counts(lb, ind, init);
        lemma_current_line_short(out);
        if e is Atom {
            assert(log[log.len() - 1] == e);
            assert(is_valid_atom(e->Atom_0));
            lemma_valid_atom_ascii(e->Atom_0);
        }
        match p {
            SpacedPhase::Beginning => {
                lemma_run_beginning(lb, ind, init);
                if e is BeginList {
                    assert(out0.len() == 0);
                    assert(out =~= seq!['(']);
                    assert(seq!['('].drop_last() =~= Seq::<char>::empty());
                    assert(current_line(out) =~= seq!['(']);
                }
            },
            SpacedPhase::Writing(s) => {
                let k = byte_len(ind);
                let depth = s.stack.len();
                let sep: Seq<char> = if s.list_beginning {
                    Seq::empty()
                } else {
                    seq![' ']
                };
                lemma_no_line_break_short(sep);
                lemma_no_line_break_short(seq!['(']);
                lemma_no_line_break_short(seq![')']);
                match e {
                    SpacedEvent::Atom(a, brk) => {
                        if s.line_len < brk {
                            lemma_has_line_break_concat(sep, a);
                            lemma_current_line_append(out0, sep + a);
                            assert(out0 + (sep + a) =~= out);
                        } else {
                            let it = indent_text(ind, depth + 1);
                            assert(out =~= out0 + lb + (it + a));
                            assert((depth + 1) * ind.len() <= usize::MAX) by {
                                lemma_current_line_after_break_len(out0, lb, it, a, ind, depth + 1);
                            }
                            lemma_indent_sizes(ind, depth + 1);
                            lemma_has_line_break_concat(it, a);
                            lemma_current_line_after_break(out0, lb, it + a);
                        }
                    },
                    SpacedEvent::BeginList(brk) => {
                        if s.line_len < brk {
                            lemma_has_line_break_concat(sep, seq!['(']);
                            lemma_current_line_append(out0, sep + seq!['(']);
                            assert(out0 + (sep + seq!['(']) =~= out);
                        } else {
                            let it = indent_text(ind, depth + 1);
                            assert(out =~= out0 + lb + (it + seq!['(']));
                            assert((depth + 1) * ind.len() <= usize::MAX) by {
                                lemma_current_line_after_break_len(out0, lb, it, seq!['('], ind, depth + 1);
                            }
                            lemma_indent_sizes(ind, depth + 1);
                            lemma_has_line_break_concat(it, seq!['(']);
                            lemma_current_line_after_break(out0, lb, it + seq!['(']);
                        }
                    },
                    SpacedEvent::EndList => {
                        if s.line_broken {
                            let it = indent_text(ind, depth);
                            assert(out =~= out0 + lb + (it + seq![')']));
                            assert(depth * ind.len() <= usize::MAX) by {
                                lemma_current_line_after_break_len(out0, lb, it, seq![')'], ind, depth);
                            }
                            lemma_indent_sizes(ind, depth);
                            lemma_has_line_break_concat(it, seq![')']);
                            lemma_current_line_after_break(out0, lb, it + seq![')']);
                        } else {
                            lemma_current_line_append(out0, seq![')']);
                        }
                    },
                }
            },
            SpacedPhase::Finished => {},
        }
    }
}

/// The indentation written after a line break fits in the text.
proof fn lemma_current_line_after_break_len(
    out0: Seq<char>,
    lb: Seq<char>,
    it: Seq<char>,
    rest: Seq<char>,
    ind: Seq<char>,
    n: nat,
)
    requires
        it == indent_text(ind, n),
        (out0 + lb + (it + rest)).len() <= usize::MAX,
    ensures
        n * ind.len() <= usize::MAX,
    decreases n,
{
    lemma_indent_len_plain(ind, n);
}

proof fn lemma_indent_len_plain(ind: Seq<char>, n: nat)
    ensures
        indent_text(ind, n).len() == n * ind.len(),
    decreases n,
{
    if n > 0 {
        let m = (n - 1) as nat;
        let l = ind.len();
        lemma_indent_len_plain(ind, m);
        assert(m * l + l == n * l) by (nonlinear_arith)
            requires
                m + 1 == n,
        ;
        assert(indent_text(ind, n) == indent_text(ind, m) + ind);
    } else {
        assert(n * ind.len() == 0) by (nonlinear_arith)
            requires
                n == 0,
        ;
    }
}

/// A spaced writer puts the next node on a new line exactly when the
/// current line of what it has written is at least as long as the node's
/// `break_line_len`: the text it writes for an atom or a list beginning then
/// holds a line break, and otherwise none.
pub proof fn lemma_break_when_line_long(
    lb: Seq<char>,
    ind: Seq<char>,
    log: Seq<SpacedEvent>,
    e: SpacedEvent,
)
    requires
        is_line_break(lb),
        is_indentation(ind),
        atoms_valid(log.push(e)),
        spaced_run(lb, ind, log).1 is Writing,
        spaced_run(lb, ind, log.push(e)).0.len() <= usize::MAX,
        !(e is EndList),
    ensures
        ({
            let out = spaced_run(lb, ind, log).0;
            let more = spaced_step(lb, ind, spaced_run(lb, ind, log).1, e).0;
            let brk = match e {
                SpacedEvent::Atom(_, b) => b,
                SpacedEvent::BeginList(b) => b,
                SpacedEvent::EndList => 0,
            };
            has_line_break(more) == (current_line(out).len() >= brk)
        }),
{
    let l2 = log.push(e);
    assert(l2.drop_last() =~= log);
    assert(l2.last() == e);
    assert(atoms_valid(log)) by {
        assert forall|j: int| 0 <= j < log.len() implies (#[trigger] log[j] matches SpacedEvent::Atom(
            a,
            _,
        ) ==> is_valid_atom(a)) by {
            assert(log[j] == l2[j]);
        }
    }
    lemma_line_len_counts(lb, ind, log);
    let (out, p) = spaced_run(lb, ind, log);
    let s = p->Writing_0;
    let sep: Seq<char> = if s.list_beginning {
        Seq::empty()
    } else {
        seq![' ']
    };
    lemma_no_line_break_short(sep);
    lemma_no_line_break_short(seq!['(']);
    match e {
        SpacedEvent::Atom(a, brk) => {
            assert(l2[l2.len() - 1] == e);
            assert(is_valid_atom(a));
            lemma_valid_atom_ascii(a);
            if s.line_len < brk {
                lemma_has_line_break_concat(sep, a);
            } else {
                lemma_starts_with_line_break(lb, indent_text(ind, s.stack.len() + 1) + a);
                assert(lb + indent_text(ind, s.stack.len() + 1) + a =~= lb + (indent_text(
                    ind,
                    s.stack.len() + 1,
                ) + a));
            }
        },
        SpacedEvent::BeginList(brk) => {
            if s.line_len < brk {
                lemma_has_line_break_concat(sep, seq!['(']);
            } else {
                lemma_starts_with_line_break(lb, indent_text(ind, s.stack.len() + 1) + seq!['(']);
                assert(lb + indent_text(ind, s.stack.len() + 1) + seq!['('] =~= lb + (indent_text(
                    ind,
                    s.stack.len() + 1,
                ) + seq!['(']));
            }
        },
        SpacedEvent::EndList => {},
    }
}

/// A spaced writer stands inside as many lists as the events it was asked
/// leave open.
proof fn lemma_spaced_phase_depth(lb: Seq<char>, ind: Seq<char>, log: Seq<SpacedEvent>)
    ensures
        writer_phase(event_shapes(log)) is Beginning ==> spaced_run(lb, ind, log).1 is Beginning,
        writer_phase(event_shapes(log)) matches WriterPhase::Writing(d) ==> spaced_run(
            lb,
            ind,
            log,
        ).1 matches SpacedPhase::Writing(s) && s.stack.len() == d,
    decreases log.len(),
{
    if log.len() > 0 {
        let init = log.drop_last();
        let e = log.last();
        lemma_spaced_phase_depth(lb, ind, init);
        assert(event_shapes(log) =~= event_shapes(init).push(event_shape(e)));
        assert(event_shapes(log).drop_last() =~= event_shapes(init));
        let (out0, p) = spaced_run(lb, ind, init);
        let (more, q) = spaced_step(lb, ind, p, e);
        assert(spaced_run(lb, ind, log).1 == q);
    }
}

/// The text of a spaced event: an atom's characters or a parenthesis.
pub open spec fn event_text(e: SpacedEvent) -> Seq<char> {
    match e {
        SpacedEvent::Atom(a, _) => a,
        SpacedEvent::BeginList(_) => seq!['('],
        SpacedEvent::EndList => seq![')'],
    }
}

/// A spaced writer that puts a node or a list's end on a new line indents
/// it once for each list that encloses it: after `log`, which leaves `d`
/// lists open, the new line holds the indentation `d + 1` times before an
/// atom or a `(`, and `d` times before a `)`, then the text of the event.
pub proof fn lemma_new_line_indentation(
    lb: Seq<char>,
    ind: Seq<char>,
    log: Seq<SpacedEvent>,
    e: SpacedEvent,
    d: nat,
)
    requires
        is_line_break(lb),
        is_indentation(ind),
        atoms_valid(log.push(e)),
        writer_phase(event_shapes(log)) == WriterPhase::Writing(d),
    ensures
        ({
            let (out, p) = spaced_run(lb, ind, log);
            let more = spaced_step(lb, ind, p, e).0;
            has_line_break(more) ==> current_line(spaced_run(lb, ind, log.push(e)).0)
                == indent_text(
                ind,
                if e is EndList {
                    d
                } else {
                    d + 1
                },
            ) + event_text(e)
        }),
{
    let l2 = log.push(e);
    assert(l2.drop_last() =~= log);
    assert(l2.last() == e);
    lemma_spaced_phase_depth(lb, ind, log);
    let (out, p) = spaced_run(lb, ind, log);
    let s = p->Writing_0;
    let (more, q) = spaced_step(lb, ind, p, e);
    assert(spaced_run(lb, ind, l2).0 == out + more);
    let sep: Seq<char> = if s.list_beginning {
        Seq::empty()
    } else {
        seq![' ']
    };
    lemma_no_line_break_short(sep);
    lemma_no_line_break_short(seq!['(']);
    lemma_no_line_break_short(seq![')']);
    let n: nat = if e is EndList {
        d
    } else {
        d + 1
    };
    let it = indent_text(ind, n);
    lemma_indent_no_break(ind, n);
    let x = event_text(e);
    match e {
        SpacedEvent::Atom(a, brk) => {
            assert(l2[l2.len() - 1] == e);
            assert(is_valid_atom(a));
            lemma_valid_atom_ascii(a);
            if s.line_len < brk {
                lemma_has_line_break_concat(sep, a);
            } else {
                assert(more =~= lb + (it + x));
            }
        },
        SpacedEvent::BeginList(brk) => {
            if s.line_len < brk {
                lemma_has_line_break_concat(sep, seq!['(']);
            } else {
                assert(more =~= lb + (it + x));
            }
        },
        SpacedEvent::EndList => {
            if s.line_broken {
                assert(more =~= lb + (it + x));
            }
        },
    }
    if has_line_break(more) {
        lemma_has_line_break_concat(it, x);
        lemma_current_line_after_break(out, lb, it + x);
        assert(out + more =~= out + lb + (it + x));
    }
}

proof fn lemma_indent_no_break(ind: Seq<char>, n: nat)
    requires
        is_indentation(ind),
    ensures
        !has_line_break(indent_text(ind, n)),
    decreases n,
{
    if n > 0 {
        lemma_indent_no_break(ind, (n - 1) as nat);
        lemma_has_line_break_concat(indent_text(ind, (n - 1) as nat), ind);
        if has_line_break(ind) {
            let i = choose|i: int| 0 <= i < ind.len() && (ind[i] == '\n' || ind[i] == '\r');
            assert(ind[i] == ' ' || ind[i] == '\t');
        }
    } else {
        lemma_no_line_break_short(Seq::<char>::empty());
    }
}

/// Writer that writes everything into a multi-line string, after the text
/// that the string already holds.
pub struct SpacedStringWriter<'a> {
    style: SpacedStringWriterStyle<'a>,
    dst: String,
    phase: Phase,
    stack: Vec<bool>,
    list_beginning: bool,
    line_broken: bool,
    line_len: usize,
    log: Ghost<Seq<SpacedEvent>>,
    opts: Ghost<Seq<SpacedStringWriterNodeOptions>>,
    initial: Ghost<Seq<char>>,
}

enum Phase {
    Beginning,
    Writing,
    Finished,
}

impl<'a> SpacedStringWriter<'a> {
    /// The text that the destination held before writing.
    pub closed spec fn initial(&self) -> Seq<char> {
        self.initial@
    }

    /// The text of the destination.
    pub closed spec fn text(&self) -> Seq<char> {
        self.dst@
    }

    /// The nodes written so far, with their options.
    pub closed spec fn spaced_log(&self) -> Seq<SpacedEvent> {
        self.log@
    }

    /// The style the writer writes with.
    pub closed spec fn style(&self) -> SpacedStringWriterStyle<'a> {
        self.style
    }

    /// The style the writer writes with.
    pub fn get_style(&self) -> (s: SpacedStringWriterStyle<'a>)
        ensures
            s == self.style(),
    {
        self.style
    }

    /// What a consistent writer has written, and the events it was asked.
    pub proof fn lemma_log_shapes(&self)
        requires
            self.wf(),
        ensures
            self.events() == event_shapes(self.spaced_log()),
            self.text() == self.initial() + spaced_run(
                self.style().line_break@,
                self.style().indentation@,
                self.spaced_log(),
            ).0,
    {
    }

    /// Creates a writer that appends to `dst` in `style`.
    pub fn new(style: SpacedStringWriterStyle<'a>, dst: String) -> (w: Self)
        ensures
            w.wf(),
            w.spaced_log() == Seq::<SpacedEvent>::empty(),
            w.events() == Seq::<WriteEvent>::empty(),
            w.initial() == dst@,
            w.text() == dst@,
            w.style() == style,
    {
        let ghost initial = dst@;
        let w = SpacedStringWriter {
            style,
            dst,
            phase: Phase::Beginning,
            stack: Vec::new(),
            list_beginning: false,
            line_broken: false,
            line_len: 0,
            log: Ghost(Seq::empty()),
            opts: Ghost(Seq::empty()),
            initial: Ghost(initial),
        };
        assert(event_shapes(w.log@) =~= Seq::<WriteEvent>::empty());
        w
    }

    /// The phase that the fields give.
    closed spec fn spaced_phase(&self) -> SpacedPhase {
        match self.phase {
            Phase::Beginning => SpacedPhase::Beginning,
            Phase::Writing => SpacedPhase::Writing(
                SpacedLine {
                    stack: self.stack@,
                    list_beginning: self.list_beginning,
                    line_broken: self.line_broken,
                    line_len: self.line_len as nat,
                },
            ),
            Phase::Finished => SpacedPhase::Finished,
        }
    }

    /// Writes `n` indentations (one more if `one_more`), returning their
    /// length.
    fn write_indent(indentation: &str, n: usize, one_more: bool, dst: &mut String) -> (len: usize)
        ensures
            final(dst)@ == old(dst)@ + indent_text(
                indentation@,
                if one_more {
                    (n + 1) as nat
                } else {
                    n as nat
                },
            ),
            len == indent_len(
                byte_len(indentation@),
                if one_more {
                    (n + 1) as nat
                } else {
                    n as nat
                },
            ),
    {
        let mut len: usize = 0;
        let mut i: usize = 0;
        let k = indentation.len();
        while i < n
            invariant
                i <= n,
                k == byte_len(indentation@),
                dst@ == old(dst)@ + indent_text(indentation@, i as nat),
                len == indent_len(k as nat, i as nat),
            decreases n - i,
        {
            push_str(dst, indentation);
            len = len.saturating_add(k);
            i = i + 1;
            assert(dst@ =~= old(dst)@ + indent_text(indentation@, i as nat));
        }
        if one_more {
            push_str(dst, indentation);
            len = len.saturating_add(k);
            assert(dst@ =~= old(dst)@ + indent_text(indentation@, (n + 1) as nat));
        }
        len
    }

    /// Writes the separator before a node that stays on the current line.
    fn write_separator(&mut self)
        requires
            old(self).phase is Writing,
        ensures
            final(self).dst@ == old(self).dst@ + if old(self).list_beginning {
                Seq::<char>::empty()
            } else {
                seq![' ']
            },
            final(self).line_len == if old(self).list_beginning {
                old(self).line_len as nat
            } else {
                sat_add(old(self).line_len as nat, 1)
            },
            final(self).style == old(self).style,
            final(self).phase == old(self).phase,
            final(self).stack == old(self).stack,
            final(self).list_beginning == old(self).list_beginning,
            final(self).line_broken == old(self).line_broken,
            final(self).log == old(self).log,
            final(self).opts == old(self).opts,
            final(self).initial == old(self).initial,
    {
        if !self.list_beginning {
            push_char(&mut self.dst, ' ');
            self.line_len = self.line_len.saturating_add(1);
        } else {
            assert(self.dst@ =~= self.dst@ + Seq::<char>::empty());
        }
    }

    proof fn lemma_run_push(&self, e: SpacedEvent)
        ensures
            spaced_run(self.style.line_break@, self.style.indentation@, self.log@.push(e)) == ({
                let (out, p) = spaced_run(
                    self.style.line_break@,
                    self.style.indentation@,
                    self.log@,
                );
                let (more, q) = spaced_step(
                    self.style.line_break@,
                    self.style.indentation@,
                    p,
                    e,
                );
                (out + more, q)
            }),
            event_shapes(self.log@.push(e)) == event_shapes(self.log@).push(event_shape(e)),
            writer_phase(event_shapes(self.log@).push(event_shape(e))) == phase_step(
                writer_phase(event_shapes(self.log@)),
                event_shape(e),
            ),
    {
        assert(self.log@.push(e).drop_last() =~= self.log@);
        assert(event_shapes(self.log@.push(e)) =~= event_shapes(self.log@).push(event_shape(e)));
        assert(event_shapes(self.log@).push(event_shape(e)).drop_last() =~= event_shapes(
            self.log@,
        ));
    }

    /// Writes a node's text: on the current line after the separator, or on
    /// a new line after the indentation of the current depth plus one.
    fn write_node_text(&mut self, text: &str, brk: usize)
        requires
            old(self).phase is Writing,
        ensures
            final(self).dst@ == old(self).dst@ + if old(self).line_len < brk {
                (if old(self).list_beginning {
                    Seq::<char>::empty()
                } else {
                    seq![' ']
                }) + text@
            } else {
                old(self).style.line_break@ + indent_text(
                    old(self).style.indentation@,
                    old(self).stack@.len() + 1,
                ) + text@
            },
            final(self).line_len == if old(self).line_len < brk {
                sat_add(
                    if old(self).list_beginning {
                        old(self).line_len as nat
                    } else {
                        sat_add(old(self).line_len as nat, 1)
                    },
                    byte_len(text@),
                )
            } else {
                sat_add(
                    indent_len(byte_len(old(self).style.indentation@), old(self).stack@.len() + 1),
                    byte_len(text@),
                )
            },
            final(self).line_broken == (old(self).line_broken || !(old(self).line_len < brk)),
            final(self).style == old(self).style,
            final(self).phase == old(self).phase,
            final(self).stack == old(self).stack,
            final(self).list_beginning == old(self).list_beginning,
            final(self).log == old(self).log,
            final(self).opts == old(self).opts,
            final(self).initial == old(self).initial,
    {
        if self.line_len < brk {
            self.write_separator();
            push_str(&mut self.dst, text);
            self.line_len = self.line_len.saturating_add(text.len());
        } else {
            push_str(&mut self.dst, self.style.line_break);
            let indent_len = Self::write_indent(
                self.style.indentation,
                self.stack.len(),
                true,
                &mut self.dst,
            );
            push_str(&mut self.dst, text);
            self.line_broken = true;
            self.line_len = indent_len.saturating_add(text.len());
        }
    }
}

impl<'a> Writer for SpacedStringWriter<'a> {
    type Result = String;
    type Error = Infallible;
    type AtomOptions = SpacedStringWriterNodeOptions;
    type BeginListOptions = SpacedStringWriterNodeOptions;
    type EndListOptions = ();
    type FinishOptions = ();

    closed spec fn events(&self) -> Seq<WriteEvent> {
        event_shapes(self.log@)
    }

    closed spec fn wf(&self) -> bool {
        let (out, p) = spaced_run(self.style.line_break@, self.style.indentation@, self.log@);
        &&& self.dst@ == self.initial@ + out
        &&& p == self.spaced_phase()
        &&& match self.phase {
            Phase::Beginning => self.log@.len() == 0 && self.stack@.len() == 0,
            Phase::Writing => writer_phase(event_shapes(self.log@)) == WriterPhase::Writing(
                self.stack@.len(),
            ),
            Phase::Finished => writer_phase(event_shapes(self.log@)) is Finished,
        }
    }

    closed spec fn atom_options(&self) -> Seq<SpacedStringWriterNodeOptions> {
        self.opts@
    }

    closed spec fn calls(&self) -> nat {
        self.log@.len()
    }

    open spec fn infallible() -> bool {
        true
    }

    fn write_atom(&mut self, atom: &str, opts: SpacedStringWriterNodeOptions) -> (r: Result<
        (),
        Infallible,
    >)
        ensures
            final(self).initial() == old(self).initial(),
            final(self).style() == old(self).style(),
            final(self).spaced_log() == old(self).spaced_log().push(
                SpacedEvent::Atom(atom@, opts.break_line_len as nat),
            ),
            final(self).text() == final(self).initial() + spaced_run(
                final(self).style().line_break@,
                final(self).style().indentation@,
                final(self).spaced_log(),
            ).0,
    {
        let ghost e = SpacedEvent::Atom(atom@, opts.break_line_len as nat);
        proof {
            self.lemma_run_push(e);
        }
        match self.phase {
            Phase::Beginning => {
                push_str(&mut self.dst, atom);
                self.phase = Phase::Finished;
            },
            Phase::Writing => {
                self.write_node_text(atom, opts.break_line_len);
                self.list_beginning = false;
            },
            Phase::Finished => {},
        }
        self.opts = Ghost(self.opts@.push(opts));
        self.log = Ghost(self.log@.push(e));
        proof {
            let (out, p) = spaced_run(self.style.line_break@, self.style.indentation@, self.log@);
            assert(self.dst@ =~= self.initial@ + out);
        }
        Ok(())
    }

    fn begin_list(&mut self, opts: SpacedStringWriterNodeOptions) -> (r: Result<(), Infallible>)
        ensures
            final(self).initial() == old(self).initial(),
            final(self).style() == old(self).style(),
            final(self).spaced_log() == old(self).spaced_log().push(
                SpacedEvent::BeginList(opts.break_line_len as nat),
            ),
            final(self).text() == final(self).initial() + spaced_run(
                final(self).style().line_break@,
                final(self).style().indentation@,
                final(self).spaced_log(),
            ).0,
    {
        let ghost e = SpacedEvent::BeginList(opts.break_line_len as nat);
        proof {
            self.lemma_run_push(e);
        }
        match self.phase {
            Phase::Beginning => {
                push_char(&mut self.dst, '(');
                self.phase = Phase::Writing;
                self.list_beginning = true;
                self.line_broken = false;
                self.line_len = 1;
                assert(self.stack@ =~= Seq::<bool>::empty());
            },
            Phase::Writing => {
                proof {
                    reveal_strlit("(");
                    lemma_byte_len_ascii('(');
                    assert("("@ =~= seq!['(']);
                }
                self.write_node_text("(", opts.break_line_len);
                self.stack.push(self.line_broken);
                self.list_beginning = true;
                self.line_broken = false;
            },
            Phase::Finished => {},
        }
        self.log = Ghost(self.log@.push(e));
        proof {
            let (out, p) = spaced_run(self.style.line_break@, self.style.indentation@, self.log@);
            assert(self.dst@ =~= self.initial@ + out);
        }
        Ok(())
    }

    fn end_list(&mut self, opts: ()) -> (r: Result<(), Infallible>)
        ensures
            final(self).initial() == old(self).initial(),
            final(self).style() == old(self).style(),
            final(self).spaced_log() == old(self).spaced_log().push(SpacedEvent::EndList),
            final(self).text() == final(self).initial() + spaced_run(
                final(self).style().line_break@,
                final(self).style().indentation@,
                final(self).spaced_log(),
            ).0,
    {
        let ghost e = SpacedEvent::EndList;
        proof {
            self.lemma_run_push(e);
        }
        if self.line_broken {
            push_str(&mut self.dst, self.style.line_break);
            self.line_len = Self::write_indent(
                self.style.indentation,
                self.stack.len(),
                false,
                &mut self.dst,
            );
        }
        push_char(&mut self.dst, ')');
        self.line_len = self.line_len.saturating_add(1);
        match self.stack.pop() {
            Some(previous) => {
                self.line_broken = self.line_broken || previous;
                self.list_beginning = false;
            },
            None => {
                self.phase = Phase::Finished;
            },
        }
        self.log = Ghost(self.log@.push(e));
        proof {
            let (out, p) = spaced_run(self.style.line_break@, self.style.indentation@, self.log@);
            assert(self.dst@ =~= self.initial@ + out);
        }
        Ok(())
    }

    fn finish(self, opts: ()) -> (r: Result<String, Infallible>)
        ensures
            r matches Ok(s) && s@ == self.initial() + spaced_run(
                self.style().line_break@,
                self.style().indentation@,
                self.spaced_log(),
            ).0,
    {
        Ok(self.dst)
    }
}

} // verus!
