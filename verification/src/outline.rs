//! Building a document outline: collect one pending record per
//! classified, named node, sort the records by position, and
//! reconstruct nesting with an explicit stack over sorted intervals.
use vstd::prelude::*;

use crate::text::LineIndex;
use crate::text::line_starts;
use crate::text::spec_line_of;
use crate::tree::SynNode;
use crate::tree::kind_for;
use crate::tree::name_of;
use crate::tree::spec_kind_for;
use crate::tree::spec_name_of;
use crate::types::OutlineNode;
use crate::types::Position;
use crate::types::SymKind;
use crate::types::TextRange;

verus! {

/// One record awaiting nesting reconstruction: a symbol's byte range,
/// its name token's byte range, and its kind.
#[derive(Clone, Copy, PartialEq, Eq, Structural, Debug)]
pub struct Pend {
    pub start: usize,
    pub end: usize,
    pub nstart: usize,
    pub nend: usize,
    pub kind: SymKind,
}

/// Ranges in a usable record lie inside the text, in order.
pub open spec fn pend_ok(p: Pend, tlen: usize) -> bool {
    &&& p.start <= p.end <= tlen
    &&& p.nstart <= p.nend <= tlen
}

/// Clamp an offset to the text.
pub open spec fn spec_clamp(x: usize, tlen: usize) -> usize {
    if x <= tlen {
        x
    } else {
        tlen
    }
}

/// A record for one node, its offsets clamped to the text so that a
/// malformed tree degrades the outline instead of breaking it.
pub open spec fn mk_pend(s: usize, e: usize, ns: usize, ne: usize, k: SymKind, tlen: usize) -> Pend {
    let s2 = spec_clamp(s, tlen);
    let e1 = spec_clamp(e, tlen);
    let ns2 = spec_clamp(ns, tlen);
    let ne1 = spec_clamp(ne, tlen);
    Pend {
        start: s2,
        end: if e1 >= s2 {
            e1
        } else {
            s2
        },
        nstart: ns2,
        nend: if ne1 >= ns2 {
            ne1
        } else {
            ns2
        },
        kind: k,
    }
}


fn clamp(x: usize, tlen: usize) -> (r: usize)
    ensures
        r == spec_clamp(x, tlen),
{
    if x <= tlen {
        x
    } else {
        tlen
    }
}

/// The record of one node, when it is a named symbol.
pub open spec fn spec_node_rec(n: SynNode, tlen: usize) -> Seq<Pend> {
    match spec_kind_for(n.kind@) {
        Some(k) => match spec_name_of(n) {
            Some(nm) => seq![mk_pend(n.start, n.end, nm.0, nm.1, k, tlen)],
            None => Seq::empty(),
        },
        None => Seq::empty(),
    }
}

/// Every record under `n`, in depth-first preorder over all children.
pub open spec fn spec_collect(n: SynNode, tlen: usize) -> Seq<Pend>
    decreases n, 0int,
{
    spec_node_rec(n, tlen) + spec_collect_list(n.children@, 0, tlen)
}

pub open spec fn spec_collect_list(cs: Seq<SynNode>, i: int, tlen: usize) -> Seq<Pend>
    decreases cs, cs.len() - i,
{
    if i < 0 || i >= cs.len() {
        Seq::empty()
    } else {
        spec_collect(cs[i], tlen) + spec_collect_list(cs, i + 1, tlen)
    }
}

pub proof fn lemma_collect_ok(n: SynNode, tlen: usize)
    ensures
        forall|k: int|
            0 <= k < spec_collect(n, tlen).len() ==> pend_ok(
                #[trigger] spec_collect(n, tlen)[k],
                tlen,
            ),
    decreases n, 0int,
{
    lemma_collect_list_ok(n.children@, 0, tlen);
    let own = spec_node_rec(n, tlen);
    assert forall|k: int| 0 <= k < spec_collect(n, tlen).len() implies pend_ok(
        #[trigger] spec_collect(n, tlen)[k],
        tlen,
    ) by {
        if k < own.len() {
            assert(spec_collect(n, tlen)[k] == own[k]);
            assert(own.len() == 1);
        } else {
            assert(spec_collect(n, tlen)[k] == spec_collect_list(n.children@, 0, tlen)[k
                - own.len()]);
        }
    }
}

pub proof fn lemma_collect_list_ok(cs: Seq<SynNode>, i: int, tlen: usize)
    ensures
        forall|k: int|
            0 <= k < spec_collect_list(cs, i, tlen).len() ==> pend_ok(
                #[trigger] spec_collect_list(cs, i, tlen)[k],
                tlen,
            ),
    decreases cs, cs.len() - i,
{
    if 0 <= i < cs.len() {
        lemma_collect_ok(cs[i], tlen);
        lemma_collect_list_ok(cs, i + 1, tlen);
        let head = spec_collect(cs[i], tlen);
        assert forall|k: int| 0 <= k < spec_collect_list(cs, i, tlen).len() implies pend_ok(
            #[trigger] spec_collect_list(cs, i, tlen)[k],
            tlen,
        ) by {
            if k < head.len() {
                assert(spec_collect_list(cs, i, tlen)[k] == head[k]);
            } else {
                assert(spec_collect_list(cs, i, tlen)[k] == spec_collect_list(cs, i + 1, tlen)[k
                    - head.len()]);
            }
        }
    }
}

/// Collect the records under `n`, appending to `out` in preorder.
pub fn collect_pends(n: &SynNode, tlen: usize, out: &mut Vec<Pend>)
    ensures
        final(out)@ == old(out)@ + spec_collect(*n, tlen),
    decreases *n,
{
    let ghost base = out@;
    match kind_for(&n.kind) {
        Some(k) => {
            match name_of(n) {
                Some((ns, ne)) => {
                    let s2 = clamp(n.start, tlen);
                    let e1 = clamp(n.end, tlen);
                    let ns2 = clamp(ns, tlen);
                    let ne1 = clamp(ne, tlen);
                    out.push(
                        Pend {
                            start: s2,
                            end: if e1 >= s2 {
                                e1
                            } else {
                                s2
                            },
                            nstart: ns2,
                            nend: if ne1 >= ns2 {
                                ne1
                            } else {
                                ns2
                            },
                            kind: k,
                        },
                    );
                    proof {
                        assert(out@ =~= base + spec_node_rec(*n, tlen));
                    }
                },
                None => {
                    proof {
                        assert(out@ =~= base + spec_node_rec(*n, tlen));
                    }
                },
            }
        },
        None => {
            proof {
                assert(out@ =~= base + spec_node_rec(*n, tlen));
            }
        },
    }
    let mut i: usize = 0;
    while i < n.children.len()
        invariant
            i <= n.children@.len(),
            out@ + spec_collect_list(n.children@, i as int, tlen) == base + spec_collect(
                *n,
                tlen,
            ),
        decreases n.children@.len() - i,
    {
        collect_pends(&n.children[i], tlen, out);
        proof {
            assert(out@ + spec_collect_list(n.children@, i + 1 as int, tlen) =~= base
                + spec_collect(*n, tlen));
        }
        i += 1;
    }
    proof {
        assert(out@ =~= out@ + spec_collect_list(n.children@, n.children@.len() as int, tlen));
    }
}

/// Record order: by start ascending, end ascending as the tie-break.
/// Records with equal ranges keep their collection order.
pub open spec fn pend_le(a: Pend, b: Pend) -> bool {
    a.start < b.start || (a.start == b.start && a.end <= b.end)
}

/// Insert `x` behind every record that sorts at or before it.
pub open spec fn insert_pend(x: Pend, s: Seq<Pend>) -> Seq<Pend>
    decreases s.len(),
{
    if s.len() == 0 {
        seq![x]
    } else if pend_le(s[0], x) {
        seq![s[0]] + insert_pend(x, s.drop_first())
    } else {
        seq![x] + s
    }
}

/// Stable sort by `pend_le`, one insertion per record.
pub open spec fn sort_pend(s: Seq<Pend>) -> Seq<Pend>
    decreases s.len(),
{
    if s.len() == 0 {
        Seq::empty()
    } else {
        insert_pend(s.last(), sort_pend(s.drop_last()))
    }
}

pub proof fn lemma_insert_pend_len(x: Pend, s: Seq<Pend>)
    ensures
        insert_pend(x, s).len() == s.len() + 1,
    decreases s.len(),
{
    if s.len() > 0 && pend_le(s[0], x) {
        lemma_insert_pend_len(x, s.drop_first());
    }
}

pub proof fn lemma_sort_pend_len(s: Seq<Pend>)
    ensures
        sort_pend(s).len() == s.len(),
    decreases s.len(),
{
    if s.len() > 0 {
        lemma_sort_pend_len(s.drop_last());
        lemma_insert_pend_len(s.last(), sort_pend(s.drop_last()));
    }
}

pub proof fn lemma_insert_pend_contains(x: Pend, s: Seq<Pend>, y: Pend)
    ensures
        insert_pend(x, s).contains(y) <==> (y == x || s.contains(y)),
    decreases s.len(),
{
    lemma_insert_pend_len(x, s);
    if s.len() == 0 {
        assert(insert_pend(x, s)[0] == x);
    } else if pend_le(s[0], x) {
        lemma_insert_pend_contains(x, s.drop_first(), y);
        let rest = insert_pend(x, s.drop_first());
        let r = seq![s[0]] + rest;
        if r.contains(y) {
            let i = choose|i: int| 0 <= i < r.len() && r[i] == y;
            if i > 0 {
                assert(rest[i - 1] == y);
                if y != x {
                    let j = choose|j: int| 0 <= j < s.drop_first().len() && s.drop_first()[j] == y;
                    assert(s[j + 1] == y);
                }
            }
        }
        if y == x || s.contains(y) {
            if y == x {
                let i = choose|i: int| 0 <= i < rest.len() && rest[i] == y;
                assert(r[i + 1] == y);
            } else {
                let i = choose|i: int| 0 <= i < s.len() && s[i] == y;
                if i == 0 {
                    assert(r[0] == y);
                } else {
                    assert(s.drop_first()[i - 1] == y);
                    let j = choose|j: int| 0 <= j < rest.len() && rest[j] == y;
                    assert(r[j + 1] == y);
                }
            }
        }
    } else {
        let r = seq![x] + s;
        assert(r[0] == x);
        if r.contains(y) {
            let i = choose|i: int| 0 <= i < r.len() && r[i] == y;
            if i > 0 {
                assert(s[i - 1] == y);
            }
        }
        if y == x || s.contains(y) {
            if y == x {
                assert(r[0] == y);
            } else {
                let i = choose|i: int| 0 <= i < s.len() && s[i] == y;
                assert(r[i + 1] == y);
            }
        }
    }
}

pub proof fn lemma_sort_pend_contains(s: Seq<Pend>, y: Pend)
    ensures
        sort_pend(s).contains(y) <==> s.contains(y),
    decreases s.len(),
{
    if s.len() > 0 {
        lemma_sort_pend_contains(s.drop_last(), y);
        lemma_insert_pend_contains(s.last(), sort_pend(s.drop_last()), y);
        if s.contains(y) {
            let i = choose|i: int| 0 <= i < s.len() && s[i] == y;
            if i < s.len() - 1 {
                assert(s.drop_last()[i] == y);
            }
        }
        if s.drop_last().contains(y) {
            let i = choose|i: int| 0 <= i < s.drop_last().len() && s.drop_last()[i] == y;
            assert(s[i] == y);
        }
    }
}

/// Sortedness under `pend_le`.
pub open spec fn pend_sorted(s: Seq<Pend>) -> bool {
    forall|i: int, j: int| 0 <= i < j < s.len() ==> pend_le(#[trigger] s[i], #[trigger] s[j])
}

pub proof fn lemma_insert_pend_sorted(x: Pend, s: Seq<Pend>)
    requires
        pend_sorted(s),
    ensures
        pend_sorted(insert_pend(x, s)),
    decreases s.len(),
{
    lemma_insert_pend_len(x, s);
    if s.len() == 0 {
    } else if pend_le(s[0], x) {
        assert forall|i: int, j: int|
            0 <= i < j < s.drop_first().len() implies pend_le(
            #[trigger] s.drop_first()[i],
            #[trigger] s.drop_first()[j],
        ) by {
            assert(s.drop_first()[i] == s[i + 1] && s.drop_first()[j] == s[j + 1]);
        }
        lemma_insert_pend_sorted(x, s.drop_first());
        let rest = insert_pend(x, s.drop_first());
        let r = seq![s[0]] + rest;
        assert forall|i: int, j: int| 0 <= i < j < r.len() implies pend_le(
            #[trigger] r[i],
            #[trigger] r[j],
        ) by {
            if i == 0 {
                assert(r[j] == rest[j - 1]);
                lemma_insert_pend_contains(x, s.drop_first(), rest[j - 1]);
                if rest[j - 1] == x {
                } else {
                    let m = choose|m: int|
                        0 <= m < s.drop_first().len() && s.drop_first()[m] == rest[j - 1];
                    assert(s[m + 1] == rest[j - 1]);
                }
            } else {
                assert(r[i] == rest[i - 1] && r[j] == rest[j - 1]);
            }
        }
    } else {
        let r = seq![x] + s;
        assert forall|i: int, j: int| 0 <= i < j < r.len() implies pend_le(
            #[trigger] r[i],
            #[trigger] r[j],
        ) by {
            if i == 0 {
                assert(r[j] == s[j - 1]);
                if j - 1 > 0 {
                    assert(pend_le(s[0], s[j - 1]));
                }
            } else {
                assert(r[i] == s[i - 1] && r[j] == s[j - 1]);
            }
        }
    }
}

pub proof fn lemma_sort_pend_sorted(s: Seq<Pend>)
    ensures
        pend_sorted(sort_pend(s)),
    decreases s.len(),
{
    if s.len() > 0 {
        lemma_sort_pend_sorted(s.drop_last());
        lemma_insert_pend_sorted(s.last(), sort_pend(s.drop_last()));
    }
}

/// Splitting at the first record that sorts after `x` reproduces the
/// insertion.
pub proof fn lemma_insert_pend_split(x: Pend, s: Seq<Pend>, p: int)
    requires
        0 <= p <= s.len(),
        forall|j: int| 0 <= j < p ==> pend_le(#[trigger] s[j], x),
        p < s.len() ==> !pend_le(s[p], x),
    ensures
        insert_pend(x, s) == s.take(p) + seq![x] + s.skip(p),
    decreases s.len(),
{
    if s.len() == 0 {
        assert(insert_pend(x, s) =~= s.take(0) + seq![x] + s.skip(0));
    } else if pend_le(s[0], x) {
        assert(p >= 1);
        assert forall|j: int| 0 <= j < p - 1 implies pend_le(#[trigger] s.drop_first()[j], x) by {
            assert(s.drop_first()[j] == s[j + 1]);
        }
        if p - 1 < s.drop_first().len() {
            assert(s.drop_first()[p - 1] == s[p]);
        }
        lemma_insert_pend_split(x, s.drop_first(), p - 1);
        assert(seq![s[0]] + (s.drop_first().take(p - 1) + seq![x] + s.drop_first().skip(p - 1))
            =~= s.take(p) + seq![x] + s.skip(p));
    } else {
        assert(p == 0);
        assert(seq![x] + s =~= s.take(0) + seq![x] + s.skip(0));
    }
}

/// Sort the collected records, stably, by start then end.
pub fn sort_pends(ps: &Vec<Pend>) -> (r: Vec<Pend>)
    ensures
        r@ == sort_pend(ps@),
        pend_sorted(r@),
{
    proof {
        lemma_sort_pend_sorted(ps@);
    }
    let mut buf: Vec<Pend> = Vec::new();
    let mut i: usize = 0;
    proof {
        assert(ps@.take(0) =~= Seq::<Pend>::empty());
    }
    while i < ps.len()
        invariant
            i <= ps@.len(),
            buf@ == sort_pend(ps@.take(i as int)),
        decreases ps@.len() - i,
    {
        let x = ps[i];
        proof {
            lemma_sort_pend_len(ps@.take(i as int));
        }
        let mut p: usize = 0;
        while p < buf.len() && (buf[p].start < x.start || (buf[p].start == x.start && buf[p].end
            <= x.end))
            invariant
                0 <= p <= buf@.len(),
                forall|j: int| 0 <= j < p ==> pend_le(#[trigger] buf@[j], x),
            decreases buf@.len() - p,
        {
            p += 1;
        }
        proof {
            lemma_insert_pend_split(x, buf@, p as int);
        }
        let ghost before = buf@;
        buf.insert(p, x);
        proof {
            assert(buf@ =~= before.take(p as int) + seq![x] + before.skip(p as int));
            assert(buf@ == insert_pend(x, before));
            assert(ps@.take(i + 1 as int).drop_last() =~= ps@.take(i as int));
            assert(ps@.take(i + 1 as int).last() == x);
        }
        i += 1;
    }
    proof {
        assert(ps@.take(ps@.len() as int) =~= ps@);
    }
    buf
}

/// Everything observable about one outline node: used to state what
/// extraction returns, and that repeated extraction agrees.
pub struct OutlineShape {
    pub name: Seq<u8>,
    pub kind: SymKind,
    pub start: int,
    pub end: int,
    pub range: TextRange,
    pub selection_range: TextRange,
    pub children: Seq<OutlineShape>,
}

/// The observable content of an outline node.
pub open spec fn shape_of(n: OutlineNode) -> OutlineShape
    decreases n, 0int,
{
    OutlineShape {
        name: n.name@,
        kind: n.kind,
        start: n.start as int,
        end: n.end as int,
        range: n.range,
        selection_range: n.selection_range,
        children: shapes_of(n.children@, 0),
    }
}

pub open spec fn shapes_of(cs: Seq<OutlineNode>, i: int) -> Seq<OutlineShape>
    decreases cs, cs.len() - i,
{
    if i < 0 || i >= cs.len() {
        Seq::empty()
    } else {
        seq![shape_of(cs[i])] + shapes_of(cs, i + 1)
    }
}

pub proof fn lemma_shapes_of_index(cs: Seq<OutlineNode>, i: int)
    requires
        0 <= i <= cs.len(),
    ensures
        shapes_of(cs, i).len() == cs.len() - i,
        forall|k: int|
            0 <= k < cs.len() - i ==> #[trigger] shapes_of(cs, i)[k] == shape_of(cs[i + k]),
    decreases cs.len() - i,
{
    if i < cs.len() {
        lemma_shapes_of_index(cs, i + 1);
        assert forall|k: int| 0 <= k < cs.len() - i implies #[trigger] shapes_of(cs, i)[k]
            == shape_of(cs[i + k]) by {
            if k > 0 {
                assert(shapes_of(cs, i)[k] == shapes_of(cs, i + 1)[k - 1]);
            }
        }
    }
}

pub proof fn lemma_shapes_of_push(cs: Seq<OutlineNode>, x: OutlineNode)
    ensures
        shapes_of(cs.push(x), 0) == shapes_of(cs, 0).push(shape_of(x)),
{
    lemma_shapes_of_index(cs, 0);
    lemma_shapes_of_index(cs.push(x), 0);
    assert forall|k: int| 0 <= k < cs.len() + 1 implies shapes_of(cs.push(x), 0)[k] == shapes_of(
        cs,
        0,
    ).push(shape_of(x))[k] by {
        if k < cs.len() {
            assert(cs.push(x)[k] == cs[k]);
        } else {
            assert(cs.push(x)[k] == x);
        }
    }
    assert(shapes_of(cs.push(x), 0) =~= shapes_of(cs, 0).push(shape_of(x)));
}

/// The position of a byte offset, as the line table reports it.
pub open spec fn spec_pos(starts: Seq<usize>, off: usize) -> Position {
    let k = spec_line_of(starts, off);
    Position { line: k as u32, character: (off - starts[k]) as u32 }
}

pub open spec fn spec_range(starts: Seq<usize>, a: usize, b: usize) -> TextRange {
    TextRange { start: spec_pos(starts, a), end: spec_pos(starts, b) }
}

/// The outline node one record produces: its name sliced from the
/// text, its ranges read off the line table, and the given children.
pub open spec fn pend_shape(p: Pend, text: Seq<u8>, starts: Seq<usize>, kids: Seq<OutlineShape>) -> OutlineShape {
    OutlineShape {
        name: text.subrange(p.nstart as int, p.nend as int),
        kind: p.kind,
        start: p.start as int,
        end: p.end as int,
        range: spec_range(starts, p.start, p.end),
        selection_range: spec_range(starts, p.nstart, p.nend),
        children: kids,
    }
}

/// The reconstruction's state: open records with the children built so
/// far, and the finished roots.
pub struct BuildState {
    pub stack: Seq<(Pend, Seq<OutlineShape>)>,
    pub roots: Seq<OutlineShape>,
}

/// Close the top record: it becomes a child of the record below it, or
/// a root when none is open.
pub open spec fn close_top(st: BuildState, text: Seq<u8>, starts: Seq<usize>) -> BuildState
    recommends
        st.stack.len() > 0,
{
    let top = st.stack.last();
    let node = pend_shape(top.0, text, starts, top.1);
    let rest = st.stack.drop_last();
    if rest.len() > 0 {
        let parent = rest.last();
        BuildState {
            stack: rest.update(rest.len() - 1, (parent.0, parent.1.push(node))),
            roots: st.roots,
        }
    } else {
        BuildState { stack: rest, roots: st.roots.push(node) }
    }
}

/// Close every open record that ends at or before the next record's
/// start.
pub open spec fn pop_le(st: BuildState, s: usize, text: Seq<u8>, starts: Seq<usize>) -> BuildState
    decreases st.stack.len(),
{
    if st.stack.len() > 0 && st.stack.last().0.end <= s {
        pop_le(close_top(st, text, starts), s, text, starts)
    } else {
        st
    }
}

pub open spec fn push_rec(st: BuildState, p: Pend) -> BuildState {
    BuildState { stack: st.stack.push((p, Seq::empty())), roots: st.roots }
}

/// The state after scanning the first `i` sorted records.
pub open spec fn run_build(ps: Seq<Pend>, i: int, text: Seq<u8>, starts: Seq<usize>) -> BuildState
    decreases i,
{
    if i <= 0 {
        BuildState { stack: Seq::empty(), roots: Seq::empty() }
    } else {
        push_rec(
            pop_le(run_build(ps, i - 1, text, starts), ps[i - 1].start, text, starts),
            ps[i - 1],
        )
    }
}

/// Close everything still open after the scan.
pub open spec fn drain_build(st: BuildState, text: Seq<u8>, starts: Seq<usize>) -> Seq<OutlineShape>
    decreases st.stack.len(),
{
    if st.stack.len() == 0 {
        st.roots
    } else {
        drain_build(close_top(st, text, starts), text, starts)
    }
}

/// The whole outline of a parsed document: collect, sort, reconstruct.
pub open spec fn spec_outline(tree: SynNode, text: Seq<u8>) -> Seq<OutlineShape> {
    let ps = sort_pend(spec_collect(tree, text.len() as usize));
    let starts = line_starts(text, text.len() as int);
    drain_build(run_build(ps, ps.len() as int, text, starts), text, starts)
}

/// One open record of the executable builder.
struct Frame {
    pend: Pend,
    kids: Vec<OutlineNode>,
}

/// What the builder's stack observes as reconstruction state.
spec fn frame_views(fs: Seq<Frame>) -> Seq<(Pend, Seq<OutlineShape>)> {
    Seq::new(fs.len(), |i: int| (fs[i].pend, shapes_of(fs[i].kids@, 0)))
}

/// Build the outline node of one closed record.
fn make_node(p: Pend, kids: Vec<OutlineNode>, text: &Vec<u8>, li: &LineIndex) -> (r: OutlineNode)
    requires
        pend_ok(p, text@.len() as usize),
        text@.len() < 0x1_0000_0000,
        li.wf(),
    ensures
        shape_of(r) == pend_shape(p, text@, li.starts@, shapes_of(kids@, 0)),
{
    let mut name: Vec<u8> = Vec::new();
    let mut j: usize = p.nstart;
    while j < p.nend
        invariant
            p.nstart <= j <= p.nend,
            p.nend <= text@.len(),
            name@ == text@.subrange(p.nstart as int, j as int),
        decreases p.nend - j,
    {
        name.push(text[j]);
        proof {
            assert(name@ =~= text@.subrange(p.nstart as int, j + 1 as int));
        }
        j += 1;
    }
    proof {
        if p.nstart == p.nend {
            assert(name@ =~= text@.subrange(p.nstart as int, p.nend as int));
        }
    }
    let range = li.range_of(p.start, p.end);
    let selection_range = li.range_of(p.nstart, p.nend);
    let r = OutlineNode {
        name,
        kind: p.kind,
        start: p.start,
        end: p.end,
        range,
        selection_range,
        children: kids,
    };
    proof {
        assert(shape_of(r).range == spec_range(li.starts@, p.start, p.end));
        assert(shape_of(r).selection_range == spec_range(li.starts@, p.nstart, p.nend));
    }
    r
}

/// Reconstruct nesting from sorted records with an explicit stack:
/// before a record opens, every open record ending at or before its
/// start is closed and attached; what remains open at the end is
/// drained the same way.
pub fn build_outline(ps: &Vec<Pend>, text: &Vec<u8>, li: &LineIndex) -> (r: Vec<OutlineNode>)
    requires
        text@.len() < 0x1_0000_0000,
        li.wf(),
        forall|k: int| 0 <= k < ps@.len() ==> pend_ok(#[trigger] ps@[k], text@.len() as usize),
    ensures
        shapes_of(r@, 0) == drain_build(
            run_build(ps@, ps@.len() as int, text@, li.starts@),
            text@,
            li.starts@,
        ),
{
    let ghost starts = li.starts@;
    let mut stack: Vec<Frame> = Vec::new();
    let mut roots: Vec<OutlineNode> = Vec::new();
    let mut i: usize = 0;
    proof {
        assert(frame_views(stack@) =~= run_build(ps@, 0, text@, starts).stack);
        assert(shapes_of(roots@, 0) =~= run_build(ps@, 0, text@, starts).roots);
    }
    while i < ps.len()
        invariant
            i <= ps@.len(),
            starts == li.starts@,
            li.wf(),
            text@.len() < 0x1_0000_0000,
            forall|k: int| 0 <= k < ps@.len() ==> pend_ok(#[trigger] ps@[k], text@.len() as usize),
            frame_views(stack@) == run_build(ps@, i as int, text@, starts).stack,
            shapes_of(roots@, 0) == run_build(ps@, i as int, text@, starts).roots,
            forall|k: int|
                0 <= k < stack@.len() ==> pend_ok(
                    (#[trigger] stack@[k]).pend,
                    text@.len() as usize,
                ),
        decreases ps@.len() - i,
    {
        let item = ps[i];
        let ghost st_entry = BuildState {
            stack: frame_views(stack@),
            roots: shapes_of(roots@, 0),
        };
        while stack.len() > 0 && stack[stack.len() - 1].pend.end <= item.start
            invariant
                starts == li.starts@,
                li.wf(),
                text@.len() < 0x1_0000_0000,
                pop_le(st_entry, item.start, text@, starts) == pop_le(
                    BuildState { stack: frame_views(stack@), roots: shapes_of(roots@, 0) },
                    item.start,
                    text@,
                    starts,
                ),
                forall|k: int|
                    0 <= k < stack@.len() ==> pend_ok(
                        (#[trigger] stack@[k]).pend,
                        text@.len() as usize,
                    ),
            decreases stack@.len(),
        {
            let ghost st_cur = BuildState {
                stack: frame_views(stack@),
                roots: shapes_of(roots@, 0),
            };
            let f = match stack.pop() {
                Some(f) => f,
                None => {
                    proof {
                        assert(false);
                    }
                    unreached()
                },
            };
            proof {
                assert(st_cur.stack.last() == (f.pend, shapes_of(f.kids@, 0)));
            }
            let node = make_node(f.pend, f.kids, text, li);
            let ghost closed = close_top(st_cur, text@, starts);
            if stack.len() > 0 {
                let g = match stack.pop() {
                    Some(g) => g,
                    None => {
                        proof {
                            assert(false);
                        }
                        unreached()
                    },
                };
                let ghost gk = g.kids@;
                let mut g2 = g;
                g2.kids.push(node);
                stack.push(g2);
                proof {
                    lemma_shapes_of_push(gk, node);
                    assert(frame_views(stack@) =~= closed.stack);
                    assert(shapes_of(roots@, 0) == closed.roots);
                }
            } else {
                let ghost rpre = roots@;
                roots.push(node);
                proof {
                    lemma_shapes_of_push(rpre, node);
                    assert(roots@ == rpre.push(node));
                    assert(frame_views(stack@) =~= closed.stack);
                    assert(shapes_of(roots@, 0) == closed.roots);
                }
            }
        }
        proof {
            let st_now = BuildState { stack: frame_views(stack@), roots: shapes_of(roots@, 0) };
            if stack@.len() > 0 {
                assert(st_now.stack.last() == (stack@.last().pend, shapes_of(
                    stack@.last().kids@,
                    0,
                )));
                assert(!(st_now.stack.last().0.end <= item.start));
            }
            assert(pop_le(st_now, item.start, text@, starts) == st_now);
            assert(pop_le(st_entry, item.start, text@, starts) == st_now);
        }
        stack.push(Frame { pend: item, kids: Vec::new() });
        proof {
            let st_after = run_build(ps@, i + 1 as int, text@, starts);
            assert(shapes_of(stack@.last().kids@, 0) =~= Seq::<OutlineShape>::empty());
            assert(frame_views(stack@) =~= st_after.stack);
        }
        i += 1;
    }
    proof {
        let st_full = run_build(ps@, ps@.len() as int, text@, starts);
        assert(frame_views(stack@) == st_full.stack);
        assert(shapes_of(roots@, 0) == st_full.roots);
    }
    let ghost st_full = run_build(ps@, ps@.len() as int, text@, starts);
    while stack.len() > 0
        invariant
            starts == li.starts@,
            li.wf(),
            text@.len() < 0x1_0000_0000,
            drain_build(st_full, text@, starts) == drain_build(
                BuildState { stack: frame_views(stack@), roots: shapes_of(roots@, 0) },
                text@,
                starts,
            ),
            forall|k: int|
                0 <= k < stack@.len() ==> pend_ok(
                    (#[trigger] stack@[k]).pend,
                    text@.len() as usize,
                ),
        decreases stack@.len(),
    {
        let ghost st_cur = BuildState { stack: frame_views(stack@), roots: shapes_of(roots@, 0) };
        let f = match stack.pop() {
            Some(f) => f,
            None => {
                proof {
                    assert(false);
                }
                unreached()
            },
        };
        proof {
            assert(st_cur.stack.last() == (f.pend, shapes_of(f.kids@, 0)));
        }
        let node = make_node(f.pend, f.kids, text, li);
        let ghost closed = close_top(st_cur, text@, starts);
        if stack.len() > 0 {
            let g = match stack.pop() {
                Some(g) => g,
                None => {
                    proof {
                        assert(false);
                    }
                    unreached()
                },
            };
            let ghost gk = g.kids@;
            let mut g2 = g;
            g2.kids.push(node);
            stack.push(g2);
            proof {
                lemma_shapes_of_push(gk, node);
                assert(frame_views(stack@) =~= closed.stack);
                assert(shapes_of(roots@, 0) == closed.roots);
            }
        } else {
            let ghost rpre = roots@;
            roots.push(node);
            proof {
                lemma_shapes_of_push(rpre, node);
                assert(roots@ == rpre.push(node));
                assert(frame_views(stack@) =~= closed.stack);
                assert(shapes_of(roots@, 0) == closed.roots);
            }
        }
    }
    roots
}

/// Extract a document's outline: collect the classified, named nodes,
/// sort by position, and reconstruct containment.
pub fn extract_outline(tree: &SynNode, text: &Vec<u8>) -> (r: Vec<OutlineNode>)
    requires
        text@.len() < 0x1_0000_0000,
    ensures
        shapes_of(r@, 0) == spec_outline(*tree, text@),
{
    let mut pends: Vec<Pend> = Vec::new();
    collect_pends(tree, text.len(), &mut pends);
    let sorted = sort_pends(&pends);
    let li = LineIndex::new(text);
    proof {
        lemma_collect_ok(*tree, text@.len() as usize);
        assert forall|k: int| 0 <= k < sorted@.len() implies pend_ok(
            #[trigger] sorted@[k],
            text@.len() as usize,
        ) by {
            assert(sorted@.contains(sorted@[k]));
            lemma_sort_pend_contains(pends@, sorted@[k]);
            let m = choose|m: int| 0 <= m < pends@.len() && pends@[m] == sorted@[k];
            assert(pend_ok(spec_collect(*tree, text@.len() as usize)[m], text@.len() as usize));
        }
        lemma_sort_pend_len(pends@);
    }
    build_outline(&sorted, text, &li)
}

/// Extracting twice from the same tree and text observes identical
/// outlines, node for node and byte for byte.
pub proof fn lemma_extract_idempotent(
    tree: SynNode,
    text: Seq<u8>,
    r1: Seq<OutlineNode>,
    r2: Seq<OutlineNode>,
)
    requires
        shapes_of(r1, 0) == spec_outline(tree, text),
        shapes_of(r2, 0) == spec_outline(tree, text),
    ensures
        shapes_of(r1, 0) == shapes_of(r2, 0),
{
}


/// Ranges fit for reconstruction: each record starts no later than it
/// ends, and in scan order every later record lies beyond or within
/// each earlier one, as ranges drawn from one syntax tree do once
/// sorted by start and end.
pub open spec fn pends_ok(ps: Seq<Pend>) -> bool {
    forall|k: int| 0 <= k < ps.len() ==> (#[trigger] ps[k]).start <= ps[k].end
}

pub open spec fn nestable(ps: Seq<Pend>) -> bool {
    forall|i: int, j: int|
        0 <= i < j < ps.len() ==> (#[trigger] ps[i]).end <= (#[trigger] ps[j]).start || (ps[i].start
            <= ps[j].start && ps[j].end <= ps[i].end)
}

/// A well-formed outline node: its range is ordered, its children lie
/// inside it in order without overlap, and they are well formed too.
pub open spec fn shape_wf(t: OutlineShape) -> bool
    decreases t, 0int,
{
    &&& t.start <= t.end
    &&& kids_wf(t.children, 0)
    &&& kids_in(t.children, t.start, t.end)
    &&& kids_ordered(t.children)
}

pub open spec fn kids_wf(ts: Seq<OutlineShape>, i: int) -> bool
    decreases ts, ts.len() - i,
{
    if i < 0 || i >= ts.len() {
        true
    } else {
        shape_wf(ts[i]) && kids_wf(ts, i + 1)
    }
}

/// Every child's range lies inside `lo .. hi`.
pub open spec fn kids_in(ts: Seq<OutlineShape>, lo: int, hi: int) -> bool {
    forall|k: int|
        0 <= k < ts.len() ==> lo <= (#[trigger] ts[k]).start && ts[k].end <= hi && ts[k].start
            <= ts[k].end
}

/// No two siblings overlap: each ends before any later one begins.
pub open spec fn kids_ordered(ts: Seq<OutlineShape>) -> bool {
    forall|a: int, b: int|
        0 <= a < b < ts.len() ==> (#[trigger] ts[a]).end <= (#[trigger] ts[b]).start
}

/// A well-formed forest: the nesting property of a whole outline.
pub open spec fn forest_wf(ts: Seq<OutlineShape>) -> bool {
    kids_wf(ts, 0) && kids_ordered(ts)
}

#[verifier::spinoff_prover]
pub proof fn lemma_kids_wf_push(ts: Seq<OutlineShape>, x: OutlineShape, i: int)
    requires
        0 <= i <= ts.len(),
    ensures
        kids_wf(ts.push(x), i) == (kids_wf(ts, i) && shape_wf(x)),
    decreases ts.len() - i,
{
    if i == ts.len() {
        assert(ts.push(x)[i] == x);
        assert(kids_wf(ts.push(x), i + 1));
        assert(kids_wf(ts, i));
    } else {
        assert(ts.push(x)[i] == ts[i]);
        lemma_kids_wf_push(ts, x, i + 1);
    }
}

#[verifier::spinoff_prover]
pub proof fn lemma_kids_wf_index(ts: Seq<OutlineShape>, i: int, k: int)
    requires
        kids_wf(ts, i),
        0 <= i <= k < ts.len(),
    ensures
        shape_wf(ts[k]),
    decreases k - i,
{
    if i < k {
        lemma_kids_wf_index(ts, i + 1, k);
    }
}

/// Appending a well-formed node after a frame's children keeps them
/// well formed, ordered, and inside the frame.
#[verifier::spinoff_prover]
pub proof fn lemma_append_kid(lo: int, hi: int, kids: Seq<OutlineShape>, node: OutlineShape)
    requires
        kids_wf(kids, 0),
        kids_ordered(kids),
        kids_in(kids, lo, hi),
        shape_wf(node),
        lo <= node.start,
        node.end <= hi,
        node.start <= node.end,
        kids.len() > 0 ==> kids.last().end <= node.start,
    ensures
        kids_wf(kids.push(node), 0),
        kids_ordered(kids.push(node)),
        kids_in(kids.push(node), lo, hi),
{
    lemma_kids_wf_push(kids, node, 0);
    let nk = kids.push(node);
    assert forall|a: int, b: int| 0 <= a < b < nk.len() implies (#[trigger] nk[a]).end <= (
    #[trigger] nk[b]).start by {
        if b < kids.len() {
            assert(nk[a] == kids[a] && nk[b] == kids[b]);
        } else {
            assert(nk[b] == node);
            if a < kids.len() - 1 {
                assert(nk[a] == kids[a]);
                assert(kids[a].end <= kids[kids.len() - 1].start);
                assert(kids[kids.len() - 1].start <= kids[kids.len() - 1].end);
            } else {
                assert(nk[a] == kids.last());
            }
        }
    }
    assert forall|k: int| 0 <= k < nk.len() implies lo <= (#[trigger] nk[k]).start && nk[k].end
        <= hi && nk[k].start <= nk[k].end by {
        if k < kids.len() {
            assert(nk[k] == kids[k]);
        } else {
            assert(nk[k] == node);
        }
    }
}

/// The reconstruction invariant: open records nest bottom to top, each
/// one's finished children lie inside it in order, a frame's children
/// end before any record above it begins, and the finished roots are
/// well formed, in order, before the open stack.
pub open spec fn state_ok(st: BuildState) -> bool {
    let stk = st.stack;
    &&& forall|j: int| 0 <= j < stk.len() ==> (#[trigger] stk[j]).0.start <= stk[j].0.end
    &&& forall|a: int, b: int|
        0 <= a < b < stk.len() ==> (#[trigger] stk[a]).0.start <= (#[trigger] stk[b]).0.start
            && stk[b].0.end <= stk[a].0.end
    &&& forall|j: int|
        0 <= j < stk.len() ==> kids_wf((#[trigger] stk[j]).1, 0) && kids_ordered(stk[j].1)
            && kids_in(stk[j].1, stk[j].0.start as int, stk[j].0.end as int)
    &&& forall|a: int, b: int|
        0 <= a < b < stk.len() && (#[trigger] stk[a]).1.len() > 0 ==> stk[a].1.last().end <= (
        #[trigger] stk[b]).0.start
    &&& forest_wf(st.roots)
    &&& (st.roots.len() > 0 && stk.len() > 0 ==> st.roots.last().end <= stk[0].0.start)
}

/// Closing the top record preserves the invariant; the frame below, or
/// the root list, absorbs a well-formed node ending within the closed
/// record's range.
#[verifier::rlimit(100)]
#[verifier::spinoff_prover]
pub proof fn lemma_close_top_ok(st: BuildState, text: Seq<u8>, starts: Seq<usize>)
    requires
        state_ok(st),
        st.stack.len() > 0,
    ensures
        ({
            let st2 = close_top(st, text, starts);
            &&& state_ok(st2)
            &&& st2.stack.len() == st.stack.len() - 1
            &&& forall|j: int| 0 <= j < st2.stack.len() ==> (#[trigger] st2.stack[j]).0 == st.stack[j].0
            &&& (st2.stack.len() > 0 ==> st2.stack.last().1.len() > 0 && st2.stack.last().1.last().end
                == st.stack.last().0.end)
            &&& (st2.stack.len() == 0 ==> st2.roots.len() > 0 && st2.roots.last().end
                == st.stack.last().0.end)
        }),
{
    let stk = st.stack;
    let m = stk.len() - 1;
    let top = stk.last();
    let node = pend_shape(top.0, text, starts, top.1);
    assert(stk[m] == top);
    assert(shape_wf(node));
    let st2 = close_top(st, text, starts);
    if m > 0 {
        let parent = stk[m - 1];
        let nk = parent.1.push(node);
        lemma_append_kid(parent.0.start as int, parent.0.end as int, parent.1, node);
        let stk2 = st2.stack;
        assert(stk2 == stk.drop_last().update(m - 1, (parent.0, nk)));
        assert(stk2.len() == m);
        assert forall|j: int| 0 <= j < stk2.len() implies (#[trigger] stk2[j]).0 == stk[j].0 by {
            if j < m - 1 {
                assert(stk2[j] == stk[j]);
            }
        }
        assert(stk2.last().1 =~= nk);
        assert forall|j: int| 0 <= j < stk2.len() implies (#[trigger] stk2[j]).0.start <= stk2[
        j].0.end by {
            assert(stk2[j].0 == stk[j].0);
        }
        assert forall|a: int, b: int|
            0 <= a < b < stk2.len() implies (#[trigger] stk2[a]).0.start <= (
        #[trigger] stk2[b]).0.start && stk2[b].0.end <= stk2[a].0.end by {
            assert(stk2[a].0 == stk[a].0 && stk2[b].0 == stk[b].0);
        }
        assert forall|j: int|
            0 <= j < stk2.len() implies kids_wf((#[trigger] stk2[j]).1, 0) && kids_ordered(
            stk2[j].1,
        ) && kids_in(stk2[j].1, stk2[j].0.start as int, stk2[j].0.end as int) by {
            if j < m - 1 {
                assert(stk2[j] == stk[j]);
            } else {
                assert(stk2[j].1 == nk);
            }
        }
        assert forall|a: int, b: int|
            0 <= a < b < stk2.len() && (#[trigger] stk2[a]).1.len() > 0 implies stk2[
        a].1.last().end <= (#[trigger] stk2[b]).0.start by {
            assert(stk2[a] == stk[a] && stk2[b].0 == stk[b].0);
        }
    } else {
        let rts = st.roots.push(node);
        assert(st2.roots == rts);
        assert(st2.stack.len() == 0);
        assert(stk[0] == top);
        lemma_kids_wf_push(st.roots, node, 0);
        assert forall|a: int, b: int| 0 <= a < b < rts.len() implies (#[trigger] rts[a]).end <= (
        #[trigger] rts[b]).start by {
            if b < st.roots.len() {
                assert(rts[a] == st.roots[a] && rts[b] == st.roots[b]);
            } else {
                assert(rts[b] == node);
                assert(node.start == top.0.start);
                if a < st.roots.len() - 1 {
                    assert(rts[a] == st.roots[a]);
                    assert(st.roots[a].end <= st.roots[st.roots.len() - 1].start);
                    lemma_kids_wf_index(st.roots, 0, st.roots.len() - 1);
                    assert(st.roots.last().start <= st.roots.last().end);
                    assert(st.roots.last().end <= stk[0].0.start);
                } else {
                    assert(rts[a] == st.roots.last());
                    assert(st.roots.last().end <= stk[0].0.start);
                }
            }
        }
        assert(rts.last() == node);
    }
}

/// Closing every record that ends at or before `s` preserves the
/// invariant; what survives begins before `s`, ends after it, and its
/// finished children end by `s`.
#[verifier::rlimit(100)]
#[verifier::spinoff_prover]
pub proof fn lemma_pop_le_ok(st: BuildState, s: usize, text: Seq<u8>, starts: Seq<usize>)
    requires
        state_ok(st),
        forall|j: int| 0 <= j < st.stack.len() ==> (#[trigger] st.stack[j]).0.start <= s,
        st.stack.len() > 0 && st.stack.last().1.len() > 0 ==> st.stack.last().1.last().end <= s,
        st.stack.len() == 0 && st.roots.len() > 0 ==> st.roots.last().end <= s,
    ensures
        ({
            let st2 = pop_le(st, s, text, starts);
            &&& state_ok(st2)
            &&& st2.stack.len() <= st.stack.len()
            &&& forall|j: int| 0 <= j < st2.stack.len() ==> (#[trigger] st2.stack[j]).0 == st.stack[j].0
            &&& (st2.stack.len() > 0 ==> !(st2.stack.last().0.end <= s))
            &&& (st2.stack.len() > 0 && st2.stack.last().1.len() > 0 ==> st2.stack.last().1.last().end
                <= s)
            &&& (st2.stack.len() == 0 && st2.roots.len() > 0 ==> st2.roots.last().end <= s)
        }),
    decreases st.stack.len(),
{
    if st.stack.len() > 0 && st.stack.last().0.end <= s {
        lemma_close_top_ok(st, text, starts);
        let mid = close_top(st, text, starts);
        assert forall|j: int| 0 <= j < mid.stack.len() implies (#[trigger] mid.stack[j]).0.start
            <= s by {
            assert(mid.stack[j].0 == st.stack[j].0);
        }
        if mid.stack.len() > 0 {
            assert(mid.stack.last().1.last().end == st.stack.last().0.end);
        }
        lemma_pop_le_ok(mid, s, text, starts);
        assert(pop_le(st, s, text, starts) == pop_le(mid, s, text, starts));
    }
}

/// After any prefix of the scan the invariant holds; open records
/// relate to every unscanned record, begin no later than the last
/// scanned one, and the newest has no children yet.
#[verifier::rlimit(100)]
#[verifier::spinoff_prover]
pub proof fn lemma_run_ok(ps: Seq<Pend>, text: Seq<u8>, starts: Seq<usize>, i: int)
    requires
        nestable(ps),
        pends_ok(ps),
        0 <= i <= ps.len(),
    ensures
        ({
            let st = run_build(ps, i, text, starts);
            &&& state_ok(st)
            &&& forall|j: int, k: int|
                0 <= j < st.stack.len() && i <= k < ps.len() ==> (#[trigger] st.stack[j]).0.end <= (
                #[trigger] ps[k]).start || ps[k].end <= st.stack[j].0.end
            &&& forall|j: int|
                0 <= j < st.stack.len() && i > 0 ==> (#[trigger] st.stack[j]).0.start <= ps[i
                    - 1].start
            &&& (i == 0 ==> st.stack.len() == 0 && st.roots.len() == 0)
            &&& (st.stack.len() > 0 ==> st.stack.last().1.len() == 0)
        }),
    decreases i,
{
    if i > 0 {
        lemma_run_ok(ps, text, starts, i - 1);
        let prev = run_build(ps, i - 1, text, starts);
        let r = ps[i - 1];
        let s = r.start;
        assert(r.start <= r.end);
        assert forall|j: int| 0 <= j < prev.stack.len() implies (#[trigger] prev.stack[j]).0.start
            <= s by {
            if i - 1 > 0 {
                assert(prev.stack[j].0.start <= ps[i - 2].start);
                assert(ps[i - 2].end <= ps[i - 1].start || ps[i - 2].start <= ps[i - 1].start);
                assert(ps[i - 2].start <= ps[i - 2].end);
            }
        }
        lemma_pop_le_ok(prev, s, text, starts);
        let mid = pop_le(prev, s, text, starts);
        let st = run_build(ps, i, text, starts);
        assert(st == push_rec(mid, r));
        let stk = st.stack;
        assert(stk == mid.stack.push((r, Seq::<OutlineShape>::empty())));
        assert(stk.last().1.len() == 0);
        // the surviving top admits the new record inside it
        if mid.stack.len() > 0 {
            let jt = mid.stack.len() - 1;
            assert(mid.stack[jt].0 == prev.stack[jt].0);
            assert(prev.stack[jt].0.end <= ps[i - 1].start || ps[i - 1].end <= prev.stack[
            jt].0.end);
            assert(!(mid.stack.last().0.end <= s));
            assert(r.end <= mid.stack[jt].0.end);
        }
        assert forall|j: int| 0 <= j < stk.len() implies (#[trigger] stk[j]).0.start <= stk[
        j].0.end by {
            if j < stk.len() - 1 {
                assert(stk[j] == mid.stack[j]);
            } else {
                assert(stk[j].0 == r);
            }
        }
        assert forall|a: int, b: int|
            0 <= a < b < stk.len() implies (#[trigger] stk[a]).0.start <= (
        #[trigger] stk[b]).0.start && stk[b].0.end <= stk[a].0.end by {
            if b < stk.len() - 1 {
                assert(stk[a] == mid.stack[a] && stk[b] == mid.stack[b]);
            } else {
                assert(stk[a] == mid.stack[a]);
                assert(stk[b].0 == r);
                assert(mid.stack[a].0.start <= s);
                let jt = mid.stack.len() - 1;
                if a < jt {
                    assert(mid.stack[a].0.start <= mid.stack[jt].0.start && mid.stack[jt].0.end
                        <= mid.stack[a].0.end);
                }
                assert(r.end <= mid.stack[a].0.end);
            }
        }
        assert forall|j: int|
            0 <= j < stk.len() implies kids_wf((#[trigger] stk[j]).1, 0) && kids_ordered(
            stk[j].1,
        ) && kids_in(stk[j].1, stk[j].0.start as int, stk[j].0.end as int) by {
            if j < stk.len() - 1 {
                assert(stk[j] == mid.stack[j]);
            } else {
                assert(stk[j].1 =~= Seq::<OutlineShape>::empty());
                assert(kids_wf(stk[j].1, 0));
            }
        }
        assert forall|a: int, b: int|
            0 <= a < b < stk.len() && (#[trigger] stk[a]).1.len() > 0 implies stk[a].1.last().end
            <= (#[trigger] stk[b]).0.start by {
            if b < stk.len() - 1 {
                assert(stk[a] == mid.stack[a] && stk[b] == mid.stack[b]);
            } else {
                assert(stk[a] == mid.stack[a]);
                assert(stk[b].0 == r);
                let jt = mid.stack.len() - 1;
                if a < jt {
                    assert(mid.stack[a].1.last().end <= mid.stack[jt].0.start);
                    assert(mid.stack[jt].0.start <= s);
                } else {
                    assert(mid.stack.last().1.last().end <= s);
                }
            }
        }
        if st.roots.len() > 0 && stk.len() > 0 {
            if mid.stack.len() > 0 {
                assert(stk[0] == mid.stack[0]);
            } else {
                assert(stk[0].0 == r);
                assert(st.roots.last().end <= s);
            }
        }
        // open records relate to every unscanned record
        assert forall|j: int, k: int|
            0 <= j < stk.len() && i <= k < ps.len() implies (#[trigger] stk[j]).0.end <= (
        #[trigger] ps[k]).start || ps[k].end <= stk[j].0.end by {
            if j < stk.len() - 1 {
                assert(stk[j].0 == mid.stack[j].0);
                assert(mid.stack[j].0 == prev.stack[j].0);
                assert(prev.stack[j].0.end <= ps[k].start || ps[k].end <= prev.stack[j].0.end);
            } else {
                assert(stk[j].0 == ps[i - 1]);
                assert(ps[i - 1].end <= ps[k].start || (ps[i - 1].start <= ps[k].start && ps[k].end
                    <= ps[i - 1].end));
            }
        }
        assert forall|j: int| 0 <= j < stk.len() && i > 0 implies (#[trigger] stk[j]).0.start
            <= ps[i - 1].start by {
            if j < stk.len() - 1 {
                assert(stk[j].0 == prev.stack[j].0);
                assert(prev.stack[j].0.start <= s);
            } else {
                assert(stk[j].0 == r);
            }
        }
    }
}

/// Draining a well-formed state yields a well-formed forest.
#[verifier::rlimit(100)]
#[verifier::spinoff_prover]
pub proof fn lemma_drain_ok(st: BuildState, text: Seq<u8>, starts: Seq<usize>)
    requires
        state_ok(st),
    ensures
        forest_wf(drain_build(st, text, starts)),
    decreases st.stack.len(),
{
    if st.stack.len() > 0 {
        lemma_close_top_ok(st, text, starts);
        lemma_drain_ok(close_top(st, text, starts), text, starts);
    }
}

/// Nesting for the reconstruction: from records whose ranges pairwise
/// lie beyond or within one another in scan order, every child's range
/// lies inside its parent's and siblings never overlap.
#[verifier::rlimit(100)]
#[verifier::spinoff_prover]
pub proof fn lemma_build_nesting(ps: Seq<Pend>, text: Seq<u8>, starts: Seq<usize>)
    requires
        nestable(ps),
        pends_ok(ps),
    ensures
        forest_wf(drain_build(run_build(ps, ps.len() as int, text, starts), text, starts)),
{
    lemma_run_ok(ps, text, starts, ps.len() as int);
    lemma_drain_ok(run_build(ps, ps.len() as int, text, starts), text, starts);
}

/// Nesting for a whole extraction: whenever the collected, sorted
/// records pairwise lie beyond or within one another - as ranges drawn
/// from one parse tree do, short of two records sharing a start where
/// the longer sorts later - the outline is a well-formed forest.
#[verifier::rlimit(100)]
#[verifier::spinoff_prover]
pub proof fn lemma_outline_nesting(tree: SynNode, text: Seq<u8>)
    requires
        nestable(sort_pend(spec_collect(tree, text.len() as usize))),
    ensures
        forest_wf(spec_outline(tree, text)),
{
    let ps = sort_pend(spec_collect(tree, text.len() as usize));
    let tlen = text.len() as usize;
    lemma_collect_ok(tree, tlen);
    lemma_sort_pend_len(spec_collect(tree, tlen));
    assert forall|k: int| 0 <= k < ps.len() implies (#[trigger] ps[k]).start <= ps[k].end by {
        assert(ps.contains(ps[k]));
        lemma_sort_pend_contains(spec_collect(tree, tlen), ps[k]);
        let m = choose|m: int|
            0 <= m < spec_collect(tree, tlen).len() && spec_collect(tree, tlen)[m] == ps[k];
        assert(pend_ok(spec_collect(tree, tlen)[m], tlen));
    }
    lemma_build_nesting(ps, text, line_starts(text, text.len() as int));
}
} // verus!
