//! That operands which were exchanged are not exchanged again.

use vstd::prelude::*;

use crate::dim::TDim;
use crate::direct::lemma_filter_distinct;
use crate::error::Error;
use crate::kernels::{lemma_transposed_once, must_transpose, swap_patch};
use crate::labels::{Expr, lemma_has, lemma_positions, positions};
use crate::model::{Model, facts_of, has_outlet, node_wf};
use crate::ops::{EinSumView, OpView, ranks_suit};
use crate::optimize::{Step, input_shapes, mkn_step};
use crate::patch::{lemma_applied, lemma_resolve, lemma_wire_facts};
use crate::preserve::is_pair;
use crate::product::{
    extent, lemma_extent_two, lemma_row_extent_single, lemma_row_extent_trivial, row_extent,
};
use crate::progress::{is_simple, lemma_k_label, lemma_part_found};
use crate::roles::{
    Roles, blocking_labels, blocks, dim_in, dim_out, is_k, is_side, k_labels, lemma_filtered,
    lemma_filtered_none, lemma_widest, one, roles, side_labels, wide_k_labels, widest, width,
};
use crate::vectors::lemma_output_first;

verus! {

/// The shapes of two inputs, exchanged.
pub open spec fn swapped_shapes(shapes: Seq<Seq<TDim>>) -> Seq<Seq<TDim>> {
    seq![shapes[1], shapes[0]]
}

/// Whether an extent is one does not depend on the order of the inputs.
proof fn lemma_swapped_extent(e: Expr, shapes: Seq<Seq<TDim>>, l: char)
    requires
        e.inputs.len() == 2,
        shapes.len() == 2,
    ensures
        ({
            let left = row_extent(e.inputs[0], shapes[0], l, one());
            let right = row_extent(e.inputs[1], shapes[1], l, one());
            let here = extent(e.inputs, shapes, l, one());
            let there = extent(e.swapped().inputs, swapped_shapes(shapes), l, one());
            &&& here == one() <==> there == one()
            &&& left == one() || right == one() ==> here == there
        }),
{
    assert(e.swapped().inputs =~= seq![e.inputs[1], e.inputs[0]]);
    lemma_extent_two(e.inputs, shapes, l, one());
    lemma_extent_two(e.swapped().inputs, swapped_shapes(shapes), l, one());
}

/// The dimension of a void label along an input is one.
proof fn lemma_void_extent(labels: Seq<char>, shape: Seq<TDim>, l: char)
    requires
        labels.no_duplicates(),
        shape.len() == labels.len(),
        positions(labels, l).len() == 0 || shape[positions(labels, l)[0]] == one(),
    ensures
        row_extent(labels, shape, l, one()) == one(),
{
    lemma_positions(labels, l);
    if positions(labels, l).len() == 0 {
        lemma_row_extent_trivial(labels, shape, l, one());
    } else {
        let p = positions(labels, l)[0];
        assert forall|q: int| 0 <= q < labels.len() && #[trigger] labels[q] == l implies q == p by {
            assert(labels[p] == l);
        }
        lemma_row_extent_single(labels, shape, l, p, one());
    }
}

/// The parts that labels play, with the inputs exchanged.
proof fn lemma_swapped_parts(e: Expr, shapes: Seq<Seq<TDim>>, l: char)
    requires
        is_simple(e, shapes),
    ensures
        is_k(e.swapped(), swapped_shapes(shapes), l) == is_k(e, shapes, l),
        is_side(e.swapped(), swapped_shapes(shapes), 0, l) == is_side(e, shapes, 1, l),
        is_side(e.swapped(), swapped_shapes(shapes), 1, l) == is_side(e, shapes, 0, l),
        is_k(e, shapes, l) ==> dim_in(e.swapped(), swapped_shapes(shapes), 0, l) == dim_in(
            e,
            shapes,
            0,
            l,
        ),
        blocks(e.swapped(), swapped_shapes(shapes), l) == blocks(e, shapes, l),
        is_side(e, shapes, 0, l) || is_side(e, shapes, 1, l) ==> width(
            e.swapped(),
            swapped_shapes(shapes),
            l,
        ) == width(e, shapes, l),
{
    let f = e.swapped();
    let s = swapped_shapes(shapes);
    assert(f.inputs =~= seq![e.inputs[1], e.inputs[0]]);
    lemma_swapped_extent(e, shapes, l);
    lemma_positions(e.outputs[0], l);
    if e.count_out(0, l) > 0 {
        assert(e.outputs[0][e.first_out(0, l)] == l);
        assert(dim_out(e, shapes, l) == extent(e.inputs, shapes, l, one()));
        assert(dim_out(f, s, l) == extent(f.inputs, s, l, one()));
    }
    if is_side(e, shapes, 0, l) {
        lemma_void_extent(e.inputs[1], shapes[1], l);
    }
    if is_side(e, shapes, 1, l) {
        lemma_void_extent(e.inputs[0], shapes[0], l);
    }
}

/// The labels for the rows, or for the columns, are found among those of the
/// output.
proof fn lemma_sides_in_output(e: Expr, shapes: Seq<Seq<TDim>>, own: int)
    requires
        e.outputs.len() == 1,
        e.outputs[0].no_duplicates(),
    ensures
        side_labels(e, shapes, own) == e.outputs[0].filter(|c: char| is_side(e, shapes, own, c)),
{
    let pred = |c: char| is_side(e, shapes, own, c);
    let labels = e.labels();
    let n = e.outputs[0].len() as int;
    lemma_output_first(e);
    let rest = labels.skip(n);
    assert(labels =~= e.outputs[0] + rest);
    Seq::filter_distributes_over_add(e.outputs[0], rest, pred);
    if rest.filter(pred).len() > 0 {
        lemma_filtered(rest, pred, 0);
        let c = rest.filter(pred)[0];
        lemma_has(e, c);
        lemma_positions(e.outputs[0], c);
        let p = choose|p: int| 0 <= p < e.outputs[0].len() && e.outputs[0][p] == c;
        let q = choose|q: int| 0 <= q < rest.len() && rest[q] == c;
        assert(labels[p] == labels.take(n)[p]);
        assert(labels[n + q] == c);
    }
    assert(rest.filter(pred) =~= Seq::empty());
    assert(e.outputs[0].filter(pred) + Seq::<char>::empty() =~= e.outputs[0].filter(pred));
}

/// Filters that agree let the same through.
proof fn lemma_same_filter(
    labels: Seq<char>,
    p: spec_fn(char) -> bool,
    q: spec_fn(char) -> bool,
)
    requires
        forall|c: char| #[trigger] p(c) == q(c),
    ensures
        labels.filter(p) == labels.filter(q),
    decreases labels.len(),
{
    reveal(Seq::filter);
    if labels.len() > 0 {
        lemma_same_filter(labels.drop_last(), p, q);
        assert(p(labels.last()) == q(labels.last()));
    }
}

/// The last of the widest labels depends on how wide they are alone.
proof fn lemma_same_widest(
    e: Expr,
    s: Seq<Seq<TDim>>,
    f: Expr,
    t: Seq<Seq<TDim>>,
    labels: Seq<char>,
)
    requires
        forall|i: int|
            0 <= i < labels.len() ==> width(e, s, #[trigger] labels[i]) == width(f, t, labels[i]),
        labels.len() > 0,
    ensures
        widest(e, s, labels) == widest(f, t, labels),
    decreases labels.len(),
{
    if labels.len() > 1 {
        let short = labels.drop_last();
        assert forall|i: int| 0 <= i < short.len() implies width(e, s, #[trigger] short[i])
            == width(f, t, short[i]) by {
            assert(labels[i] == short[i]);
        }
        lemma_same_widest(e, s, f, t, short);
        lemma_widest(e, s, short);
        let best = widest(e, s, short);
        let i = choose|i: int| 0 <= i < short.len() && short[i] == best;
        assert(labels[i] == best);
        assert(labels[labels.len() - 1] == labels.last());
    }
}

/// The rows become the columns, and the columns the rows.
proof fn lemma_swapped_side(e: Expr, shapes: Seq<Seq<TDim>>, own: int)
    requires
        is_simple(e, shapes),
        own == 0 || own == 1,
    ensures
        side_labels(e.swapped(), swapped_shapes(shapes), 1 - own) == side_labels(e, shapes, own),
        side_labels(e, shapes, own).len() > 0 ==> widest(
            e.swapped(),
            swapped_shapes(shapes),
            side_labels(e, shapes, own),
        ) == widest(e, shapes, side_labels(e, shapes, own)),
{
    let f = e.swapped();
    let s = swapped_shapes(shapes);
    let p = |c: char| is_side(e, shapes, own, c);
    let q = |c: char| is_side(f, s, 1 - own, c);
    lemma_sides_in_output(e, shapes, own);
    lemma_sides_in_output(f, s, 1 - own);
    assert forall|c: char| #[trigger] p(c) == q(c) by {
        lemma_swapped_parts(e, shapes, c);
    }
    lemma_same_filter(e.outputs[0], p, q);
    let sides = side_labels(e, shapes, own);
    assert forall|i: int| 0 <= i < sides.len() implies width(e, shapes, #[trigger] sides[i])
        == width(f, s, sides[i]) by {
        lemma_filtered(e.labels(), p, i);
        lemma_swapped_parts(e, shapes, sides[i]);
    }
    if sides.len() > 0 {
        lemma_same_widest(e, shapes, f, s, sides);
    }
}

/// No more labels can be summed over with the inputs exchanged.
proof fn lemma_swapped_wide(e: Expr, shapes: Seq<Seq<TDim>>)
    requires
        is_simple(e, shapes),
        wide_k_labels(e, shapes).len() <= 1,
    ensures
        wide_k_labels(e.swapped(), swapped_shapes(shapes)).len() <= 1,
{
    let f = e.swapped();
    let s = swapped_shapes(shapes);
    let wide = wide_k_labels(f, s);
    if wide.len() > 1 {
        lemma_has(f, wide[0]);
        lemma_filter_distinct(f.labels(), |c: char| is_k(f, s, c));
        lemma_filter_distinct(k_labels(f, s), |c: char| dim_in(f, s, 0, c) != one());
        lemma_swapped_wide_label(e, shapes, 0);
        lemma_swapped_wide_label(e, shapes, 1);
        let all = wide_k_labels(e, shapes);
        assert(all[0] == wide[0]);
        assert(all[0] == wide[1]);
    }
}

proof fn lemma_swapped_wide_label(e: Expr, shapes: Seq<Seq<TDim>>, i: int)
    requires
        is_simple(e, shapes),
        0 <= i < wide_k_labels(e.swapped(), swapped_shapes(shapes)).len(),
    ensures
        wide_k_labels(e, shapes).contains(wide_k_labels(e.swapped(), swapped_shapes(shapes))[i]),
{
    let f = e.swapped();
    let s = swapped_shapes(shapes);
    let c = wide_k_labels(f, s)[i];
    lemma_filtered(k_labels(f, s), |c: char| dim_in(f, s, 0, c) != one(), i);
    let j = choose|j: int| 0 <= j < k_labels(f, s).len() && k_labels(f, s)[j] == c;
    lemma_filtered(f.labels(), |c: char| is_k(f, s, c), j);
    lemma_swapped_parts(e, shapes, c);
    lemma_has(e, c);
    lemma_positions(e.inputs[0], c);
    lemma_filtered_none(e.labels(), |c: char| is_k(e, shapes, c), c);
    lemma_filtered_none(
        k_labels(e, shapes),
        |c: char| dim_in(e, shapes, 0, c) != one(),
        c,
    );
}

/// With the inputs exchanged, the rows become the columns and the columns the rows.
pub proof fn lemma_swapped_roles(e: Expr, shapes: Seq<Seq<TDim>>, m: char, k: char, n: char)
    requires
        is_simple(e, shapes),
        roles(e, shapes) == Roles::Found(m, k, n),
    ensures
        roles(e.swapped(), swapped_shapes(shapes)) matches Roles::Found(rows, _, columns) && rows
            == n && columns == m,
{
    let f = e.swapped();
    let s = swapped_shapes(shapes);
    lemma_swapped_wide(e, shapes);
    lemma_k_label(e, shapes);
    lemma_swapped_parts(e, shapes, k);
    assert(f.inputs =~= seq![e.inputs[1], e.inputs[0]]);
    lemma_part_found(f, s, k);
    lemma_swapped_side(e, shapes, 0);
    lemma_swapped_side(e, shapes, 1);
    if blocking_labels(f, s).len() > 0 {
        lemma_filtered(f.labels(), |c: char| blocks(f, s, c), 0);
        let c = blocking_labels(f, s)[0];
        lemma_swapped_parts(e, shapes, c);
        lemma_blocking_label(e, shapes, c);
    }
}

/// A label that keeps an einsum from being a matrix product is found.
pub proof fn lemma_blocking_label(e: Expr, shapes: Seq<Seq<TDim>>, c: char)
    requires
        e.inputs.len() >= 2,
        blocks(e, shapes, c),
    ensures
        blocking_labels(e, shapes).len() > 0,
{
    lemma_has(e, c);
    lemma_positions(e.inputs[0], c);
    lemma_positions(e.inputs[1], c);
    lemma_filtered_none(e.labels(), |l: char| blocks(e, shapes, l), c);
}

/// The rows, the sums and the columns are what the search ends in.
pub proof fn lemma_annotated(op: EinSumView, m: Model, id: int, rows: char, k: char, columns: char)
    ensures
        mkn_step(op, m, id) == Ok::<Step, Error>(Step::Annotated(rows, k, columns)) <==> ranks_suit(
            op.axes,
            facts_of(m.nodes, m.nodes[id].inputs),
        ) && roles(op.axes, input_shapes(m, m.nodes[id])) == Roles::Found(rows, k, columns),
{
    reveal(mkn_step);
}

/// After the operands of an einsum have been exchanged, its rows and columns are
/// found exchanged, and the operands are not exchanged again.
pub proof fn lemma_exchanged_once(m: Model, id: int, rows: char, k: char, columns: char)
    requires
        m.wf(),
        0 <= id < m.nodes.len(),
        is_pair(m, id),
        is_simple((m.nodes[id].op->EinSum_0).axes, input_shapes(m, m.nodes[id])),
        mkn_step(m.nodes[id].op->EinSum_0, m, id) == Ok::<Step, Error>(
            Step::Annotated(rows, k, columns),
        ),
        swap_patch(m.nodes[id].op->EinSum_0, m.nodes[id], id).fault(m) is None,
        must_transpose(
            dim_in((m.nodes[id].op->EinSum_0).axes, input_shapes(m, m.nodes[id]), 0, rows),
            dim_in((m.nodes[id].op->EinSum_0).axes, input_shapes(m, m.nodes[id]), 1, columns),
        ),
    ensures
        ({
            let a = swap_patch(m.nodes[id].op->EinSum_0, m.nodes[id], id).applied(m);
            let e = (a.nodes[id].op->EinSum_0).axes;
            let shapes = input_shapes(a, a.nodes[id]);
            &&& mkn_step(a.nodes[id].op->EinSum_0, a, id) matches Ok(Step::Annotated(r, _, c))
            &&& r == columns
            &&& c == rows
            &&& !must_transpose(dim_in(e, shapes, 0, r), dim_in(e, shapes, 1, c))
        }),
{
    let op = m.nodes[id].op->EinSum_0;
    let e = op.axes;
    let shapes = input_shapes(m, m.nodes[id]);
    let a = swap_patch(op, m.nodes[id], id).applied(m);
    lemma_annotated(op, m, id, rows, k, columns);
    lemma_exchanged_shapes(m, id);
    lemma_swapped_roles(e, shapes, rows, k, columns);
    let k1 = match roles(e.swapped(), swapped_shapes(shapes)) {
        Roles::Found(_, k1, _) => k1,
        _ => k,
    };
    lemma_annotated(a.nodes[id].op->EinSum_0, a, id, columns, k1, rows);
    assert(e.swapped().inputs =~= seq![e.inputs[1], e.inputs[0]]);
    lemma_transposed_once(dim_in(e, shapes, 0, rows), dim_in(e, shapes, 1, columns));
}

/// The einsum after its operands have been exchanged.
proof fn lemma_exchanged_shapes(m: Model, id: int)
    requires
        m.wf(),
        0 <= id < m.nodes.len(),
        is_pair(m, id),
        swap_patch(m.nodes[id].op->EinSum_0, m.nodes[id], id).fault(m) is None,
    ensures
        ({
            let op = m.nodes[id].op->EinSum_0;
            let a = swap_patch(op, m.nodes[id], id).applied(m);
            &&& a.nodes[id].op == OpView::EinSum(op.over(op.axes.swapped()))
            &&& input_shapes(a, a.nodes[id]) == swapped_shapes(input_shapes(m, m.nodes[id]))
            &&& ranks_suit(op.axes.swapped(), facts_of(a.nodes, a.nodes[id].inputs))
        }),
{
    let node = m.nodes[id];
    let op = node.op->EinSum_0;
    let p = swap_patch(op, node, id);
    let a = p.applied(m);
    assert(node_wf(m.nodes, id));
    assert forall|i: int| 0 <= i < p.taps.len() implies has_outlet(
        m.nodes,
        #[trigger] p.taps[i],
        id,
    ) by {
        assert(has_outlet(m.nodes, node.inputs[1 - i], id));
    }
    assert(p.wires[0].op.wf());
    assert(p.aims_at(m));
    let taps = facts_of(m.nodes, p.taps);
    lemma_wire_facts(taps, p.wires, 0);
    lemma_applied(m, p);
    assert(a.nodes[id] == p.wire_nodes(m)[0]);
    lemma_resolve(m, p, p.wires[0].inputs[0], 0);
    lemma_resolve(m, p, p.wires[0].inputs[1], 0);
    let now = facts_of(a.nodes, a.nodes[id].inputs);
    let before = facts_of(m.nodes, node.inputs);
    assert(now[0] == before[1] && now[1] == before[0]);
    assert(input_shapes(a, a.nodes[id]) =~= swapped_shapes(input_shapes(m, node)));
    assert(node_wf(a.nodes, id));
}

} // verus!
