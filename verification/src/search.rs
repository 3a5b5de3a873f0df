//! What the search for the axes of a matrix product finds, in terms of the labels and
//! the shapes of an einsum.

use vstd::prelude::*;

use crate::dim::TDim;
use crate::direct::lemma_filter_distinct;
use crate::error::Error;
use crate::labels::{
    Expr, distinct, joined, lemma_distinct, lemma_has, lemma_positions, lemma_single, positions,
};
use crate::meaning::lemma_extent_one;
use crate::model::{Model, facts_of, node_wf};
use crate::ops::{EinSumView, OpView, ranks_suit};
use crate::optimize::{EinSumAnnotatedAsMatMul, Step, input_shapes, mkn_step, optimization};
use crate::patch::Patch;
use crate::product::{extent, lemma_row_extent_one, output_dims, row_extent};
use crate::progress::{lemma_k_label, lemma_side_label};
use crate::roles::{
    blocking_labels, blocks, dim_in, is_k, is_side, k_label, k_labels, lemma_axis, lemma_filtered,
    lemma_filtered_none, one, side_labels, wide_k_labels, widest, width,
};

verus! {

/// Whether an axis is the first one of a label.
pub open spec fn leads(labels: Seq<char>, p: int, c: char) -> bool {
    &&& 0 <= p < labels.len()
    &&& labels[p] == c
    &&& forall|q: int| 0 <= q < p ==> #[trigger] labels[q] != c
}

/// Whether exactly one axis carries a label.
pub open spec fn once(labels: Seq<char>, c: char) -> bool {
    exists|p: int| #[trigger]
        leads(labels, p, c) && forall|q: int| p < q < labels.len() ==> #[trigger] labels[q] != c
}

/// Whether each of two inputs has a label once, with one dimension, and the output does
/// not have it.
pub open spec fn can_sum(e: Expr, shapes: Seq<Seq<TDim>>, c: char) -> bool {
    &&& once(e.inputs[0], c)
    &&& once(e.inputs[1], c)
    &&& !e.outputs[0].contains(c)
    &&& forall|p: int, q: int| #[trigger]
        leads(e.inputs[0], p, c) && #[trigger] leads(e.inputs[1], q, c) ==> shapes[0][p]
            == shapes[1][q]
}

/// Whether a label has a dimension other than one in an input.
pub open spec fn is_wide(e: Expr, shapes: Seq<Seq<TDim>>, slot: int, c: char) -> bool {
    exists|p: int| #[trigger] leads(e.inputs[slot], p, c) && shapes[slot][p] != TDim::Val(1)
}

/// Whether an input and the output have a label once, and the other input has it at most
/// with the dimension one.
pub open spec fn can_span(e: Expr, shapes: Seq<Seq<TDim>>, own: int, c: char) -> bool {
    &&& once(e.inputs[own], c)
    &&& once(e.outputs[0], c)
    &&& !is_wide(e, shapes, 1 - own, c)
}

/// Whether exactly one of two inputs has a label with a dimension other than one, and the
/// output does not have it.
pub open spec fn sticks_out(e: Expr, shapes: Seq<Seq<TDim>>, c: char) -> bool {
    &&& is_wide(e, shapes, 0, c) != is_wide(e, shapes, 1, c)
    &&& !e.outputs[0].contains(c)
}

/// Whether two labels with dimensions other than one compete to be summed over.
pub open spec fn sums_compete(e: Expr, shapes: Seq<Seq<TDim>>) -> bool {
    exists|c: char, d: char|
        c != d && #[trigger] can_sum(e, shapes, c) && is_wide(e, shapes, 0, c) && #[trigger] can_sum(
            e,
            shapes,
            d,
        ) && is_wide(e, shapes, 0, d)
}

/// Whether some label can be summed over.
pub open spec fn has_sums(e: Expr, shapes: Seq<Seq<TDim>>) -> bool {
    exists|c: char| #[trigger] can_sum(e, shapes, c)
}

/// Whether some label can be that of the rows, or of the columns.
pub open spec fn has_spans(e: Expr, shapes: Seq<Seq<TDim>>, own: int) -> bool {
    exists|c: char| #[trigger] can_span(e, shapes, own, c)
}

/// Whether some label sticks out.
pub open spec fn has_obstacle(e: Expr, shapes: Seq<Seq<TDim>>) -> bool {
    exists|c: char| #[trigger] sticks_out(e, shapes, c)
}

/// Whether one dimension is at most as large as another, for all that is known: one that
/// is not known counts as the largest.
pub open spec fn at_most(a: TDim, b: TDim) -> bool {
    match (a, b) {
        (TDim::Val(x), TDim::Val(y)) => x <= y,
        (TDim::Val(_), TDim::Sym(_)) => true,
        (TDim::Sym(_), TDim::Val(y)) => y == i64::MAX,
        (TDim::Sym(_), TDim::Sym(_)) => true,
    }
}

/// The first axis of a label, in other words.
pub proof fn lemma_leads(labels: Seq<char>, c: char)
    ensures
        forall|p: int| #[trigger]
            leads(labels, p, c) <==> positions(labels, c).len() > 0 && positions(labels, c)[0] == p,
        once(labels, c) <==> positions(labels, c).len() == 1,
        labels.contains(c) <==> positions(labels, c).len() > 0,
{
    let all = positions(labels, c);
    lemma_positions(labels, c);
    assert forall|p: int| #[trigger] leads(labels, p, c) <==> all.len() > 0 && all[0] == p by {
        if leads(labels, p, c) {
            assert(all.contains(p));
            let i = choose|i: int| 0 <= i < all.len() && all[i] == p;
            if i > 0 {
                assert(all[0] < all[i]);
                assert(labels[all[0]] == c);
            }
        }
        if all.len() > 0 && all[0] == p {
            assert forall|q: int| 0 <= q < p implies #[trigger] labels[q] != c by {
                if labels[q] == c {
                    assert(all.contains(q));
                    let i = choose|i: int| 0 <= i < all.len() && all[i] == q;
                    assert(i > 0 ==> all[0] < all[i]);
                }
            }
        }
    }
    if all.len() == 1 {
        lemma_single(labels, c);
        assert(leads(labels, all[0], c));
    }
    if once(labels, c) {
        let p = choose|p: int| #[trigger]
            leads(labels, p, c) && forall|q: int| p < q < labels.len() ==> #[trigger] labels[q] != c;
        assert(all[0] == p);
        if all.len() > 1 {
            assert(all[0] < all[1]);
            assert(labels[all[1]] == c);
        }
    }
}

/// The parts of a label, in other words.
pub proof fn lemma_said(e: Expr, shapes: Seq<Seq<TDim>>, c: char)
    requires
        e.inputs.len() >= 2,
        e.outputs.len() == 1,
        shapes.len() == e.inputs.len(),
        forall|s: int|
            0 <= s < shapes.len() ==> (#[trigger] shapes[s]).len() == e.inputs[s].len(),
    ensures
        is_k(e, shapes, c) <==> can_sum(e, shapes, c),
        is_side(e, shapes, 0, c) <==> can_span(e, shapes, 0, c),
        is_side(e, shapes, 1, c) <==> can_span(e, shapes, 1, c),
        blocks(e, shapes, c) <==> sticks_out(e, shapes, c),
        e.count_in(0, c) > 0 && dim_in(e, shapes, 0, c) != one() <==> is_wide(e, shapes, 0, c),
        e.count_in(1, c) > 0 && dim_in(e, shapes, 1, c) != one() <==> is_wide(e, shapes, 1, c),
{
    lemma_leads(e.inputs[0], c);
    lemma_leads(e.inputs[1], c);
    lemma_leads(e.outputs[0], c);
    lemma_wide(e, shapes, 0, c);
    lemma_wide(e, shapes, 1, c);
    if e.count_in(0, c) == 1 && e.count_in(1, c) == 1 {
        assert(leads(e.inputs[0], e.first_in(0, c), c));
        assert(leads(e.inputs[1], e.first_in(1, c), c));
    }
    if e.outputs[0].contains(c) {
        assert(leads(e.outputs[0], e.first_out(0, c), c));
        let d = extent(e.inputs, shapes, c, one());
        assert(e.outputs[0][e.first_out(0, c)] == c);
        assert(output_dims(e, shapes, one())[e.first_out(0, c)] == d);
        if d == one() {
            lemma_extent_one(e.inputs, shapes, c, one());
            assert(row_extent(e.inputs[0], shapes[0], c, one()) == one());
            assert(row_extent(e.inputs[1], shapes[1], c, one()) == one());
            assert(shapes[0].len() == e.inputs[0].len());
            assert(shapes[1].len() == e.inputs[1].len());
            lemma_row_extent_one(e.inputs[0], shapes[0], c, one());
            lemma_row_extent_one(e.inputs[1], shapes[1], c, one());
        }
    }
}

proof fn lemma_wide(e: Expr, shapes: Seq<Seq<TDim>>, slot: int, c: char)
    ensures
        e.count_in(slot, c) > 0 && dim_in(e, shapes, slot, c) != one() <==> is_wide(
            e,
            shapes,
            slot,
            c,
        ),
{
    lemma_leads(e.inputs[slot], c);
    if e.count_in(slot, c) > 0 {
        assert(leads(e.inputs[slot], e.first_in(slot, c), c));
    }
}

/// Whether an expression has two inputs at least and one output, and the shapes are those
/// of its inputs.
pub open spec fn fits(e: Expr, shapes: Seq<Seq<TDim>>) -> bool {
    &&& e.inputs.len() >= 2
    &&& e.outputs.len() == 1
    &&& shapes.len() == e.inputs.len()
    &&& forall|s: int|
        0 <= s < shapes.len() ==> (#[trigger] shapes[s]).len() == e.inputs[s].len()
}

/// A label that an input or the output has is one of the labels.
pub proof fn lemma_among(e: Expr, c: char)
    requires
        e.inputs.len() >= 2,
        e.outputs.len() == 1,
        e.inputs[0].contains(c) || e.inputs[1].contains(c) || e.outputs[0].contains(c),
    ensures
        e.labels().contains(c),
{
    lemma_has(e, c);
}

/// Labels are found where there are some.
pub proof fn lemma_there(e: Expr, shapes: Seq<Seq<TDim>>)
    requires
        fits(e, shapes),
    ensures
        k_labels(e, shapes).len() > 0 <==> has_sums(e, shapes),
        side_labels(e, shapes, 0).len() > 0 <==> has_spans(e, shapes, 0),
        side_labels(e, shapes, 1).len() > 0 <==> has_spans(e, shapes, 1),
        blocking_labels(e, shapes).len() > 0 <==> has_obstacle(e, shapes),
{
    let all = e.labels();
    let sums = |c: char| is_k(e, shapes, c);
    let stops = |c: char| blocks(e, shapes, c);
    if k_labels(e, shapes).len() > 0 {
        let c = k_labels(e, shapes)[0];
        lemma_filtered(all, sums, 0);
        lemma_said(e, shapes, c);
    }
    if has_sums(e, shapes) {
        let c = choose|c: char| #[trigger] can_sum(e, shapes, c);
        lemma_said(e, shapes, c);
        lemma_leads(e.inputs[0], c);
        lemma_among(e, c);
        lemma_filtered_none(all, sums, c);
    }
    if blocking_labels(e, shapes).len() > 0 {
        let c = blocking_labels(e, shapes)[0];
        lemma_filtered(all, stops, 0);
        lemma_said(e, shapes, c);
    }
    if has_obstacle(e, shapes) {
        let c = choose|c: char| #[trigger] sticks_out(e, shapes, c);
        lemma_said(e, shapes, c);
        lemma_leads(e.inputs[0], c);
        lemma_leads(e.inputs[1], c);
        lemma_among(e, c);
        lemma_filtered_none(all, stops, c);
    }
    lemma_spans_there(e, shapes, 0);
    lemma_spans_there(e, shapes, 1);
}

proof fn lemma_spans_there(e: Expr, shapes: Seq<Seq<TDim>>, own: int)
    requires
        fits(e, shapes),
        own == 0 || own == 1,
    ensures
        side_labels(e, shapes, own).len() > 0 <==> has_spans(e, shapes, own),
{
    let pred = |c: char| is_side(e, shapes, own, c);
    if side_labels(e, shapes, own).len() > 0 {
        let c = side_labels(e, shapes, own)[0];
        lemma_filtered(e.labels(), pred, 0);
        lemma_said(e, shapes, c);
        assert(can_span(e, shapes, own, c));
    }
    if has_spans(e, shapes, own) {
        let c = choose|c: char| #[trigger] can_span(e, shapes, own, c);
        lemma_said(e, shapes, c);
        lemma_leads(e.outputs[0], c);
        lemma_among(e, c);
        lemma_filtered_none(e.labels(), pred, c);
    }
}

/// A label that can be summed over, with a dimension other than one, is found as such.
pub proof fn lemma_wide_there(e: Expr, shapes: Seq<Seq<TDim>>, c: char)
    requires
        fits(e, shapes),
    ensures
        wide_k_labels(e, shapes).contains(c) <==> can_sum(e, shapes, c) && is_wide(
            e,
            shapes,
            0,
            c,
        ),
{
    let wide = |d: char| dim_in(e, shapes, 0, d) != one();
    let sums = |d: char| is_k(e, shapes, d);
    let ks = k_labels(e, shapes);
    lemma_said(e, shapes, c);
    if wide_k_labels(e, shapes).contains(c) {
        let i = choose|i: int|
            0 <= i < wide_k_labels(e, shapes).len() && wide_k_labels(e, shapes)[i] == c;
        lemma_filtered(ks, wide, i);
        let j = choose|j: int| 0 <= j < ks.len() && ks[j] == c;
        lemma_filtered(e.labels(), sums, j);
    }
    if can_sum(e, shapes, c) && is_wide(e, shapes, 0, c) {
        lemma_leads(e.inputs[0], c);
        lemma_among(e, c);
        lemma_filtered_none(e.labels(), sums, c);
        lemma_filtered_none(ks, wide, c);
    }
}

/// More than one label with a dimension other than one is found where two compete.
pub proof fn lemma_compete(e: Expr, shapes: Seq<Seq<TDim>>)
    requires
        fits(e, shapes),
    ensures
        wide_k_labels(e, shapes).len() > 1 <==> sums_compete(e, shapes),
{
    let all = wide_k_labels(e, shapes);
    lemma_distinct(joined(e.outputs) + joined(e.inputs));
    lemma_filter_distinct(e.labels(), |c: char| is_k(e, shapes, c));
    lemma_filter_distinct(k_labels(e, shapes), |c: char| dim_in(e, shapes, 0, c) != one());
    if all.len() > 1 {
        assert(all.contains(all[0]) && all.contains(all[1]));
        lemma_wide_there(e, shapes, all[0]);
        lemma_wide_there(e, shapes, all[1]);
        assert(all[0] != all[1]);
    }
    if sums_compete(e, shapes) {
        let (c, d) = choose|c: char, d: char|
            c != d && #[trigger] can_sum(e, shapes, c) && is_wide(e, shapes, 0, c)
                && #[trigger] can_sum(e, shapes, d) && is_wide(e, shapes, 0, d);
        lemma_wide_there(e, shapes, c);
        lemma_wide_there(e, shapes, d);
        let i = choose|i: int| 0 <= i < all.len() && all[i] == c;
        let j = choose|j: int| 0 <= j < all.len() && all[j] == d;
        assert(i != j);
    }
}

/// What the search for the axes of a matrix product comes to.
///
/// It fails for the sums if and only if two labels compete: each is once in each of the
/// first two inputs, with one dimension, which is not one, and not in the output.
/// Otherwise it finds the rows, the sums and the columns if and only if there are labels
/// for each, and none sticks out; and says that there is no matrix product if and only if
/// there are labels for each, but one sticks out. A patch comes only where there is no
/// label for one of the parts.
pub proof fn lemma_search(op: EinSumView, m: Model, id: int)
    requires
        m.wf(),
        0 <= id < m.nodes.len(),
        m.nodes[id].op == OpView::EinSum(op),
    ensures
        ({
            let e = op.axes;
            let shapes = input_shapes(m, m.nodes[id]);
            let r = mkn_step(op, m, id);
            let complete = has_sums(e, shapes) && has_spans(e, shapes, 0) && has_spans(
                e,
                shapes,
                1,
            );
            &&& r == Err::<Step, Error>(Error::MultipleK) <==> sums_compete(e, shapes)
            &&& (r matches Ok(Step::Annotated(_, _, _))) <==> !sums_compete(e, shapes) && complete
                && !has_obstacle(e, shapes)
            &&& (r matches Ok(Step::NotAMatMul(_))) <==> !sums_compete(e, shapes) && complete
                && has_obstacle(e, shapes)
            &&& (r matches Ok(Step::Patch(_))) ==> !sums_compete(e, shapes) && !complete
        }),
{
    reveal(mkn_step);
    let e = op.axes;
    let shapes = input_shapes(m, m.nodes[id]);
    lemma_node_fits(op, m, id);
    lemma_there(e, shapes);
    lemma_compete(e, shapes);
}

/// Distinct labels come in the order of their first axes.
pub proof fn lemma_distinct_order(labels: Seq<char>, i: int, j: int, p: int, q: int)
    requires
        0 <= i < j < distinct(labels).len(),
        leads(labels, p, distinct(labels)[i]),
        leads(labels, q, distinct(labels)[j]),
    ensures
        p < q,
    decreases labels.len(),
{
    let short = labels.drop_last();
    let before = distinct(short);
    lemma_distinct(short);
    assert(before.contains(before[i]));
    let u = choose|u: int| 0 <= u < short.len() && short[u] == before[i];
    assert(labels[u] == before[i]);
    assert(p <= u);
    assert forall|v: int| 0 <= v < p implies #[trigger] short[v] != before[i] by {
        assert(labels[v] == short[v]);
    }
    assert(leads(short, p, before[i]));
    if j < before.len() {
        assert(before.contains(before[j]));
        let w = choose|w: int| 0 <= w < short.len() && short[w] == before[j];
        assert(labels[w] == before[j]);
        assert(q <= w);
        assert forall|v: int| 0 <= v < q implies #[trigger] short[v] != before[j] by {
            assert(labels[v] == short[v]);
        }
        assert(leads(short, q, before[j]));
        lemma_distinct_order(short, i, j, p, q);
    } else {
        assert(distinct(labels)[j] == labels.last());
        if q < labels.len() - 1 {
            assert(short[q] == labels.last());
            assert(short.contains(labels.last()));
        }
    }
}

/// A filter keeps the order of labels.
proof fn lemma_filter_order(labels: Seq<char>, pred: spec_fn(char) -> bool, a: int, b: int) -> (at: (
    int,
    int,
))
    requires
        0 <= a < b < labels.filter(pred).len(),
    ensures
        0 <= at.0 < at.1 < labels.len(),
        labels[at.0] == labels.filter(pred)[a],
        labels[at.1] == labels.filter(pred)[b],
    decreases labels.len(),
{
    reveal(Seq::filter);
    let short = labels.drop_last();
    if b < short.filter(pred).len() {
        lemma_filter_order(short, pred, a, b)
    } else {
        lemma_filtered(short, pred, a);
        let i = choose|i: int| 0 <= i < short.len() && short[i] == short.filter(pred)[a];
        (i, labels.len() - 1)
    }
}

/// The last of the widest labels comes after the others that are as wide.
proof fn lemma_last_widest(e: Expr, shapes: Seq<Seq<TDim>>, labels: Seq<char>, j: int) -> (i: int)
    requires
        0 <= j < labels.len(),
    ensures
        0 <= i < labels.len(),
        labels[i] == widest(e, shapes, labels),
        width(e, shapes, labels[j]) <= width(e, shapes, labels[i]),
        width(e, shapes, labels[j]) == width(e, shapes, labels[i]) ==> j <= i,
    decreases labels.len(),
{
    if labels.len() == 1 {
        0
    } else {
        let short = labels.drop_last();
        let best = widest(e, shapes, short);
        if width(e, shapes, labels.last()) >= width(e, shapes, best) {
            if j < short.len() {
                let i = lemma_last_widest(e, shapes, short, j);
                assert(short[i] == labels[i]);
            }
            labels.len() - 1
        } else if j < short.len() {
            lemma_last_widest(e, shapes, short, j)
        } else {
            lemma_last_widest(e, shapes, short, 0)
        }
    }
}

/// Joined rows begin with the first two.
pub proof fn lemma_joined_starts(rows: Seq<Seq<char>>)
    requires
        rows.len() >= 2,
    ensures
        (rows[0] + rows[1]).len() <= joined(rows).len(),
        joined(rows).take((rows[0] + rows[1]).len() as int) == rows[0] + rows[1],
    decreases rows.len(),
{
    let short = rows.drop_last();
    if rows.len() > 2 {
        lemma_joined_starts(short);
        assert(joined(rows).take((rows[0] + rows[1]).len() as int) =~= joined(short).take(
            (rows[0] + rows[1]).len() as int,
        ));
    } else {
        reveal_with_fuel(joined, 3);
        assert(short.drop_last().len() == 0);
        assert(joined(rows) =~= rows[0] + rows[1]);
        assert(joined(rows).take((rows[0] + rows[1]).len() as int) =~= rows[0] + rows[1]);
    }
}

/// Labels of the output come in the order of their axes there.
proof fn lemma_output_order(e: Expr, i: int, j: int, p: int, q: int)
    requires
        e.outputs.len() == 1,
        0 <= i <= j < e.labels().len(),
        leads(e.outputs[0], p, e.labels()[i]),
        leads(e.outputs[0], q, e.labels()[j]),
    ensures
        p <= q,
{
    let all = joined(e.outputs) + joined(e.inputs);
    reveal_with_fuel(joined, 2);
    assert(joined(e.outputs) =~= e.outputs[0]);
    assert forall|v: int| 0 <= v < p implies #[trigger] all[v] != e.labels()[i] by {
        assert(e.outputs[0][v] == all[v]);
    }
    assert forall|v: int| 0 <= v < q implies #[trigger] all[v] != e.labels()[j] by {
        assert(e.outputs[0][v] == all[v]);
    }
    assert(leads(all, p, e.labels()[i]));
    assert(leads(all, q, e.labels()[j]));
    if i < j {
        lemma_distinct_order(all, i, j, p, q);
    }
}

/// A label that the output does not have has its first axis among those of the first two
/// inputs.
proof fn lemma_later(e: Expr, p: int, c: char)
    requires
        e.inputs.len() >= 2,
        e.outputs.len() == 1,
        !e.outputs[0].contains(c),
        leads(e.inputs[0] + e.inputs[1], p, c),
    ensures
        leads(joined(e.outputs) + joined(e.inputs), e.outputs[0].len() + p, c),
{
    let n = e.outputs[0].len() as int;
    let both = e.inputs[0] + e.inputs[1];
    let all = joined(e.outputs) + joined(e.inputs);
    reveal_with_fuel(joined, 2);
    assert(joined(e.outputs) =~= e.outputs[0]);
    lemma_joined_starts(e.inputs);
    let taken = joined(e.inputs).take(both.len() as int);
    assert(taken[p] == both[p]);
    assert forall|v: int| 0 <= v < n + p implies #[trigger] all[v] != c by {
        if v < n {
            assert(e.outputs[0][v] == all[v]);
        } else {
            assert(taken[v - n] == both[v - n]);
        }
    }
}

/// Labels that the output does not have come in the order of their axes in the first two
/// inputs.
pub proof fn lemma_input_order(e: Expr, i: int, j: int, p: int, q: int)
    requires
        e.inputs.len() >= 2,
        e.outputs.len() == 1,
        0 <= i <= j < e.labels().len(),
        !e.outputs[0].contains(e.labels()[i]),
        !e.outputs[0].contains(e.labels()[j]),
        leads(e.inputs[0] + e.inputs[1], p, e.labels()[i]),
        leads(e.inputs[0] + e.inputs[1], q, e.labels()[j]),
    ensures
        p <= q,
{
    lemma_later(e, p, e.labels()[i]);
    lemma_later(e, q, e.labels()[j]);
    if i < j {
        lemma_distinct_order(
            joined(e.outputs) + joined(e.inputs),
            i,
            j,
            e.outputs[0].len() + p,
            e.outputs[0].len() + q,
        );
    } else {
        assert(p == q);
    }
}

/// What comes first of a filter comes first of all that passes it.
pub proof fn lemma_first_first(labels: Seq<char>, pred: spec_fn(char) -> bool, d: char) -> (at: (
    int,
    int,
))
    requires
        labels.contains(d),
        pred(d),
    ensures
        labels.filter(pred).len() > 0,
        0 <= at.0 <= at.1 < labels.len(),
        labels[at.0] == labels.filter(pred)[0],
        labels[at.1] == d,
{
    let some = labels.filter(pred);
    lemma_filtered_none(labels, pred, d);
    let b = choose|b: int| 0 <= b < some.len() && some[b] == d;
    if b == 0 {
        let i = choose|i: int| 0 <= i < labels.len() && labels[i] == d;
        (i, i)
    } else {
        lemma_filter_order(labels, pred, 0, b)
    }
}

/// Whether a label is the widest in the output of those that can be that of the rows, or
/// of the columns, and the last of these.
pub open spec fn is_widest(
    e: Expr,
    shapes: Seq<Seq<TDim>>,
    output: Seq<TDim>,
    own: int,
    c: char,
) -> bool {
    forall|d: char, p: int, q: int| #[trigger]
        leads(e.outputs[0], p, d) && #[trigger] leads(e.outputs[0], q, c) && can_span(
            e,
            shapes,
            own,
            d,
        ) ==> at_most(output[p], output[q]) && (at_most(output[q], output[p]) ==> p <= q)
}

/// Whether a label is the first in the first input of those that can be summed over.
pub open spec fn is_first_sum(e: Expr, shapes: Seq<Seq<TDim>>, c: char) -> bool {
    forall|d: char, p: int, q: int| #[trigger]
        leads(e.inputs[0], p, c) && #[trigger] leads(e.inputs[0], q, d) && can_sum(e, shapes, d)
            ==> p <= q
}

/// The label for the rows, or for the columns, is the last of the widest.
pub proof fn lemma_widest_chosen(op: EinSumView, m: Model, id: int, own: int)
    requires
        m.wf(),
        0 <= id < m.nodes.len(),
        m.nodes[id].op == OpView::EinSum(op),
        own == 0 || own == 1,
        side_labels(op.axes, input_shapes(m, m.nodes[id]), own).len() > 0,
    ensures
        ({
            let e = op.axes;
            let shapes = input_shapes(m, m.nodes[id]);
            let c = widest(e, shapes, side_labels(e, shapes, own));
            spans_along(e, shapes, m.nodes[id].outputs[0].shape, own, c)
        }),
{
    let e = op.axes;
    let shapes = input_shapes(m, m.nodes[id]);
    let facts = facts_of(m.nodes, m.nodes[id].inputs);
    let output = m.nodes[id].outputs[0].shape;
    let sides = side_labels(e, shapes, own);
    let pred = |l: char| is_side(e, shapes, own, l);
    let c = widest(e, shapes, sides);
    lemma_node_fits(op, m, id);
    lemma_side_label(e, shapes, own);
    lemma_said(e, shapes, c);
    assert forall|d: char, p: int, q: int| #[trigger]
        leads(e.outputs[0], p, d) && #[trigger] leads(e.outputs[0], q, c) && can_span(
            e,
            shapes,
            own,
            d,
        ) implies at_most(output[p], output[q]) && (at_most(output[q], output[p]) ==> p <= q) by {
        lemma_said(e, shapes, d);
        lemma_leads(e.outputs[0], c);
        lemma_leads(e.outputs[0], d);
        lemma_among(e, d);
        lemma_filtered_none(e.labels(), pred, d);
        let j = choose|j: int| 0 <= j < sides.len() && sides[j] == d;
        let i = lemma_last_widest(e, shapes, sides, j);
        assert(output =~= output_dims(e, shapes, one()));
        if width(e, shapes, d) == width(e, shapes, c) {
            if j < i {
                let (a, b) = lemma_filter_order(e.labels(), pred, j, i);
                lemma_output_order(e, a, b, p, q);
            }
        }
    }
}

/// An einsum of a model has the ranks that its labels say.
pub proof fn lemma_node_fits(op: EinSumView, m: Model, id: int)
    requires
        m.wf(),
        0 <= id < m.nodes.len(),
        m.nodes[id].op == OpView::EinSum(op),
    ensures
        ({
            let shapes = input_shapes(m, m.nodes[id]);
            &&& fits(op.axes, shapes)
            &&& m.nodes[id].outputs.len() == 1
            &&& m.nodes[id].outputs[0].shape == output_dims(op.axes, shapes, one())
            &&& ranks_suit(op.axes, facts_of(m.nodes, m.nodes[id].inputs))
        }),
{
    let shapes = input_shapes(m, m.nodes[id]);
    let facts = facts_of(m.nodes, m.nodes[id].inputs);
    assert(node_wf(m.nodes, id));
    assert forall|s: int| 0 <= s < shapes.len() implies (#[trigger] shapes[s]).len()
        == op.axes.inputs[s].len() by {
        assert(facts[s].shape == shapes[s]);
    }
}

/// Whether a label is that of the sums: it can be summed over; it is the one of those
/// with a dimension other than one, if there is one, and else the first in the first
/// input.
pub open spec fn sums_along(e: Expr, shapes: Seq<Seq<TDim>>, k: char) -> bool {
    &&& can_sum(e, shapes, k)
    &&& forall|c: char| #[trigger] can_sum(e, shapes, c) && is_wide(e, shapes, 0, c) ==> c == k
    &&& !is_wide(e, shapes, 0, k) ==> is_first_sum(e, shapes, k)
}

/// Whether a label is that of the rows, or of the columns: of those that can be, the
/// widest in the output, and of these the last.
pub open spec fn spans_along(
    e: Expr,
    shapes: Seq<Seq<TDim>>,
    output: Seq<TDim>,
    own: int,
    c: char,
) -> bool {
    &&& can_span(e, shapes, own, c)
    &&& is_widest(e, shapes, output, own, c)
}

/// The label of the sums is found.
pub proof fn lemma_sum_chosen(e: Expr, shapes: Seq<Seq<TDim>>)
    requires
        fits(e, shapes),
        k_labels(e, shapes).len() > 0,
        wide_k_labels(e, shapes).len() <= 1,
    ensures
        sums_along(e, shapes, k_label(e, shapes)),
{
    let k = k_label(e, shapes);
    let sums = |c: char| is_k(e, shapes, c);
    lemma_k_label(e, shapes);
    lemma_said(e, shapes, k);
    assert forall|c: char| #[trigger] can_sum(e, shapes, c) && is_wide(e, shapes, 0, c) implies c
        == k by {
        lemma_wide_there(e, shapes, c);
    }
    if !is_wide(e, shapes, 0, k) {
        let wide = wide_k_labels(e, shapes);
        if wide.len() > 0 {
            assert(wide.contains(wide[0]));
            lemma_wide_there(e, shapes, wide[0]);
        }
        assert(k == k_labels(e, shapes)[0]);
        assert forall|d: char, p: int, q: int| #[trigger]
            leads(e.inputs[0], p, k) && #[trigger] leads(e.inputs[0], q, d) && can_sum(
                e,
                shapes,
                d,
            ) implies p <= q by {
            lemma_said(e, shapes, d);
            lemma_leads(e.inputs[0], d);
            lemma_among(e, d);
            let (i, j) = lemma_first_first(e.labels(), sums, d);
            let both = e.inputs[0] + e.inputs[1];
            assert forall|v: int| 0 <= v < p implies #[trigger] both[v] != k by {
                assert(e.inputs[0][v] == both[v]);
            }
            assert forall|v: int| 0 <= v < q implies #[trigger] both[v] != d by {
                assert(e.inputs[0][v] == both[v]);
            }
            assert(leads(both, p, k) && leads(both, q, d));
            lemma_input_order(e, i, j, p, q);
        }
    }
}

/// Which rows, sums and columns are found. The sums are the label with a dimension other
/// than one that can be summed over, if there is one, and else the first in the first
/// input. The rows and the columns are the widest in the output, and of these the last.
pub proof fn lemma_chosen(op: EinSumView, m: Model, id: int, rows: char, k: char, columns: char)
    requires
        m.wf(),
        0 <= id < m.nodes.len(),
        m.nodes[id].op == OpView::EinSum(op),
        mkn_step(op, m, id) == Ok::<Step, Error>(Step::Annotated(rows, k, columns)),
    ensures
        ({
            let e = op.axes;
            let shapes = input_shapes(m, m.nodes[id]);
            let output = m.nodes[id].outputs[0].shape;
            &&& sums_along(e, shapes, k)
            &&& spans_along(e, shapes, output, 0, rows)
            &&& spans_along(e, shapes, output, 1, columns)
        }),
{
    reveal(mkn_step);
    lemma_node_fits(op, m, id);
    lemma_widest_chosen(op, m, id, 0);
    lemma_widest_chosen(op, m, id, 1);
    lemma_sum_chosen(op.axes, input_shapes(m, m.nodes[id]));
}

/// The axis that keeps an einsum from being a matrix product is the first that sticks out.
pub proof fn lemma_first_obstacle(op: EinSumView, m: Model, id: int, c: char)
    requires
        m.wf(),
        0 <= id < m.nodes.len(),
        m.nodes[id].op == OpView::EinSum(op),
        mkn_step(op, m, id) == Ok::<Step, Error>(Step::NotAMatMul(c)),
    ensures
        ({
            let e = op.axes;
            let shapes = input_shapes(m, m.nodes[id]);
            let both = e.inputs[0] + e.inputs[1];
            &&& sticks_out(e, shapes, c)
            &&& forall|d: char, p: int, q: int| #[trigger]
                leads(both, p, c) && #[trigger] leads(both, q, d) && sticks_out(e, shapes, d)
                    ==> p <= q
        }),
{
    reveal(mkn_step);
    let e = op.axes;
    let shapes = input_shapes(m, m.nodes[id]);
    let both = e.inputs[0] + e.inputs[1];
    let pred = |l: char| blocks(e, shapes, l);
    lemma_node_fits(op, m, id);
    lemma_filtered(e.labels(), pred, 0);
    lemma_said(e, shapes, c);
    assert forall|d: char, p: int, q: int| #[trigger]
        leads(both, p, c) && #[trigger] leads(both, q, d) && sticks_out(
            e,
            shapes,
            d,
        ) implies p <= q by {
        lemma_said(e, shapes, d);
        lemma_leads(e.inputs[0], d);
        lemma_leads(e.inputs[1], d);
        lemma_among(e, d);
        let (i, j) = lemma_first_first(e.labels(), pred, d);
        lemma_input_order(e, i, j, p, q);
    }
}

/// An einsum is left as it is if and only if it has other than two inputs, or nine if it
/// is quantized, or its rows, sums and columns are there, but a label has a dimension
/// other than one in exactly one of the operands, and is not in the output.
pub proof fn lemma_left_alone(
    op: EinSumView,
    m: Model,
    id: int,
    packers: (u64, u64),
    kernel: (u64, u64),
)
    requires
        m.wf(),
        0 <= id < m.nodes.len(),
        m.nodes[id].op == OpView::EinSum(op),
    ensures
        ({
            let e = op.axes;
            let n = m.nodes[id].inputs.len();
            let shapes = input_shapes(m, m.nodes[id]);
            optimization(op, m, id, packers, kernel) == Ok::<Option<Patch>, Error>(None) <==> (
            op.q_params is None && n != 2) || (op.q_params is Some && n != 9) || (
            !sums_compete(e, shapes) && has_sums(e, shapes) && has_spans(e, shapes, 0)
                && has_spans(e, shapes, 1) && has_obstacle(e, shapes))
        }),
{
    lemma_search(op, m, id);
}

/// Of an einsum of two inputs, or of nine if it is quantized, the next rewrite is the patch
/// that the search for its axes gives, if it gives one; and where the search fails, so does
/// the optimization.
pub proof fn lemma_axes_first(
    op: EinSumView,
    m: Model,
    id: int,
    packers: (u64, u64),
    kernel: (u64, u64),
)
    requires
        m.nodes[id].inputs.len() == if op.q_params is None {
            2nat
        } else {
            9
        },
    ensures
        mkn_step(op, m, id) matches Ok(Step::Patch(p)) ==> optimization(op, m, id, packers, kernel)
            == Ok::<Option<Patch>, Error>(Some(p)),
        mkn_step(op, m, id) matches Err(err) ==> optimization(op, m, id, packers, kernel) == Err::<
            Option<Patch>,
            Error,
        >(err),
{
}

/// Whether the rows, the sums and the columns of an einsum are told with their axes: where
/// each is in the inputs and the output that have it, and its dimension.
pub open spec fn is_read_off(
    a: EinSumAnnotatedAsMatMul<'_>,
    e: Expr,
    shapes: Seq<Seq<TDim>>,
) -> bool {
    let (m, k, n) = (a.m_axis, a.k_axis, a.n_axis);
    &&& m.inputs@[0]@.len() == 1 && leads(e.inputs[0], m.inputs@[0]@[0] as int, m.repr)
    &&& m.outputs@[0]@.len() == 1 && leads(e.outputs[0], m.outputs@[0]@[0] as int, m.repr)
    &&& k.inputs@[0]@.len() == 1 && leads(e.inputs[0], k.inputs@[0]@[0] as int, k.repr)
    &&& k.inputs@[1]@.len() == 1 && leads(e.inputs[1], k.inputs@[1]@[0] as int, k.repr)
    &&& n.inputs@[1]@.len() == 1 && leads(e.inputs[1], n.inputs@[1]@[0] as int, n.repr)
    &&& n.outputs@[0]@.len() == 1 && leads(e.outputs[0], n.outputs@[0]@[0] as int, n.repr)
    &&& a.m == shapes[0][m.inputs@[0]@[0] as int]
    &&& a.k == shapes[0][k.inputs@[0]@[0] as int]
    &&& a.n == shapes[1][n.inputs@[1]@[0] as int]
}

/// The axes that an annotation tells are those of its labels.
pub proof fn lemma_read_off(
    a: EinSumAnnotatedAsMatMul<'_>,
    op: EinSumView,
    shapes: Seq<Seq<TDim>>,
)
    requires
        op.wf(),
        a.annotates(op, shapes, a.m_axis.repr, a.k_axis.repr, a.n_axis.repr),
    ensures
        is_read_off(a, op.axes, shapes),
{
    let e = op.axes;
    lemma_axis(e, a.m_axis);
    lemma_axis(e, a.k_axis);
    lemma_axis(e, a.n_axis);
    assert(a.m_axis.inputs@[0]@.len() == e.count_in(0, a.m_axis.repr));
    assert(a.m_axis.outputs@[0]@.len() == e.count_out(0, a.m_axis.repr));
    assert(a.k_axis.inputs@[0]@.len() == e.count_in(0, a.k_axis.repr));
    assert(a.k_axis.inputs@[1]@.len() == e.count_in(1, a.k_axis.repr));
    assert(a.n_axis.inputs@[1]@.len() == e.count_in(1, a.n_axis.repr));
    assert(a.n_axis.outputs@[0]@.len() == e.count_out(0, a.n_axis.repr));
    lemma_leads(e.inputs[0], a.m_axis.repr);
    lemma_leads(e.outputs[0], a.m_axis.repr);
    lemma_leads(e.inputs[0], a.k_axis.repr);
    lemma_leads(e.inputs[1], a.k_axis.repr);
    lemma_leads(e.inputs[1], a.n_axis.repr);
    lemma_leads(e.outputs[0], a.n_axis.repr);
}

} // verus!
