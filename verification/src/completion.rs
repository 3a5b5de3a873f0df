//! What an einsum gets that lacks an axis of a matrix product: when it gets one, which,
//! and where; in terms of its labels, its shapes, and the nodes of the rewritten model.

use vstd::prelude::*;

use crate::dim::TDim;
use crate::error::Error;
use crate::labels::{Expr, joined, lemma_has};
use crate::meaning::{lemma_extent_one, lemma_extent_rows};
use crate::model::{Model, Outlet, facts_of, node_wf};
use crate::ops::{AxisOp, EinSumView, Fact, OpView, SimpleOp, fact_shapes, ranks_suit};
use crate::optimize::{
    Step, both_patch, inject_k, inject_side, input_patch, input_shapes, is_quasi_side, k_patch,
    lemma_quasi_side, mkn_step, output_patch, quasi_sides,
};
use crate::patch::{Patch, WireView, lemma_wire_facts, ref_facts, wire_facts};
use crate::preserve::{
    Layout, adds_front, adds_fronts, is_wired, lemma_both_layout, lemma_input_layout,
    lemma_k_layout, lemma_output_layout,
};
use crate::product::{
    extent, grows, lemma_row_extent_found, lemma_row_extent_front, lemma_row_extent_one, row_extent,
    with_front,
};
use crate::progress::{lemma_fronts_shapes, shapes_front};
use crate::roles::{k_label, lemma_filtered, lemma_filtered_none, one, side_labels, widest};
use crate::search::{
    can_sum, fits, has_spans, has_sums, is_wide, leads, lemma_among, lemma_compete,
    lemma_distinct_order, lemma_first_first, lemma_joined_starts, lemma_leads, lemma_node_fits,
    lemma_said, lemma_sum_chosen, lemma_there, lemma_widest_chosen, once, spans_along, sums_along,
    sums_compete,
};
use crate::vectors::{fact_front, lemma_wire_push};

verus! {

/// Facts, the first two with leading axes of dimension one as far as asked for.
spec fn facts_grown(facts: Seq<Fact>, i0: bool, i1: bool) -> Seq<Fact> {
    Seq::new(
        facts.len(),
        |t: int|
            if grows(t, i0, i1) {
                fact_front(facts[t])
            } else {
                facts[t]
            },
    )
}

/// Leading axes of dimension one leave the extents.
proof fn lemma_grown_extent(
    e: Expr,
    shapes: Seq<Seq<TDim>>,
    c: char,
    i0: bool,
    i1: bool,
    o: bool,
    l: char,
)
    requires
        shapes.len() == e.inputs.len(),
        forall|s: int|
            0 <= s < shapes.len() ==> (#[trigger] shapes[s]).len() == e.inputs[s].len(),
    ensures
        extent(with_front(e, c, i0, i1, o).inputs, shapes_front(shapes, i0, i1), l, one())
            == extent(e.inputs, shapes, l, one()),
{
    let f = with_front(e, c, i0, i1, o);
    let s = shapes_front(shapes, i0, i1);
    assert forall|t: int| 0 <= t < f.inputs.len() implies row_extent(
        #[trigger] f.inputs[t],
        s[t],
        l,
        one(),
    ) == row_extent(e.inputs[t], shapes[t], l, one()) by {
        assert(shapes[t].len() == e.inputs[t].len());
        lemma_row_extent_front(e.inputs[t], shapes[t], l, c, one());
    }
    lemma_extent_rows(f.inputs, s, e.inputs, shapes, l, one());
}

/// The fact of an einsum with leading axes.
proof fn lemma_grown_fact(op: EinSumView, facts: Seq<Fact>, c: char, i0: bool, i1: bool, o: bool)
    requires
        op.axes.outputs.len() == 1,
        ranks_suit(op.axes, facts),
    ensures
        ({
            let fact = op.output_fact(facts);
            let d = extent(op.axes.inputs, fact_shapes(facts), c, one());
            OpView::EinSum(op.over(with_front(op.axes, c, i0, i1, o))).facts(
                facts_grown(facts, i0, i1),
            ) == Some(
                seq![
                    if o {
                        Fact { shape: fact.shape.insert(0, d), ..fact }
                    } else {
                        fact
                    },
                ],
            )
        }),
{
    let e = op.axes;
    let f = with_front(e, c, i0, i1, o);
    let shapes = fact_shapes(facts);
    let given = facts_grown(facts, i0, i1);
    let fact = op.output_fact(facts);
    let now = op.over(f).output_fact(given);
    assert(fact_shapes(given) =~= shapes_front(shapes, i0, i1));
    assert forall|t: int| 0 <= t < given.len() implies (#[trigger] given[t]).shape.len()
        == f.inputs[t].len() by {
        assert(facts[t].shape.len() == e.inputs[t].len());
    }
    assert forall|t: int| 0 <= t < shapes.len() implies (#[trigger] shapes[t]).len()
        == e.inputs[t].len() by {
        assert(facts[t].shape.len() == e.inputs[t].len());
    }
    lemma_grown_extent(e, shapes, c, i0, i1, o, c);
    assert forall|p: int| 0 <= p < e.outputs[0].len() implies #[trigger] fact.shape[p] == extent(
        f.inputs,
        shapes_front(shapes, i0, i1),
        e.outputs[0][p],
        one(),
    ) by {
        lemma_grown_extent(e, shapes, c, i0, i1, o, e.outputs[0][p]);
    }
    let d = extent(e.inputs, shapes, c, one());
    if o {
        assert(now.shape =~= fact.shape.insert(0, d));
    } else {
        assert(now.shape =~= fact.shape);
    }
}

/// The operators before the einsum of a patch that gives it leading axes.
spec fn only_adds(p: Patch, i0: bool, i1: bool, at: Layout) -> bool {
    ||| at.j == 0 && !i0 && !i1
    ||| at.j == 1 && i0 != i1 && at.w0 == 0 && at.w1 == 0
    ||| at.j == 2 && i0 && i1 && at.w0 == 0 && at.w1 == 1
}

/// A patch that gives an einsum leading axes has no fault, if the axis of the output that
/// it takes away again has the dimension one.
proof fn lemma_fronts_fault(
    m: Model,
    p: Patch,
    c: char,
    i0: bool,
    i1: bool,
    o: bool,
    at: Layout,
)
    requires
        m.wf(),
        0 <= p.node < m.nodes.len(),
        is_wired(m, p.node),
        adds_fronts(m, p, c, i0, i1, o, at),
        only_adds(p, i0, i1, at),
        o ==> extent(
            (m.nodes[p.node].op->EinSum_0).axes.inputs,
            input_shapes(m, m.nodes[p.node]),
            c,
            one(),
        ) == one(),
    ensures
        p.fault(m) is None,
{
    let node = m.nodes[p.node];
    let op = node.op->EinSum_0;
    let e = op.axes;
    let facts = facts_of(m.nodes, node.inputs);
    let none = Seq::<WireView>::empty();
    let f0 = Seq::<Seq<Fact>>::empty();
    assert(node_wf(m.nodes, p.node));
    lemma_grown_fact(op, facts, c, i0, i1, o);
    let fact = op.output_fact(facts);
    let d = extent(e.inputs, fact_shapes(facts), c, one());
    let made = seq![
        if o {
            Fact { shape: fact.shape.insert(0, d), ..fact }
        } else {
            fact
        },
    ];
    let j = at.j as int;
    let (w, f) = lemma_adds_facts(m, p, c, i0, i1, o, at);
    assert(ref_facts(facts, f, p.wires[j].inputs) =~= facts_grown(facts, i0, i1));
    lemma_wire_push(facts, w, p.wires[j], f, made);
    let w1 = w.push(p.wires[j]);
    let f1 = f.push(made);
    if o {
        let last = p.wires[j + 1];
        assert(ref_facts(facts, f1, last.inputs)[0] == made[0]);
        assert(made[0].shape.remove(0) =~= fact.shape);
        let end = seq![Fact { shape: made[0].shape.remove(0), ..made[0] }];
        assert(last.op.facts(ref_facts(facts, f1, last.inputs)) == Some(end));
        lemma_wire_push(facts, w1, last, f1, end);
        assert(w1.push(last) =~= p.wires);
    } else {
        assert(w1 =~= p.wires);
    }
}

/// The facts of the operators before the einsum.
proof fn lemma_adds_facts(
    m: Model,
    p: Patch,
    c: char,
    i0: bool,
    i1: bool,
    o: bool,
    at: Layout,
) -> (r: (Seq<WireView>, Seq<Seq<Fact>>))
    requires
        m.wf(),
        is_wired(m, p.node),
        adds_fronts(m, p, c, i0, i1, o, at),
        only_adds(p, i0, i1, at),
    ensures
        ({
            let facts = facts_of(m.nodes, m.nodes[p.node].inputs);
            &&& r.0 == p.wires.take(at.j as int)
            &&& wire_facts(facts, r.0) == Some(r.1)
            &&& r.1.len() == at.j
            &&& i0 ==> r.1[at.w0 as int] == seq![fact_front(facts[0])]
            &&& i1 ==> r.1[at.w1 as int] == seq![fact_front(facts[1])]
        }),
{
    let facts = facts_of(m.nodes, m.nodes[p.node].inputs);
    let none = Seq::<WireView>::empty();
    let f0 = Seq::<Seq<Fact>>::empty();
    if at.j == 0 {
        assert(p.wires.take(0) =~= none);
        (none, f0)
    } else {
        let t: int = if i0 {
            0
        } else {
            1
        };
        let a = seq![fact_front(facts[t])];
        assert(ref_facts(facts, f0, p.wires[0].inputs)[0] == facts[t]);
        lemma_wire_push(facts, none, p.wires[0], f0, a);
        let w1 = none.push(p.wires[0]);
        let f1 = f0.push(a);
        if at.j == 1 {
            assert(w1 =~= p.wires.take(1));
            (w1, f1)
        } else {
            let b = seq![fact_front(facts[1])];
            assert(ref_facts(facts, f1, p.wires[1].inputs)[0] == facts[1]);
            lemma_wire_push(facts, w1, p.wires[1], f1, b);
            assert(w1.push(p.wires[1]) =~= p.wires.take(2));
            (w1.push(p.wires[1]), f1.push(b))
        }
    }
}

/// Labels with another in front, if asked for.
pub open spec fn led_by(labels: Seq<char>, add: bool, c: char) -> Seq<char> {
    if add {
        seq![c] + labels
    } else {
        labels
    }
}

/// Whether a node of another model is an einsum, with the label `c` on a new first axis of
/// dimension one of the first input, of the second, and of the output, as far as said.
pub open spec fn is_grown(
    m: Model,
    id: int,
    made: Model,
    j: int,
    c: char,
    i0: bool,
    i1: bool,
    o: bool,
) -> bool {
    let node = m.nodes[id];
    let op = node.op->EinSum_0;
    let new = made.nodes[j];
    &&& new.inputs.len() == node.inputs.len()
    &&& new.op matches OpView::EinSum(f)
    &&& f.operating_dt == op.operating_dt
    &&& f.q_params == op.q_params
    &&& f.axes.inputs.len() == op.axes.inputs.len()
    &&& f.axes.outputs == seq![led_by(op.axes.outputs[0], o, c)]
    &&& forall|t: int|
        0 <= t < op.axes.inputs.len() ==> {
            let add = (t == 0 && i0) || (t == 1 && i1);
            let shape = facts_of(m.nodes, node.inputs)[t].shape;
            &&& #[trigger] f.axes.inputs[t] == led_by(op.axes.inputs[t], add, c)
            &&& facts_of(made.nodes, new.inputs)[t].shape == if add {
                seq![TDim::Val(1)] + shape
            } else {
                shape
            }
        }
}

/// Whether a patch puts such an einsum in the place of another; and takes a new first axis
/// of the output away again. What takes the place has the name and the output of the
/// einsum.
pub open spec fn gives_axis(
    m: Model,
    id: int,
    p: Patch,
    c: char,
    i0: bool,
    i1: bool,
    o: bool,
) -> bool {
    let node = m.nodes[id];
    let made = p.applied(m);
    let by = p.resolve(p.by);
    let last = made.nodes[by.node];
    &&& by.slot == 0
    &&& last.name == node.name
    &&& last.outputs == node.outputs
    &&& if o {
        &&& last.op == OpView::Simple(SimpleOp::AxisOp(AxisOp::Rm(0)))
        &&& last.inputs.len() == 1
        &&& last.inputs[0].slot == 0
        &&& is_grown(m, id, made, last.inputs[0].node, c, i0, i1, o)
    } else {
        is_grown(m, id, made, by.node, c, i0, i1, o)
    }
}

/// A patch that gives an einsum leading axes, by the nodes of the rewritten model.
proof fn lemma_gives_axis(
    m: Model,
    p: Patch,
    c: char,
    i0: bool,
    i1: bool,
    o: bool,
    at: Layout,
)
    requires
        m.wf(),
        0 <= p.node < m.nodes.len(),
        is_wired(m, p.node),
        adds_fronts(m, p, c, i0, i1, o, at),
        only_adds(p, i0, i1, at),
        p.fault(m) is None,
        p.aims_at(m),
        p.wires[p.wires.len() - 1].name == m.nodes[p.node].name,
    ensures
        gives_axis(m, p.node, p, c, i0, i1, o),
{
    let node = m.nodes[p.node];
    let op = node.op->EinSum_0;
    let e = op.axes;
    let id = p.node;
    let made = p.applied(m);
    let facts = facts_of(m.nodes, node.inputs);
    let j = at.j as int;
    let new = made.nodes[id + j];
    assert(node_wf(m.nodes, id));
    lemma_wire_facts(facts, p.wires, p.wires.len() as int);
    lemma_fronts_shapes(m, p, c, i0, i1, o, at);
    let f = with_front(e, c, i0, i1, o);
    assert(new == p.wire_nodes(m)[j]);
    assert(f.outputs =~= seq![led_by(e.outputs[0], o, c)]) by {
        assert(e.outputs[0].insert(0, c) =~= seq![c] + e.outputs[0]);
    }
    assert forall|t: int| 0 <= t < e.inputs.len() implies #[trigger] f.inputs[t] == led_by(
        e.inputs[t],
        (t == 0 && i0) || (t == 1 && i1),
        c,
    ) && facts_of(made.nodes, new.inputs)[t].shape == (if (t == 0 && i0) || (t == 1 && i1) {
        seq![TDim::Val(1)] + facts[t].shape
    } else {
        facts[t].shape
    }) by {
        assert(e.inputs[t].insert(0, c) =~= seq![c] + e.inputs[t]);
        assert(facts[t].shape.insert(0, one()) =~= seq![TDim::Val(1)] + facts[t].shape);
        assert(input_shapes(made, new)[t] == facts_of(made.nodes, new.inputs)[t].shape);
        assert(input_shapes(m, node)[t] == facts[t].shape);
    }
    assert(is_grown(m, id, made, id + j, c, i0, i1, o));
    let w = p.wires.len() - 1;
    let last = made.nodes[id + w];
    assert(last == p.wire_nodes(m)[w]);
    assert(p.resolve(p.by) == Outlet { node: id + w, slot: 0 });
    lemma_wire_facts(facts, p.wires, w);
    assert(last.outputs.len() == 1 && last.outputs[0] == node.outputs[0]);
    assert(last.outputs =~= node.outputs);
    if o {
        assert(last.inputs =~= seq![Outlet { node: id + j, slot: 0 }]);
    }
}

/// Whether a slot has a label.
pub open spec fn is_used(e: Expr, c: char) -> bool {
    ||| exists|s: int| 0 <= s < e.inputs.len() && (#[trigger] e.inputs[s]).contains(c)
    ||| exists|s: int| 0 <= s < e.outputs.len() && (#[trigger] e.outputs[s]).contains(c)
}

/// Whether a label is the first from `a` on that no slot has.
pub open spec fn is_new(e: Expr, c: char) -> bool {
    &&& 'a' as int <= c as int
    &&& !is_used(e, c)
    &&& forall|d: char| 'a' as int <= d as int && (d as int) < (c as int) ==> #[trigger] is_used(
        e,
        d,
    )
}

proof fn lemma_new(e: Expr)
    ensures
        match e.free_label() {
            Some(c) => is_new(e, c),
            None => forall|c: char| !is_new(e, c),
        },
{
    assert forall|c: char| #[trigger] is_used(e, c) <==> e.has(c) by {
        lemma_has(e, c);
    }
    match e.free_label() {
        Some(c) => {
            let d = choose|d: char| #[trigger] e.first_free(d);
            assert(e.first_free(d));
            assert forall|x: char| 'a' as int <= x as int && (x as int) < (c as int) implies
                #[trigger] is_used(e, x) by {
                assert(e.has(x));
            }
        },
        None => {
            assert forall|c: char| !is_new(e, c) by {
                if is_new(e, c) {
                    assert forall|x: char| 'a' as int <= x as int && (x as int) < (c as int) implies
                        #[trigger] e.has(x) by {
                        assert(is_used(e, x));
                    }
                    assert(e.first_free(c));
                }
            }
        },
    }
}

/// What an einsum gets to sum over: a new label, in front of its first two inputs, with the
/// dimension one. This fails only if there is no new label.
pub open spec fn adds_sum(m: Model, id: int, r: Result<Patch, Error>) -> bool {
    let e = (m.nodes[id].op->EinSum_0).axes;
    match r {
        Ok(p) => exists|c: char| #[trigger]
            is_new(e, c) && gives_axis(m, id, p, c, true, true, false),
        Err(err) => err == Error::NoLabelLeft && forall|c: char| !is_new(e, c),
    }
}

/// What the patch for the sums comes to, whether or not there are sums already.
pub proof fn lemma_adds_sum(op: EinSumView, m: Model, id: int)
    requires
        m.wf(),
        0 <= id < m.nodes.len(),
        m.nodes[id].op == OpView::EinSum(op),
        m.nodes[id].inputs.len() <= usize::MAX,
    ensures
        adds_sum(m, id, inject_k(op, m, id)),
{
    let node = m.nodes[id];
    assert(node_wf(m.nodes, id));
    lemma_node_fits(op, m, id);
    lemma_new(op.axes);
    match op.axes.free_label() {
        Some(c) => {
            let p = k_patch(op, node, id, c);
            let at = Layout { w0: 0, w1: 1, j: 2 };
            lemma_k_layout(m, id, c);
            lemma_fronts_fault(m, p, c, true, true, false, at);
            assert(p.wires[2].op.wf());
            assert(p.aims_at(m));
            lemma_gives_axis(m, p, c, true, true, false, at);
        },
        None => {},
    }
}

/// An einsum that no label can be summed over gets a new one, in front of its first two
/// inputs, with the dimension one; unless there is no new label.
pub proof fn lemma_sums_added(op: EinSumView, m: Model, id: int)
    requires
        m.wf(),
        0 <= id < m.nodes.len(),
        m.nodes[id].op == OpView::EinSum(op),
        m.nodes[id].inputs.len() <= usize::MAX,
        !has_sums(op.axes, input_shapes(m, m.nodes[id])),
    ensures
        match mkn_step(op, m, id) {
            Ok(Step::Patch(p)) => exists|c: char| #[trigger]
                is_new(op.axes, c) && gives_axis(m, id, p, c, true, true, false),
            Ok(_) => false,
            Err(err) => err == Error::NoLabelLeft && forall|c: char| !is_new(op.axes, c),
        },
{
    reveal(mkn_step);
    let e = op.axes;
    let node = m.nodes[id];
    let shapes = input_shapes(m, node);
    assert(node_wf(m.nodes, id));
    lemma_node_fits(op, m, id);
    lemma_there(e, shapes);
    lemma_compete(e, shapes);
    if sums_compete(e, shapes) {
        let (c, d) = choose|c: char, d: char|
            c != d && #[trigger] can_sum(e, shapes, c) && is_wide(e, shapes, 0, c)
                && #[trigger] can_sum(e, shapes, d) && is_wide(e, shapes, 0, d);
        assert(can_sum(e, shapes, c));
    }
    lemma_adds_sum(op, m, id);
}

/// Whether a label lacks at most one axis to be that of the rows, or of the columns: it is
/// once in its input, or once in the output, and the other input has it at most with the
/// dimension one.
pub open spec fn nearly_spans(e: Expr, shapes: Seq<Seq<TDim>>, own: int, c: char) -> bool {
    &&& !is_wide(e, shapes, 1 - own, c)
    &&& once(e.inputs[own], c) || once(e.outputs[0], c)
}

/// Whether a label is the first that does and is not excluded: the labels of the output
/// come first, then those of the first input, and of the second.
pub open spec fn first_nearly(
    e: Expr,
    shapes: Seq<Seq<TDim>>,
    own: int,
    exclude: Seq<char>,
    c: char,
) -> bool {
    let all = e.outputs[0] + e.inputs[0] + e.inputs[1];
    &&& nearly_spans(e, shapes, own, c)
    &&& !exclude.contains(c)
    &&& forall|d: char, p: int, q: int| #[trigger]
        leads(all, p, c) && #[trigger] leads(all, q, d) && nearly_spans(e, shapes, own, d)
            && !exclude.contains(d) ==> p <= q
}

/// Whether some input has a label with a dimension other than one.
pub open spec fn is_wide_anywhere(e: Expr, shapes: Seq<Seq<TDim>>, c: char) -> bool {
    exists|s: int, i: int|
        0 <= s < e.inputs.len() && 0 <= i < e.inputs[s].len() && #[trigger] e.inputs[s][i] == c
            && shapes[s][i] != TDim::Val(1)
}

/// What an einsum gets that has no label for the rows, or for the columns.
///
/// The first label that is not excluded and nearly spans them gets the axis that it lacks:
/// of the output, if its input has it once, and else of the input. If there is none, a new
/// label gets both. This fails only if the label `$` is in use; if a new label is needed,
/// and there is none; or if the output would get an axis of a dimension other than one.
pub open spec fn completes(
    m: Model,
    id: int,
    own: int,
    exclude: Seq<char>,
    r: Result<Patch, Error>,
) -> bool {
    let e = (m.nodes[id].op->EinSum_0).axes;
    let shapes = input_shapes(m, m.nodes[id]);
    let some = exists|c: char| #[trigger] first_nearly(e, shapes, own, exclude, c);
    match r {
        Ok(p) => {
            &&& !is_used(e, '$')
            &&& if some {
                exists|c: char| #[trigger]
                    first_nearly(e, shapes, own, exclude, c) && if once(e.inputs[own], c) {
                        !is_wide_anywhere(e, shapes, c) && gives_axis(
                            m,
                            id,
                            p,
                            c,
                            false,
                            false,
                            true,
                        )
                    } else {
                        gives_axis(m, id, p, c, own == 0, own == 1, false)
                    }
            } else {
                exists|c: char| #[trigger]
                    is_new(e, c) && gives_axis(m, id, p, c, own == 0, own == 1, true)
            }
        },
        Err(Error::NoLabelLeft) => !some && forall|c: char| !is_new(e, c),
        Err(Error::DuplicateLabel) => is_used(e, '$'),
        Err(Error::BadFacts) => exists|c: char| #[trigger]
            first_nearly(e, shapes, own, exclude, c) && once(e.inputs[own], c) && is_wide_anywhere(
                e,
                shapes,
                c,
            ),
        Err(_) => false,
    }
}

/// The first axis of a label among those of the output and of the first two inputs is its
/// first of all.
proof fn lemma_leads_all(e: Expr, p: int, c: char)
    requires
        e.inputs.len() >= 2,
        e.outputs.len() == 1,
        leads(e.outputs[0] + e.inputs[0] + e.inputs[1], p, c),
    ensures
        leads(joined(e.outputs) + joined(e.inputs), p, c),
{
    let some = e.outputs[0] + e.inputs[0] + e.inputs[1];
    let both = e.inputs[0] + e.inputs[1];
    let all = joined(e.outputs) + joined(e.inputs);
    let n = e.outputs[0].len() as int;
    reveal_with_fuel(joined, 2);
    assert(joined(e.outputs) =~= e.outputs[0]);
    lemma_joined_starts(e.inputs);
    let taken = joined(e.inputs).take(both.len() as int);
    assert forall|v: int| 0 <= v < some.len() implies #[trigger] all[v] == some[v] by {
        if v >= n {
            assert(taken[v - n] == both[v - n]);
        }
    }
    assert forall|v: int| 0 <= v < p implies #[trigger] all[v] != c by {
        assert(some[v] != c);
    }
}

/// The first label that nearly spans is found.
proof fn lemma_first_nearly(e: Expr, shapes: Seq<Seq<TDim>>, own: int, exclude: Seq<char>)
    requires
        fits(e, shapes),
        own == 0 || own == 1,
    ensures
        ({
            let quasi = quasi_sides(e, shapes, own, exclude);
            &&& quasi.len() > 0 ==> first_nearly(e, shapes, own, exclude, quasi[0])
            &&& quasi.len() == 0 ==> forall|c: char| !first_nearly(e, shapes, own, exclude, c)
        }),
{
    let quasi = quasi_sides(e, shapes, own, exclude);
    let pred = |c: char| !exclude.contains(c) && is_quasi_side(e, shapes, own, c);
    let all = e.outputs[0] + e.inputs[0] + e.inputs[1];
    assert forall|c: char| #[trigger] nearly_spans(e, shapes, own, c) <==> is_quasi_side(
        e,
        shapes,
        own,
        c,
    ) by {
        lemma_said(e, shapes, c);
        lemma_leads(e.inputs[own], c);
        lemma_leads(e.outputs[0], c);
    }
    assert forall|d: char| #[trigger] nearly_spans(e, shapes, own, d) implies e.labels().contains(
        d,
    ) by {
        lemma_leads(e.inputs[own], d);
        lemma_leads(e.outputs[0], d);
        lemma_among(e, d);
    }
    if quasi.len() > 0 {
        let c = quasi[0];
        lemma_filtered(e.labels(), pred, 0);
        assert(nearly_spans(e, shapes, own, c));
        assert forall|d: char, p: int, q: int| #[trigger]
            leads(all, p, c) && #[trigger] leads(all, q, d) && nearly_spans(e, shapes, own, d)
                && !exclude.contains(d) implies p <= q by {
            let (i, j) = lemma_first_first(e.labels(), pred, d);
            lemma_leads_all(e, p, c);
            lemma_leads_all(e, q, d);
            if i < j {
                lemma_distinct_order(joined(e.outputs) + joined(e.inputs), i, j, p, q);
            } else {
                assert(c == d);
                assert(p == q);
            }
        }
    } else {
        assert forall|c: char| !first_nearly(e, shapes, own, exclude, c) by {
            if first_nearly(e, shapes, own, exclude, c) {
                assert(nearly_spans(e, shapes, own, c));
                lemma_filtered_none(e.labels(), pred, c);
            }
        }
    }
}

/// An extent is one where all dimensions are.
proof fn lemma_wide_anywhere(e: Expr, shapes: Seq<Seq<TDim>>, c: char)
    requires
        fits(e, shapes),
    ensures
        extent(e.inputs, shapes, c, one()) != one() <==> is_wide_anywhere(e, shapes, c),
{
    lemma_extent_one(e.inputs, shapes, c, one());
    if extent(e.inputs, shapes, c, one()) == one() {
        if is_wide_anywhere(e, shapes, c) {
            let (s, i) = choose|s: int, i: int|
                0 <= s < e.inputs.len() && 0 <= i < e.inputs[s].len() && #[trigger] e.inputs[s][i]
                    == c && shapes[s][i] != TDim::Val(1);
            assert(row_extent(e.inputs[s], shapes[s], c, one()) == one());
            assert(shapes[s].len() == e.inputs[s].len());
            lemma_row_extent_one(e.inputs[s], shapes[s], c, one());
        }
    } else {
        let s = choose|s: int|
            0 <= s < e.inputs.len() && row_extent(#[trigger] e.inputs[s], shapes[s], c, one())
                != one();
        assert(shapes[s].len() == e.inputs[s].len());
        let i = lemma_row_extent_found(e.inputs[s], shapes[s], c, one());
        assert(e.inputs[s][i] == c);
    }
}

/// What the patch for the rows, or for the columns, comes to.
pub proof fn lemma_completes(op: EinSumView, m: Model, id: int, own: usize, exclude: Seq<char>)
    requires
        m.wf(),
        0 <= id < m.nodes.len(),
        m.nodes[id].op == OpView::EinSum(op),
        m.nodes[id].inputs.len() <= usize::MAX,
        own < 2,
        !has_spans(op.axes, input_shapes(m, m.nodes[id]), own as int),
    ensures
        completes(m, id, own as int, exclude, inject_side(op, m, id, own, exclude)),
{
    let e = op.axes;
    let node = m.nodes[id];
    let shapes = input_shapes(m, node);
    let quasi = quasi_sides(e, shapes, own as int, exclude);
    let r = inject_side(op, m, id, own, exclude);
    assert(node_wf(m.nodes, id));
    lemma_node_fits(op, m, id);
    lemma_there(e, shapes);
    lemma_new(e);
    lemma_has(e, '$');
    lemma_first_nearly(e, shapes, own as int, exclude);
    if quasi.len() == 0 {
        match e.free_label() {
            Some(c) => {
                let p = both_patch(op, node, id, own, c);
                let at = Layout { w0: 0, w1: 0, j: 1 };
                lemma_both_layout(m, id, own, c);
                lemma_wide_anywhere(e, shapes, c);
                assert(extent(e.inputs, shapes, c, one()) == one()) by {
                    if is_wide_anywhere(e, shapes, c) {
                        let (s, i) = choose|s: int, i: int|
                            0 <= s < e.inputs.len() && 0 <= i < e.inputs[s].len()
                                && #[trigger] e.inputs[s][i] == c && shapes[s][i] != TDim::Val(1);
                        assert(e.inputs[s].contains(c));
                    }
                }
                lemma_fronts_fault(m, p, c, own == 0, own == 1, true, at);
                lemma_new_aims(op, m, id, p, c, own == 0, own == 1, true, at);
                lemma_gives_axis(m, p, c, own == 0, own == 1, true, at);
            },
            None => {},
        }
    } else {
        let c = quasi[0];
        lemma_quasi_side(e, shapes, own as int, exclude);
        lemma_leads(e.inputs[own as int], c);
        lemma_wide_anywhere(e, shapes, c);
        if e.count_in(own as int, c) == 1 {
            let p = output_patch(op, node, id, c);
            let at = Layout { w0: 0, w1: 0, j: 0 };
            lemma_output_layout(m, id, c);
            if extent(e.inputs, shapes, c, one()) == one() {
                lemma_fronts_fault(m, p, c, false, false, true, at);
                lemma_new_aims(op, m, id, p, c, false, false, true, at);
                lemma_gives_axis(m, p, c, false, false, true, at);
            } else {
                lemma_output_fault(op, m, id, c);
            }
        } else {
            let p = input_patch(op, node, id, own, c);
            let at = Layout { w0: 0, w1: 0, j: 1 };
            lemma_input_layout(m, id, own, c);
            lemma_fronts_fault(m, p, c, own == 0, own == 1, false, at);
            lemma_new_aims(op, m, id, p, c, own == 0, own == 1, false, at);
            lemma_gives_axis(m, p, c, own == 0, own == 1, false, at);
        }
    }
}

/// A patch that gives an einsum leading axes is for its node.
proof fn lemma_new_aims(
    op: EinSumView,
    m: Model,
    id: int,
    p: Patch,
    c: char,
    i0: bool,
    i1: bool,
    o: bool,
    at: Layout,
)
    requires
        m.wf(),
        0 <= id < m.nodes.len(),
        m.nodes[id].op == OpView::EinSum(op),
        p.node == id,
        is_wired(m, id),
        adds_fronts(m, p, c, i0, i1, o, at),
        only_adds(p, i0, i1, at),
        o ==> !op.axes.outputs[0].contains(c),
    ensures
        p.aims_at(m),
{
    assert(node_wf(m.nodes, id));
    let f = with_front(op.axes, c, i0, i1, o);
    assert(op.over(f).wf()) by {
        if o {
            let out = op.axes.outputs[0];
            assert forall|x: int, y: int|
                0 <= x < f.outputs[0].len() && 0 <= y < f.outputs[0].len() && x
                    != y implies f.outputs[0][x] != f.outputs[0][y] by {
                if x > 0 && y > 0 {
                    assert(out[x - 1] != out[y - 1]);
                } else if x > 0 {
                    assert(out.contains(out[x - 1]));
                } else {
                    assert(out.contains(out[y - 1]));
                }
            }
        }
    }
    assert forall|i: int| 0 <= i < p.wires.len() implies (#[trigger] p.wires[i]).op.wf()
        && !(p.wires[i].op is Source) by {
        if i == at.j {
        } else if i < at.j {
            if i == 0 {
                assert(adds_front(p.wires[0], 0) || adds_front(p.wires[0], 1));
            } else {
                assert(adds_front(p.wires[1], 1));
            }
        }
    }
}

/// An axis of the output of a dimension other than one cannot be taken away again.
proof fn lemma_output_fault(op: EinSumView, m: Model, id: int, c: char)
    requires
        m.wf(),
        0 <= id < m.nodes.len(),
        m.nodes[id].op == OpView::EinSum(op),
        is_wired(m, id),
        extent(op.axes.inputs, input_shapes(m, m.nodes[id]), c, one()) != one(),
    ensures
        output_patch(op, m.nodes[id], id, c).fault(m) == Some(Error::BadFacts),
{
    let p = output_patch(op, m.nodes[id], id, c);
    lemma_output_layout(m, id, c);
    if p.facts(m) is Some {
        let facts = facts_of(m.nodes, m.nodes[id].inputs);
        let all = p.facts(m)->0;
        lemma_wire_facts(facts, p.wires, 0);
        lemma_wire_facts(facts, p.wires, 1);
        let first = ref_facts(facts, all.take(0), p.wires[0].inputs);
        assert(first =~= facts);
        let second = ref_facts(facts, all.take(1), p.wires[1].inputs);
        assert(second[0] == all[0][0]);
        assert(all[0][0].shape[0] == extent(op.axes.inputs, fact_shapes(facts), c, one()));
    }
}

/// What the search comes to for an einsum that has a label for the sums, but none for the
/// rows: that of the sums is excluded.
pub proof fn lemma_rows_added(op: EinSumView, m: Model, id: int)
    requires
        m.wf(),
        0 <= id < m.nodes.len(),
        m.nodes[id].op == OpView::EinSum(op),
        m.nodes[id].inputs.len() <= usize::MAX,
        !sums_compete(op.axes, input_shapes(m, m.nodes[id])),
        has_sums(op.axes, input_shapes(m, m.nodes[id])),
        !has_spans(op.axes, input_shapes(m, m.nodes[id]), 0),
    ensures
        exists|k: char| #[trigger]
            sums_along(op.axes, input_shapes(m, m.nodes[id]), k) && match mkn_step(op, m, id) {
                Ok(Step::Patch(p)) => completes(m, id, 0, seq![k], Ok(p)),
                Ok(_) => false,
                Err(err) => completes(m, id, 0, seq![k], Err(err)),
            },
{
    reveal(mkn_step);
    let e = op.axes;
    let shapes = input_shapes(m, m.nodes[id]);
    lemma_node_fits(op, m, id);
    lemma_there(e, shapes);
    lemma_compete(e, shapes);
    lemma_sum_chosen(e, shapes);
    let k = k_label(e, shapes);
    lemma_completes(op, m, id, 0, seq![k]);
    assert(sums_along(e, shapes, k));
}

/// What the search comes to for an einsum that has labels for the sums and the rows, but
/// none for the columns: those of the sums and the rows are excluded.
pub proof fn lemma_columns_added(op: EinSumView, m: Model, id: int)
    requires
        m.wf(),
        0 <= id < m.nodes.len(),
        m.nodes[id].op == OpView::EinSum(op),
        m.nodes[id].inputs.len() <= usize::MAX,
        !sums_compete(op.axes, input_shapes(m, m.nodes[id])),
        has_sums(op.axes, input_shapes(m, m.nodes[id])),
        has_spans(op.axes, input_shapes(m, m.nodes[id]), 0),
        !has_spans(op.axes, input_shapes(m, m.nodes[id]), 1),
    ensures
        exists|k: char, rows: char| #[trigger]
            sums_along(op.axes, input_shapes(m, m.nodes[id]), k) && #[trigger] spans_along(
                op.axes,
                input_shapes(m, m.nodes[id]),
                m.nodes[id].outputs[0].shape,
                0,
                rows,
            ) && match mkn_step(op, m, id) {
                Ok(Step::Patch(p)) => completes(m, id, 1, seq![k, rows], Ok(p)),
                Ok(_) => false,
                Err(err) => completes(m, id, 1, seq![k, rows], Err(err)),
            },
{
    reveal(mkn_step);
    let e = op.axes;
    let shapes = input_shapes(m, m.nodes[id]);
    lemma_node_fits(op, m, id);
    lemma_there(e, shapes);
    lemma_compete(e, shapes);
    lemma_sum_chosen(e, shapes);
    lemma_widest_chosen(op, m, id, 0);
    let k = k_label(e, shapes);
    let rows = widest(e, shapes, side_labels(e, shapes, 0));
    lemma_completes(op, m, id, 1, seq![k, rows]);
    assert(sums_along(e, shapes, k));
    assert(spans_along(e, shapes, m.nodes[id].outputs[0].shape, 0, rows));
}

/// Whether a patch says what it adds: its context, and the names of its operators, each
/// that of the einsum with a suffix, but for the last, which has the name of the einsum.
pub open spec fn says(
    p: Patch,
    name: Seq<char>,
    context: Seq<char>,
    suffixes: Seq<Seq<char>>,
) -> bool {
    &&& p.context == context
    &&& p.wires.len() == suffixes.len() + 1
    &&& p.wires[suffixes.len() as int].name == name
    &&& forall|i: int|
        0 <= i < suffixes.len() ==> (#[trigger] p.wires[i]).name == name + suffixes[i]
}

/// What the patch for the sums says.
pub proof fn lemma_sums_said(op: EinSumView, m: Model, id: int, p: Patch)
    requires
        inject_k(op, m, id) == Ok::<Patch, Error>(p),
    ensures
        says(p, m.nodes[id].name, "inject k axis"@, seq![".add_k.0"@, ".add_k.1"@]),
{
}

/// What the patch for the rows, or for the columns, says.
pub proof fn lemma_sides_said(
    op: EinSumView,
    m: Model,
    id: int,
    own: usize,
    exclude: Seq<char>,
    p: Patch,
)
    requires
        own < 2,
        inject_side(op, m, id, own, exclude) == Ok::<Patch, Error>(p),
    ensures
        ({
            let add = if own == 0 {
                ".add_m"@
            } else {
                ".add_n"@
            };
            let name = m.nodes[id].name;
            let context = "Injecting m or n axis"@;
            ||| says(p, name, context, seq![".einsum"@])
            ||| says(p, name, context, seq![add])
            ||| says(p, name, context, seq![add, ".einsum"@])
        }),
{
    let e = op.axes;
    let quasi = quasi_sides(e, input_shapes(m, m.nodes[id]), own as int, exclude);
    if quasi.len() == 0 {
        assert(p == both_patch(op, m.nodes[id], id, own, e.free_label()->0));
    } else if e.count_in(own as int, quasi[0]) == 1 {
        assert(p == output_patch(op, m.nodes[id], id, quasi[0]));
    } else {
        assert(p == input_patch(op, m.nodes[id], id, own, quasi[0]));
    }
}

} // verus!
