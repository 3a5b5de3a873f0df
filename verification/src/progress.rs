//! Why giving an einsum the axes of a matrix product comes to an end.

use vstd::prelude::*;

use crate::as_matmul::{
    additions, is_einsum, lemma_first_needed, lemma_needed_einsum, lemma_next_einsum,
    lemma_step_einsum, next_einsum, normalized, stays_einsum,
};
use crate::compact::{
    lemma_compacted, lemma_origin, lemma_placed_node, lemma_staying, lemma_still_needed, needed,
};
use crate::dim::TDim;
use crate::error::Error;
use crate::labels::{Expr, lemma_absent, lemma_has, lemma_positions, positions};
use crate::model::{Model, facts_of, node_wf};
use crate::ops::{Fact, OpView};
use crate::optimize::{
    Step, inject_k, inject_side, input_shapes, is_quasi_side, lemma_distinct_front, lemma_quasi_side, mkn_step,
    quasi_sides,
};
use crate::patch::{Patch, lemma_applied, lemma_resolve, lemma_wire_facts, ref_facts};
use crate::preserve::{
    Layout, adds_front, adds_fronts, front_ref, is_pair, lemma_both_layout, lemma_free_label,
    lemma_input_layout, lemma_k_layout, lemma_output_layout, lemma_side_aims, lemma_step_aims,
    lemma_step_next,
};
use crate::product::{front, grows, with_front};
use crate::roles::{
    Roles, dim_in, is_k, is_side, is_void, k_label, k_labels, lemma_filtered, lemma_filtered_none,
    lemma_widest, one, roles, side_labels, wide_k_labels, widest,
};

verus! {

/// How many of the sums, the rows and the columns an einsum may still get: all
/// three if it has no sums, and so on in this order.
pub open spec fn missing(e: Expr, shapes: Seq<Seq<TDim>>) -> nat {
    if k_labels(e, shapes).len() == 0 {
        3
    } else if side_labels(e, shapes, 0).len() == 0 {
        2
    } else if side_labels(e, shapes, 1).len() == 0 {
        1
    } else {
        0
    }
}

/// A shape, with a leading axis of dimension one if asked for.
pub open spec fn shape_front(shape: Seq<TDim>, add: bool) -> Seq<TDim> {
    if add {
        shape.insert(0, one())
    } else {
        shape
    }
}

/// The shapes of inputs, the first two with leading axes of dimension one as far as
/// asked for.
pub open spec fn shapes_front(shapes: Seq<Seq<TDim>>, i0: bool, i1: bool) -> Seq<Seq<TDim>> {
    Seq::new(shapes.len(), |s: int| shape_front(shapes[s], grows(s, i0, i1)))
}

/// Where a label is after one has been put in front.
proof fn lemma_insert_positions(labels: Seq<char>, c: char, l: char)
    ensures
        positions(labels.insert(0, c), l).len() == positions(labels, l).len() + if l == c {
            1nat
        } else {
            0
        },
        l == c ==> positions(labels.insert(0, c), l)[0] == 0,
        l != c && positions(labels, l).len() > 0 ==> positions(labels.insert(0, c), l)[0]
            == positions(labels, l)[0] + 1,
    decreases labels.len(),
{
    let all = labels.insert(0, c);
    if labels.len() == 0 {
        assert(all.drop_last() =~= Seq::empty());
        assert(positions(all.drop_last(), l) =~= Seq::empty());
    } else {
        lemma_insert_positions(labels.drop_last(), c, l);
        assert(all.drop_last() =~= labels.drop_last().insert(0, c));
        assert(all.last() == labels.last());
    }
}

/// The occurrences of a label in an input, and its dimension there, with and
/// without a leading axis.
pub proof fn lemma_front_slot(
    labels: Seq<char>,
    shape: Seq<TDim>,
    c: char,
    add: bool,
    l: char,
)
    requires
        shape.len() == labels.len(),
    ensures
        positions(front(labels, add, c), l).len() == positions(labels, l).len() + if add && l
            == c {
            1nat
        } else {
            0
        },
        add && l == c ==> shape_front(shape, add)[positions(front(labels, add, c), l)[0]] == one(),
        !(add && l == c) && positions(labels, l).len() > 0 ==> shape_front(shape, add)[positions(
            front(labels, add, c),
            l,
        )[0]] == shape[positions(labels, l)[0]],
{
    if add {
        lemma_insert_positions(labels, c, l);
        lemma_positions(labels, l);
    }
}

/// Labels without repetitions occur once or not at all.
pub proof fn lemma_at_most_once(labels: Seq<char>, c: char)
    requires
        labels.no_duplicates(),
    ensures
        positions(labels, c).len() <= 1,
{
    lemma_positions(labels, c);
    let all = positions(labels, c);
    if all.len() > 1 {
        assert(all[0] < all[1]);
        assert(labels[all[0]] == c && labels[all[1]] == c);
    }
}

/// The parts that labels play, with and without leading axes.
proof fn lemma_front_parts(
    e: Expr,
    shapes: Seq<Seq<TDim>>,
    c: char,
    i0: bool,
    i1: bool,
    o: bool,
    l: char,
)
    requires
        e.inputs.len() == 2,
        e.outputs.len() == 1,
        shapes.len() == 2,
        shapes[0].len() == e.inputs[0].len(),
        shapes[1].len() == e.inputs[1].len(),
    ensures
        ({
            let f = with_front(e, c, i0, i1, o);
            let s = shapes_front(shapes, i0, i1);
            &&& f.count_in(0, l) == e.count_in(0, l) + if i0 && l == c {
                1nat
            } else {
                0
            }
            &&& f.count_in(1, l) == e.count_in(1, l) + if i1 && l == c {
                1nat
            } else {
                0
            }
            &&& f.count_out(0, l) == e.count_out(0, l) + if o && l == c {
                1nat
            } else {
                0
            }
            &&& i0 && l == c ==> dim_in(f, s, 0, l) == one()
            &&& i1 && l == c ==> dim_in(f, s, 1, l) == one()
            &&& !(i0 && l == c) && e.count_in(0, l) > 0 ==> dim_in(f, s, 0, l) == dim_in(
                e,
                shapes,
                0,
                l,
            )
            &&& !(i1 && l == c) && e.count_in(1, l) > 0 ==> dim_in(f, s, 1, l) == dim_in(
                e,
                shapes,
                1,
                l,
            )
            &&& l != c && is_k(e, shapes, l) ==> is_k(f, s, l)
            &&& l != c && is_side(e, shapes, 0, l) ==> is_side(f, s, 0, l)
            &&& l != c && is_side(e, shapes, 1, l) ==> is_side(f, s, 1, l)
        }),
{
    lemma_front_slot(e.inputs[0], shapes[0], c, i0, l);
    lemma_front_slot(e.inputs[1], shapes[1], c, i1, l);
    if o {
        lemma_insert_positions(e.outputs[0], c, l);
    }
}

/// A label with a part is one of the labels with that part.
pub proof fn lemma_part_found(e: Expr, shapes: Seq<Seq<TDim>>, l: char)
    requires
        e.inputs.len() == 2,
        e.outputs.len() == 1,
    ensures
        is_k(e, shapes, l) ==> k_labels(e, shapes).len() > 0,
        is_side(e, shapes, 0, l) ==> side_labels(e, shapes, 0).len() > 0,
        is_side(e, shapes, 1, l) ==> side_labels(e, shapes, 1).len() > 0,
{
    lemma_has(e, l);
    lemma_positions(e.inputs[0], l);
    lemma_positions(e.inputs[1], l);
    if is_k(e, shapes, l) {
        lemma_filtered_none(e.labels(), |c: char| is_k(e, shapes, c), l);
    }
    if is_side(e, shapes, 0, l) {
        lemma_filtered_none(e.labels(), |c: char| is_side(e, shapes, 0, c), l);
    }
    if is_side(e, shapes, 1, l) {
        lemma_filtered_none(e.labels(), |c: char| is_side(e, shapes, 1, c), l);
    }
}

/// The label to sum over can be summed over.
pub proof fn lemma_k_label(e: Expr, shapes: Seq<Seq<TDim>>)
    requires
        k_labels(e, shapes).len() > 0,
    ensures
        is_k(e, shapes, k_label(e, shapes)),
{
    let ks = k_labels(e, shapes);
    let wide = |c: char| dim_in(e, shapes, 0, c) != one();
    if wide_k_labels(e, shapes).len() > 0 {
        lemma_filtered(ks, wide, 0);
        let i = choose|i: int| 0 <= i < ks.len() && ks[i] == wide_k_labels(e, shapes)[0];
        lemma_filtered(e.labels(), |c: char| is_k(e, shapes, c), i);
    } else {
        lemma_filtered(e.labels(), |c: char| is_k(e, shapes, c), 0);
    }
}

/// The label of the rows, or of the columns, can be that.
pub proof fn lemma_side_label(e: Expr, shapes: Seq<Seq<TDim>>, own: int)
    requires
        side_labels(e, shapes, own).len() > 0,
    ensures
        is_side(e, shapes, own, widest(e, shapes, side_labels(e, shapes, own))),
{
    let sides = side_labels(e, shapes, own);
    lemma_widest(e, shapes, sides);
    let i = choose|i: int| 0 <= i < sides.len() && sides[i] == widest(e, shapes, sides);
    lemma_filtered(e.labels(), |c: char| is_side(e, shapes, own, c), i);
}

/// Whether no input has a label twice, and the shapes are those of the inputs.
pub open spec fn is_simple(e: Expr, shapes: Seq<Seq<TDim>>) -> bool {
    &&& e.inputs.len() == 2
    &&& e.outputs.len() == 1
    &&& e.inputs[0].no_duplicates()
    &&& e.inputs[1].no_duplicates()
    &&& e.outputs[0].no_duplicates()
    &&& shapes.len() == 2
    &&& shapes[0].len() == e.inputs[0].len()
    &&& shapes[1].len() == e.inputs[1].len()
}

/// Leading axes under a label that the slots do not have leave them without
/// repetitions.
proof fn lemma_front_simple(
    e: Expr,
    shapes: Seq<Seq<TDim>>,
    c: char,
    i0: bool,
    i1: bool,
    o: bool,
)
    requires
        is_simple(e, shapes),
        i0 ==> e.count_in(0, c) == 0,
        i1 ==> e.count_in(1, c) == 0,
        o ==> e.count_out(0, c) == 0,
    ensures
        is_simple(with_front(e, c, i0, i1, o), shapes_front(shapes, i0, i1)),
{
    lemma_positions(e.inputs[0], c);
    lemma_positions(e.inputs[1], c);
    lemma_positions(e.outputs[0], c);
    if i0 {
        lemma_distinct_front(e.inputs[0], c);
    }
    if i1 {
        lemma_distinct_front(e.inputs[1], c);
    }
    if o {
        lemma_distinct_front(e.outputs[0], c);
    }
}

/// With a new label for the sums, less is missing.
proof fn lemma_k_progress(e: Expr, shapes: Seq<Seq<TDim>>, c: char)
    requires
        is_simple(e, shapes),
        !e.has(c),
    ensures
        is_simple(with_front(e, c, true, true, false), shapes_front(shapes, true, true)),
        missing(with_front(e, c, true, true, false), shapes_front(shapes, true, true)) < 3,
{
    let f = with_front(e, c, true, true, false);
    let s = shapes_front(shapes, true, true);
    lemma_unused(e, c);
    lemma_front_simple(e, shapes, c, true, true, false);
    lemma_front_parts(e, shapes, c, true, true, false, c);
    assert(is_k(f, s, c));
    lemma_part_found(f, s, c);
}

/// A label that is not in use occurs nowhere.
pub proof fn lemma_unused(e: Expr, c: char)
    requires
        !e.has(c),
        e.inputs.len() >= 2,
        e.outputs.len() == 1,
    ensures
        e.count_in(0, c) == 0,
        e.count_in(1, c) == 0,
        e.count_out(0, c) == 0,
{
    lemma_has(e, c);
    assert(!e.inputs[0].contains(c) && !e.inputs[1].contains(c) && !e.outputs[0].contains(c));
    lemma_absent(e.inputs[0], c);
    lemma_absent(e.inputs[1], c);
    lemma_absent(e.outputs[0], c);
}

/// With a label that gets what it lacks to be that of the rows, or of the columns,
/// less is missing.
proof fn lemma_side_progress(
    e: Expr,
    shapes: Seq<Seq<TDim>>,
    own: int,
    c: char,
    grows_input: bool,
    grows_output: bool,
)
    requires
        is_simple(e, shapes),
        own == 0 || own == 1,
        k_labels(e, shapes).len() > 0,
        c != k_label(e, shapes),
        own == 1 ==> side_labels(e, shapes, 0).len() > 0 && c != widest(
            e,
            shapes,
            side_labels(e, shapes, 0),
        ),
        e.count_in(own, c) == if grows_input {
            0nat
        } else {
            1
        },
        e.count_out(0, c) == if grows_output {
            0nat
        } else {
            1
        },
        is_void(e, shapes, 1 - own, c),
    ensures
        ({
            let i0 = grows_input && own == 0;
            let i1 = grows_input && own == 1;
            let f = with_front(e, c, i0, i1, grows_output);
            let s = shapes_front(shapes, i0, i1);
            &&& is_simple(f, s)
            &&& missing(f, s) <= 1 - own
        }),
{
    let i0 = grows_input && own == 0;
    let i1 = grows_input && own == 1;
    let f = with_front(e, c, i0, i1, grows_output);
    let s = shapes_front(shapes, i0, i1);
    let k = k_label(e, shapes);
    lemma_front_simple(e, shapes, c, i0, i1, grows_output);
    lemma_k_label(e, shapes);
    lemma_front_parts(e, shapes, c, i0, i1, grows_output, k);
    lemma_part_found(f, s, k);
    lemma_front_parts(e, shapes, c, i0, i1, grows_output, c);
    assert(is_side(f, s, own, c));
    lemma_part_found(f, s, c);
    if own == 1 {
        let rows = widest(e, shapes, side_labels(e, shapes, 0));
        lemma_side_label(e, shapes, 0);
        lemma_front_parts(e, shapes, c, i0, i1, grows_output, rows);
        lemma_part_found(f, s, rows);
    }
}

/// The fact of what an einsum of a patch takes: that of the tap, with a leading
/// axis of dimension one if one was added.
pub proof fn lemma_front_fact(m: Model, p: Patch, add: bool, w: usize, t: usize)
    requires
        p.aims_at(m),
        p.fault(m) is None,
        t < p.taps.len(),
        add ==> w < p.wires.len() && adds_front(p.wires[w as int], t),
    ensures
        ({
            let o = p.resolve(front_ref(add, w, t));
            let fact = facts_of(m.nodes, p.taps)[t as int];
            p.applied(m).nodes[o.node].outputs[o.slot] == (Fact {
                shape: shape_front(fact.shape, add),
                ..fact
            })
        }),
{
    let taps = facts_of(m.nodes, p.taps);
    let facts = p.facts(m)->0;
    lemma_wire_facts(taps, p.wires, p.wires.len() as int);
    assert(facts.take(p.wires.len() as int) =~= facts);
    if add {
        lemma_wire_facts(taps, p.wires, w as int);
        let known = ref_facts(taps, facts.take(w as int), p.wires[w as int].inputs);
        assert(known[0] == taps[t as int]);
        assert(facts[w as int] == seq![
            Fact { shape: taps[t as int].shape.insert(0, TDim::Val(1)), ..taps[t as int] },
        ]);
    }
    lemma_resolve(m, p, front_ref(add, w, t), p.wires.len() as int);
}

/// The facts of the inputs of an einsum with leading axes.
proof fn lemma_fronts_facts(
    m: Model,
    p: Patch,
    c: char,
    i0: bool,
    i1: bool,
    o: bool,
    at: Layout,
    t: int,
)
    requires
        p.aims_at(m),
        p.fault(m) is None,
        p.taps.len() <= usize::MAX,
        adds_fronts(m, p, c, i0, i1, o, at),
        0 <= t < p.taps.len(),
    ensures
        ({
            let node = p.applied(m).nodes[p.node + at.j];
            let fact = facts_of(m.nodes, p.taps)[t];
            &&& node == p.wire_nodes(m)[at.j as int]
            &&& node.inputs.len() == p.taps.len()
            &&& facts_of(p.applied(m).nodes, node.inputs)[t] == (Fact {
                shape: shape_front(fact.shape, grows(t, i0, i1)),
                ..fact
            })
        }),
{
    let a = p.applied(m);
    let node = a.nodes[p.node + at.j];
    lemma_wire_facts(facts_of(m.nodes, p.taps), p.wires, p.wires.len() as int);
    assert(node == p.wire_nodes(m)[at.j as int]);
    let w = if t == 0 {
        at.w0
    } else {
        at.w1
    };
    lemma_front_fact(m, p, grows(t, i0, i1), w, t as usize);
    let refs = p.wires[at.j as int].inputs;
    assert(node.inputs[t] == p.resolve(refs[t]));
}

/// The shapes of the inputs of an einsum with leading axes.
pub proof fn lemma_fronts_shapes(
    m: Model,
    p: Patch,
    c: char,
    i0: bool,
    i1: bool,
    o: bool,
    at: Layout,
)
    requires
        p.aims_at(m),
        p.fault(m) is None,
        2 <= p.taps.len() <= usize::MAX,
        adds_fronts(m, p, c, i0, i1, o, at),
    ensures
        ({
            let node = p.applied(m).nodes[p.node + at.j];
            let op = m.nodes[p.node].op->EinSum_0;
            &&& node.op == OpView::EinSum(op.over(with_front(op.axes, c, i0, i1, o)))
            &&& node.inputs.len() == p.taps.len()
            &&& input_shapes(p.applied(m), node) == shapes_front(
                input_shapes(m, m.nodes[p.node]),
                i0,
                i1,
            )
            &&& facts_of(p.applied(m).nodes, node.inputs)[0].datum_type == facts_of(
                m.nodes,
                p.taps,
            )[0].datum_type
        }),
{
    let a = p.applied(m);
    let node = a.nodes[p.node + at.j];
    let before = input_shapes(m, m.nodes[p.node]);
    lemma_fronts_facts(m, p, c, i0, i1, o, at, 0);
    assert forall|t: int| 0 <= t < p.taps.len() implies #[trigger] input_shapes(a, node)[t]
        == shapes_front(before, i0, i1)[t] by {
        lemma_fronts_facts(m, p, c, i0, i1, o, at, t);
    }
    assert(input_shapes(a, node) =~= shapes_front(before, i0, i1));
}

/// The model after a step, the place of its einsum, and what that misses.
pub open spec fn is_closer(m: Model, id: int, p: Patch, j: int) -> bool {
    let a = p.applied(m);
    let e = (m.nodes[id].op->EinSum_0).axes;
    let f = (a.nodes[id + j].op->EinSum_0).axes;
    &&& p.node == id
    &&& p.aims_at(m)
    &&& p.fault(m) is None
    &&& 0 <= j < p.wires.len()
    &&& p.wires[j].op is EinSum
    &&& forall|i: int| 0 <= i < p.wires.len() && i != j ==> !((#[trigger] p.wires[i]).op is EinSum)
    &&& is_pair(a, id + j)
    &&& is_simple(f, input_shapes(a, a.nodes[id + j]))
    &&& missing(f, input_shapes(a, a.nodes[id + j])) < missing(e, input_shapes(m, m.nodes[id]))
}

proof fn lemma_k_closer(m: Model, id: int, p: Patch)
    requires
        m.wf(),
        0 <= id < m.nodes.len(),
        is_pair(m, id),
        is_simple((m.nodes[id].op->EinSum_0).axes, input_shapes(m, m.nodes[id])),
        k_labels((m.nodes[id].op->EinSum_0).axes, input_shapes(m, m.nodes[id])).len() == 0,
        inject_k(m.nodes[id].op->EinSum_0, m, id) == Ok::<Patch, Error>(p),
        p.aims_at(m),
        p.fault(m) is None,
    ensures
        is_closer(m, id, p, 2),
{
    let e = (m.nodes[id].op->EinSum_0).axes;
    let shapes = input_shapes(m, m.nodes[id]);
    let c = e.free_label()->0;
    let at = Layout { w0: 0, w1: 1, j: 2 };
    lemma_free_label(e);
    lemma_k_layout(m, id, c);
    lemma_fronts_shapes(m, p, c, true, true, false, at);
    lemma_k_progress(e, shapes, c);
}

proof fn lemma_side_closer(m: Model, id: int, own: usize, exclude: Seq<char>, p: Patch) -> (j: int)
    requires
        m.wf(),
        0 <= id < m.nodes.len(),
        own < 2,
        is_pair(m, id),
        is_simple((m.nodes[id].op->EinSum_0).axes, input_shapes(m, m.nodes[id])),
        ({
            let e = (m.nodes[id].op->EinSum_0).axes;
            let shapes = input_shapes(m, m.nodes[id]);
            &&& missing(e, shapes) == 2 - own
            &&& exclude.contains(k_label(e, shapes))
            &&& own == 1 ==> exclude.contains(widest(e, shapes, side_labels(e, shapes, 0)))
        }),
        inject_side(m.nodes[id].op->EinSum_0, m, id, own, exclude) == Ok::<Patch, Error>(p),
    ensures
        is_closer(m, id, p, j),
{
    let e = (m.nodes[id].op->EinSum_0).axes;
    let shapes = input_shapes(m, m.nodes[id]);
    let quasi = quasi_sides(e, shapes, own as int, exclude);
    lemma_side_aims(m, id, own, exclude, p);
    lemma_k_label(e, shapes);
    if own == 1 {
        lemma_side_label(e, shapes, 0);
    }
    if quasi.len() == 0 {
        let c = e.free_label()->0;
        let at = Layout { w0: 0, w1: 0, j: 1 };
        lemma_free_label(e);
        lemma_unused(e, c);
        lemma_both_layout(m, id, own, c);
        lemma_fronts_shapes(m, p, c, own == 0, own == 1, true, at);
        lemma_side_progress(e, shapes, own as int, c, true, true);
        1
    } else {
        let c = quasi[0];
        let pred = |d: char| !exclude.contains(d)
            && is_quasi_side(e, shapes, own as int, d);
        lemma_filtered(e.labels(), pred, 0);
        lemma_quasi_side(e, shapes, own as int, exclude);
        if e.count_in(own as int, c) == 1 {
            let at = Layout { w0: 0, w1: 0, j: 0 };
            lemma_absent(e.outputs[0], c);
            lemma_output_layout(m, id, c);
            lemma_fronts_shapes(m, p, c, false, false, true, at);
            lemma_side_progress(e, shapes, own as int, c, false, true);
            0
        } else {
            let at = Layout { w0: 0, w1: 0, j: 1 };
            lemma_at_most_once(e.inputs[own as int], c);
            lemma_input_layout(m, id, own, c);
            lemma_fronts_shapes(m, p, c, own == 0, own == 1, false, at);
            lemma_side_progress(e, shapes, own as int, c, true, false);
            1
        }
    }
}

/// A step towards a matrix product leaves less missing, if no input has a label
/// twice.
pub proof fn lemma_closer(m: Model, id: int, p: Patch) -> (j: int)
    requires
        m.wf(),
        0 <= id < m.nodes.len(),
        is_pair(m, id),
        is_simple((m.nodes[id].op->EinSum_0).axes, input_shapes(m, m.nodes[id])),
        mkn_step(m.nodes[id].op->EinSum_0, m, id) == Ok::<Step, Error>(Step::Patch(p)),
    ensures
        is_closer(m, id, p, j),
{
    reveal(mkn_step);
    let e = (m.nodes[id].op->EinSum_0).axes;
    let shapes = input_shapes(m, m.nodes[id]);
    match roles(e, shapes) {
        Roles::NoM(k) => {
            let exclude = seq![k];
            assert(exclude[0] == k);
            lemma_side_closer(m, id, 0, exclude, p)
        },
        Roles::NoN(k, rows) => {
            let exclude = seq![k, rows];
            assert(exclude[0] == k && exclude[1] == rows);
            lemma_side_closer(m, id, 1, exclude, p)
        },
        _ => {
            lemma_step_aims(m, id, p);
            lemma_k_closer(m, id, p);
            2
        },
    }
}

/// The search for the axes of a matrix product does not itself end for want of
/// progress, and ends in a patch only if something is missing.
proof fn lemma_step_kinds(m: Model, id: int)
    ensures
        mkn_step(m.nodes[id].op->EinSum_0, m, id) != Err::<Step, Error>(Error::NoProgress),
        mkn_step(m.nodes[id].op->EinSum_0, m, id) matches Ok(Step::Patch(_)) ==> missing(
            (m.nodes[id].op->EinSum_0).axes,
            input_shapes(m, m.nodes[id]),
        ) > 0,
{
    reveal(mkn_step);
}

/// Giving an einsum that an output needs the axes of a matrix product comes to an end
/// within as many additions as it may still get, if no input has a label twice.
pub proof fn lemma_enough(m: Model, id: int, fuel: nat)
    requires
        m.wf(),
        next_einsum(m, 0) == Some(id),
        needed(m, id),
        is_pair(m, id),
        is_simple((m.nodes[id].op->EinSum_0).axes, input_shapes(m, m.nodes[id])),
        missing((m.nodes[id].op->EinSum_0).axes, input_shapes(m, m.nodes[id])) <= fuel,
    ensures
        normalized(m, fuel).1 != Err::<(char, char, char), Error>(Error::NoProgress),
    decreases fuel,
{
    let op = m.nodes[id].op->EinSum_0;
    lemma_step_kinds(m, id);
    match mkn_step(op, m, id) {
        Ok(Step::Patch(p)) => {
            let a = p.applied(m);
            let c = a.compacted();
            let j = lemma_closer(m, id, p);
            let i = lemma_step_einsum(op, m, id, p);
            assert(i == j);
            lemma_applied(m, p);
            lemma_step_next(m, id, p, j);
            lemma_needed_einsum(m, id, p, j);
            lemma_compacted(a);
            lemma_placed_node(a, id + j);
            lemma_still_needed(a, id + j);
            lemma_first_stays(a, id + j);
            assert(input_shapes(c, c.nodes[a.place(id + j)]) == input_shapes(a, a.nodes[id + j]));
            lemma_enough(c, a.place(id + j), (fuel - 1) as nat);
        },
        _ => {},
    }
}

/// The first einsum of a model stays the first, if an output needs it.
proof fn lemma_first_stays(m: Model, id: int)
    requires
        m.wf(),
        next_einsum(m, 0) == Some(id),
        needed(m, id),
    ensures
        next_einsum(m.compacted(), 0) == Some(m.place(id)),
{
    let c = m.compacted();
    let n = m.nodes.len() as int;
    lemma_compacted(m);
    lemma_next_einsum(m, 0);
    lemma_next_einsum(c, 0);
    lemma_placed_node(m, id);
    assert(is_einsum(c.nodes[m.place(id)]));
    let q = next_einsum(c, 0)->0;
    let i = lemma_origin(m, n, q);
    assert(is_einsum(m.nodes[i]));
    if i != id {
        lemma_staying(m, i, id);
    }
}

/// Whether an einsum is of two inputs, neither of which has a label twice.
pub open spec fn has_distinct(m: Model, q: int) -> bool {
    let e = (m.nodes[q].op->EinSum_0).axes;
    &&& is_pair(m, q)
    &&& e.inputs[0].no_duplicates()
    &&& e.inputs[1].no_duplicates()
}

proof fn lemma_distinct_simple(m: Model, id: int)
    requires
        m.wf(),
        0 <= id < m.nodes.len(),
        has_distinct(m, id),
    ensures
        is_simple((m.nodes[id].op->EinSum_0).axes, input_shapes(m, m.nodes[id])),
{
    let e = (m.nodes[id].op->EinSum_0).axes;
    let facts = facts_of(m.nodes, m.nodes[id].inputs);
    assert(node_wf(m.nodes, id));
    assert(facts[0].shape.len() == e.inputs[0].len());
    assert(facts[1].shape.len() == e.inputs[1].len());
}

/// Four additions are always enough, if no input of an einsum has a label twice: one
/// to an einsum that no output needs, and which goes with it; and then to the first of
/// the others one for the sums, one for the rows and one for the columns.
pub proof fn lemma_enough_additions(m: Model)
    requires
        m.wf(),
        next_einsum(m, 0) is Some,
        stays_einsum(m),
        forall|q: int|
            0 <= q < m.nodes.len() && is_einsum(#[trigger] m.nodes[q]) ==> has_distinct(m, q),
    ensures
        normalized(m, additions()).1 != Err::<(char, char, char), Error>(Error::NoProgress),
{
    let id = next_einsum(m, 0)->0;
    let op = m.nodes[id].op->EinSum_0;
    lemma_next_einsum(m, 0);
    assert(is_einsum(m.nodes[id]));
    lemma_distinct_simple(m, id);
    lemma_step_kinds(m, id);
    match mkn_step(op, m, id) {
        Ok(Step::Patch(p)) => {
            let a = p.applied(m);
            let c = a.compacted();
            let w = p.wires.len() as int;
            let j = lemma_closer(m, id, p);
            lemma_applied(m, p);
            lemma_compacted(a);
            lemma_first_needed(a);
            lemma_next_einsum(c, 0);
            let q = next_einsum(c, 0)->0;
            let i = lemma_origin(a, a.nodes.len() as int, q);
            lemma_placed_node(a, i);
            assert(has_distinct(a, i)) by {
                if i < id {
                    assert(a.nodes[i] == m.nodes[i]);
                } else if i < id + w {
                    assert(a.nodes[i] == p.wire_nodes(m)[i - id]);
                    assert(i == id + j);
                } else {
                    assert(a.nodes[i] == p.later_nodes(m)[i - id - w]);
                    assert(is_einsum(m.nodes[i - w + 1]));
                }
            }
            assert(has_distinct(c, q));
            lemma_distinct_simple(c, q);
            lemma_enough(c, q, 3);
        },
        _ => {},
    }
}

} // verus!
