//! Products with vectors: what the einsum lacks is added, and its decomposition
//! succeeds.

use vstd::prelude::*;

use crate::as_matmul::{
    additions, decomposed, has_roles, is_einsum, lemma_first_needed, lemma_next_einsum,
    lemma_stays_einsum, next_einsum, normalized, product_for, product_patch, replaced, replacement,
    stays_einsum,
};
use crate::compact::{lemma_compacted, lemma_origin, lemma_placed_node};
use crate::dim::TDim;
use crate::direct::{lemma_batched_product, lemma_batched_roles, lemma_only_k, lemma_product_fault};
use crate::error::Error;
use crate::labels::{
    Expr, distinct, joined, lemma_absent, lemma_distinct, lemma_has, lemma_single_at, positions,
};
use crate::matmul::{BasicMatMul, is_batched, lemma_batched_dims, pair, pair_first, pair_second};
use crate::model::{Model, facts_of, node_wf};
use crate::ops::{EinSumView, Fact, OpView, fact_shapes, ranks_suit};
use crate::optimize::{
    Step, input_patch, input_shapes, is_quasi_side, k_patch, mkn_step, quasi_sides,
};
use crate::patch::{Patch, WireView, has_refs, lemma_applied, ref_facts, wire_facts};
use crate::preserve::{
    Layout, actual_shapes, adds_fronts, becomes_product, is_last_einsum, is_pair, is_product,
    lemma_compacted_only, lemma_free_label, lemma_input_layout, lemma_k_layout, lemma_step_aims,
    lemma_step_next,
};
use crate::product::{
    is_binary, lemma_extent_two, lemma_row_extent_front, output_dims, same_but_units, with_front,
};
use crate::progress::{lemma_fronts_shapes, lemma_side_label, shape_front, shapes_front};
use crate::roles::{
    Roles, dim_in, is_k, is_side, k_labels, lemma_filter_prefix, lemma_filtered,
    lemma_filtered_none, one, roles, side_labels, widest,
};

verus! {

/// Whether an einsum without quantization is a batched matrix product on facts
/// that suit it.
pub open spec fn is_ready(
    m: Model,
    id: int,
    product: BasicMatMul,
    rows: char,
    k: char,
    columns: char,
) -> bool {
    let op = m.nodes[id].op->EinSum_0;
    let facts = facts_of(m.nodes, m.nodes[id].inputs);
    &&& 0 <= id < m.nodes.len()
    &&& is_pair(m, id)
    &&& op.q_params is None
    &&& is_batched(op.axes, product, rows, k, columns)
    &&& facts[0].datum_type == op.operating_dt
    &&& pair_second(facts[0].shape, product.transpose_a) == pair_first(
        facts[1].shape,
        product.transpose_b,
    )
}

/// The product of the shape of an einsum takes its place.
proof fn lemma_ready_product(
    m: Model,
    id: int,
    product: BasicMatMul,
    rows: char,
    k: char,
    columns: char,
    found: (char, char),
)
    requires
        m.wf(),
        is_ready(m, id, product, rows, k, columns),
        has_roles((m.nodes[id].op->EinSum_0).axes, found.0, k, found.1),
    ensures
        product_for((m.nodes[id].op->EinSum_0).axes, found.0, k, found.1) == product,
        replacement(m, id, found.0, k, found.1) == Ok::<Patch, Error>(
            product_patch(product, m.nodes[id], id),
        ),
{
    let op = m.nodes[id].op->EinSum_0;
    let e = op.axes;
    let facts = facts_of(m.nodes, m.nodes[id].inputs);
    assert(node_wf(m.nodes, id));
    assert(facts[0].shape.len() == e.inputs[0].len());
    assert(facts[1].shape.len() == e.inputs[1].len());
    lemma_batched_product(e, product, rows, k, columns);
    lemma_batched_dims(e, fact_shapes(facts), product, rows, k, columns, one());
    assert(e.inputs[0].len() == e.inputs[1].len() && e.inputs[0].len() == e.outputs[0].len());
    lemma_product_fault(op, m, id, product);
}

/// Nothing is added to an einsum that is a batched matrix product.
proof fn lemma_ready(
    m: Model,
    id: int,
    fuel: nat,
    product: BasicMatMul,
    rows: char,
    k: char,
    columns: char,
) -> (found: (char, char))
    requires
        m.wf(),
        next_einsum(m, 0) == Some(id),
        is_ready(m, id, product, rows, k, columns),
    ensures
        normalized(m, fuel) == (m, Ok::<(char, char, char), Error>((found.0, k, found.1))),
        has_roles((m.nodes[id].op->EinSum_0).axes, found.0, k, found.1),
{
    reveal(mkn_step);
    let op = m.nodes[id].op->EinSum_0;
    let e = op.axes;
    let facts = facts_of(m.nodes, m.nodes[id].inputs);
    let shapes = fact_shapes(facts);
    assert(ranks_suit(e, facts)) by {
        assert(node_wf(m.nodes, id));
    }
    assert(facts[0].shape.len() == e.inputs[0].len());
    assert(facts[1].shape.len() == e.inputs[1].len());
    lemma_batched_roles(e, shapes, product, rows, k, columns);
    let found = match roles(e, shapes) {
        Roles::Found(m1, _, n1) => (m1, n1),
        _ => (rows, columns),
    };
    assert(mkn_step(op, m, id) == Ok::<Step, Error>(Step::Annotated(found.0, k, found.1)));
    found
}

/// A model whose one einsum is a batched matrix product is decomposed.
proof fn lemma_ready_replaced(
    m: Model,
    id: int,
    fuel: nat,
    product: BasicMatMul,
    rows: char,
    k: char,
    columns: char,
) -> (found: (char, char))
    requires
        m.wf(),
        next_einsum(m, 0) == Some(id),
        is_last_einsum(m, id),
        is_ready(m, id, product, rows, k, columns),
    ensures
        normalized(m, fuel) == (m, Ok::<(char, char, char), Error>((found.0, k, found.1))),
        product_for((m.nodes[id].op->EinSum_0).axes, found.0, k, found.1) == product,
        replaced(m, found.0, k, found.1).1 == Ok::<(), Error>(()),
{
    let found = lemma_ready(m, id, fuel, product, rows, k, columns);
    lemma_ready_product(m, id, product, rows, k, columns, found);
    let p = product_patch(product, m.nodes[id], id);
    let a = p.applied(m);
    let c = a.compacted();
    lemma_next_einsum(m, 0);
    assert(node_wf(m.nodes, id));
    assert(p.wires[0].op.wf());
    assert(p.aims_at(m));
    lemma_applied(m, p);
    lemma_compacted(a);
    lemma_next_einsum(c, 0);
    assert forall|q: int| 0 <= q < c.nodes.len() implies !is_einsum(#[trigger] c.nodes[q]) by {
        let i = lemma_origin(a, a.nodes.len() as int, q);
        if i < id {
            assert(a.nodes[i] == m.nodes[i]);
        } else if i == id {
            assert(a.nodes[i] == p.wire_nodes(m)[0]);
        } else {
            assert(a.nodes[i] == p.later_nodes(m)[i - id - 1]);
            assert(!is_einsum(m.nodes[i]));
        }
    }
    reveal_with_fuel(replaced, 2);
    assert(next_einsum(c, 0) is None);
    assert(replaced(c, found.0, k, found.1) == (c, Ok::<(), Error>(())));
    found
}

/// Whether a node is the one einsum of a model, on two inputs, without
/// quantization.
pub open spec fn is_only_einsum(m: Model, id: int) -> bool {
    &&& m.wf()
    &&& 0 <= id < m.nodes.len()
    &&& next_einsum(m, 0) == Some(id)
    &&& is_last_einsum(m, id)
    &&& stays_einsum(m)
    &&& is_pair(m, id)
    &&& (m.nodes[id].op->EinSum_0).q_params is None
}

/// Whether the next step on an einsum is a patch that adds leading axes to its
/// inputs.
pub open spec fn completes(
    m: Model,
    id: int,
    p: Patch,
    c: char,
    i0: bool,
    i1: bool,
    at: Layout,
) -> bool {
    &&& mkn_step(m.nodes[id].op->EinSum_0, m, id) == Ok::<Step, Error>(Step::Patch(p))
    &&& p.node == id
    &&& adds_fronts(m, p, c, i0, i1, false, at)
    &&& forall|i: int|
        0 <= i < p.wires.len() && i != at.j ==> !((#[trigger] p.wires[i]).op is EinSum)
}

/// The einsum after one addition.
proof fn lemma_completed(
    m: Model,
    id: int,
    p: Patch,
    c: char,
    i0: bool,
    i1: bool,
    at: Layout,
)
    requires
        is_only_einsum(m, id),
        completes(m, id, p, c, i0, i1, at),
    ensures
        ({
            let d = p.applied(m).compacted();
            let to = p.applied(m).place(id + at.j);
            let op = m.nodes[id].op->EinSum_0;
            let now = facts_of(d.nodes, d.nodes[to].inputs);
            let facts = facts_of(m.nodes, m.nodes[id].inputs);
            &&& is_only_einsum(d, to)
            &&& d.nodes[to].op == OpView::EinSum(op.over(with_front(op.axes, c, i0, i1, false)))
            &&& now[0].datum_type == facts[0].datum_type
            &&& now[0].shape == shape_front(facts[0].shape, i0)
            &&& now[1].shape == shape_front(facts[1].shape, i1)
        }),
{
    let a = p.applied(m);
    let facts = facts_of(m.nodes, m.nodes[id].inputs);
    lemma_step_aims(m, id, p);
    lemma_applied(m, p);
    lemma_step_next(m, id, p, at.j as int);
    lemma_fronts_shapes(m, p, c, i0, i1, false, at);
    lemma_next_einsum(a, 0);
    let node = a.nodes[id + at.j];
    let now = facts_of(a.nodes, node.inputs);
    let before = input_shapes(m, m.nodes[id]);
    let shapes = input_shapes(a, node);
    assert(now[0].shape == shapes[0] && now[1].shape == shapes[1]);
    assert(before[0] == facts[0].shape && before[1] == facts[1].shape);
    let d = a.compacted();
    lemma_compacted(a);
    lemma_compacted_only(a, id + at.j);
    lemma_placed_node(a, id + at.j);
    lemma_first_needed(a);
    lemma_stays_einsum(d, a.place(id + at.j));
}

/// An einsum that one addition turns into a batched matrix product is decomposed
/// into that product.
proof fn lemma_one_step(
    symbols: spec_fn(u64) -> int,
    m: Model,
    id: int,
    p: Patch,
    c: char,
    i0: bool,
    i1: bool,
    at: Layout,
    product: BasicMatMul,
    rows: char,
    k: char,
    columns: char,
)
    requires
        is_only_einsum(m, id),
        completes(m, id, p, c, i0, i1, at),
        is_batched(
            with_front((m.nodes[id].op->EinSum_0).axes, c, i0, i1, false),
            product,
            rows,
            k,
            columns,
        ),
        ({
            let op = m.nodes[id].op->EinSum_0;
            let facts = facts_of(m.nodes, m.nodes[id].inputs);
            &&& facts[0].datum_type == op.operating_dt
            &&& pair_second(shape_front(facts[0].shape, i0), product.transpose_a) == pair_first(
                shape_front(facts[1].shape, i1),
                product.transpose_b,
            )
        }),
    ensures
        decomposed(m).1 is Ok,
        becomes_product(symbols, m),
{
    let a = p.applied(m).compacted();
    let at_id = p.applied(m).place(id + at.j);
    lemma_completed(m, id, p, c, i0, i1, at);
    let f = (a.nodes[at_id].op->EinSum_0).axes;
    assert(is_ready(a, at_id, product, rows, k, columns));
    let found = lemma_ready_replaced(a, at_id, 3, product, rows, k, columns);
    assert(normalized(m, additions()) == normalized(a, 3));
    assert(is_product(symbols, a, at_id, found.0, k, found.1)) by {
        assert(same_but_units(f, f, actual_shapes(symbols, a, at_id)));
    }
}

/// One more operator that suits its inputs.
pub proof fn lemma_wire_push(
    taps: Seq<Fact>,
    wires: Seq<WireView>,
    wire: WireView,
    facts: Seq<Seq<Fact>>,
    f: Seq<Fact>,
)
    requires
        wire_facts(taps, wires) == Some(facts),
        has_refs(taps, facts, wire.inputs),
        wire.op.facts(ref_facts(taps, facts, wire.inputs)) == Some(f),
    ensures
        wire_facts(taps, wires.push(wire)) == Some(facts.push(f)),
{
    assert(wires.push(wire).drop_last() =~= wires);
}

/// Leading axes of dimension one in the inputs leave the shape of the output.
proof fn lemma_front_dims(e: Expr, shapes: Seq<Seq<TDim>>, c: char, i0: bool, i1: bool)
    requires
        e.inputs.len() == 2,
        e.outputs.len() == 1,
        shapes.len() == 2,
        shapes[0].len() == e.inputs[0].len(),
        shapes[1].len() == e.inputs[1].len(),
    ensures
        output_dims(
            with_front(e, c, i0, i1, false),
            shapes_front(shapes, i0, i1),
            one(),
        ) == output_dims(e, shapes, one()),
{
    let f = with_front(e, c, i0, i1, false);
    let s = shapes_front(shapes, i0, i1);
    let left = output_dims(f, s, one());
    let right = output_dims(e, shapes, one());
    assert forall|p: int| 0 <= p < right.len() implies #[trigger] left[p] == right[p] by {
        let l = e.outputs[0][p];
        lemma_extent_two(e.inputs, shapes, l, one());
        lemma_extent_two(f.inputs, s, l, one());
        lemma_row_extent_front(e.inputs[0], shapes[0], l, c, one());
        lemma_row_extent_front(e.inputs[1], shapes[1], l, c, one());
    }
    assert(left =~= right);
}

/// An added axis, as a fact.
pub open spec fn fact_front(fact: Fact) -> Fact {
    Fact { shape: fact.shape.insert(0, TDim::Val(1)), ..fact }
}

/// What an einsum takes with an axis added to one of its inputs.
pub open spec fn facts_front(facts: Seq<Fact>, own: usize) -> Seq<Fact> {
    if own == 0 {
        seq![fact_front(facts[0]), facts[1]]
    } else {
        seq![facts[0], fact_front(facts[1])]
    }
}

/// An axis added to one of its inputs leaves the fact of the output of an einsum.
proof fn lemma_output_kept(op: EinSumView, facts: Seq<Fact>, own: usize, c: char)
    requires
        is_binary(op.axes),
        ranks_suit(op.axes, facts),
        own < 2,
    ensures
        OpView::EinSum(op.over(with_front(op.axes, c, own == 0, own == 1, false))).facts(
            facts_front(facts, own),
        ) == Some(seq![op.output_fact(facts)]),
{
    let e = op.axes;
    let shapes = fact_shapes(facts);
    let given = facts_front(facts, own);
    let f = with_front(e, c, own == 0, own == 1, false);
    assert(facts[0].shape.len() == e.inputs[0].len());
    assert(facts[1].shape.len() == e.inputs[1].len());
    lemma_front_dims(e, shapes, c, own == 0, own == 1);
    assert(fact_shapes(given) =~= shapes_front(shapes, own == 0, own == 1));
    assert(ranks_suit(f, given));
}

/// The patch that lets an input have a label has no fault.
proof fn lemma_input_fault(m: Model, id: int, own: usize, c: char)
    requires
        is_pair(m, id),
        own < 2,
        ({
            let op = m.nodes[id].op->EinSum_0;
            let facts = facts_of(m.nodes, m.nodes[id].inputs);
            &&& ranks_suit(op.axes, facts)
            &&& m.nodes[id].outputs == seq![op.output_fact(facts)]
        }),
    ensures
        input_patch(m.nodes[id].op->EinSum_0, m.nodes[id], id, own, c).fault(m) is None,
{
    let op = m.nodes[id].op->EinSum_0;
    let facts = facts_of(m.nodes, m.nodes[id].inputs);
    let p = input_patch(op, m.nodes[id], id, own, c);
    let none = Seq::<WireView>::empty();
    let added = seq![fact_front(facts[own as int])];
    let output = seq![op.output_fact(facts)];
    let first = Seq::<Seq<Fact>>::empty();
    let second = first.push(added);
    lemma_input_layout(m, id, own, c);
    lemma_output_kept(op, facts, own, c);
    assert(ref_facts(facts, first, p.wires[0].inputs)[0] == facts[own as int]);
    lemma_wire_push(facts, none, p.wires[0], first, added);
    assert(ref_facts(facts, second, p.wires[1].inputs) =~= facts_front(facts, own));
    lemma_wire_push(facts, none.push(p.wires[0]), p.wires[1], second, output);
    assert(none.push(p.wires[0]).push(p.wires[1]) =~= p.wires);
}

/// The patch that adds sums has no fault.
proof fn lemma_k_fault(m: Model, id: int, c: char)
    requires
        is_pair(m, id),
        ({
            let op = m.nodes[id].op->EinSum_0;
            let facts = facts_of(m.nodes, m.nodes[id].inputs);
            &&& ranks_suit(op.axes, facts)
            &&& m.nodes[id].outputs == seq![op.output_fact(facts)]
        }),
    ensures
        k_patch(m.nodes[id].op->EinSum_0, m.nodes[id], id, c).fault(m) is None,
{
    let op = m.nodes[id].op->EinSum_0;
    let e = op.axes;
    let facts = facts_of(m.nodes, m.nodes[id].inputs);
    let shapes = fact_shapes(facts);
    let p = k_patch(op, m.nodes[id], id, c);
    let f = with_front(e, c, true, true, false);
    lemma_k_layout(m, id, c);
    assert(facts[0].shape.len() == e.inputs[0].len());
    assert(facts[1].shape.len() == e.inputs[1].len());
    lemma_front_dims(e, shapes, c, true, true);
    let (a, b) = (seq![fact_front(facts[0])], seq![fact_front(facts[1])]);
    let w0 = Seq::<WireView>::empty();
    let w1 = w0.push(p.wires[0]);
    let w2 = w1.push(p.wires[1]);
    let f0 = Seq::<Seq<Fact>>::empty();
    let f1 = f0.push(a);
    let f2 = f1.push(b);
    assert(ref_facts(facts, f0, p.wires[0].inputs)[0] == facts[0]);
    lemma_wire_push(facts, w0, p.wires[0], f0, a);
    assert(ref_facts(facts, f1, p.wires[1].inputs)[0] == facts[1]);
    lemma_wire_push(facts, w1, p.wires[1], f1, b);
    let given = ref_facts(facts, f2, p.wires[2].inputs);
    assert(given =~= seq![a[0], b[0]]);
    assert(fact_shapes(given) =~= shapes_front(shapes, true, true));
    assert(ranks_suit(f, given));
    let output = seq![op.output_fact(facts)];
    assert(p.wires[2].op.facts(given) == Some(output));
    lemma_wire_push(facts, w2, p.wires[2], f2, output);
    assert(w2.push(p.wires[2]) =~= p.wires);
}

/// Distinct labels stay in front.
proof fn lemma_distinct_prefix(a: Seq<char>, b: Seq<char>)
    requires
        a.no_duplicates(),
    ensures
        distinct(a + b).len() >= a.len(),
        distinct(a + b).take(a.len() as int) == a,
    decreases b.len(), a.len(),
{
    let all = distinct(a + b);
    if b.len() > 0 {
        lemma_distinct_prefix(a, b.drop_last());
        assert((a + b).drop_last() =~= a + b.drop_last());
        let before = distinct(a + b.drop_last());
        assert(all.take(a.len() as int) =~= before.take(a.len() as int));
    } else if a.len() > 0 {
        let short = a.drop_last();
        lemma_distinct_prefix(short, b);
        assert(a + b =~= a);
        assert(short + b =~= short);
        lemma_distinct(short);
        assert(!short.contains(a.last())) by {
            if short.contains(a.last()) {
                let p = choose|p: int| 0 <= p < short.len() && short[p] == a.last();
                assert(a[p] == a[a.len() - 1]);
            }
        }
        assert(distinct(short) =~= short) by {
            assert(distinct(short).len() <= short.len());
            assert(distinct(short).take(short.len() as int) =~= distinct(short));
        }
        assert(all.take(a.len() as int) =~= a);
    } else {
        assert(all.take(0) =~= a);
    }
}

/// The labels of the output come first.
pub proof fn lemma_output_first(e: Expr)
    requires
        e.outputs.len() == 1,
        e.outputs[0].no_duplicates(),
    ensures
        e.labels().len() >= e.outputs[0].len(),
        e.labels().take(e.outputs[0].len() as int) == e.outputs[0],
{
    assert(e.outputs.drop_last() =~= Seq::empty());
    assert(joined(e.outputs.drop_last()) =~= Seq::empty());
    assert(joined(e.outputs) =~= e.outputs[0]);
    lemma_distinct_prefix(e.outputs[0], joined(e.inputs));
}

/// Where labels are in a slot of one axis.
proof fn lemma_one_label(a: char, l: char)
    ensures
        positions(seq![a], l) == if l == a {
            seq![0int]
        } else {
            Seq::<int>::empty()
        },
{
    let labels = seq![a];
    assert(labels[0] == a);
    if l == a {
        lemma_single_at(labels, l, 0);
    } else {
        lemma_absent(labels, l);
    }
}

/// Where labels are in a slot of two axes.
proof fn lemma_two_labels(a: char, b: char, l: char)
    requires
        a != b,
    ensures
        positions(seq![a, b], l) == if l == a {
            seq![0int]
        } else if l == b {
            seq![1int]
        } else {
            Seq::<int>::empty()
        },
{
    let labels = seq![a, b];
    assert(labels[0] == a && labels[1] == b);
    if l == a {
        lemma_single_at(labels, l, 0);
    } else if l == b {
        lemma_single_at(labels, l, 1);
    } else {
        lemma_absent(labels, l);
    }
}

/// Where labels are in a pair of axes.
proof fn lemma_pair_labels(t: bool, a: char, b: char, l: char)
    requires
        a != b,
    ensures
        positions(pair(t, a, b), l) == if l == a {
            if t {
                seq![1int]
            } else {
                seq![0int]
            }
        } else if l == b {
            if t {
                seq![0int]
            } else {
                seq![1int]
            }
        } else {
            Seq::<int>::empty()
        },
{
    if t {
        lemma_two_labels(b, a, l);
    } else {
        lemma_two_labels(a, b, l);
    }
}

/// No label passes a filter that lets none through.
pub proof fn lemma_none_pass(labels: Seq<char>, pred: spec_fn(char) -> bool)
    requires
        forall|c: char| !#[trigger] pred(c),
    ensures
        labels.filter(pred).len() == 0,
{
    if labels.filter(pred).len() > 0 {
        lemma_filtered(labels, pred, 0);
    }
}

/// The product of a vector and a matrix, as a matrix with rows of its own.
pub open spec fn vector_matrix(m: char, k: char, n: char, t: bool) -> Expr {
    Expr { inputs: seq![seq![k], pair(t, k, n)], outputs: seq![seq![m, n]] }
}

/// The product of a matrix and a vector, as a matrix with columns of its own.
pub open spec fn matrix_vector(m: char, k: char, n: char, t: bool) -> Expr {
    Expr { inputs: seq![pair(t, m, k), seq![k]], outputs: seq![seq![m, n]] }
}

/// The products of the elements of two vectors.
pub open spec fn outer_product(m: char, n: char, t: bool) -> Expr {
    Expr { inputs: seq![seq![m], seq![n]], outputs: seq![pair(t, m, n)] }
}

/// The parts of the labels of the product of a vector and a matrix.
proof fn lemma_vector_matrix_parts(
    m: char,
    k: char,
    n: char,
    t: bool,
    shapes: Seq<Seq<TDim>>,
    l: char,
)
    requires
        m != k && k != n && m != n,
        shapes.len() == 2,
        shapes[0].len() == 1,
        shapes[1].len() == 2,
        shapes[0][0] == pair_first(shapes[1], t),
    ensures
        is_k(vector_matrix(m, k, n, t), shapes, l) <==> l == k,
        !is_side(vector_matrix(m, k, n, t), shapes, 0, l),
        is_quasi_side(vector_matrix(m, k, n, t), shapes, 0, m),
        vector_matrix(m, k, n, t).count_in(0, m) == 0,
{
    lemma_one_label(k, l);
    lemma_pair_labels(t, k, n, l);
    lemma_two_labels(m, n, l);
    lemma_one_label(k, m);
    lemma_pair_labels(t, k, n, m);
    lemma_two_labels(m, n, m);
}

/// The product of a vector and a matrix lacks rows.
proof fn lemma_vector_matrix_roles(m: char, k: char, n: char, t: bool, shapes: Seq<Seq<TDim>>)
    requires
        m != k && k != n && m != n,
        shapes.len() == 2,
        shapes[0].len() == 1,
        shapes[1].len() == 2,
        shapes[0][0] == pair_first(shapes[1], t),
    ensures
        roles(vector_matrix(m, k, n, t), shapes) == Roles::NoM(k),
        quasi_sides(vector_matrix(m, k, n, t), shapes, 0, seq![k]).len() > 0,
        quasi_sides(vector_matrix(m, k, n, t), shapes, 0, seq![k])[0] == m,
{
    let e = vector_matrix(m, k, n, t);
    let exclude = seq![k];
    assert forall|l: char| (#[trigger] is_k(e, shapes, l) <==> l == k) by {
        lemma_vector_matrix_parts(m, k, n, t, shapes, l);
    }
    assert forall|l: char| !#[trigger] is_side(e, shapes, 0, l) by {
        lemma_vector_matrix_parts(m, k, n, t, shapes, l);
    }
    lemma_vector_matrix_parts(m, k, n, t, shapes, m);
    assert(is_k(e, shapes, k));
    lemma_only_k(e, shapes, k);
    lemma_none_pass(e.labels(), |l: char| is_side(e, shapes, 0, l));
    let pred = |l: char| !exclude.contains(l) && is_quasi_side(e, shapes, 0, l);
    lemma_output_first(e);
    let labels = e.labels();
    assert(labels.take(2)[0] == m);
    assert(labels.take(1) =~= seq![m]);
    assert(pred(m));
    lemma_first_passes(m, pred);
    lemma_filter_prefix(labels, pred, 1);
}

/// A filter on one label that passes it.
proof fn lemma_first_passes(c: char, pred: spec_fn(char) -> bool)
    requires
        pred(c),
    ensures
        seq![c].filter(pred) == seq![c],
{
    reveal(Seq::filter);
    assert(seq![c].drop_last() =~= Seq::empty());
    assert(seq![c].drop_last().filter(pred) =~= Seq::empty());
    assert(seq![c].filter(pred) =~= seq![c]);
}

/// The addition of a label to an input.
proof fn lemma_input_completes(m: Model, id: int, own: usize, exclude: Seq<char>, c: char)
    requires
        is_only_einsum(m, id),
        own < 2,
        !(m.nodes[id].op->EinSum_0).axes.has('$'),
        ({
            let e = (m.nodes[id].op->EinSum_0).axes;
            let shapes = input_shapes(m, m.nodes[id]);
            let quasi = quasi_sides(e, shapes, own as int, exclude);
            &&& match roles(e, shapes) {
                Roles::NoM(k) => own == 0 && exclude == seq![k],
                Roles::NoN(k, rows) => own == 1 && exclude == seq![k, rows],
                _ => false,
            }
            &&& quasi.len() > 0
            &&& quasi[0] == c
            &&& e.count_in(own as int, c) != 1
        }),
    ensures
        completes(
            m,
            id,
            input_patch(m.nodes[id].op->EinSum_0, m.nodes[id], id, own, c),
            c,
            own == 0,
            own == 1,
            Layout { w0: 0, w1: 0, j: 1 },
        ),
{
    reveal(mkn_step);
    let op = m.nodes[id].op->EinSum_0;
    let p = input_patch(op, m.nodes[id], id, own, c);
    assert(node_wf(m.nodes, id));
    lemma_input_fault(m, id, own, c);
    lemma_input_layout(m, id, own, c);
    assert(mkn_step(op, m, id) == Ok::<Step, Error>(Step::Patch(p)));
}

/// The label that stands in is not in use.
proof fn lemma_stand_in(e: Expr)
    requires
        forall|i: int| 0 <= i < e.inputs.len() ==> !(#[trigger] e.inputs[i]).contains('$'),
        forall|i: int| 0 <= i < e.outputs.len() ==> !(#[trigger] e.outputs[i]).contains('$'),
    ensures
        !e.has('$'),
{
    lemma_has(e, '$');
}

/// With rows, the product of a vector and a matrix is a batched matrix product.
proof fn lemma_vector_matrix_batched(m: char, k: char, n: char, t: bool)
    requires
        m != k && k != n && m != n,
    ensures
        is_batched(
            with_front(vector_matrix(m, k, n, t), m, true, false, false),
            BasicMatMul { transpose_a: false, transpose_b: t, transpose_c: false },
            m,
            k,
            n,
        ),
{
    let f = with_front(vector_matrix(m, k, n, t), m, true, false, false);
    let none = Seq::<char>::empty();
    assert(f.inputs[0] =~= seq![m, k]);
    assert(f.inputs[0].take(0) =~= none);
    assert(none + pair(false, m, k) =~= seq![m, k]);
    assert(none + pair(t, k, n) =~= pair(t, k, n));
    assert(none + pair(false, m, n) =~= seq![m, n]);
    assert(none + seq![m, k, n] =~= seq![m, k, n]);
}

/// Whether a node is the one einsum of a model, with the given expression, on
/// elements of its own type.
pub open spec fn is_only(m: Model, id: int, e: Expr) -> bool {
    let op = m.nodes[id].op->EinSum_0;
    &&& is_only_einsum(m, id)
    &&& op.axes == e
    &&& facts_of(m.nodes, m.nodes[id].inputs)[0].datum_type == op.operating_dt
}

/// The product of a vector and a matrix is decomposed, and into a product with its
/// axes: the vector gets rows.
pub proof fn lemma_vector_matrix(
    symbols: spec_fn(u64) -> int,
    model: Model,
    id: int,
    m: char,
    k: char,
    n: char,
    t: bool,
)
    requires
        is_only(model, id, vector_matrix(m, k, n, t)),
        m != k && k != n && m != n,
        m != '$' && k != '$' && n != '$',
        ({
            let shapes = input_shapes(model, model.nodes[id]);
            shapes[0][0] == pair_first(shapes[1], t)
        }),
    ensures
        decomposed(model).1 is Ok,
        becomes_product(symbols, model),
{
    let e = vector_matrix(m, k, n, t);
    let facts = facts_of(model.nodes, model.nodes[id].inputs);
    let shapes = input_shapes(model, model.nodes[id]);
    assert(ranks_suit(e, facts)) by {
        assert(node_wf(model.nodes, id));
    }
    assert(facts[0].shape.len() == 1 && facts[1].shape.len() == 2) by {
        assert(facts[0].shape.len() == e.inputs[0].len());
        assert(facts[1].shape.len() == e.inputs[1].len());
    }
    lemma_vector_matrix_roles(m, k, n, t, shapes);
    lemma_vector_matrix_parts(m, k, n, t, shapes, m);
    lemma_stand_in(e);
    lemma_input_completes(model, id, 0, seq![k], m);
    lemma_vector_matrix_batched(m, k, n, t);
    let product = BasicMatMul { transpose_a: false, transpose_b: t, transpose_c: false };
    let at = Layout { w0: 0, w1: 0, j: 1 };
    let p = input_patch(model.nodes[id].op->EinSum_0, model.nodes[id], id, 0, m);
    assert(shape_front(facts[0].shape, true)[1] == shapes[0][0]);
    lemma_one_step(symbols, model, id, p, m, true, false, at, product, m, k, n);
}

/// The parts of the labels of the product of a matrix and a vector.
proof fn lemma_matrix_vector_parts(
    m: char,
    k: char,
    n: char,
    t: bool,
    shapes: Seq<Seq<TDim>>,
    l: char,
)
    requires
        m != k && k != n && m != n,
        shapes.len() == 2,
        shapes[0].len() == 2,
        shapes[1].len() == 1,
        shapes[1][0] == pair_second(shapes[0], t),
    ensures
        is_k(matrix_vector(m, k, n, t), shapes, l) <==> l == k,
        is_side(matrix_vector(m, k, n, t), shapes, 0, l) <==> l == m,
        !is_side(matrix_vector(m, k, n, t), shapes, 1, l),
        is_quasi_side(matrix_vector(m, k, n, t), shapes, 1, n),
        matrix_vector(m, k, n, t).count_in(1, n) == 0,
{
    lemma_pair_labels(t, m, k, l);
    lemma_one_label(k, l);
    lemma_two_labels(m, n, l);
    lemma_pair_labels(t, m, k, n);
    lemma_one_label(k, n);
    lemma_two_labels(m, n, n);
}

/// The product of a matrix and a vector lacks columns.
proof fn lemma_matrix_vector_roles(m: char, k: char, n: char, t: bool, shapes: Seq<Seq<TDim>>)
    requires
        m != k && k != n && m != n,
        shapes.len() == 2,
        shapes[0].len() == 2,
        shapes[1].len() == 1,
        shapes[1][0] == pair_second(shapes[0], t),
    ensures
        roles(matrix_vector(m, k, n, t), shapes) == Roles::NoN(k, m),
        quasi_sides(matrix_vector(m, k, n, t), shapes, 1, seq![k, m]).len() > 0,
        quasi_sides(matrix_vector(m, k, n, t), shapes, 1, seq![k, m])[0] == n,
{
    let e = matrix_vector(m, k, n, t);
    let exclude = seq![k, m];
    assert forall|l: char| (#[trigger] is_k(e, shapes, l) <==> l == k) by {
        lemma_matrix_vector_parts(m, k, n, t, shapes, l);
    }
    assert forall|l: char| !#[trigger] is_side(e, shapes, 1, l) by {
        lemma_matrix_vector_parts(m, k, n, t, shapes, l);
    }
    lemma_matrix_vector_parts(m, k, n, t, shapes, m);
    assert(is_k(e, shapes, k));
    lemma_only_k(e, shapes, k);
    lemma_none_pass(e.labels(), |l: char| is_side(e, shapes, 1, l));
    lemma_output_first(e);
    let labels = e.labels();
    assert(labels.take(2)[0] == m && labels.take(2)[1] == n);
    assert(labels[0] == m);
    lemma_filtered_none(labels, |l: char| is_side(e, shapes, 0, l), m);
    lemma_side_label(e, shapes, 0);
    lemma_matrix_vector_parts(m, k, n, t, shapes, widest(e, shapes, side_labels(e, shapes, 0)));
    let pred = |l: char| !exclude.contains(l) && is_quasi_side(e, shapes, 1, l);
    assert(exclude[0] == k && exclude[1] == m);
    assert(!pred(m));
    assert(pred(n));
    assert(labels.take(2) =~= seq![m, n]);
    lemma_second_passes(m, n, pred);
    lemma_filter_prefix(labels, pred, 2);
}

/// A filter on two labels that passes the second alone.
proof fn lemma_second_passes(b: char, c: char, pred: spec_fn(char) -> bool)
    requires
        !pred(b),
        pred(c),
    ensures
        seq![b, c].filter(pred) == seq![c],
{
    reveal(Seq::filter);
    assert(seq![b, c].drop_last() =~= seq![b]);
    assert(seq![b].drop_last() =~= Seq::empty());
    reveal_with_fuel(Seq::filter, 3);
    assert(seq![b].filter(pred) =~= Seq::empty());
    assert(seq![b, c].filter(pred) =~= seq![c]);
}

/// With columns, the product of a matrix and a vector is a batched matrix product.
proof fn lemma_matrix_vector_batched(m: char, k: char, n: char, t: bool)
    requires
        m != k && k != n && m != n,
    ensures
        is_batched(
            with_front(matrix_vector(m, k, n, t), n, false, true, false),
            BasicMatMul { transpose_a: t, transpose_b: true, transpose_c: false },
            m,
            k,
            n,
        ),
{
    let f = with_front(matrix_vector(m, k, n, t), n, false, true, false);
    let none = Seq::<char>::empty();
    assert(f.inputs[1] =~= seq![n, k]);
    assert(f.inputs[0].take(0) =~= none);
    assert(none + pair(t, m, k) =~= pair(t, m, k));
    assert(none + pair(true, k, n) =~= seq![n, k]);
    assert(none + pair(false, m, n) =~= seq![m, n]);
    assert(none + seq![m, k, n] =~= seq![m, k, n]);
}

/// The product of a matrix and a vector is decomposed, and into a product with its
/// axes: the vector gets columns.
pub proof fn lemma_matrix_vector(
    symbols: spec_fn(u64) -> int,
    model: Model,
    id: int,
    m: char,
    k: char,
    n: char,
    t: bool,
)
    requires
        is_only(model, id, matrix_vector(m, k, n, t)),
        m != k && k != n && m != n,
        m != '$' && k != '$' && n != '$',
        ({
            let shapes = input_shapes(model, model.nodes[id]);
            shapes[1][0] == pair_second(shapes[0], t)
        }),
    ensures
        decomposed(model).1 is Ok,
        becomes_product(symbols, model),
{
    let e = matrix_vector(m, k, n, t);
    let facts = facts_of(model.nodes, model.nodes[id].inputs);
    let shapes = input_shapes(model, model.nodes[id]);
    assert(ranks_suit(e, facts)) by {
        assert(node_wf(model.nodes, id));
    }
    assert(facts[0].shape.len() == 2 && facts[1].shape.len() == 1) by {
        assert(facts[0].shape.len() == e.inputs[0].len());
        assert(facts[1].shape.len() == e.inputs[1].len());
    }
    lemma_matrix_vector_roles(m, k, n, t, shapes);
    lemma_matrix_vector_parts(m, k, n, t, shapes, n);
    lemma_stand_in(e);
    lemma_input_completes(model, id, 1, seq![k, m], n);
    lemma_matrix_vector_batched(m, k, n, t);
    let product = BasicMatMul { transpose_a: t, transpose_b: true, transpose_c: false };
    let at = Layout { w0: 0, w1: 0, j: 1 };
    let p = input_patch(model.nodes[id].op->EinSum_0, model.nodes[id], id, 1, n);
    assert(shape_front(facts[1].shape, true)[1] == shapes[1][0]);
    lemma_one_step(symbols, model, id, p, n, false, true, at, product, m, k, n);
}

/// With sums, the products of the elements of two vectors are a batched matrix
/// product.
proof fn lemma_outer_batched(m: char, n: char, t: bool, c: char)
    requires
        m != n && c != m && c != n,
    ensures
        is_batched(
            with_front(outer_product(m, n, t), c, true, true, false),
            BasicMatMul { transpose_a: true, transpose_b: false, transpose_c: t },
            m,
            c,
            n,
        ),
{
    let f = with_front(outer_product(m, n, t), c, true, true, false);
    let none = Seq::<char>::empty();
    assert(f.inputs[0] =~= seq![c, m]);
    assert(f.inputs[1] =~= seq![c, n]);
    assert(f.inputs[0].take(0) =~= none);
    assert(none + pair(true, m, c) =~= seq![c, m]);
    assert(none + pair(false, c, n) =~= seq![c, n]);
    assert(none + pair(t, m, n) =~= pair(t, m, n));
    assert(none + seq![m, c, n] =~= seq![m, c, n]);
}

/// There is a label beside two.
proof fn lemma_third_label(e: Expr, m: char, n: char)
    requires
        forall|c: char| #[trigger] e.has(c) ==> c == m || c == n,
    ensures
        e.free_label() is Some,
{
    if !e.has('a') {
        assert(e.first_free('a'));
    } else if !e.has('b') {
        assert(e.first_free('b')) by {
            assert forall|d: char| 'a' as int <= d as int && (d as int) < ('b' as int) implies
                #[trigger] e.has(d) by {
                assert(d == 'a');
            }
        }
    } else {
        assert(!e.has('c'));
        assert(e.first_free('c')) by {
            assert forall|d: char| 'a' as int <= d as int && (d as int) < ('c' as int) implies
                #[trigger] e.has(d) by {
                assert(d == 'a' || d == 'b');
            }
        }
    }
}

/// The products of the elements of two vectors lack sums.
proof fn lemma_outer_roles(m: char, n: char, t: bool, shapes: Seq<Seq<TDim>>)
    requires
        m != n,
    ensures
        roles(outer_product(m, n, t), shapes) == Roles::NoK,
{
    let e = outer_product(m, n, t);
    assert forall|l: char| !#[trigger] is_k(e, shapes, l) by {
        lemma_one_label(m, l);
        lemma_one_label(n, l);
    }
    lemma_none_pass(e.labels(), |l: char| is_k(e, shapes, l));
    k_labels(e, shapes).lemma_filter_len(|c: char| dim_in(e, shapes, 0, c) != one());
}

/// The label for the sums of the products of the elements of two vectors.
proof fn lemma_outer_label(m: char, n: char, t: bool)
    ensures
        outer_product(m, n, t).free_label() is Some,
        outer_product(m, n, t).free_label()->0 != m,
        outer_product(m, n, t).free_label()->0 != n,
{
    let e = outer_product(m, n, t);
    assert forall|c: char| #[trigger] e.has(c) implies c == m || c == n by {
        lemma_has(e, c);
    }
    lemma_third_label(e, m, n);
    lemma_free_label(e);
    lemma_has(e, m);
    lemma_has(e, n);
    assert(e.inputs[0][0] == m && e.inputs[1][0] == n);
    assert(e.inputs[0].contains(m) && e.inputs[1].contains(n));
}

/// The addition of sums.
proof fn lemma_k_completes(m: Model, id: int, c: char)
    requires
        is_only_einsum(m, id),
        roles((m.nodes[id].op->EinSum_0).axes, input_shapes(m, m.nodes[id])) == Roles::NoK,
        (m.nodes[id].op->EinSum_0).axes.free_label() == Some(c),
    ensures
        completes(
            m,
            id,
            k_patch(m.nodes[id].op->EinSum_0, m.nodes[id], id, c),
            c,
            true,
            true,
            Layout { w0: 0, w1: 1, j: 2 },
        ),
{
    reveal(mkn_step);
    assert(node_wf(m.nodes, id));
    lemma_k_fault(m, id, c);
    lemma_k_layout(m, id, c);
}

/// The products of the elements of two vectors are decomposed, and into a product
/// with their axes: they get sums of one term.
pub proof fn lemma_outer_product(
    symbols: spec_fn(u64) -> int,
    model: Model,
    id: int,
    m: char,
    n: char,
    t: bool,
)
    requires
        is_only(model, id, outer_product(m, n, t)),
        m != n,
    ensures
        decomposed(model).1 is Ok,
        becomes_product(symbols, model),
{
    let e = outer_product(m, n, t);
    let facts = facts_of(model.nodes, model.nodes[id].inputs);
    assert(ranks_suit(e, facts)) by {
        assert(node_wf(model.nodes, id));
    }
    assert(facts[0].shape.len() == 1 && facts[1].shape.len() == 1) by {
        assert(facts[0].shape.len() == e.inputs[0].len());
        assert(facts[1].shape.len() == e.inputs[1].len());
    }
    let c = e.free_label()->0;
    lemma_outer_label(m, n, t);
    lemma_outer_roles(m, n, t, input_shapes(model, model.nodes[id]));
    lemma_k_completes(model, id, c);
    lemma_outer_batched(m, n, t, c);
    let p = k_patch(model.nodes[id].op->EinSum_0, model.nodes[id], id, c);
    let product = BasicMatMul { transpose_a: true, transpose_b: false, transpose_c: t };
    let at = Layout { w0: 0, w1: 1, j: 2 };
    assert(shape_front(facts[0].shape, true)[0] == one());
    assert(shape_front(facts[1].shape, true)[0] == one());
    lemma_one_step(symbols, model, id, p, c, true, true, at, product, m, c, n);
}

/// A batched matrix product is decomposed into itself.
pub proof fn lemma_batched_only(
    symbols: spec_fn(u64) -> int,
    model: Model,
    id: int,
    product: BasicMatMul,
    m: char,
    k: char,
    n: char,
)
    requires
        is_only(model, id, (model.nodes[id].op->EinSum_0).axes),
        is_batched((model.nodes[id].op->EinSum_0).axes, product, m, k, n),
        ({
            let shapes = input_shapes(model, model.nodes[id]);
            pair_second(shapes[0], product.transpose_a) == pair_first(
                shapes[1],
                product.transpose_b,
            )
        }),
    ensures
        decomposed(model).1 is Ok,
        becomes_product(symbols, model),
{
    let e = (model.nodes[id].op->EinSum_0).axes;
    let facts = facts_of(model.nodes, model.nodes[id].inputs);
    let shapes = input_shapes(model, model.nodes[id]);
    assert(facts[0].shape == shapes[0] && facts[1].shape == shapes[1]);
    assert(is_ready(model, id, product, m, k, n));
    let found = lemma_ready_replaced(model, id, additions(), product, m, k, n);
    assert(is_product(symbols, model, id, found.0, k, found.1)) by {
        assert(same_but_units(e, e, actual_shapes(symbols, model, id)));
    }
}

} // verus!
