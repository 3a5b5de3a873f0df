//! Einsums that are batched matrix products as they stand: their decomposition
//! succeeds, and is the one product.

use vstd::prelude::*;

use crate::as_matmul::{
    additions, decomposition, einsum_alone, end_product, ends_in_product, first_outlets, has_roles,
    is_einsum, lemma_next_einsum, normalized, product_for, product_patch, replaced, replacement,
    source_nodes,
};
use crate::compact::{is_output, lemma_all_stay};
use crate::dim::TDim;
use crate::error::Error;
use crate::labels::{Expr, lemma_absent, lemma_has, lemma_positions, lemma_single_at, positions};
use crate::matmul::{
    BasicMatMul, is_batched, lemma_batched_dims, lemma_batched_parts, pair, pair_first, pair_second,
};
use crate::model::{Model, Node, Outlet, facts_of, has_outlets};
use crate::ops::{EinSumView, Fact, OpView, SimpleOp, fact_shapes, ranks_suit};
use crate::optimize::{Step, input_shapes, mkn_step};
use crate::patch::{Patch, lemma_applied, ref_facts, wire_facts};
use crate::preserve::lemma_alone_wf;
use crate::product::{extent, lemma_extent_two, lemma_row_extent_one};
use crate::roles::{
    Roles, blocking_labels, blocks, dim_in, dim_out, is_k, is_side, k_label, k_labels,
    lemma_filtered, lemma_filtered_none, lemma_widest, one, roles, side_labels, wide_k_labels,
    widest,
};

verus! {

/// Where a label of a slot without repetitions is.
proof fn lemma_position(labels: Seq<char>, c: char, p: int)
    requires
        labels.no_duplicates(),
        0 <= p < labels.len(),
        labels[p] == c,
    ensures
        positions(labels, c) == seq![p],
{
    lemma_single_at(labels, c, p);
}

/// The places of the rows, the sums and the columns of a batched matrix product.
pub proof fn lemma_batched_places(e: Expr, op: BasicMatMul, m: char, k: char, n: char)
    requires
        is_batched(e, op, m, k, n),
    ensures
        ({
            let r = e.inputs[0].len() as int;
            &&& e.inputs[1].len() == r
            &&& e.outputs[0].len() == r
            &&& positions(e.inputs[0], k) == seq![if op.transpose_a { r - 2 } else { r - 1 }]
            &&& positions(e.inputs[1], k) == seq![if op.transpose_b { r - 1 } else { r - 2 }]
            &&& positions(e.inputs[0], m) == seq![if op.transpose_a { r - 1 } else { r - 2 }]
            &&& positions(e.inputs[1], n) == seq![if op.transpose_b { r - 2 } else { r - 1 }]
            &&& positions(e.outputs[0], m) == seq![if op.transpose_c { r - 1 } else { r - 2 }]
            &&& positions(e.outputs[0], n) == seq![if op.transpose_c { r - 2 } else { r - 1 }]
            &&& positions(e.outputs[0], k) == Seq::<int>::empty()
            &&& positions(e.inputs[1], m) == Seq::<int>::empty()
            &&& positions(e.inputs[0], n) == Seq::<int>::empty()
        }),
{
    let r = e.inputs[0].len() as int;
    lemma_batched_parts(e, op, m, k, n, m);
    lemma_position(e.inputs[0], k, if op.transpose_a { r - 2 } else { r - 1 });
    lemma_position(e.inputs[1], k, if op.transpose_b { r - 1 } else { r - 2 });
    lemma_position(e.inputs[0], m, if op.transpose_a { r - 1 } else { r - 2 });
    lemma_position(e.inputs[1], n, if op.transpose_b { r - 2 } else { r - 1 });
    lemma_position(e.outputs[0], m, if op.transpose_c { r - 1 } else { r - 2 });
    lemma_position(e.outputs[0], n, if op.transpose_c { r - 2 } else { r - 1 });
    lemma_absent(e.outputs[0], k);
    lemma_absent(e.inputs[1], m);
    lemma_absent(e.inputs[0], n);
}

/// The product for the sums of a batched matrix product is that product.
pub proof fn lemma_batched_product(e: Expr, op: BasicMatMul, m: char, k: char, n: char)
    requires
        is_batched(e, op, m, k, n),
    ensures
        ends_in_product(e, k),
        end_product(e, k) == op,
{
    let r = e.inputs[0].len() as int;
    lemma_batched_parts(e, op, m, k, n, m);
    assert(e.inputs[0][r - 2] == pair(op.transpose_a, m, k)[0]);
    assert(e.inputs[0][r - 1] == pair(op.transpose_a, m, k)[1]);
    assert(e.inputs[1][r - 2] == pair(op.transpose_b, k, n)[0]);
    assert(e.inputs[1][r - 1] == pair(op.transpose_b, k, n)[1]);
    assert(e.outputs[0][r - 2] == pair(op.transpose_c, m, n)[0]);
    assert(e.outputs[0][r - 1] == pair(op.transpose_c, m, n)[1]);
}

/// A dimension other than one makes the extent of an output label other than one.
proof fn lemma_wide_out(e: Expr, shapes: Seq<Seq<TDim>>, c: char, t: int, p: int)
    requires
        e.inputs.len() == 2,
        shapes.len() == 2,
        shapes[0].len() == e.inputs[0].len(),
        shapes[1].len() == e.inputs[1].len(),
        e.outputs.len() == 1,
        e.count_out(0, c) > 0,
        0 <= t < 2,
        0 <= p < e.inputs[t].len(),
        e.inputs[t][p] == c,
        shapes[t][p] != one(),
    ensures
        dim_out(e, shapes, c) != one(),
{
    lemma_positions(e.outputs[0], c);
    assert(e.outputs[0][e.first_out(0, c)] == c);
    lemma_extent_two(e.inputs, shapes, c, one());
    if extent(e.inputs, shapes, c, one()) == one() {
        lemma_row_extent_one(e.inputs[t], shapes[t], c, one());
    }
}

/// No label of a batched matrix product keeps it from being one.
proof fn lemma_batched_unblocked(
    e: Expr,
    shapes: Seq<Seq<TDim>>,
    op: BasicMatMul,
    m: char,
    k: char,
    n: char,
    c: char,
)
    requires
        is_batched(e, op, m, k, n),
        shapes.len() == 2,
        shapes[0].len() == e.inputs[0].len(),
        shapes[1].len() == e.inputs[1].len(),
        pair_second(shapes[0], op.transpose_a) == pair_first(shapes[1], op.transpose_b),
    ensures
        !blocks(e, shapes, c),
{
    lemma_batched_places(e, op, m, k, n);
    lemma_batched_parts(e, op, m, k, n, c);
    lemma_positions(e.inputs[0], c);
    lemma_positions(e.inputs[1], c);
    lemma_positions(e.outputs[0], c);
    if c != k {
        if e.count_in(0, c) > 0 && dim_in(e, shapes, 0, c) != one() {
            assert(e.inputs[0][e.first_in(0, c)] == c);
            lemma_wide_out(e, shapes, c, 0, e.first_in(0, c));
        }
        if e.count_in(1, c) > 0 && dim_in(e, shapes, 1, c) != one() {
            assert(e.inputs[1][e.first_in(1, c)] == c);
            lemma_wide_out(e, shapes, c, 1, e.first_in(1, c));
        }
    }
}

/// A label that alone can be summed over is the one to sum over.
pub proof fn lemma_only_k(e: Expr, shapes: Seq<Seq<TDim>>, k: char)
    requires
        e.inputs.len() >= 1,
        is_k(e, shapes, k),
        forall|c: char| #[trigger] is_k(e, shapes, c) ==> c == k,
    ensures
        k_labels(e, shapes).len() > 0,
        wide_k_labels(e, shapes).len() <= 1,
        k_label(e, shapes) == k,
{
    let pred = |c: char| is_k(e, shapes, c);
    let wide = |c: char| dim_in(e, shapes, 0, c) != one();
    let labels = e.labels();
    let ks = k_labels(e, shapes);
    lemma_has(e, k);
    lemma_positions(e.inputs[0], k);
    assert(e.inputs[0].contains(k));
    lemma_filtered_none(labels, pred, k);
    assert forall|i: int| 0 <= i < ks.len() implies #[trigger] ks[i] == k by {
        lemma_filtered(labels, pred, i);
        assert(is_k(e, shapes, ks[i]));
    }
    lemma_filter_distinct(labels, pred);
    if ks.len() > 1 {
        assert(ks[0] == k && ks[1] == k);
    }
    ks.lemma_filter_len(wide);
    if wide_k_labels(e, shapes).len() > 0 {
        lemma_filtered(ks, wide, 0);
        let i = choose|i: int| 0 <= i < ks.len() && ks[i] == wide_k_labels(e, shapes)[0];
        assert(ks[i] == k);
    }
}

/// The one label that a batched matrix product can sum over is its own.
proof fn lemma_batched_k(
    e: Expr,
    shapes: Seq<Seq<TDim>>,
    op: BasicMatMul,
    m: char,
    k: char,
    n: char,
)
    requires
        is_batched(e, op, m, k, n),
        shapes.len() == 2,
        shapes[0].len() == e.inputs[0].len(),
        shapes[1].len() == e.inputs[1].len(),
        pair_second(shapes[0], op.transpose_a) == pair_first(shapes[1], op.transpose_b),
    ensures
        k_labels(e, shapes).len() > 0,
        wide_k_labels(e, shapes).len() <= 1,
        k_label(e, shapes) == k,
{
    lemma_batched_places(e, op, m, k, n);
    assert(is_k(e, shapes, k));
    assert forall|c: char| #[trigger] is_k(e, shapes, c) implies c == k by {
        lemma_batched_parts(e, op, m, k, n, c);
        lemma_positions(e.inputs[0], c);
        lemma_positions(e.outputs[0], c);
    }
    lemma_only_k(e, shapes, k);
}

/// What passes a filter of distinct labels is distinct.
pub proof fn lemma_filter_distinct(labels: Seq<char>, pred: spec_fn(char) -> bool)
    requires
        labels.no_duplicates(),
    ensures
        labels.filter(pred).no_duplicates(),
    decreases labels.len(),
{
    reveal(Seq::filter);
    if labels.len() > 0 {
        let short = labels.drop_last();
        lemma_filter_distinct(short, pred);
        let before = short.filter(pred);
        assert forall|i: int| 0 <= i < before.len() implies #[trigger] before[i]
            != labels.last() by {
            lemma_filtered(short, pred, i);
            let p = choose|p: int| 0 <= p < short.len() && short[p] == before[i];
            assert(labels[p] != labels[labels.len() - 1]);
        }
    }
}

/// The axes of a batched matrix product are found, with its sums.
pub proof fn lemma_batched_roles(
    e: Expr,
    shapes: Seq<Seq<TDim>>,
    op: BasicMatMul,
    m: char,
    k: char,
    n: char,
)
    requires
        is_batched(e, op, m, k, n),
        shapes.len() == 2,
        shapes[0].len() == e.inputs[0].len(),
        shapes[1].len() == e.inputs[1].len(),
        pair_second(shapes[0], op.transpose_a) == pair_first(shapes[1], op.transpose_b),
    ensures
        roles(e, shapes) matches Roles::Found(rows, sums, columns) && sums == k && has_roles(
            e,
            rows,
            k,
            columns,
        ),
{
    let labels = e.labels();
    let rows = side_labels(e, shapes, 0);
    let columns = side_labels(e, shapes, 1);
    lemma_batched_places(e, op, m, k, n);
    lemma_batched_k(e, shapes, op, m, k, n);
    lemma_positions(e.outputs[0], m);
    lemma_positions(e.outputs[0], n);
    assert(e.outputs[0].contains(m) && e.outputs[0].contains(n));
    lemma_has(e, m);
    lemma_has(e, n);
    assert(is_side(e, shapes, 0, m));
    assert(is_side(e, shapes, 1, n));
    lemma_filtered_none(labels, |c: char| is_side(e, shapes, 0, c), m);
    lemma_filtered_none(labels, |c: char| is_side(e, shapes, 1, c), n);
    if blocking_labels(e, shapes).len() > 0 {
        lemma_filtered(labels, |c: char| blocks(e, shapes, c), 0);
        lemma_batched_unblocked(e, shapes, op, m, k, n, blocking_labels(e, shapes)[0]);
    }
    lemma_widest(e, shapes, rows);
    lemma_widest(e, shapes, columns);
    let i = choose|i: int| 0 <= i < rows.len() && rows[i] == widest(e, shapes, rows);
    lemma_filtered(labels, |c: char| is_side(e, shapes, 0, c), i);
    let j = choose|j: int| 0 <= j < columns.len() && columns[j] == widest(e, shapes, columns);
    lemma_filtered(labels, |c: char| is_side(e, shapes, 1, c), j);
}

/// The model of a matrix product alone, on inputs with the given facts.
pub open spec fn product_alone(
    op: BasicMatMul,
    name: Seq<char>,
    facts: Seq<Fact>,
    output: Fact,
) -> Model {
    Model {
        nodes: source_nodes(facts).push(
            Node {
                name,
                inputs: first_outlets(facts.len()),
                op: OpView::Simple(SimpleOp::BasicMatMul(op)),
                outputs: seq![output],
            },
        ),
        outputs: seq![Outlet { node: facts.len() as int, slot: 0 }],
    }
}

/// An einsum that is a batched matrix product is decomposed into that product.
pub proof fn lemma_direct(
    op: EinSumView,
    model: Model,
    node: Node,
    product: BasicMatMul,
    m: char,
    k: char,
    n: char,
)
    requires
        op.wf(),
        op.q_params is None,
        is_batched(op.axes, product, m, k, n),
        has_outlets(model.nodes, node.inputs, model.nodes.len() as int),
        ranks_suit(op.axes, facts_of(model.nodes, node.inputs)),
        facts_of(model.nodes, node.inputs)[0].datum_type == op.operating_dt,
        pair_second(facts_of(model.nodes, node.inputs)[0].shape, product.transpose_a)
            == pair_first(facts_of(model.nodes, node.inputs)[1].shape, product.transpose_b),
    ensures
        decomposition(op, model, node) == Ok::<Model, Error>(
            product_alone(
                product,
                node.name,
                facts_of(model.nodes, node.inputs),
                op.output_fact(facts_of(model.nodes, node.inputs)),
            ),
        ),
{
    reveal(mkn_step);
    let e = op.axes;
    let facts = facts_of(model.nodes, node.inputs);
    let shapes = fact_shapes(facts);
    let alone = einsum_alone(op, node.name, facts);
    let want = product_alone(product, node.name, facts, op.output_fact(facts));
    lemma_alone_wf(op, node.name, facts);
    lemma_next_einsum(alone, 0);
    assert(is_einsum(alone.nodes[2]));
    assert(!is_einsum(alone.nodes[0]) && !is_einsum(alone.nodes[1]));
    assert(facts[0].shape.len() == e.inputs[0].len());
    assert(facts[1].shape.len() == e.inputs[1].len());
    lemma_batched_roles(e, shapes, product, m, k, n);
    lemma_batched_product(e, product, m, k, n);
    lemma_batched_places(e, product, m, k, n);
    lemma_batched_dims(e, shapes, product, m, k, n, one());
    assert(input_shapes(alone, alone.nodes[2]) =~= shapes);
    let (rows, columns) = match roles(e, shapes) {
        Roles::Found(rows, _, columns) => (rows, columns),
        _ => (m, n),
    };
    assert(mkn_step(op, alone, 2) == Ok::<Step, Error>(Step::Annotated(rows, k, columns)));
    assert(normalized(alone, additions()) == (alone, Ok::<(char, char, char), Error>(
        (rows, k, columns),
    )));
    let p = product_patch(product, alone.nodes[2], 2);
    assert(product_for(e, rows, k, columns) == product);
    assert(p.fault(alone) is None) by {
        lemma_product_fault(op, alone, 2, product);
    }
    assert(replacement(alone, 2, rows, k, columns) == Ok::<Patch, Error>(p));
    reveal_with_fuel(replaced, 2);
    let a = p.applied(alone);
    assert(a.nodes =~= want.nodes) by {
        assert(p.wire_nodes(alone)[0].inputs =~= first_outlets(2)) by {
            assert(p.taps == first_outlets(2));
        }
        lemma_product_facts(op, alone, 2, product);
        assert(p.wire_nodes(alone)[0] == want.nodes[2]);
        assert(a.nodes[0] == alone.nodes[0] && a.nodes[1] == alone.nodes[1]);
    }
    assert(a.outputs =~= want.outputs);
    assert(a =~= want);
    lemma_applied(alone, p);
    assert(a.outputs[0].node == 2);
    assert(is_output(a, 2));
    assert forall|i: int| 0 <= i < a.nodes.len() implies #[trigger] a.stays(i) by {
        if i < 2 {
            assert(a.nodes[i] == source_nodes(facts)[i]);
        }
    }
    lemma_all_stay(a);
    lemma_next_einsum(a, 0);
    assert(!is_einsum(a.nodes[0]) && !is_einsum(a.nodes[1]) && !is_einsum(a.nodes[2]));
    assert(replaced(alone, rows, k, columns) == (a, Ok::<(), Error>(())));
}

/// The facts of a product in the place of an einsum of its shape.
pub proof fn lemma_product_facts(op: EinSumView, m: Model, id: int, product: BasicMatMul)
    requires
        m.nodes[id].op == OpView::EinSum(op),
        m.nodes[id].inputs.len() == 2,
        ({
            let facts = facts_of(m.nodes, m.nodes[id].inputs);
            SimpleOp::BasicMatMul(product).facts(facts) == Some(seq![op.output_fact(facts)])
        }),
    ensures
        product_patch(product, m.nodes[id], id).facts(m) == Some(
            seq![seq![op.output_fact(facts_of(m.nodes, m.nodes[id].inputs))]],
        ),
{
    let p = product_patch(product, m.nodes[id], id);
    let facts = facts_of(m.nodes, m.nodes[id].inputs);
    let refs = p.wires[0].inputs;
    assert(p.wires.drop_last() =~= Seq::empty());
    assert(p.wires.last() == p.wires[0]);
    reveal_with_fuel(wire_facts, 2);
    let none = Seq::<Seq<Fact>>::empty();
    assert(ref_facts(facts, none, refs) =~= facts);
    assert(p.facts(m) == Some(none.push(seq![op.output_fact(facts)])));
    assert(none.push(seq![op.output_fact(facts)]) =~= seq![seq![op.output_fact(facts)]]);
}

/// A product in the place of an einsum of its shape has no fault.
pub proof fn lemma_product_fault(op: EinSumView, m: Model, id: int, product: BasicMatMul)
    requires
        m.nodes[id].op == OpView::EinSum(op),
        m.nodes[id].inputs.len() == 2,
        m.nodes[id].outputs == seq![op.output_fact(facts_of(m.nodes, m.nodes[id].inputs))],
        ({
            let facts = facts_of(m.nodes, m.nodes[id].inputs);
            SimpleOp::BasicMatMul(product).facts(facts) == Some(seq![op.output_fact(facts)])
        }),
    ensures
        product_patch(product, m.nodes[id], id).fault(m) is None,
{
    lemma_product_facts(op, m, id, product);
}

} // verus!
