//! Which quantized einsums can be dequantized.

use vstd::prelude::*;

use crate::axis_ops::{axis_ops, changed, dims_for, lemma_axis_ops};
use crate::dequant::{
    Terms, axis_wire, chained, corrections, dequant_patch, dequantized, fix_names, fixed, products,
    pushed, raw_einsum, scale_axes, scale_input, scale_names, scaled, simple_wire, term_axes,
};
use crate::dim::TDim;
use crate::error::Error;
use crate::labels::{Expr, lemma_positions, positions};
use crate::meaning::lemma_extent_one;
use crate::model::{Model, facts_of, node_wf};
use crate::ops::{
    AxisOp, DatumType, EinSumView, Fact, OpView, SimpleOp, broadcast_dim, broadcast_shape,
    fact_shapes, padded, rank_broadcast,
};
use crate::packed::lemma_axis_of;
use crate::patch::{Patch, Ref, WireView, has_ref, ref_fact, ref_facts, wire_facts};
use crate::product::{extent, lemma_row_extent_found, lemma_row_extent_one, output_dims, row_extent};
use crate::quantized::{lemma_lone_volume, lemma_ones_volume, lemma_trailing_shape};
use crate::roles::{dim_in, one};
use crate::vectors::lemma_wire_push;

verus! {

/// Whether dimensions other than one under the same label are the same.
pub open spec fn all_agree(labels: Seq<Seq<char>>, shapes: Seq<Seq<TDim>>) -> bool {
    forall|s: int, i: int, t: int, j: int|
        #![trigger labels[s][i], labels[t][j]]
        0 <= s < labels.len() && 0 <= i < labels[s].len() && 0 <= t < labels.len() && 0 <= j
            < labels[t].len() && labels[s][i] == labels[t][j] && shapes[s][i] != TDim::Val(1)
            && shapes[t][j] != TDim::Val(1) ==> shapes[s][i] == shapes[t][j]
}

/// Whether a type is one of bytes.
pub open spec fn is_byte(dt: DatumType) -> bool {
    match dt {
        DatumType::I8 | DatumType::U8 | DatumType::QI8(_) | DatumType::QU8(_) => true,
        _ => false,
    }
}

/// Whether the scale of an operand is a single one, or runs along an axis of the output.
pub open spec fn scale_suits(e: Expr, facts: Seq<Fact>, s: int) -> bool {
    ||| forall|i: int| 0 <= i < facts[s].shape.len() ==> #[trigger] facts[s].shape[i] == TDim::Val(
        1,
    )
    ||| e.inputs[s].len() == 1 && facts[s].shape[0] != TDim::Val(1) && e.outputs[0].contains(
        e.inputs[s][0],
    )
}

/// Whether a quantized einsum over the sums `k` can be dequantized.
///
/// Its operands are bytes, and its bias is of the type that it operates in. None of these
/// has a label twice, and under labels that the output does not have their dimensions are
/// one, but for that of the sums. Dimensions under the same label agree, and those of the
/// output are those of the operands and the bias. Its scales are single, or run along an
/// axis of the output.
pub open spec fn is_dequantizable(m: Model, id: int, k: char) -> bool {
    let node = m.nodes[id];
    let op = node.op->EinSum_0;
    let e = op.axes;
    let facts = facts_of(m.nodes, node.inputs);
    let shapes = fact_shapes(facts);
    &&& node.inputs.len() == 9
    &&& e.inputs[0].no_duplicates()
    &&& e.inputs[1].no_duplicates()
    &&& e.inputs[2].no_duplicates()
    &&& e.inputs[0].contains(k)
    &&& e.inputs[1].contains(k)
    &&& is_byte(facts[0].datum_type)
    &&& is_byte(facts[1].datum_type)
    &&& facts[2].datum_type == op.operating_dt
    &&& all_agree(e.inputs, shapes)
    &&& forall|t: int, i: int|
        0 <= t < 3 && 0 <= i < e.inputs[t].len() && !e.outputs[0].contains(
            #[trigger] e.inputs[t][i],
        ) && (e.inputs[t][i] != k || t == 2) ==> shapes[t][i] == TDim::Val(1)
    &&& forall|s: int, i: int|
        3 <= s < 9 && 0 <= i < e.inputs[s].len() && shapes[s][i] != TDim::Val(1)
            && e.outputs[0].contains(#[trigger] e.inputs[s][i]) ==> exists|t: int, j: int|
            0 <= t < 3 && 0 <= j < e.inputs[t].len() && #[trigger] e.inputs[t][j]
                == e.inputs[s][i] && shapes[t][j] != TDim::Val(1)
    &&& scale_suits(e, facts, 4)
    &&& scale_suits(e, facts, 6)
    &&& e.inputs[8].len() == 0
}

/// The extent of a label is any dimension of it other than one, where these agree.
proof fn lemma_extent_agreed(labels: Seq<Seq<char>>, shapes: Seq<Seq<TDim>>, s: int, i: int)
    requires
        shapes.len() == labels.len(),
        forall|t: int| 0 <= t < labels.len() ==> (#[trigger] shapes[t]).len() == labels[t].len(),
        all_agree(labels, shapes),
        0 <= s < labels.len(),
        0 <= i < labels[s].len(),
        shapes[s][i] != one(),
    ensures
        extent(labels, shapes, labels[s][i], one()) == shapes[s][i],
    decreases labels.len(),
{
    let c = labels[s][i];
    let (a, b) = (labels.drop_last(), shapes.drop_last());
    let last = labels.len() - 1;
    assert(shapes[last].len() == labels[last].len());
    assert forall|t: int| 0 <= t < a.len() implies (#[trigger] b[t]).len() == a[t].len() by {
        assert(b[t] == shapes[t]);
    }
    assert(all_agree(a, b)) by {
        assert forall|s1: int, i1: int, t: int, j: int|
            #![trigger a[s1][i1], a[t][j]]
            0 <= s1 < a.len() && 0 <= i1 < a[s1].len() && 0 <= t < a.len() && 0 <= j
                < a[t].len() && a[s1][i1] == a[t][j] && b[s1][i1] != TDim::Val(1) && b[t][j]
                != TDim::Val(1) implies b[s1][i1] == b[t][j] by {
            assert(labels[s1][i1] == labels[t][j]);
        }
    }
    if extent(a, b, c, one()) != one() {
        lemma_extent_one(a, b, c, one());
        let t = choose|t: int|
            0 <= t < a.len() && row_extent(#[trigger] a[t], b[t], c, one()) != one();
        assert(b[t].len() == a[t].len());
        let j = lemma_row_extent_found(a[t], b[t], c, one());
        lemma_extent_agreed(a, b, t, j);
        assert(labels[t][j] == labels[s][i]);
    } else {
        if s < last {
            lemma_extent_agreed(a, b, s, i);
        }
        if row_extent(labels.last(), shapes.last(), c, one()) == one() {
            lemma_row_extent_one(labels.last(), shapes.last(), c, one());
        }
        let j = lemma_row_extent_found(labels.last(), shapes.last(), c, one());
        assert(labels[last][j] == labels[s][i]);
    }
}

/// Whether facts are the first of others.
spec fn precede(a: Seq<Seq<Fact>>, b: Seq<Seq<Fact>>) -> bool {
    &&& a.len() <= b.len()
    &&& forall|i: int| 0 <= i < a.len() ==> #[trigger] b[i] == a[i]
}

/// References to what is there stay.
proof fn lemma_precede(taps: Seq<Fact>, a: Seq<Seq<Fact>>, b: Seq<Seq<Fact>>, r: Ref)
    requires
        precede(a, b),
        has_ref(taps, a, r),
    ensures
        has_ref(taps, b, r),
        ref_fact(taps, b, r) == ref_fact(taps, a, r),
{
    match r {
        Ref::Wire(i, s) => {
            assert(b[i as int] == a[i as int]);
        },
        Ref::Tap(_) => {},
    }
}

/// One more operator, and the fact of its first output.
proof fn lemma_one_more(
    taps: Seq<Fact>,
    wires: Seq<WireView>,
    facts: Seq<Seq<Fact>>,
    wire: WireView,
    f: Seq<Fact>,
) -> (r: Seq<Seq<Fact>>)
    requires
        wire_facts(taps, wires) == Some(facts),
        facts.len() == wires.len(),
        wires.len() <= usize::MAX,
        forall|i: int| 0 <= i < wire.inputs.len() ==> has_ref(taps, facts, #[trigger] wire.inputs[i]),
        wire.op.facts(ref_facts(taps, facts, wire.inputs)) == Some(f),
        f.len() > 0,
    ensures
        r == facts.push(f),
        wire_facts(taps, pushed(wires, wire).0) == Some(r),
        r.len() == wires.len() + 1,
        precede(facts, r),
        has_ref(taps, r, pushed(wires, wire).1),
        ref_fact(taps, r, pushed(wires, wire).1) == f[0],
{
    lemma_wire_push(taps, wires, wire, facts, f);
    facts.push(f)
}

/// The facts of a chain of axis operators that can be applied.
proof fn lemma_chain_facts(
    taps: Seq<Fact>,
    wires: Seq<WireView>,
    facts: Seq<Seq<Fact>>,
    input: Ref,
    names: Seq<Seq<char>>,
    ops: Seq<AxisOp>,
    n: int,
) -> (r: Seq<Seq<Fact>>)
    requires
        wire_facts(taps, wires) == Some(facts),
        facts.len() == wires.len(),
        has_ref(taps, facts, input),
        0 <= n <= ops.len(),
        wires.len() + n <= usize::MAX,
        changed(ops.take(n), ref_fact(taps, facts, input).shape, one()) is Some,
    ensures
        ({
            let (all, end) = chained(wires, input, names, ops, n);
            let fact = ref_fact(taps, facts, input);
            &&& wire_facts(taps, all) == Some(r)
            &&& all.len() == wires.len() + n
            &&& r.len() == all.len()
            &&& precede(facts, r)
            &&& has_ref(taps, r, end)
            &&& ref_fact(taps, r, end) == (Fact {
                shape: changed(ops.take(n), fact.shape, one())->0,
                ..fact
            })
        }),
    decreases n,
{
    let fact = ref_fact(taps, facts, input);
    if n > 0 {
        assert(ops.take(n).drop_last() =~= ops.take(n - 1));
        assert(ops.take(n).last() == ops[n - 1]);
        let before = lemma_chain_facts(taps, wires, facts, input, names, ops, n - 1);
        let (all, end) = chained(wires, input, names, ops, n - 1);
        let wire = axis_wire(names[n - 1], ops[n - 1], end);
        let f = seq![
            Fact { shape: changed(ops.take(n), fact.shape, one())->0, ..fact },
        ];
        assert(ref_facts(taps, before, wire.inputs) =~= seq![ref_fact(taps, before, end)]);
        lemma_one_more(taps, all, before, wire, f)
    } else {
        assert(ops.take(0) =~= Seq::empty());
        facts
    }
}

/// The dimension of a label in a slot; one, if it does not have it.
spec fn slot_dim(labels: Seq<char>, shape: Seq<TDim>, c: char) -> TDim {
    if labels.contains(c) {
        shape[positions(labels, c)[0]]
    } else {
        one()
    }
}

/// The axis operators of an input bring a shape to the axes of the output, if it has the
/// dimension one under the labels that the output does not have.
proof fn lemma_fixed_shape(e: Expr, t: usize, shape: Seq<TDim>) -> (ops: Seq<AxisOp>)
    requires
        t < e.inputs.len(),
        e.outputs.len() == 1,
        e.outputs[0].no_duplicates(),
        e.inputs[t as int].no_duplicates(),
        e.inputs[t as int].len() <= usize::MAX,
        e.outputs[0].len() <= usize::MAX,
        shape.len() == e.inputs[t as int].len(),
        forall|i: int|
            0 <= i < shape.len() && !e.outputs[0].contains(#[trigger] e.inputs[t as int][i])
                ==> shape[i] == one(),
    ensures
        axis_ops(term_axes(e, t)) == Ok::<Seq<AxisOp>, Error>(ops),
        changed(ops, shape, one()) == Some(
            Seq::new(
                e.outputs[0].len(),
                |q: int| slot_dim(e.inputs[t as int], shape, e.outputs[0][q]),
            ),
        ),
{
    let f = term_axes(e, t);
    let (from, to) = (e.inputs[t as int], e.outputs[0]);
    assert(f.inputs[0] == from && f.outputs[0] == to);
    assert(f.inputs.len() == 1 && f.outputs.len() == 1);
    let ops = axis_ops(f)->Ok_0;
    let dims = |c: char| slot_dim(from, shape, c);
    lemma_axis_ops(f, ops, dims, one());
    assert(dims_for(from, to, dims, one()) =~= shape) by {
        assert forall|i: int| 0 <= i < from.len() implies #[trigger] dims_for(
            from,
            to,
            dims,
            one(),
        )[i] == shape[i] by {
            lemma_axis_of(from, i);
            assert(e.inputs[t as int][i] == from[i]);
        }
    }
    assert(dims_for(to, from, dims, one()) =~= Seq::new(
        to.len(),
        |q: int| slot_dim(from, shape, to[q]),
    ));
    ops
}

/// What is known of the operators that multiply the operands, and sum each up.
spec fn has_products(
    taps: Seq<Fact>,
    op: EinSumView,
    k: char,
    facts: Seq<Seq<Fact>>,
    terms: Terms,
) -> bool {
    let e = op.axes;
    &&& has_ref(taps, facts, terms.product)
    &&& ref_fact(taps, facts, terms.product) == (Fact {
        datum_type: op.operating_dt,
        shape: output_dims(raw_einsum(op).axes, seq![taps[0].shape, taps[1].shape], one()),
    })
    &&& has_ref(taps, facts, terms.a0)
    &&& has_ref(taps, facts, terms.b0)
    &&& has_ref(taps, facts, terms.sum_a)
    &&& ref_fact(taps, facts, terms.sum_a).shape == taps[0].shape.update(
        e.first_in(0, k),
        one(),
    )
    &&& has_ref(taps, facts, terms.sum_b)
    &&& ref_fact(taps, facts, terms.sum_b).shape == taps[1].shape.update(
        e.first_in(1, k),
        one(),
    )
}

/// An operator that brings an operand of bytes, and its zero point, to signed ones.
spec fn signing(name: Seq<char>, x: usize, x0: usize) -> WireView {
    simple_wire(name, SimpleOp::EnsureSigned, seq![Ref::Tap(x), Ref::Tap(x0)])
}

/// The operators that multiply operands of bytes suit them.
proof fn lemma_times_facts(
    taps: Seq<Fact>,
    op: EinSumView,
    name: Seq<char>,
    wires: Seq<WireView>,
    facts: Seq<Seq<Fact>>,
) -> (r: Seq<Seq<Fact>>)
    requires
        wire_facts(taps, wires) == Some(facts),
        facts.len() == wires.len(),
        wires.len() + 7 <= usize::MAX,
        taps.len() == 9,
        op.axes.inputs.len() == 9,
        op.axes.outputs.len() == 1,
        taps[0].shape.len() == op.axes.inputs[0].len(),
        taps[1].shape.len() == op.axes.inputs[1].len(),
        is_byte(taps[0].datum_type),
        is_byte(taps[1].datum_type),
    ensures
        ({
            let (v1, a) = pushed(wires, signing(name + ".ensure_q8_a"@, 0, 3));
            let (v2, b) = pushed(v1, signing(name + ".ensure_q8_b"@, 1, 5));
            let times = WireView {
                name,
                op: OpView::EinSum(raw_einsum(op)),
                inputs: seq![a, b],
            };
            let (v3, product) = pushed(v2, times);
            &&& wire_facts(taps, v3) == Some(r)
            &&& r.len() == v3.len()
            &&& v3.len() == wires.len() + 3
            &&& precede(facts, r)
            &&& has_ref(taps, r, a)
            &&& ref_fact(taps, r, a).shape == taps[0].shape
            &&& has_ref(taps, r, b)
            &&& ref_fact(taps, r, b).shape == taps[1].shape
            &&& has_ref(taps, r, Ref::Wire(wires.len() as usize, 1))
            &&& has_ref(taps, r, Ref::Wire((wires.len() + 1) as usize, 1))
            &&& has_ref(taps, r, product)
            &&& ref_fact(taps, r, product) == (Fact {
                datum_type: op.operating_dt,
                shape: output_dims(
                    raw_einsum(op).axes,
                    seq![taps[0].shape, taps[1].shape],
                    one(),
                ),
            })
        }),
{
    let e = op.axes;
    let sign_a = signing(name + ".ensure_q8_a"@, 0, 3);
    let (v1, a) = pushed(wires, sign_a);
    let sign_b = signing(name + ".ensure_q8_b"@, 1, 5);
    let (v2, b) = pushed(v1, sign_b);
    let times = WireView { name, op: OpView::EinSum(raw_einsum(op)), inputs: seq![a, b] };
    let in_a = ref_facts(taps, facts, sign_a.inputs);
    assert(in_a[0] == taps[0] && in_a[1] == taps[3]);
    let out_a = sign_a.op.facts(in_a)->0;
    let f1 = lemma_one_more(taps, wires, facts, sign_a, out_a);
    let in_b = ref_facts(taps, f1, sign_b.inputs);
    assert(in_b[0] == taps[1] && in_b[1] == taps[5]);
    let out_b = sign_b.op.facts(in_b)->0;
    let f2 = lemma_one_more(taps, v1, f1, sign_b, out_b);
    lemma_precede(taps, f1, f2, a);
    let (x, y) = (ref_fact(taps, f2, a), ref_fact(taps, f2, b));
    let both = ref_facts(taps, f2, times.inputs);
    assert(both =~= seq![x, y]);
    assert(x.shape == taps[0].shape && y.shape == taps[1].shape);
    assert(fact_shapes(both) =~= seq![taps[0].shape, taps[1].shape]);
    let f = raw_einsum(op).axes;
    assert(f.inputs =~= seq![e.inputs[0], e.inputs[1]]);
    assert(f.outputs =~= e.outputs);
    let out = times.op.facts(both)->0;
    let f3 = lemma_one_more(taps, v2, f2, times, out);
    lemma_precede(taps, f2, f3, a);
    lemma_precede(taps, f2, f3, b);
    assert(f3[wires.len() as int] == out_a);
    assert(f3[v1.len() as int] == out_b);
    assert(out_a.len() == 2 && out_b.len() == 2);
    f3
}

/// The operators that sum two operands up suit them.
proof fn lemma_sums_facts(
    taps: Seq<Fact>,
    wires: Seq<WireView>,
    facts: Seq<Seq<Fact>>,
    a: Ref,
    b: Ref,
    names: Seq<Seq<char>>,
    axes: (int, int),
) -> (r: Seq<Seq<Fact>>)
    requires
        wire_facts(taps, wires) == Some(facts),
        facts.len() == wires.len(),
        wires.len() + 4 <= usize::MAX,
        has_ref(taps, facts, a),
        has_ref(taps, facts, b),
        0 <= axes.0 < ref_fact(taps, facts, a).shape.len() <= usize::MAX,
        0 <= axes.1 < ref_fact(taps, facts, b).shape.len() <= usize::MAX,
    ensures
        ({
            let cast_a = simple_wire(names[0], SimpleOp::Cast(DatumType::I32), seq![a]);
            let (v1, a_i32) = pushed(wires, cast_a);
            let cast_b = simple_wire(names[1], SimpleOp::Cast(DatumType::I32), seq![b]);
            let (v2, b_i32) = pushed(v1, cast_b);
            let total_a = simple_wire(names[2], SimpleOp::Sum(axes.0 as usize), seq![a_i32]);
            let (v3, sum_a) = pushed(v2, total_a);
            let total_b = simple_wire(names[3], SimpleOp::Sum(axes.1 as usize), seq![b_i32]);
            let (v4, sum_b) = pushed(v3, total_b);
            &&& wire_facts(taps, v4) == Some(r)
            &&& r.len() == v4.len()
            &&& v4.len() == wires.len() + 4
            &&& precede(facts, r)
            &&& has_ref(taps, r, sum_a)
            &&& ref_fact(taps, r, sum_a).shape == ref_fact(taps, facts, a).shape.update(
                axes.0,
                one(),
            )
            &&& has_ref(taps, r, sum_b)
            &&& ref_fact(taps, r, sum_b).shape == ref_fact(taps, facts, b).shape.update(
                axes.1,
                one(),
            )
        }),
{
    let (x, y) = (ref_fact(taps, facts, a), ref_fact(taps, facts, b));
    let cast_a = simple_wire(names[0], SimpleOp::Cast(DatumType::I32), seq![a]);
    let (v1, a_i32) = pushed(wires, cast_a);
    let cast_b = simple_wire(names[1], SimpleOp::Cast(DatumType::I32), seq![b]);
    let (v2, b_i32) = pushed(v1, cast_b);
    let total_a = simple_wire(names[2], SimpleOp::Sum(axes.0 as usize), seq![a_i32]);
    let (v3, sum_a) = pushed(v2, total_a);
    let total_b = simple_wire(names[3], SimpleOp::Sum(axes.1 as usize), seq![b_i32]);
    assert(ref_facts(taps, facts, cast_a.inputs) =~= seq![x]);
    let f1 = lemma_one_more(
        taps,
        wires,
        facts,
        cast_a,
        seq![Fact { datum_type: DatumType::I32, ..x }],
    );
    lemma_precede(taps, facts, f1, b);
    assert(ref_facts(taps, f1, cast_b.inputs) =~= seq![y]);
    let f2 = lemma_one_more(taps, v1, f1, cast_b, seq![Fact { datum_type: DatumType::I32, ..y }]);
    lemma_precede(taps, f1, f2, a_i32);
    let xi = ref_fact(taps, f2, a_i32);
    assert(ref_facts(taps, f2, total_a.inputs) =~= seq![xi]);
    let f3 = lemma_one_more(taps, v2, f2, total_a, total_a.op.facts(seq![xi])->0);
    lemma_precede(taps, f2, f3, b_i32);
    let yi = ref_fact(taps, f3, b_i32);
    assert(ref_facts(taps, f3, total_b.inputs) =~= seq![yi]);
    let f4 = lemma_one_more(taps, v3, f3, total_b, total_b.op.facts(seq![yi])->0);
    lemma_precede(taps, f3, f4, sum_a);
    f4
}

/// The operators that multiply bytes, and sum each operand up, suit them.
proof fn lemma_products_facts(
    taps: Seq<Fact>,
    op: EinSumView,
    name: Seq<char>,
    k: char,
    wires: Seq<WireView>,
    facts: Seq<Seq<Fact>>,
    scales: (Ref, Ref),
) -> (r: Seq<Seq<Fact>>)
    requires
        wire_facts(taps, wires) == Some(facts),
        facts.len() == wires.len(),
        wires.len() + 7 <= usize::MAX,
        taps.len() == 9,
        op.axes.inputs.len() == 9,
        op.axes.outputs.len() == 1,
        taps[0].shape.len() == op.axes.inputs[0].len(),
        taps[1].shape.len() == op.axes.inputs[1].len(),
        taps[0].shape.len() <= usize::MAX,
        taps[1].shape.len() <= usize::MAX,
        is_byte(taps[0].datum_type),
        is_byte(taps[1].datum_type),
        0 <= op.axes.first_in(0, k) < op.axes.inputs[0].len(),
        0 <= op.axes.first_in(1, k) < op.axes.inputs[1].len(),
    ensures
        ({
            let (all, terms) = products(op, name, k, wires, scales.0, scales.1);
            &&& wire_facts(taps, all) == Some(r)
            &&& all.len() == wires.len() + 7
            &&& r.len() == all.len()
            &&& precede(facts, r)
            &&& has_products(taps, op, k, r, terms)
            &&& terms.a_scale == scales.0
            &&& terms.b_scale == scales.1
        }),
{
    let e = op.axes;
    let (v1, a) = pushed(wires, signing(name + ".ensure_q8_a"@, 0, 3));
    let (v2, b) = pushed(v1, signing(name + ".ensure_q8_b"@, 1, 5));
    let times = WireView { name, op: OpView::EinSum(raw_einsum(op)), inputs: seq![a, b] };
    let (v3, product) = pushed(v2, times);
    let names = seq![
        name + ".a_as_i32"@,
        name + ".b_as_i32"@,
        name + ".sum_a"@,
        name + ".sum_b"@,
    ];
    let axes = (e.first_in(0, k), e.first_in(1, k));
    let f3 = lemma_times_facts(taps, op, name, wires, facts);
    let f7 = lemma_sums_facts(taps, v3, f3, a, b, names, axes);
    let terms = products(op, name, k, wires, scales.0, scales.1).1;
    lemma_precede(taps, f3, f7, product);
    lemma_precede(taps, f3, f7, Ref::Wire(wires.len() as usize, 1));
    lemma_precede(taps, f3, f7, Ref::Wire((wires.len() + 1) as usize, 1));
    assert(terms.product == product);
    assert(terms.a0 == Ref::Wire(wires.len() as usize, 1));
    assert(terms.b0 == Ref::Wire((wires.len() + 1) as usize, 1));
    f7
}

/// Whether a shape stretches to another from its last axes on.
spec fn stretches_to(shape: Seq<TDim>, dims: Seq<TDim>) -> bool {
    forall|p: int|
        0 <= p < shape.len() ==> #[trigger] shape[p] == one() || (p + dims.len() - shape.len()
            >= 0 && shape[p] == dims[p + dims.len() - shape.len()])
}

/// Shapes that stretch to another broadcast, and stretch to it together.
proof fn lemma_stretched(a: Seq<TDim>, b: Seq<TDim>, dims: Seq<TDim>)
    requires
        stretches_to(a, dims),
        stretches_to(b, dims),
    ensures
        rank_broadcast(a, b) is Some,
        stretches_to(rank_broadcast(a, b)->0, dims),
{
    let n = if a.len() <= b.len() {
        b.len()
    } else {
        a.len()
    };
    let (x, y) = (padded(a, n), padded(b, n));
    if a.len() <= b.len() {
        assert(y =~= b);
    } else {
        assert(x =~= a);
    }
    assert forall|p: int| 0 <= p < n implies (#[trigger] x[p] == one() || (p + dims.len() - n >= 0
        && x[p] == dims[p + dims.len() - n])) && (y[p] == one() || (p + dims.len() - n >= 0
        && y[p] == dims[p + dims.len() - n])) by {
        if p >= n - a.len() {
            assert(x[p] == a[p - (n - a.len())]);
        }
        if p >= n - b.len() {
            assert(y[p] == b[p - (n - b.len())]);
        }
    }
    assert forall|p: int| 0 <= p < n implies broadcast_dim(#[trigger] x[p], y[p]) is Some by {
        assert(x[p] == x[p]);
    }
    let j = rank_broadcast(a, b)->0;
    assert forall|p: int| 0 <= p < j.len() implies #[trigger] j[p] == one() || (p + dims.len()
        - j.len() >= 0 && j[p] == dims[p + dims.len() - j.len()]) by {
        assert(x[p] == x[p]);
    }
}

/// What is known of an einsum that can be dequantized, of its ranks and its output.
spec fn is_ranked(m: Model, id: int) -> bool {
    let node = m.nodes[id];
    let e = (node.op->EinSum_0).axes;
    let facts = facts_of(m.nodes, node.inputs);
    &&& node.op is EinSum
    &&& e.inputs.len() == 9
    &&& e.outputs.len() == 1
    &&& e.outputs[0].no_duplicates()
    &&& facts.len() == 9
    &&& forall|s: int| 0 <= s < 9 ==> (#[trigger] facts[s]).shape.len() == e.inputs[s].len()
    &&& node.outputs.len() == 1
    &&& node.outputs[0] == (node.op->EinSum_0).output_fact(facts)
    &&& e.inputs[0].len() <= usize::MAX
    &&& e.inputs[1].len() <= usize::MAX
    &&& e.inputs[2].len() <= usize::MAX
    &&& e.outputs[0].len() <= usize::MAX
}

/// The scale of an operand gets the axes that it lacks.
proof fn lemma_scale_facts(
    m: Model,
    id: int,
    ab: int,
    wires: Seq<WireView>,
    facts: Seq<Seq<Fact>>,
) -> (r: (int, Seq<Seq<Fact>>))
    requires
        is_ranked(m, id),
        ab == 0 || ab == 1,
        ({
            let e = (m.nodes[id].op->EinSum_0).axes;
            let taps = facts_of(m.nodes, m.nodes[id].inputs);
            &&& all_agree(e.inputs, fact_shapes(taps))
            &&& scale_suits(e, taps, scale_input(ab))
            &&& wire_facts(taps, wires) == Some(facts)
            &&& facts.len() == wires.len()
            &&& scale_axes(e, taps, m.nodes[id].outputs[0].shape.len() as int, ab) matches Ok(n)
                ==> wires.len() + n <= usize::MAX
        }),
    ensures
        ({
            let node = m.nodes[id];
            let e = (node.op->EinSum_0).axes;
            let taps = facts_of(m.nodes, node.inputs);
            let dims = node.outputs[0].shape;
            let (all, end) = scaled(wires, node.name, ab, r.0 as nat);
            &&& scale_axes(e, taps, dims.len() as int, ab) == Ok::<int, Error>(r.0)
            &&& 0 <= r.0 <= e.outputs[0].len()
            &&& wire_facts(taps, all) == Some(r.1)
            &&& all.len() == wires.len() + r.0
            &&& r.1.len() == all.len()
            &&& precede(facts, r.1)
            &&& has_ref(taps, r.1, end)
            &&& stretches_to(ref_fact(taps, r.1, end).shape, dims)
        }),
{
    let node = m.nodes[id];
    let e = (node.op->EinSum_0).axes;
    let taps = facts_of(m.nodes, node.inputs);
    let shapes = fact_shapes(taps);
    let dims = node.outputs[0].shape;
    let s = scale_input(ab);
    let given = taps[s].shape;
    let input = Ref::Tap(s as usize);
    assert(given.len() == e.inputs[s].len());
    assert forall|t: int| 0 <= t < e.inputs.len() implies (#[trigger] shapes[t]).len()
        == e.inputs[t].len() by {
        assert(taps[t].shape.len() == e.inputs[t].len());
    }
    if forall|i: int| 0 <= i < given.len() ==> #[trigger] given[i] == TDim::Val(1) {
        lemma_ones_volume(given);
        (0, facts)
    } else {
        let c = e.inputs[s][0];
        assert(given =~= seq![given[0]]);
        lemma_lone_volume(given[0]);
        lemma_positions(e.outputs[0], c);
        let q = e.first_out(0, c);
        let n = dims.len() - q - 1;
        let ops = Seq::new(n as nat, |i: int| AxisOp::Add((i + 1) as usize));
        lemma_trailing_shape(ops, given[0], n);
        let r = lemma_chain_facts(
            taps,
            wires,
            facts,
            input,
            scale_names(node.name, ab, n as nat),
            ops,
            n,
        );
        assert(shapes[s][0] == given[0]);
        lemma_extent_agreed(e.inputs, shapes, s, 0);
        assert(dims[q] == extent(e.inputs, shapes, e.outputs[0][q], one()));
        (n, r)
    }
}

/// The shape of the product of the operands, with the bias, is that of the output.
proof fn lemma_biased_shape(m: Model, id: int, k: char, bias: Seq<TDim>)
    requires
        is_ranked(m, id),
        is_dequantizable(m, id, k),
        ({
            let e = (m.nodes[id].op->EinSum_0).axes;
            let taps = facts_of(m.nodes, m.nodes[id].inputs);
            bias == Seq::new(
                e.outputs[0].len(),
                |q: int| slot_dim(e.inputs[2], taps[2].shape, e.outputs[0][q]),
            )
        }),
    ensures
        ({
            let op = m.nodes[id].op->EinSum_0;
            let taps = facts_of(m.nodes, m.nodes[id].inputs);
            let product = output_dims(
                raw_einsum(op).axes,
                seq![taps[0].shape, taps[1].shape],
                one(),
            );
            broadcast_shape(product, bias) == Some(m.nodes[id].outputs[0].shape)
        }),
{
    let node = m.nodes[id];
    let op = node.op->EinSum_0;
    let e = op.axes;
    let taps = facts_of(m.nodes, node.inputs);
    let shapes = fact_shapes(taps);
    let dims = node.outputs[0].shape;
    let f = raw_einsum(op).axes;
    let two = seq![taps[0].shape, taps[1].shape];
    let product = output_dims(f, two, one());
    assert(f.inputs =~= seq![e.inputs[0], e.inputs[1]]);
    assert(f.outputs =~= e.outputs);
    assert(all_agree(f.inputs, two)) by {
        assert forall|s: int, i: int, t: int, j: int|
            #![trigger f.inputs[s][i], f.inputs[t][j]]
            0 <= s < f.inputs.len() && 0 <= i < f.inputs[s].len() && 0 <= t < f.inputs.len()
                && 0 <= j < f.inputs[t].len() && f.inputs[s][i] == f.inputs[t][j] && two[s][i]
                != TDim::Val(1) && two[t][j] != TDim::Val(1) implies two[s][i] == two[t][j] by {
            assert(e.inputs[s][i] == e.inputs[t][j]);
            assert(shapes[s][i] == two[s][i] && shapes[t][j] == two[t][j]);
        }
    }
    assert forall|t: int| 0 <= t < e.inputs.len() implies (#[trigger] shapes[t]).len()
        == e.inputs[t].len() by {
        assert(taps[t].shape.len() == e.inputs[t].len());
    }
    assert forall|t: int| 0 <= t < f.inputs.len() implies (#[trigger] two[t]).len()
        == f.inputs[t].len() by {
        assert(taps[t].shape.len() == e.inputs[t].len());
    }
    assert forall|q: int| 0 <= q < dims.len() implies broadcast_dim(#[trigger] product[q], bias[q])
        == Some(dims[q]) by {
        let c = e.outputs[0][q];
        lemma_extent_one(f.inputs, two, c, one());
        lemma_extent_one(e.inputs, shapes, c, one());
        lemma_positions(e.inputs[2], c);
        if product[q] != one() {
            let t = choose|t: int|
                0 <= t < f.inputs.len() && row_extent(#[trigger] f.inputs[t], two[t], c, one())
                    != one();
            assert(two[t].len() == f.inputs[t].len());
            let i = lemma_row_extent_found(f.inputs[t], two[t], c, one());
            lemma_extent_agreed(f.inputs, two, t, i);
            assert(e.inputs[t][i] == c && shapes[t][i] == two[t][i]);
            lemma_extent_agreed(e.inputs, shapes, t, i);
        }
        if bias[q] != one() {
            let j = positions(e.inputs[2], c)[0];
            assert(e.inputs[2][j] == c && shapes[2][j] == bias[q]);
            lemma_extent_agreed(e.inputs, shapes, 2, j);
        }
        if dims[q] != one() {
            let s = choose|s: int|
                0 <= s < e.inputs.len() && row_extent(#[trigger] e.inputs[s], shapes[s], c, one())
                    != one();
            assert(shapes[s].len() == e.inputs[s].len());
            let i = lemma_row_extent_found(e.inputs[s], shapes[s], c, one());
            assert(e.outputs[0].contains(e.inputs[s][i]));
            let (t, j) = if s < 3 {
                (s, i)
            } else {
                choose|t: int, j: int|
                    0 <= t < 3 && 0 <= j < e.inputs[t].len() && #[trigger] e.inputs[t][j]
                        == e.inputs[s][i] && shapes[t][j] != TDim::Val(1)
            };
            assert(e.inputs[t][j] == c);
            if t < 2 {
                assert(f.inputs[t][j] == c && two[t][j] == shapes[t][j]);
                lemma_extent_agreed(f.inputs, two, t, j);
            } else {
                lemma_axis_of(e.inputs[2], j);
            }
        }
    }
    assert(product.len() == bias.len());
    assert(broadcast_shape(product, bias) is Some);
    assert(broadcast_shape(product, bias)->0 =~= dims);
}

/// Scales that stretch to the output can be combined.
proof fn lemma_combined_fact(scales: Seq<Fact>, dims: Seq<TDim>) -> (r: Seq<Fact>)
    requires
        scales.len() == 3,
        stretches_to(scales[0].shape, dims),
        stretches_to(scales[1].shape, dims),
        stretches_to(scales[2].shape, dims),
    ensures
        OpView::Simple(SimpleOp::CombineScales).facts(scales) == Some(r),
        r.len() == 1,
{
    lemma_stretched(scales[0].shape, scales[1].shape, dims);
    lemma_stretched(rank_broadcast(scales[0].shape, scales[1].shape)->0, scales[2].shape, dims);
    OpView::Simple(SimpleOp::CombineScales).facts(scales)->0
}

/// Tensors of one type that broadcast can be added.
proof fn lemma_added_fact(sums: Seq<Fact>, dims: Seq<TDim>) -> (r: Seq<Fact>)
    requires
        sums.len() == 2,
        sums[0].datum_type == sums[1].datum_type,
        broadcast_shape(sums[0].shape, sums[1].shape) == Some(dims),
    ensures
        OpView::Simple(SimpleOp::Add).facts(sums) == Some(r),
        r.len() == 1,
        r[0].shape == dims,
{
    OpView::Simple(SimpleOp::Add).facts(sums)->0
}

/// The operators that combine the scales and add the bias.
spec fn mixing(name: Seq<char>, terms: Terms, bias: Ref) -> (WireView, WireView) {
    (
        simple_wire(
            name + ".combine_scales"@,
            SimpleOp::CombineScales,
            seq![terms.a_scale, terms.b_scale, Ref::Tap(8)],
        ),
        simple_wire(name + ".add_bias"@, SimpleOp::Add, seq![terms.product, bias]),
    )
}

/// They suit scales that stretch to the output, and a bias that broadcasts to it.
proof fn lemma_mixing_facts(
    taps: Seq<Fact>,
    name: Seq<char>,
    wires: Seq<WireView>,
    facts: Seq<Seq<Fact>>,
    terms: Terms,
    bias: Ref,
    dims: Seq<TDim>,
) -> (r: Seq<Seq<Fact>>)
    requires
        wire_facts(taps, wires) == Some(facts),
        facts.len() == wires.len(),
        wires.len() + 2 <= usize::MAX,
        taps.len() == 9,
        has_ref(taps, facts, terms.a_scale),
        has_ref(taps, facts, terms.b_scale),
        has_ref(taps, facts, terms.product),
        has_ref(taps, facts, bias),
        stretches_to(ref_fact(taps, facts, terms.a_scale).shape, dims),
        stretches_to(ref_fact(taps, facts, terms.b_scale).shape, dims),
        stretches_to(taps[8].shape, dims),
        ref_fact(taps, facts, terms.product).datum_type == ref_fact(taps, facts, bias).datum_type,
        broadcast_shape(
            ref_fact(taps, facts, terms.product).shape,
            ref_fact(taps, facts, bias).shape,
        ) == Some(dims),
    ensures
        ({
            let (combine, plus) = mixing(name, terms, bias);
            let (v1, scale) = pushed(wires, combine);
            let (v2, biased) = pushed(v1, plus);
            &&& wire_facts(taps, v2) == Some(r)
            &&& r.len() == v2.len()
            &&& v2.len() == wires.len() + 2
            &&& precede(facts, r)
            &&& has_ref(taps, r, scale)
            &&& has_ref(taps, r, biased)
            &&& ref_fact(taps, r, biased).shape == dims
        }),
{
    let (combine, plus) = mixing(name, terms, bias);
    let (v1, scale) = pushed(wires, combine);
    let scales = ref_facts(taps, facts, combine.inputs);
    assert(scales[0] == ref_fact(taps, facts, terms.a_scale));
    assert(scales[1] == ref_fact(taps, facts, terms.b_scale));
    assert(scales[2] == taps[8]);
    let mixed = lemma_combined_fact(scales, dims);
    let f1 = lemma_one_more(taps, wires, facts, combine, mixed);
    lemma_precede(taps, facts, f1, terms.product);
    lemma_precede(taps, facts, f1, bias);
    let sums = ref_facts(taps, f1, plus.inputs);
    assert(sums[0] == ref_fact(taps, facts, terms.product));
    assert(sums[1] == ref_fact(taps, facts, bias));
    let total = lemma_added_fact(sums, dims);
    let f2 = lemma_one_more(taps, v1, f1, plus, total);
    lemma_precede(taps, f1, f2, scale);
    f2
}

/// The operators that take the zero points away and quantize suit what is added up.
proof fn lemma_ending_facts(
    taps: Seq<Fact>,
    name: Seq<char>,
    wires: Seq<WireView>,
    facts: Seq<Seq<Fact>>,
    terms: Terms,
    scale: Ref,
    biased: Ref,
    k: TDim,
    dt: DatumType,
    dims: Seq<TDim>,
) -> (r: Seq<Seq<Fact>>)
    requires
        wire_facts(taps, wires) == Some(facts),
        facts.len() == wires.len(),
        wires.len() + 2 <= usize::MAX,
        taps.len() == 9,
        has_ref(taps, facts, scale),
        has_ref(taps, facts, biased),
        has_ref(taps, facts, terms.a0),
        has_ref(taps, facts, terms.b0),
        has_ref(taps, facts, terms.sum_a),
        has_ref(taps, facts, terms.sum_b),
        ref_fact(taps, facts, biased).shape == dims,
        ref_fact(taps, facts, terms.sum_a).shape.len() == dims.len(),
        ref_fact(taps, facts, terms.sum_b).shape.len() == dims.len(),
    ensures
        ({
            let center = simple_wire(
                name + ".compensate_zero_points"@,
                SimpleOp::CompensateZeroPoints(k),
                seq![biased, terms.a0, terms.b0, terms.sum_a, terms.sum_b],
            );
            let (v1, centered) = pushed(wires, center);
            let quantize = simple_wire(
                name + ".requant"@,
                SimpleOp::Requant(dt),
                seq![centered, scale, Ref::Tap(7)],
            );
            let (v2, by) = pushed(v1, quantize);
            &&& wire_facts(taps, v2) == Some(r)
            &&& has_ref(taps, r, by)
            &&& ref_fact(taps, r, by) == (Fact { datum_type: dt, shape: dims })
        }),
{
    let center = simple_wire(
        name + ".compensate_zero_points"@,
        SimpleOp::CompensateZeroPoints(k),
        seq![biased, terms.a0, terms.b0, terms.sum_a, terms.sum_b],
    );
    let (v1, centered) = pushed(wires, center);
    let quantize = simple_wire(
        name + ".requant"@,
        SimpleOp::Requant(dt),
        seq![centered, scale, Ref::Tap(7)],
    );
    let parts = ref_facts(taps, facts, center.inputs);
    assert(parts[0] == ref_fact(taps, facts, biased));
    assert(parts[3] == ref_fact(taps, facts, terms.sum_a));
    assert(parts[4] == ref_fact(taps, facts, terms.sum_b));
    let f1 = lemma_one_more(taps, wires, facts, center, seq![parts[0]]);
    lemma_precede(taps, facts, f1, scale);
    let last = ref_facts(taps, f1, quantize.inputs);
    assert(last[0] == parts[0]);
    lemma_one_more(taps, v1, f1, quantize, seq![Fact { datum_type: dt, ..parts[0] }])
}

/// The operators that put the parts of a dequantized einsum together suit them, and give
/// its output.
proof fn lemma_corrections_facts(
    taps: Seq<Fact>,
    name: Seq<char>,
    wires: Seq<WireView>,
    facts: Seq<Seq<Fact>>,
    terms: Terms,
    bias: Ref,
    k: TDim,
    dt: DatumType,
    dims: Seq<TDim>,
) -> (r: Seq<Seq<Fact>>)
    requires
        wire_facts(taps, wires) == Some(facts),
        facts.len() == wires.len(),
        wires.len() + 4 <= usize::MAX,
        taps.len() == 9,
        has_ref(taps, facts, terms.a_scale),
        has_ref(taps, facts, terms.b_scale),
        has_ref(taps, facts, terms.product),
        has_ref(taps, facts, bias),
        has_ref(taps, facts, terms.a0),
        has_ref(taps, facts, terms.b0),
        has_ref(taps, facts, terms.sum_a),
        has_ref(taps, facts, terms.sum_b),
        stretches_to(ref_fact(taps, facts, terms.a_scale).shape, dims),
        stretches_to(ref_fact(taps, facts, terms.b_scale).shape, dims),
        stretches_to(taps[8].shape, dims),
        ref_fact(taps, facts, terms.product).datum_type == ref_fact(taps, facts, bias).datum_type,
        broadcast_shape(
            ref_fact(taps, facts, terms.product).shape,
            ref_fact(taps, facts, bias).shape,
        ) == Some(dims),
        ref_fact(taps, facts, terms.sum_a).shape.len() == dims.len(),
        ref_fact(taps, facts, terms.sum_b).shape.len() == dims.len(),
    ensures
        ({
            let (all, by) = corrections(name, wires, terms, bias, k, dt);
            &&& wire_facts(taps, all) == Some(r)
            &&& has_ref(taps, r, by)
            &&& ref_fact(taps, r, by) == (Fact { datum_type: dt, shape: dims })
        }),
{
    let (combine, plus) = mixing(name, terms, bias);
    let (v1, scale) = pushed(wires, combine);
    let (v2, biased) = pushed(v1, plus);
    let f2 = lemma_mixing_facts(taps, name, wires, facts, terms, bias, dims);
    lemma_precede(taps, facts, f2, terms.a0);
    lemma_precede(taps, facts, f2, terms.b0);
    lemma_precede(taps, facts, f2, terms.sum_a);
    lemma_precede(taps, facts, f2, terms.sum_b);
    lemma_ending_facts(taps, name, v2, f2, terms, scale, biased, k, dt, dims)
}

/// How many operators a chain has.
proof fn lemma_chain_len(
    wires: Seq<WireView>,
    input: Ref,
    names: Seq<Seq<char>>,
    ops: Seq<AxisOp>,
    n: int,
)
    requires
        n >= 0,
    ensures
        chained(wires, input, names, ops, n).0.len() == wires.len() + n,
    decreases n,
{
    if n > 0 {
        lemma_chain_len(wires, input, names, ops, n - 1);
    }
}

/// The patch that dequantizes an einsum.
pub open spec fn patch_of(m: Model, id: int, k: char) -> Patch {
    let node = m.nodes[id];
    let op = node.op->EinSum_0;
    let e = op.axes;
    let facts = facts_of(m.nodes, node.inputs);
    let rank = node.outputs[0].shape.len() as int;
    dequant_patch(
        op,
        node,
        id,
        k,
        dim_in(e, fact_shapes(facts), 0, k),
        (
            scale_axes(e, facts, rank, 0)->Ok_0 as nat,
            scale_axes(e, facts, rank, 1)->Ok_0 as nat,
        ),
        (
            axis_ops(term_axes(e, 0))->Ok_0,
            axis_ops(term_axes(e, 1))->Ok_0,
            axis_ops(term_axes(e, 2))->Ok_0,
        ),
    )
}

/// A sum of an operand, and the bias, get the axes of the output.
proof fn lemma_fix_facts(
    taps: Seq<Fact>,
    e: Expr,
    t: usize,
    name: Seq<char>,
    var: Seq<char>,
    wires: Seq<WireView>,
    facts: Seq<Seq<Fact>>,
    input: Ref,
) -> (r: Seq<Seq<Fact>>)
    requires
        wire_facts(taps, wires) == Some(facts),
        facts.len() == wires.len(),
        has_ref(taps, facts, input),
        t < e.inputs.len(),
        e.outputs.len() == 1,
        e.outputs[0].no_duplicates(),
        e.inputs[t as int].no_duplicates(),
        e.inputs[t as int].len() <= usize::MAX,
        e.outputs[0].len() <= usize::MAX,
        wires.len() + (axis_ops(term_axes(e, t))->Ok_0).len() <= usize::MAX,
        ({
            let shape = ref_fact(taps, facts, input).shape;
            &&& shape.len() == e.inputs[t as int].len()
            &&& forall|i: int|
                0 <= i < shape.len() && !e.outputs[0].contains(#[trigger] e.inputs[t as int][i])
                    ==> shape[i] == one()
        }),
    ensures
        axis_ops(term_axes(e, t)) is Ok,
        ({
            let ops = axis_ops(term_axes(e, t))->Ok_0;
            let (all, end) = fixed(wires, input, name, var, ops);
            let fact = ref_fact(taps, facts, input);
            &&& wire_facts(taps, all) == Some(r)
            &&& all.len() == wires.len() + ops.len()
            &&& r.len() == all.len()
            &&& precede(facts, r)
            &&& has_ref(taps, r, end)
            &&& ref_fact(taps, r, end) == (Fact {
                shape: Seq::new(
                    e.outputs[0].len(),
                    |q: int| slot_dim(e.inputs[t as int], fact.shape, e.outputs[0][q]),
                ),
                ..fact
            })
        }),
{
    let ops = lemma_fixed_shape(e, t, ref_fact(taps, facts, input).shape);
    assert(ops.take(ops.len() as int) =~= ops);
    lemma_chain_facts(
        taps,
        wires,
        facts,
        input,
        fix_names(name, var, ops.len()),
        ops,
        ops.len() as int,
    )
}

/// The scales of an einsum that can be dequantized get their axes, and so do its operands
/// and its bias.
pub proof fn lemma_parts_suit(m: Model, id: int, k: char)
    requires
        m.wf(),
        0 <= id < m.nodes.len(),
        m.nodes[id].op is EinSum,
        is_dequantizable(m, id, k),
        (m.nodes[id].op->EinSum_0).axes.inputs[0].len() <= usize::MAX,
        (m.nodes[id].op->EinSum_0).axes.inputs[1].len() <= usize::MAX,
        (m.nodes[id].op->EinSum_0).axes.inputs[2].len() <= usize::MAX,
        (m.nodes[id].op->EinSum_0).axes.outputs[0].len() <= usize::MAX,
    ensures
        ({
            let e = (m.nodes[id].op->EinSum_0).axes;
            let facts = facts_of(m.nodes, m.nodes[id].inputs);
            let rank = m.nodes[id].outputs[0].shape.len() as int;
            &&& scale_axes(e, facts, rank, 0) is Ok
            &&& scale_axes(e, facts, rank, 1) is Ok
            &&& axis_ops(term_axes(e, 0)) is Ok
            &&& axis_ops(term_axes(e, 1)) is Ok
            &&& axis_ops(term_axes(e, 2)) is Ok
        }),
{
    let e = (m.nodes[id].op->EinSum_0).axes;
    let taps = facts_of(m.nodes, m.nodes[id].inputs);
    let none = Seq::<WireView>::empty();
    let empty = Seq::<Seq<Fact>>::empty();
    assert(node_wf(m.nodes, id));
    assert(is_ranked(m, id));
    assert(wire_facts(taps, none) == Some(empty));
    lemma_positions(e.outputs[0], e.inputs[4][0]);
    lemma_positions(e.outputs[0], e.inputs[6][0]);
    lemma_scale_facts(m, id, 0, none, empty);
    lemma_scale_facts(m, id, 1, none, empty);
    let (f0, f1, f2) = (term_axes(e, 0), term_axes(e, 1), term_axes(e, 2));
    assert(f0.inputs[0] == e.inputs[0] && f0.outputs[0] == e.outputs[0]);
    assert(f1.inputs[0] == e.inputs[1] && f1.outputs[0] == e.outputs[0]);
    assert(f2.inputs[0] == e.inputs[2] && f2.outputs[0] == e.outputs[0]);
}

/// A quantized einsum that can be dequantized is, unless its patch has more operators than
/// a machine can count.
pub proof fn lemma_dequantizable(m: Model, id: int, k: char)
    requires
        m.wf(),
        0 <= id < m.nodes.len(),
        m.nodes[id].op is EinSum,
        is_dequantizable(m, id, k),
        (m.nodes[id].op->EinSum_0).q_params is Some,
        (m.nodes[id].op->EinSum_0).axes.inputs[0].len() <= usize::MAX,
        (m.nodes[id].op->EinSum_0).axes.inputs[1].len() <= usize::MAX,
        (m.nodes[id].op->EinSum_0).axes.inputs[2].len() <= usize::MAX,
        (m.nodes[id].op->EinSum_0).axes.outputs[0].len() <= usize::MAX,
        patch_of(m, id, k).wires.len() <= usize::MAX,
    ensures
        dequantized(m.nodes[id].op->EinSum_0, m, id, k) == Ok::<Patch, Error>(patch_of(m, id, k)),
{
    let node = m.nodes[id];
    let op = node.op->EinSum_0;
    let e = op.axes;
    let taps = facts_of(m.nodes, node.inputs);
    let shapes = fact_shapes(taps);
    let name = node.name;
    let dims = node.outputs[0].shape;
    let rank = dims.len() as int;
    let kd = dim_in(e, shapes, 0, k);
    let p = patch_of(m, id, k);
    assert(node_wf(m.nodes, id));
    assert(is_ranked(m, id));
    assert(taps[0].shape.len() == e.inputs[0].len());
    assert(taps[1].shape.len() == e.inputs[1].len());
    assert(taps[2].shape.len() == e.inputs[2].len());
    assert(taps[8].shape.len() == e.inputs[8].len());
    let (i0, i1) = (e.first_in(0, k), e.first_in(1, k));
    lemma_positions(e.inputs[0], k);
    lemma_positions(e.inputs[1], k);
    // the lengths of the parts
    let n0 = scale_axes(e, taps, rank, 0)->Ok_0 as nat;
    let n1 = scale_axes(e, taps, rank, 1)->Ok_0 as nat;
    let fixes = (
        axis_ops(term_axes(e, 0))->Ok_0,
        axis_ops(term_axes(e, 1))->Ok_0,
        axis_ops(term_axes(e, 2))->Ok_0,
    );
    let adds = |n: nat| Seq::new(n, |i: int| AxisOp::Add((i + 1) as usize));
    let none = Seq::<WireView>::empty();
    let (w0, a_scale) = scaled(none, name, 0, n0);
    lemma_chain_len(none, Ref::Tap(4), scale_names(name, 0, n0), adds(n0), n0 as int);
    let (w1, b_scale) = scaled(w0, name, 1, n1);
    lemma_chain_len(w0, Ref::Tap(6), scale_names(name, 1, n1), adds(n1), n1 as int);
    let (w2, terms) = products(op, name, k, w1, a_scale, b_scale);
    let (w3, sum_a) = fixed(w2, terms.sum_a, name, "sum_a"@, fixes.0);
    let names_a = fix_names(name, "sum_a"@, fixes.0.len());
    lemma_chain_len(w2, terms.sum_a, names_a, fixes.0, fixes.0.len() as int);
    let (w4, sum_b) = fixed(w3, terms.sum_b, name, "sum_b"@, fixes.1);
    let names_b = fix_names(name, "sum_b"@, fixes.1.len());
    lemma_chain_len(w3, terms.sum_b, names_b, fixes.1, fixes.1.len() as int);
    let (w5, bias) = fixed(w4, Ref::Tap(2), name, "bias"@, fixes.2);
    let names_c = fix_names(name, "bias"@, fixes.2.len());
    lemma_chain_len(w4, Ref::Tap(2), names_c, fixes.2, fixes.2.len() as int);
    let last = Terms { sum_a, sum_b, ..terms };
    assert(w0.len() == n0 && w1.len() == n0 + n1 && w2.len() == w1.len() + 7);
    assert(p.wires == corrections(name, w5, last, bias, kd, op.q_params->0).0);
    assert(p.wires.len() == w5.len() + 4);
    // the facts
    let empty = Seq::<Seq<Fact>>::empty();
    assert(wire_facts(taps, none) == Some(empty));
    let (x0, f0) = lemma_scale_facts(m, id, 0, none, empty);
    let (x1, f1) = lemma_scale_facts(m, id, 1, w0, f0);
    assert(x0 == n0 && x1 == n1);
    lemma_precede(taps, f0, f1, a_scale);
    let f2 = lemma_products_facts(taps, op, name, k, w1, f1, (a_scale, b_scale));
    assert(e.inputs[0][i0] == k && e.inputs[1][i1] == k);
    let s0 = taps[0].shape.update(i0, one());
    assert forall|i: int|
        0 <= i < s0.len() && !e.outputs[0].contains(#[trigger] e.inputs[0][i]) implies s0[i]
        == one() by {
        assert(shapes[0][i] == taps[0].shape[i]);
        if e.inputs[0][i] == k {
            assert(i == i0);
        }
    }
    let f3 = lemma_fix_facts(taps, e, 0, name, "sum_a"@, w2, f2, terms.sum_a);
    lemma_precede(taps, f2, f3, terms.sum_b);
    let s1 = taps[1].shape.update(i1, one());
    assert forall|i: int|
        0 <= i < s1.len() && !e.outputs[0].contains(#[trigger] e.inputs[1][i]) implies s1[i]
        == one() by {
        assert(shapes[1][i] == taps[1].shape[i]);
        if e.inputs[1][i] == k {
            assert(i == i1);
        }
    }
    let f4 = lemma_fix_facts(taps, e, 1, name, "sum_b"@, w3, f3, terms.sum_b);
    assert forall|i: int|
        0 <= i < taps[2].shape.len() && !e.outputs[0].contains(
            #[trigger] e.inputs[2][i],
        ) implies taps[2].shape[i] == one() by {
        assert(shapes[2][i] == taps[2].shape[i]);
    }
    let f5 = lemma_fix_facts(taps, e, 2, name, "bias"@, w4, f4, Ref::Tap(2));
    lemma_biased_shape(m, id, k, ref_fact(taps, f5, bias).shape);
    assert(precede(f0, f5) && precede(f1, f5) && precede(f2, f5) && precede(f3, f5));
    lemma_precede(taps, f1, f5, a_scale);
    lemma_precede(taps, f1, f5, b_scale);
    lemma_precede(taps, f2, f5, terms.product);
    lemma_precede(taps, f2, f5, terms.a0);
    lemma_precede(taps, f2, f5, terms.b0);
    lemma_precede(taps, f3, f5, sum_a);
    lemma_precede(taps, f4, f5, sum_b);
    lemma_corrections_facts(taps, name, w5, f5, last, bias, kd, op.q_params->0, dims);
    assert(p.fault(m) is None);
}

/// Why a quantized einsum is not dequantized: it has other than nine inputs; a scale runs
/// along an axis that the output does not have; an operand, or the bias, has a label twice;
/// or an operator does not suit its inputs, or would change what the output is.
pub proof fn lemma_dequant_refused(m: Model, id: int, k: char)
    requires
        m.wf(),
        0 <= id < m.nodes.len(),
        m.nodes[id].op is EinSum,
    ensures
        ({
            let node = m.nodes[id];
            let op = node.op->EinSum_0;
            let e = op.axes;
            let facts = facts_of(m.nodes, node.inputs);
            let astray = |s: int|
                e.inputs[s].len() == 1 && facts[s].shape[0] != TDim::Val(1)
                    && !e.outputs[0].contains(e.inputs[s][0]);
            let twice = !e.inputs[0].no_duplicates() || !e.inputs[1].no_duplicates()
                || !e.inputs[2].no_duplicates();
            let r = dequantized(op, m, id, k);
            if node.inputs.len() != 9 {
                r == Err::<Patch, Error>(Error::NotNineInputs)
            } else {
                &&& astray(4) || astray(6) ==> r == Err::<Patch, Error>(Error::UnknownLabel)
                &&& r == Err::<Patch, Error>(Error::NotAPermutation) ==> twice
                &&& twice ==> r == Err::<Patch, Error>(Error::NotAPermutation) || r == Err::<
                    Patch,
                    Error,
                >(Error::UnknownLabel)
                &&& r matches Err(err) ==> err == Error::UnknownLabel || err
                    == Error::NotAPermutation || err == Error::BadFacts || err
                    == Error::FactMismatch
            }
        }),
{
    let node = m.nodes[id];
    let op = node.op->EinSum_0;
    let e = op.axes;
    let facts = facts_of(m.nodes, node.inputs);
    assert(node_wf(m.nodes, id));
    if node.inputs.len() == 9 {
        assert(facts[4].shape.len() == e.inputs[4].len());
        assert(facts[6].shape.len() == e.inputs[6].len());
        lemma_astray(e, facts, node.outputs[0].shape.len() as int, 0);
        lemma_astray(e, facts, node.outputs[0].shape.len() as int, 1);
        let (f0, f1, f2) = (term_axes(e, 0), term_axes(e, 1), term_axes(e, 2));
        assert(f0.inputs[0] == e.inputs[0] && f0.outputs[0] == e.outputs[0]);
        assert(f1.inputs[0] == e.inputs[1] && f1.outputs[0] == e.outputs[0]);
        assert(f2.inputs[0] == e.inputs[2] && f2.outputs[0] == e.outputs[0]);
        assert(f0.inputs.len() == 1 && f0.outputs.len() == 1);
        assert(f1.inputs.len() == 1 && f1.outputs.len() == 1);
        assert(f2.inputs.len() == 1 && f2.outputs.len() == 1);
    }
}

/// A scale along an axis that the output does not have has no place there.
proof fn lemma_astray(e: Expr, facts: Seq<Fact>, rank: int, ab: int)
    requires
        ab == 0 || ab == 1,
        facts[scale_input(ab)].shape.len() == e.inputs[scale_input(ab)].len(),
    ensures
        ({
            let s = scale_input(ab);
            e.inputs[s].len() == 1 && facts[s].shape[0] != TDim::Val(1) && !e.outputs[0].contains(
                e.inputs[s][0],
            ) ==> scale_axes(e, facts, rank, ab) == Err::<int, Error>(Error::UnknownLabel)
        }),
{
    let s = scale_input(ab);
    if e.inputs[s].len() == 1 && facts[s].shape[0] != TDim::Val(1) {
        assert(facts[s].shape =~= seq![facts[s].shape[0]]);
        lemma_lone_volume(facts[s].shape[0]);
        lemma_positions(e.outputs[0], e.inputs[s][0]);
    }
}

} // verus!
