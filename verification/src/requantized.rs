//! That dequantizing an einsum keeps what the model computes, if the operators compute
//! what they are described to.

use vstd::prelude::*;

use crate::axis_ops::{axis_ops, changed, lemma_axis_ops_units};
use crate::axis_values::{axis_value, axis_values};
use crate::centered::{
    accumulated, added, centered, compensated, depth, first_inputs, is_shifted, lemma_centered,
    offsets_given, offsets_suit,
};
use crate::dequant::{
    Terms, axis_wire, chained, corrections, dequant_patch, dequantized, fix_names, fixed,
    lemma_dequant_aims, products, pushed, raw_einsum, scale_axes, scale_input, scale_names, scaled,
    simple_wire, term_axes,
};
use crate::dim::TDim;
use crate::error::Error;
use crate::labels::{lemma_positions, lemma_single};
use crate::meaning::{einsum_by, plainly};
use crate::model::{Model, Outlet, facts_of, node_wf};
use crate::ops::{AxisOp, DatumType, EinSumView, OpView, SimpleOp, fact_shapes};
use crate::optimize::{Step, mkn_step};
use crate::packed::lemma_found;
use crate::patch::{Patch, Ref, WireView, has_ref, lemma_wire_facts, ref_fact, ref_facts};
use crate::preserve::{dim_value, inputs_of, is_sound, lemma_sound, obeys, shape_value};
use crate::roles::{dim_in, one};
use crate::run::{Run, keeps, lemma_kept, lemma_tap_value, lemma_wire_values};
use crate::tensor::Value;

verus! {

/// Whether the operators of a dequantized einsum compute what they are described to, on
/// integers.
pub open spec fn calculates(run: Run, symbols: spec_fn(u64) -> int) -> bool {
    &&& forall|xs: Seq<Value>| #[trigger]
        run.compute(OpView::Simple(SimpleOp::Cast(DatumType::I32)), xs) == seq![xs[0]]
    &&& forall|axis: usize, xs: Seq<Value>| #[trigger]
        run.compute(OpView::Simple(SimpleOp::Sum(axis)), xs) == seq![xs[0].summed(axis as int)]
    &&& forall|xs: Seq<Value>| #[trigger]
        run.compute(OpView::Simple(SimpleOp::Add), xs) == seq![added(xs[0], xs[1])]
    &&& forall|xs: Seq<Value>|
        xs[0].valid() && xs[1].shape.len() == 0 ==> signs(
            xs,
            #[trigger] run.compute(OpView::Simple(SimpleOp::EnsureSigned), xs),
        )
    &&& forall|k: TDim, xs: Seq<Value>| #[trigger]
        run.compute(OpView::Simple(SimpleOp::CompensateZeroPoints(k)), xs) == seq![
            compensated(dim_value(symbols, k), xs[0], xs[1], xs[2], xs[3], xs[4]),
        ]
}

/// Whether an operand and its zero point were brought to others.
pub open spec fn signs(xs: Seq<Value>, ys: Seq<Value>) -> bool {
    is_shifted(xs[0], xs[1], ys[0], ys[1])
}

/// The scale of an operand, with the axes that it lacks.
pub open spec fn spread(xs: Seq<Value>, ab: int, n: int) -> Value {
    axis_values(
        Seq::new(n as nat, |i: int| AxisOp::Add((i + 1) as usize)),
        xs[scale_input(ab)],
        n,
    )
}

/// What the last operator of a dequantized einsum makes of a tensor.
pub open spec fn requantized(
    run: Run,
    op: EinSumView,
    xs: Seq<Value>,
    scales: (int, int),
    x: Value,
) -> Value {
    let scale = run.compute(
        OpView::Simple(SimpleOp::CombineScales),
        seq![spread(xs, 0, scales.0), spread(xs, 1, scales.1), xs[8]],
    )[0];
    run.compute(OpView::Simple(SimpleOp::Requant(op.q_params->0)), seq![x, scale, xs[7]])[0]
}

/// Whether operators are the first of a patch.
pub open spec fn starts(p: Patch, wires: Seq<WireView>) -> bool {
    &&& wires.len() <= p.wires.len()
    &&& forall|i: int| 0 <= i < wires.len() ==> p.wires[i] == #[trigger] wires[i]
}

/// What comes before the last of some operators.
pub proof fn lemma_starts(p: Patch, wires: Seq<WireView>, wire: WireView)
    requires
        starts(p, wires.push(wire)),
    ensures
        starts(p, wires),
        wires.len() < p.wires.len(),
        p.wires[wires.len() as int] == wire,
{
    let all = wires.push(wire);
    assert(p.wires[wires.len() as int] == all[wires.len() as int]);
    assert forall|i: int| 0 <= i < wires.len() implies p.wires[i] == #[trigger] wires[i] by {
        assert(all[i] == wires[i]);
    }
}

/// What references of an operator are to.
pub open spec fn given(run: Run, m: Model, p: Patch, refs: Seq<Ref>) -> Seq<Value> {
    Seq::new(refs.len(), |j: int| run.value(p.applied(m), p.resolve(refs[j])))
}

/// The values of an operator that comes after others.
pub proof fn lemma_pushed(run: Run, m: Model, p: Patch, wires: Seq<WireView>, wire: WireView)
    requires
        m.wf(),
        p.aims_at(m),
        p.fault(m) is None,
        p.wires.len() <= usize::MAX,
        starts(p, wires.push(wire)),
    ensures
        starts(p, wires),
        forall|s: usize|
            run.value(
                p.applied(m),
                #[trigger] p.resolve(Ref::Wire(wires.len() as usize, s)),
            ) == run.compute(wire.op, given(run, m, p, wire.inputs))[s as int],
{
    lemma_starts(p, wires, wire);
    lemma_wire_values(run, m, p, wires.len() as int);
}

/// The value of a chain of axis operators.
pub proof fn lemma_chain_value(
    run: Run,
    m: Model,
    p: Patch,
    wires: Seq<WireView>,
    input: Ref,
    names: Seq<Seq<char>>,
    ops: Seq<AxisOp>,
    n: int,
)
    requires
        m.wf(),
        p.aims_at(m),
        p.fault(m) is None,
        p.wires.len() <= usize::MAX,
        starts(p, chained(wires, input, names, ops, n).0),
    ensures
        starts(p, wires),
        run.value(p.applied(m), p.resolve(chained(wires, input, names, ops, n).1)) == axis_values(
            ops,
            run.value(p.applied(m), p.resolve(input)),
            n,
        ),
    decreases n,
{
    if n > 0 {
        let (before, r) = chained(wires, input, names, ops, n - 1);
        let wire = axis_wire(names[n - 1], ops[n - 1], r);
        lemma_pushed(run, m, p, before, wire);
        lemma_chain_value(run, m, p, wires, input, names, ops, n - 1);
        let x = run.value(p.applied(m), p.resolve(r));
        let xs = given(run, m, p, wire.inputs);
        assert(xs[0] == x);
        assert(chained(wires, input, names, ops, n).1 == Ref::Wire(before.len() as usize, 0));
        assert(run.compute(wire.op, xs)[0] == axis_value(ops[n - 1], x));
    }
}

/// The values of the operators that bring the operands to signed bytes, multiply them,
/// and sum each up.
proof fn lemma_products(
    run: Run,
    symbols: spec_fn(u64) -> int,
    m: Model,
    p: Patch,
    op: EinSumView,
    name: Seq<char>,
    k: char,
    wires: Seq<WireView>,
    scales: (Ref, Ref),
    xs: Seq<Value>,
)
    requires
        m.wf(),
        p.aims_at(m),
        p.fault(m) is None,
        p.wires.len() <= usize::MAX,
        starts(p, products(op, name, k, wires, scales.0, scales.1).0),
        calculates(run, symbols),
        op.wf(),
        op.axes.inputs.len() == 9,
        op.axes.inputs[0].len() <= usize::MAX,
        op.axes.inputs[1].len() <= usize::MAX,
        0 <= op.axes.first_in(0, k) < op.axes.inputs[0].len(),
        0 <= op.axes.first_in(1, k) < op.axes.inputs[1].len(),
        xs.len() == 9,
        forall|t: int|
            0 <= t < 9 ==> run.value(p.applied(m), p.resolve(Ref::Tap(t as usize)))
                == #[trigger] xs[t],
        xs[0].valid() && xs[1].valid(),
        xs[3].shape.len() == 0,
        xs[5].shape.len() == 0,
    ensures
        starts(p, wires),
        ({
            let made = p.applied(m);
            let terms = products(op, name, k, wires, scales.0, scales.1).1;
            let a = Ref::Wire(wires.len() as usize, 0);
            let b = Ref::Wire((wires.len() + 1) as usize, 0);
            let (x, x0) = (run.value(made, p.resolve(a)), run.value(made, p.resolve(terms.a0)));
            let (y, y0) = (run.value(made, p.resolve(b)), run.value(made, p.resolve(terms.b0)));
            &&& is_shifted(xs[0], xs[3], x, x0)
            &&& is_shifted(xs[1], xs[5], y, y0)
            &&& run.value(made, p.resolve(terms.product)) == einsum_by(
                first_inputs(op.axes, 2),
                seq![x, y],
                plainly(),
            )
            &&& run.value(made, p.resolve(terms.sum_a)) == x.summed(op.axes.first_in(0, k))
            &&& run.value(made, p.resolve(terms.sum_b)) == y.summed(op.axes.first_in(1, k))
            &&& terms.a_scale == scales.0
            &&& terms.b_scale == scales.1
        }),
{
    let made = p.applied(m);
    let e = op.axes;
    let sign_a = simple_wire(
        name + ".ensure_q8_a"@,
        SimpleOp::EnsureSigned,
        seq![Ref::Tap(0), Ref::Tap(3)],
    );
    let (v1, a) = pushed(wires, sign_a);
    let sign_b = simple_wire(
        name + ".ensure_q8_b"@,
        SimpleOp::EnsureSigned,
        seq![Ref::Tap(1), Ref::Tap(5)],
    );
    let (v2, b) = pushed(v1, sign_b);
    let times = WireView { name, op: OpView::EinSum(raw_einsum(op)), inputs: seq![a, b] };
    let (v3, product) = pushed(v2, times);
    let cast_a = simple_wire(name + ".a_as_i32"@, SimpleOp::Cast(DatumType::I32), seq![a]);
    let (v4, a_i32) = pushed(v3, cast_a);
    let cast_b = simple_wire(name + ".b_as_i32"@, SimpleOp::Cast(DatumType::I32), seq![b]);
    let (v5, b_i32) = pushed(v4, cast_b);
    let total_a = simple_wire(
        name + ".sum_a"@,
        SimpleOp::Sum(e.first_in(0, k) as usize),
        seq![a_i32],
    );
    let (v6, sum_a) = pushed(v5, total_a);
    let total_b = simple_wire(
        name + ".sum_b"@,
        SimpleOp::Sum(e.first_in(1, k) as usize),
        seq![b_i32],
    );
    let (v7, sum_b) = pushed(v6, total_b);
    assert(v7 == products(op, name, k, wires, scales.0, scales.1).0);
    lemma_pushed(run, m, p, v6, total_b);
    lemma_pushed(run, m, p, v5, total_a);
    lemma_pushed(run, m, p, v4, cast_b);
    lemma_pushed(run, m, p, v3, cast_a);
    lemma_pushed(run, m, p, v2, times);
    lemma_pushed(run, m, p, v1, sign_b);
    lemma_pushed(run, m, p, wires, sign_a);
    let terms = products(op, name, k, wires, scales.0, scales.1).1;
    let in_a = given(run, m, p, sign_a.inputs);
    let in_b = given(run, m, p, sign_b.inputs);
    assert(in_a[0] == xs[0] && in_a[1] == xs[3]);
    assert(in_b[0] == xs[1] && in_b[1] == xs[5]);
    let x = run.value(made, p.resolve(a));
    let y = run.value(made, p.resolve(b));
    assert(a == Ref::Wire(wires.len() as usize, 0));
    assert(b == Ref::Wire((wires.len() + 1) as usize, 0));
    assert(terms.a0 == Ref::Wire(wires.len() as usize, 1));
    assert(terms.b0 == Ref::Wire(v1.len() as usize, 1));
    assert(signs(in_a, run.compute(sign_a.op, in_a)));
    assert(signs(in_b, run.compute(sign_b.op, in_b)));
    let both = given(run, m, p, times.inputs);
    assert(both =~= seq![x, y]);
    let f = raw_einsum(op).axes;
    assert(f.inputs =~= first_inputs(e, 2).inputs);
    assert(f.outputs =~= first_inputs(e, 2).outputs);
    assert(given(run, m, p, cast_a.inputs)[0] == x);
    assert(given(run, m, p, cast_b.inputs)[0] == y);
    assert(run.value(made, p.resolve(a_i32)) == x);
    assert(run.value(made, p.resolve(b_i32)) == y);
    assert(given(run, m, p, total_a.inputs)[0] == x);
    assert(given(run, m, p, total_b.inputs)[0] == y);
}

/// The values of the operators that put the parts of a dequantized einsum together.
proof fn lemma_corrections(
    run: Run,
    symbols: spec_fn(u64) -> int,
    m: Model,
    p: Patch,
    name: Seq<char>,
    wires: Seq<WireView>,
    terms: Terms,
    bias: Ref,
    k: TDim,
    dt: DatumType,
)
    requires
        m.wf(),
        p.aims_at(m),
        p.fault(m) is None,
        p.wires.len() <= usize::MAX,
        p.wires == corrections(name, wires, terms, bias, k, dt).0,
        p.by == corrections(name, wires, terms, bias, k, dt).1,
        calculates(run, symbols),
    ensures
        starts(p, wires),
        ({
            let made = p.applied(m);
            let at = |r: Ref| run.value(made, p.resolve(r));
            let biased = added(at(terms.product), at(bias));
            let last = compensated(
                dim_value(symbols, k),
                biased,
                at(terms.a0),
                at(terms.b0),
                at(terms.sum_a),
                at(terms.sum_b),
            );
            let scale = run.compute(
                OpView::Simple(SimpleOp::CombineScales),
                seq![at(terms.a_scale), at(terms.b_scale), at(Ref::Tap(8))],
            )[0];
            &&& at(Ref::Wire((wires.len() + 2) as usize, 0)) == last
            &&& at(p.by) == run.compute(
                OpView::Simple(SimpleOp::Requant(dt)),
                seq![last, scale, at(Ref::Tap(7))],
            )[0]
        }),
{
    let made = p.applied(m);
    let combine = simple_wire(
        name + ".combine_scales"@,
        SimpleOp::CombineScales,
        seq![terms.a_scale, terms.b_scale, Ref::Tap(8)],
    );
    let (v1, scale) = pushed(wires, combine);
    let plus = simple_wire(name + ".add_bias"@, SimpleOp::Add, seq![terms.product, bias]);
    let (v2, biased) = pushed(v1, plus);
    let center = simple_wire(
        name + ".compensate_zero_points"@,
        SimpleOp::CompensateZeroPoints(k),
        seq![biased, terms.a0, terms.b0, terms.sum_a, terms.sum_b],
    );
    let (v3, centered) = pushed(v2, center);
    let quantize = simple_wire(
        name + ".requant"@,
        SimpleOp::Requant(dt),
        seq![centered, scale, Ref::Tap(7)],
    );
    let (v4, by) = pushed(v3, quantize);
    assert(v4 == p.wires && by == p.by);
    lemma_pushed(run, m, p, v3, quantize);
    lemma_pushed(run, m, p, v2, center);
    lemma_pushed(run, m, p, v1, plus);
    lemma_pushed(run, m, p, wires, combine);
    let x = run.value(made, p.resolve(scale));
    let y = run.value(made, p.resolve(biased));
    let z = run.value(made, p.resolve(centered));
    assert(given(run, m, p, combine.inputs) =~= seq![
        run.value(made, p.resolve(terms.a_scale)),
        run.value(made, p.resolve(terms.b_scale)),
        run.value(made, p.resolve(Ref::Tap(8))),
    ]);
    let sums = given(run, m, p, plus.inputs);
    assert(sums[0] == run.value(made, p.resolve(terms.product)));
    assert(sums[1] == run.value(made, p.resolve(bias)));
    let parts = given(run, m, p, center.inputs);
    assert(parts[0] == y);
    assert(parts[1] == run.value(made, p.resolve(terms.a0)));
    assert(parts[2] == run.value(made, p.resolve(terms.b0)));
    assert(parts[3] == run.value(made, p.resolve(terms.sum_a)));
    assert(parts[4] == run.value(made, p.resolve(terms.sum_b)));
    assert(given(run, m, p, quantize.inputs) =~= seq![
        z,
        x,
        run.value(made, p.resolve(Ref::Tap(7))),
    ]);
    assert(centered == Ref::Wire((wires.len() + 2) as usize, 0));
}

/// A chain of axis operators of a faultless patch can be applied to the shape that it
/// starts from.
pub proof fn lemma_chain_fact(
    m: Model,
    p: Patch,
    wires: Seq<WireView>,
    input: Ref,
    names: Seq<Seq<char>>,
    ops: Seq<AxisOp>,
    n: int,
)
    requires
        p.facts(m) is Some,
        p.wires.len() <= usize::MAX,
        0 <= n <= ops.len(),
        starts(p, chained(wires, input, names, ops, n).0),
    ensures
        ({
            let taps = facts_of(m.nodes, p.taps);
            let all = p.facts(m)->0;
            let end = chained(wires, input, names, ops, n).1;
            changed(ops.take(n), ref_fact(taps, all, input).shape, one()) == Some(
                ref_fact(taps, all, end).shape,
            )
        }),
    decreases n,
{
    let taps = facts_of(m.nodes, p.taps);
    let all = p.facts(m)->0;
    if n > 0 {
        let (before, r) = chained(wires, input, names, ops, n - 1);
        let wire = axis_wire(names[n - 1], ops[n - 1], r);
        let at = before.len() as int;
        lemma_starts(p, before, wire);
        lemma_chain_fact(m, p, wires, input, names, ops, n - 1);
        lemma_wire_facts(taps, p.wires, at);
        assert(has_ref(taps, all.take(at), wire.inputs[0]));
        let known = ref_facts(taps, all.take(at), wire.inputs);
        assert(known[0] == ref_fact(taps, all, r));
        assert(ops.take(n).drop_last() =~= ops.take(n - 1));
        assert(ops.take(n).last() == ops[n - 1]);
        assert(wire.op.facts(known) == Some(all[at]));
    } else {
        assert(ops.take(n) =~= Seq::empty());
    }
}

/// How many axes the scales of the operands lack.
pub open spec fn lacking(m: Model, id: int) -> (int, int) {
    let node = m.nodes[id];
    let e = (node.op->EinSum_0).axes;
    let facts = facts_of(m.nodes, node.inputs);
    let rank = node.outputs[0].shape.len() as int;
    (scale_axes(e, facts, rank, 0)->Ok_0, scale_axes(e, facts, rank, 1)->Ok_0)
}

/// A scale lacks no negative number of axes.
pub proof fn lemma_lacking(m: Model, id: int, ab: int)
    requires
        m.wf(),
        0 <= id < m.nodes.len(),
        m.nodes[id].op is EinSum,
    ensures
        ({
            let node = m.nodes[id];
            let e = (node.op->EinSum_0).axes;
            let facts = facts_of(m.nodes, node.inputs);
            let rank = node.outputs[0].shape.len() as int;
            scale_axes(e, facts, rank, ab) matches Ok(n) ==> n >= 0
        }),
{
    let e = (m.nodes[id].op->EinSum_0).axes;
    assert(node_wf(m.nodes, id));
    lemma_positions(e.outputs[0], e.inputs[scale_input(ab)][0]);
}

/// What a dequantized einsum computes: before its last operator the sum of the products
/// of the operands, each relative to its zero point, plus the bias; and then what the
/// last operator makes of this.
pub proof fn lemma_dequantized(
    run: Run,
    symbols: spec_fn(u64) -> int,
    m: Model,
    id: int,
    rows: char,
    k: char,
    columns: char,
    p: Patch,
)
    requires
        m.wf(),
        is_sound(run, symbols, m, id),
        calculates(run, symbols),
        offsets_given(
            symbols,
            (m.nodes[id].op->EinSum_0).axes,
            facts_of(m.nodes, m.nodes[id].inputs),
            inputs_of(run, m, id),
            rows,
            k,
            columns,
        ),
        dequantized(m.nodes[id].op->EinSum_0, m, id, k) == Ok::<Patch, Error>(p),
        p.wires.len() <= usize::MAX,
    ensures
        ({
            let op = m.nodes[id].op->EinSum_0;
            let xs = inputs_of(run, m, id);
            let last = Outlet { node: id + p.wires.len() - 2, slot: 0 };
            &&& offsets_suit(
                symbols,
                op.axes,
                facts_of(m.nodes, m.nodes[id].inputs),
                xs,
                rows,
                k,
                columns,
            )
            &&& run.value(p.applied(m), last) == accumulated(op.axes, xs)
            &&& run.value(p.applied(m), p.resolve(p.by)) == requantized(
                run,
                op,
                xs,
                lacking(m, id),
                accumulated(op.axes, xs),
            )
        }),
{
    let node = m.nodes[id];
    let op = node.op->EinSum_0;
    let e = op.axes;
    let name = node.name;
    let facts = facts_of(m.nodes, node.inputs);
    let xs = inputs_of(run, m, id);
    let made = p.applied(m);
    let (n0, n1) = (lacking(m, id).0 as nat, lacking(m, id).1 as nat);
    let fixes = (
        axis_ops(term_axes(e, 0))->Ok_0,
        axis_ops(term_axes(e, 1))->Ok_0,
        axis_ops(term_axes(e, 2))->Ok_0,
    );
    let kd = dim_in(e, fact_shapes(facts), 0, k);
    lemma_sound(run, symbols, m, id);
    lemma_dequant_aims(m, id, k, p);
    assert(node_wf(m.nodes, id));
    assert forall|t: int| 0 <= t < 9 implies run.value(made, p.resolve(Ref::Tap(t as usize)))
        == #[trigger] xs[t] by {
        lemma_tap_value(run, m, p, t as usize);
    }
    let none = Seq::<WireView>::empty();
    let (w0, a_scale) = scaled(none, name, 0, n0);
    let (w1, b_scale) = scaled(w0, name, 1, n1);
    let (w2, terms) = products(op, name, k, w1, a_scale, b_scale);
    let (w3, sum_a) = fixed(w2, terms.sum_a, name, "sum_a"@, fixes.0);
    let (w4, sum_b) = fixed(w3, terms.sum_b, name, "sum_b"@, fixes.1);
    let (w5, bias) = fixed(w4, Ref::Tap(2), name, "bias"@, fixes.2);
    let all = Terms { sum_a, sum_b, ..terms };
    let dt = op.q_params->0;
    assert(p == dequant_patch(op, node, id, k, kd, (n0, n1), fixes));
    assert(p.wires == corrections(name, w5, all, bias, kd, dt).0);
    lemma_corrections(run, symbols, m, p, name, w5, all, bias, kd, dt);
    let names_a = fix_names(name, "sum_a"@, fixes.0.len());
    let names_b = fix_names(name, "sum_b"@, fixes.1.len());
    let names_c = fix_names(name, "bias"@, fixes.2.len());
    lemma_chain_value(run, m, p, w4, Ref::Tap(2), names_c, fixes.2, fixes.2.len() as int);
    lemma_chain_value(run, m, p, w3, terms.sum_b, names_b, fixes.1, fixes.1.len() as int);
    lemma_chain_value(run, m, p, w2, terms.sum_a, names_a, fixes.0, fixes.0.len() as int);
    lemma_found(symbols, e, facts, xs, rows, k, columns);
    lemma_single(e.inputs[0], k);
    lemma_single(e.inputs[1], k);
    assert(xs[0].valid() && xs[1].valid() && xs[3].valid() && xs[5].valid());
    assert(xs[3].shape.len() == 0 && xs[5].shape.len() == 0);
    lemma_products(run, symbols, m, p, op, name, k, w1, (a_scale, b_scale), xs);
    let adds = |n: nat| Seq::new(n, |i: int| AxisOp::Add((i + 1) as usize));
    lemma_chain_value(
        run,
        m,
        p,
        w0,
        Ref::Tap(6),
        scale_names(name, 1, n1),
        adds(n1),
        n1 as int,
    );
    lemma_chain_value(
        run,
        m,
        p,
        none,
        Ref::Tap(4),
        scale_names(name, 0, n0),
        adds(n0),
        n0 as int,
    );
    assert(xs[4] == run.value(made, p.resolve(Ref::Tap(4))));
    assert(xs[6] == run.value(made, p.resolve(Ref::Tap(6))));
    assert(xs[2] == run.value(made, p.resolve(Ref::Tap(2))));
    assert(xs[7] == run.value(made, p.resolve(Ref::Tap(7))));
    assert(xs[8] == run.value(made, p.resolve(Ref::Tap(8))));
    assert(offsets_suit(symbols, e, facts, xs, rows, k, columns)) by {
        let f = term_axes(e, 2);
        let ops = fixes.2;
        assert(f.inputs[0] == e.inputs[2] && f.outputs[0] == e.outputs[0]);
        assert(facts[2].shape.len() == e.inputs[2].len());
        lemma_chain_fact(m, p, w4, Ref::Tap(2), names_c, ops, ops.len() as int);
        assert(ops.take(ops.len() as int) =~= ops);
        lemma_axis_ops_units(f, ops, facts[2].shape, one());
        assert forall|q: int|
            0 <= q < e.inputs[2].len() && !e.outputs[0].contains(
                #[trigger] e.inputs[2][q],
            ) implies xs[2].shape[q] == 1 by {
            assert(obeys(symbols, facts[2], inputs_of(run, m, id)[2]));
            assert(f.inputs[0][q] == e.inputs[2][q]);
            assert(facts[2].shape[q] == one());
        }
    }
    let a = (
        run.value(made, p.resolve(Ref::Wire(w1.len() as usize, 0))),
        run.value(made, p.resolve(terms.a0)),
    );
    let b = (
        run.value(made, p.resolve(Ref::Wire((w1.len() + 1) as usize, 0))),
        run.value(made, p.resolve(terms.b0)),
    );
    lemma_centered(symbols, e, facts, xs, rows, k, columns, a, b, fixes);
    lemma_lacking(m, id, 0);
    lemma_lacking(m, id, 1);
    assert(run.value(made, p.resolve(a_scale)) == spread(xs, 0, lacking(m, id).0));
    assert(run.value(made, p.resolve(b_scale)) == spread(xs, 1, lacking(m, id).1));
    let i = e.first_in(0, k);
    assert(xs[0].shape[i] == shape_value(symbols, facts[0].shape)[i]);
    assert(dim_value(symbols, kd) == depth(e, xs, k));
    let at = |r: Ref| run.value(made, p.resolve(r));
    assert(compensated(
        dim_value(symbols, kd),
        added(at(all.product), at(bias)),
        at(all.a0),
        at(all.b0),
        at(all.sum_a),
        at(all.sum_b),
    ) == centered(e, xs, k, a, b, fixes));
    assert(p.resolve(Ref::Wire((w5.len() + 2) as usize, 0)) == Outlet {
        node: id + p.wires.len() - 2,
        slot: 0,
    });
}

/// What dequantizing needs to keep what the model computes. The einsum has found its
/// rows, sums and columns, with single zero points. The operators compute what they are
/// described to. The einsum quantizes, with its last operator, the sum of the products
/// of the operands, each relative to its zero point, plus the bias.
pub open spec fn dequant_suits(
    run: Run,
    symbols: spec_fn(u64) -> int,
    m: Model,
    id: int,
) -> bool {
    let node = m.nodes[id];
    let op = node.op->EinSum_0;
    let xs = inputs_of(run, m, id);
    &&& calculates(run, symbols)
    &&& mkn_step(op, m, id) matches Ok(Step::Annotated(rows, k, columns))
    &&& offsets_given(symbols, op.axes, facts_of(m.nodes, node.inputs), xs, rows, k, columns)
    &&& run.compute(node.op, xs)[0] == requantized(
        run,
        op,
        xs,
        lacking(m, id),
        accumulated(op.axes, xs),
    )
}

/// Dequantizing an einsum keeps what the model takes and computes, if the operators
/// suit it.
pub proof fn lemma_dequant_kept(
    run: Run,
    symbols: spec_fn(u64) -> int,
    m: Model,
    id: int,
    rows: char,
    k: char,
    columns: char,
    p: Patch,
)
    requires
        m.wf(),
        is_sound(run, symbols, m, id),
        dequant_suits(run, symbols, m, id),
        mkn_step(m.nodes[id].op->EinSum_0, m, id) == Ok::<Step, Error>(
            Step::Annotated(rows, k, columns),
        ),
        dequantized(m.nodes[id].op->EinSum_0, m, id, k) == Ok::<Patch, Error>(p),
        p.wires.len() <= usize::MAX,
    ensures
        keeps(run, m, p),
{
    lemma_sound(run, symbols, m, id);
    lemma_dequant_aims(m, id, k, p);
    lemma_dequantized(run, symbols, m, id, rows, k, columns, p);
    lemma_kept(run, m, p);
}

} // verus!
