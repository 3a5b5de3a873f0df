//! The rewrite of a quantized einsum into one of raw values, with what corrects
//! it.

use vstd::prelude::*;

use crate::axes::{AxesMapping, lemma_labels_fit};
use crate::axis_ops::{axis_ops, changed};
use crate::dequantizable::{is_dequantizable, lemma_dequantizable, lemma_parts_suit, patch_of};
use crate::dim::TDim;
use crate::error::Error;
use crate::labels::{Expr, lemma_has, lemma_positions};
use crate::model::{Model, Node, TypedModel, TypedNode, copy_outlets, facts_of, node_wf};
use crate::names::{decimal, numbered, suffixed};
use crate::ops::{
    AxisOp, DatumType, EinSum, EinSumView, Fact, Op, OpView, SimpleOp, TypedFact, fact_refs,
    fact_shapes, ranks_suit,
};
use crate::optimize::{EinSumAnnotatedAsMatMul, belongs, input_shapes, is_patch, node_facts};
use crate::patch::{Patch, Ref, TypedModelPatch, Wire, WireView, wires_view};
use crate::quantized::{accumulates, lemma_accumulates, lemma_requantizes, requantizes};
use crate::roles::{dim_in, lemma_axis};

verus! {

/// The number of elements of a shape, if it is known.
pub open spec fn known_volume(shape: Seq<TDim>) -> Option<int>
    decreases shape.len(),
{
    if shape.len() == 0 {
        Some(1)
    } else {
        match (known_volume(shape.drop_last()), shape.last().known()) {
            (Some(n), Some(d)) => Some(n * d),
            _ => None,
        }
    }
}

/// An axis operator of a patch.
pub open spec fn axis_wire(name: Seq<char>, op: AxisOp, input: Ref) -> WireView {
    WireView { name, op: OpView::Simple(SimpleOp::AxisOp(op)), inputs: seq![input] }
}

/// One more operator, and the reference to its first output.
pub open spec fn pushed(wires: Seq<WireView>, wire: WireView) -> (Seq<WireView>, Ref) {
    (wires.push(wire), Ref::Wire(wires.len() as usize, 0))
}

/// The first `n` of some axis operators, each on the output of the one before,
/// and the reference to the last output.
pub open spec fn chained(
    wires: Seq<WireView>,
    input: Ref,
    names: Seq<Seq<char>>,
    ops: Seq<AxisOp>,
    n: int,
) -> (Seq<WireView>, Ref)
    decreases n,
{
    if n <= 0 {
        (wires, input)
    } else {
        let (before, r) = chained(wires, input, names, ops, n - 1);
        pushed(before, axis_wire(names[n - 1], ops[n - 1], r))
    }
}

/// The names of the operators that fix the axes of a term.
pub open spec fn fix_names(name: Seq<char>, var: Seq<char>, n: nat) -> Seq<Seq<char>> {
    Seq::new(n, |i: int| name + ".fix_"@ + var + "."@ + decimal(i) + ")"@)
}

/// The operators that fix the axes of a term.
pub open spec fn fixed(
    wires: Seq<WireView>,
    input: Ref,
    name: Seq<char>,
    var: Seq<char>,
    ops: Seq<AxisOp>,
) -> (Seq<WireView>, Ref) {
    chained(wires, input, fix_names(name, var, ops.len()), ops, ops.len() as int)
}

/// Whether the operators are well-formed, and none is an input of the model.
pub open spec fn all_suit(wires: Seq<WireView>) -> bool {
    forall|i: int|
        0 <= i < wires.len() ==> (#[trigger] wires[i]).op.wf() && !(wires[i].op is Source)
}

/// If the volume is one or minus one, so is each dimension.
pub proof fn lemma_unit_volume(shape: Seq<TDim>, i: int)
    requires
        known_volume(shape) == Some(1int) || known_volume(shape) == Some(-1int),
        0 <= i < shape.len(),
    ensures
        shape[i] matches TDim::Val(v) && (v == 1 || v == -1),
    decreases shape.len(),
{
    let n = known_volume(shape.drop_last())->0;
    let d = shape.last().known()->0 as int;
    assert((n == 1 || n == -1) && (d == 1 || d == -1)) by (nonlinear_arith)
        requires
            n * d == 1 || n * d == -1,
    ;
    if i < shape.len() - 1 {
        lemma_unit_volume(shape.drop_last(), i);
    }
}

/// Whether a shape is known to hold one element.
fn has_unit_volume(shape: &Vec<TDim>) -> (r: bool)
    ensures
        r == (known_volume(shape@) == Some(1int)),
{
    let mut negative = false;
    for i in 0..shape.len()
        invariant
            known_volume(shape@.take(i as int)) == Some(
                if negative {
                    -1int
                } else {
                    1
                },
            ),
    {
        proof {
            assert(shape@.take(i + 1).drop_last() =~= shape@.take(i as int));
            if known_volume(shape@) == Some(1int) {
                lemma_unit_volume(shape@, i as int);
            }
        }
        match shape[i] {
            TDim::Val(v) => {
                assert(1 * (v as int) == v && -1 * (v as int) == -v);
                if v == -1 {
                    negative = !negative;
                } else if v != 1 {
                    return false;
                }
            },
            TDim::Sym(_) => {
                return false;
            },
        }
    }
    assert(shape@.take(shape@.len() as int) =~= shape@);
    !negative
}

/// Adds an operator.
fn push_wire(wires: &mut Vec<Wire>, name: String, op: Op, inputs: Vec<Ref>) -> (r: Ref)
    requires
        all_suit(wires_view(old(wires)@)),
        op@.wf(),
        !(op is Source),
    ensures
        all_suit(wires_view(final(wires)@)),
        (wires_view(final(wires)@), r) == pushed(
            wires_view(old(wires)@),
            WireView { name: name@, op: op@, inputs: inputs@ },
        ),
{
    let ghost before = wires_view(wires@);
    let at = wires.len();
    wires.push(Wire { name, op, inputs });
    assert(wires_view(wires@) =~= before.push(
        WireView { name: name@, op: op@, inputs: inputs@ },
    ));
    Ref::Wire(at, 0)
}

/// Adds axis operators, each on the output of the one before.
fn push_chain(wires: &mut Vec<Wire>, input: Ref, names: Vec<String>, ops: &Vec<AxisOp>) -> (r: Ref)
    requires
        all_suit(wires_view(old(wires)@)),
        names@.len() == ops@.len(),
    ensures
        all_suit(wires_view(final(wires)@)),
        (wires_view(final(wires)@), r) == chained(
            wires_view(old(wires)@),
            input,
            texts(names@),
            ops@,
            ops@.len() as int,
        ),
{
    let ghost start = wires_view(wires@);
    let mut at = input;
    for i in 0..ops.len()
        invariant
            names@.len() == ops@.len(),
            all_suit(wires_view(wires@)),
            (wires_view(wires@), at) == chained(start, input, texts(names@), ops@, i as int),
    {
        let mut inputs: Vec<Ref> = Vec::new();
        inputs.push(at);
        assert(inputs@ =~= seq![at]);
        at = push_wire(wires, names[i].clone(), Op::Simple(SimpleOp::AxisOp(ops[i])), inputs);
        assert(texts(names@)[i as int] == names@[i as int]@);
    }
    at
}

/// The characters of some strings.
pub open spec fn texts(names: Seq<String>) -> Seq<Seq<char>> {
    Seq::new(names.len(), |i: int| names[i]@)
}

/// Brings the axes of a term to those of the output.
fn wire_axes_fix(
    wires: &mut Vec<Wire>,
    name: &String,
    var: &str,
    mapping: &AxesMapping,
    outlet: Ref,
) -> (r: Result<Ref, Error>)
    requires
        all_suit(wires_view(old(wires)@)),
    ensures
        all_suit(wires_view(final(wires)@)),
        match axis_ops(mapping@) {
            Ok(ops) => r is Ok && (wires_view(final(wires)@), r->Ok_0) == fixed(
                wires_view(old(wires)@),
                outlet,
                name@,
                var@,
                ops,
            ),
            Err(e) => r == Err::<Ref, Error>(e) && wires_view(final(wires)@) == wires_view(
                old(wires)@,
            ),
        },
{
    let ops = match mapping.translate_to_axis_ops() {
        Ok(ops) => ops,
        Err(e) => {
            return Err(e);
        },
    };
    let prefix = suffixed(&suffixed(&suffixed(name, ".fix_"), var), ".");
    let mut names: Vec<String> = Vec::new();
    for i in 0..ops.len()
        invariant
            prefix@ == name@ + ".fix_"@ + var@ + "."@,
            names@.len() == i,
            forall|j: int|
                0 <= j < i ==> (#[trigger] names@[j])@ == name@ + ".fix_"@ + var@ + "."@ + decimal(
                    j,
                ) + ")"@,
    {
        names.push(suffixed(&numbered(&prefix, i), ")"));
    }
    assert(texts(names@) =~= fix_names(name@, var@, ops@.len()));
    Ok(push_chain(wires, outlet, names, &ops))
}

/// The input of a quantized einsum that is the scale of an operand.
pub open spec fn scale_input(ab: int) -> int {
    4 + 2 * ab
}

/// How many axes the scale of an operand lacks to run along its axis of the
/// output: none, if the scale is a single one.
pub open spec fn scale_axes(e: Expr, facts: Seq<Fact>, rank: int, ab: int) -> Result<int, Error> {
    let s = scale_input(ab);
    let c = e.inputs[s][0];
    if known_volume(facts[s].shape) == Some(1int) {
        Ok(0)
    } else if e.count_out(0, c) == 0 {
        Err(Error::UnknownLabel)
    } else {
        Ok(rank - e.first_out(0, c) - 1)
    }
}

/// The names of the operators that give a scale its axes.
pub open spec fn scale_names(name: Seq<char>, ab: int, n: nat) -> Seq<Seq<char>> {
    Seq::new(
        n,
        |i: int|
            name + ".scale_input"@ + decimal(ab) + "_axis_fix_"@ + decimal(i + 1),
    )
}

/// The operators that give a scale its axes, after the first.
pub open spec fn scaled(wires: Seq<WireView>, name: Seq<char>, ab: int, n: nat) -> (
    Seq<WireView>,
    Ref,
) {
    chained(
        wires,
        Ref::Tap(scale_input(ab) as usize),
        scale_names(name, ab, n),
        Seq::new(n, |i: int| AxisOp::Add((i + 1) as usize)),
        n as int,
    )
}

/// An operator of a patch.
pub open spec fn simple_wire(name: Seq<char>, op: SimpleOp, inputs: Seq<Ref>) -> WireView {
    WireView { name, op: OpView::Simple(op), inputs }
}

/// The references that the parts of a dequantized einsum go by.
#[derive(Clone, Copy)]
pub struct Terms {
    pub a_scale: Ref,
    pub b_scale: Ref,
    pub a0: Ref,
    pub b0: Ref,
    pub product: Ref,
    pub sum_a: Ref,
    pub sum_b: Ref,
}

/// The einsum of the raw operands.
pub open spec fn raw_einsum(op: EinSumView) -> EinSumView {
    EinSumView {
        axes: op.axes.restricted(seq![0, 1], seq![0]),
        operating_dt: op.operating_dt,
        q_params: None,
    }
}

/// The operators that bring the operands to signed bytes, multiply them, and sum
/// each along the sums of the product.
pub open spec fn products(
    op: EinSumView,
    name: Seq<char>,
    k: char,
    wires: Seq<WireView>,
    a_scale: Ref,
    b_scale: Ref,
) -> (Seq<WireView>, Terms) {
    let (w, a) = pushed(
        wires,
        simple_wire(
            name + ".ensure_q8_a"@,
            SimpleOp::EnsureSigned,
            seq![Ref::Tap(0), Ref::Tap(3)],
        ),
    );
    let a0 = Ref::Wire(a->Wire_0, 1);
    let (w, b) = pushed(
        w,
        simple_wire(
            name + ".ensure_q8_b"@,
            SimpleOp::EnsureSigned,
            seq![Ref::Tap(1), Ref::Tap(5)],
        ),
    );
    let b0 = Ref::Wire(b->Wire_0, 1);
    let (w, product) = pushed(
        w,
        WireView { name, op: OpView::EinSum(raw_einsum(op)), inputs: seq![a, b] },
    );
    let (w, a_i32) = pushed(
        w,
        simple_wire(name + ".a_as_i32"@, SimpleOp::Cast(DatumType::I32), seq![a]),
    );
    let (w, b_i32) = pushed(
        w,
        simple_wire(name + ".b_as_i32"@, SimpleOp::Cast(DatumType::I32), seq![b]),
    );
    let (w, sum_a) = pushed(
        w,
        simple_wire(
            name + ".sum_a"@,
            SimpleOp::Sum(op.axes.first_in(0, k) as usize),
            seq![a_i32],
        ),
    );
    let (w, sum_b) = pushed(
        w,
        simple_wire(
            name + ".sum_b"@,
            SimpleOp::Sum(op.axes.first_in(1, k) as usize),
            seq![b_i32],
        ),
    );
    (w, Terms { a_scale, b_scale, a0, b0, product, sum_a, sum_b })
}

/// The operators that put the product, the bias, the zero points and the scales
/// together.
pub open spec fn corrections(
    name: Seq<char>,
    wires: Seq<WireView>,
    terms: Terms,
    bias: Ref,
    k: TDim,
    dt: DatumType,
) -> (Seq<WireView>, Ref) {
    let (w, scale) = pushed(
        wires,
        simple_wire(
            name + ".combine_scales"@,
            SimpleOp::CombineScales,
            seq![terms.a_scale, terms.b_scale, Ref::Tap(8)],
        ),
    );
    let (w, biased) = pushed(
        w,
        simple_wire(name + ".add_bias"@, SimpleOp::Add, seq![terms.product, bias]),
    );
    let (w, centered) = pushed(
        w,
        simple_wire(
            name + ".compensate_zero_points"@,
            SimpleOp::CompensateZeroPoints(k),
            seq![biased, terms.a0, terms.b0, terms.sum_a, terms.sum_b],
        ),
    );
    pushed(
        w,
        simple_wire(
            name + ".requant"@,
            SimpleOp::Requant(dt),
            seq![centered, scale, Ref::Tap(7)],
        ),
    )
}

/// The part of a mapping between an input and the output.
pub open spec fn term_axes(e: Expr, slot: usize) -> Expr {
    e.restricted(seq![slot], seq![0])
}

/// The patch that dequantizes an einsum, given how many axes each scale lacks,
/// and the axis operators that the sums of the operands and the bias need.
pub open spec fn dequant_patch(
    op: EinSumView,
    node: Node,
    id: int,
    k_label: char,
    k: TDim,
    scales: (nat, nat),
    fixes: (Seq<AxisOp>, Seq<AxisOp>, Seq<AxisOp>),
) -> Patch {
    let name = node.name;
    let (w, a_scale) = scaled(Seq::empty(), name, 0, scales.0);
    let (w, b_scale) = scaled(w, name, 1, scales.1);
    let (w, terms) = products(op, name, k_label, w, a_scale, b_scale);
    let (w, sum_a) = fixed(w, terms.sum_a, name, "sum_a"@, fixes.0);
    let (w, sum_b) = fixed(w, terms.sum_b, name, "sum_b"@, fixes.1);
    let (w, bias) = fixed(w, Ref::Tap(2), name, "bias"@, fixes.2);
    let terms = Terms { sum_a, sum_b, ..terms };
    let (w, by) = corrections(name, w, terms, bias, k, op.q_params->0);
    Patch { context: "Dequantizing einsum"@, taps: node.inputs, wires: w, node: id, by }
}

/// What dequantizing an einsum comes to.
pub open spec fn dequantized(op: EinSumView, m: Model, id: int, k: char) -> Result<Patch, Error> {
    let node = m.nodes[id];
    let e = op.axes;
    let facts = facts_of(m.nodes, node.inputs);
    let rank = node.outputs[0].shape.len() as int;
    if node.inputs.len() != 9 {
        Err(Error::NotNineInputs)
    } else {
        match (
            scale_axes(e, facts, rank, 0),
            scale_axes(e, facts, rank, 1),
            axis_ops(term_axes(e, 0)),
            axis_ops(term_axes(e, 1)),
            axis_ops(term_axes(e, 2)),
        ) {
            (Err(err), _, _, _, _) => Err(err),
            (_, Err(err), _, _, _) => Err(err),
            (_, _, Err(err), _, _) => Err(err),
            (_, _, _, Err(err), _) => Err(err),
            (_, _, _, _, Err(err)) => Err(err),
            (Ok(n0), Ok(n1), Ok(fix_a), Ok(fix_b), Ok(fix_bias)) => dequant_patch(
                op,
                node,
                id,
                k,
                dim_in(e, fact_shapes(facts), 0, k),
                (n0 as nat, n1 as nat),
                (fix_a, fix_b, fix_bias),
            ).checked(m),
        }
    }
}

proof fn lemma_chained_suit(
    wires: Seq<WireView>,
    input: Ref,
    names: Seq<Seq<char>>,
    ops: Seq<AxisOp>,
    n: int,
)
    requires
        all_suit(wires),
    ensures
        all_suit(chained(wires, input, names, ops, n).0),
    decreases n,
{
    if n > 0 {
        lemma_chained_suit(wires, input, names, ops, n - 1);
    }
}

/// The patch that dequantizes an einsum is for its node, and has no fault.
pub proof fn lemma_dequant_aims(m: Model, id: int, k: char, p: Patch)
    requires
        m.wf(),
        0 <= id < m.nodes.len(),
        m.nodes[id].op is EinSum,
        dequantized(m.nodes[id].op->EinSum_0, m, id, k) == Ok::<Patch, Error>(p),
    ensures
        p.aims_at(m),
        p.fault(m) is None,
        p.node == id,
{
    let node = m.nodes[id];
    let op = node.op->EinSum_0;
    let e = op.axes;
    let rank = node.outputs[0].shape.len() as int;
    let facts = facts_of(m.nodes, node.inputs);
    let name = node.name;
    assert(node_wf(m.nodes, id));
    let n0 = scale_axes(e, facts, rank, 0)->Ok_0 as nat;
    let n1 = scale_axes(e, facts, rank, 1)->Ok_0 as nat;
    let (fix_a, fix_b, fix_bias) = (
        axis_ops(term_axes(e, 0))->Ok_0,
        axis_ops(term_axes(e, 1))->Ok_0,
        axis_ops(term_axes(e, 2))->Ok_0,
    );
    let none = Seq::<WireView>::empty();
    let (w0, a_scale) = scaled(none, name, 0, n0);
    let (w1, b_scale) = scaled(w0, name, 1, n1);
    let (w2, terms) = products(op, name, k, w1, a_scale, b_scale);
    let (w3, _) = fixed(w2, terms.sum_a, name, "sum_a"@, fix_a);
    let (w4, _) = fixed(w3, terms.sum_b, name, "sum_b"@, fix_b);
    lemma_chained_suit(
        none,
        Ref::Tap(scale_input(0) as usize),
        scale_names(name, 0, n0),
        Seq::new(n0, |i: int| AxisOp::Add((i + 1) as usize)),
        n0 as int,
    );
    lemma_chained_suit(
        w0,
        Ref::Tap(scale_input(1) as usize),
        scale_names(name, 1, n1),
        Seq::new(n1, |i: int| AxisOp::Add((i + 1) as usize)),
        n1 as int,
    );
    assert(raw_einsum(op).wf());
    assert(all_suit(w2));
    lemma_chained_suit(
        w2,
        terms.sum_a,
        fix_names(name, "sum_a"@, fix_a.len()),
        fix_a,
        fix_a.len() as int,
    );
    lemma_chained_suit(
        w3,
        terms.sum_b,
        fix_names(name, "sum_b"@, fix_b.len()),
        fix_b,
        fix_b.len() as int,
    );
    lemma_chained_suit(
        w4,
        Ref::Tap(2),
        fix_names(name, "bias"@, fix_bias.len()),
        fix_bias,
        fix_bias.len() as int,
    );
    assert(all_suit(p.wires));
}

fn count_scale_axes(axes: &AxesMapping, facts: &Vec<&TypedFact>, rank: usize, ab: usize) -> (r:
    Result<usize, Error>)
    requires
        ab < 2,
        facts@.len() == 9,
        ranks_suit(axes@, fact_refs(facts@)),
        axes@.outputs.len() == 1,
        rank == axes@.outputs[0].len(),
    ensures
        match r {
            Ok(n) => scale_axes(axes@, fact_refs(facts@), rank as int, ab as int) == Ok::<
                int,
                Error,
            >(n as int) && n < usize::MAX,
            Err(e) => scale_axes(axes@, fact_refs(facts@), rank as int, ab as int) == Err::<
                int,
                Error,
            >(e),
        },
{
    let ghost e = axes@;
    let s = 4 + 2 * ab;
    assert(fact_refs(facts@)[s as int] == facts@[s as int]@);
    if has_unit_volume(&facts[s].shape) {
        return Ok(0);
    }
    assert(facts@[s as int]@.shape.len() == e.inputs[s as int].len());
    let c = axes.input_labels(s)[0];
    proof {
        lemma_has(e, c);
        assert(e.inputs[s as int].contains(c));
    }
    match axes.axis(c) {
        Ok(axis) => {
            proof {
                lemma_axis(e, axis);
                assert(axis.outputs@[0]@.len() == e.count_out(0, c));
            }
            if axis.outputs[0].len() == 0 {
                return Err(Error::UnknownLabel);
            }
            Ok(rank - axis.outputs[0][0] - 1)
        },
        Err(err) => Err(err),
    }
}

fn push_scale(wires: &mut Vec<Wire>, name: &String, ab: usize, n: usize) -> (r: Ref)
    requires
        all_suit(wires_view(old(wires)@)),
        ab < 2,
        n < usize::MAX,
    ensures
        all_suit(wires_view(final(wires)@)),
        (wires_view(final(wires)@), r) == scaled(
            wires_view(old(wires)@),
            name@,
            ab as int,
            n as nat,
        ),
{
    let prefix = suffixed(&numbered(&suffixed(name, ".scale_input"), ab), "_axis_fix_");
    let ghost all = scale_names(name@, ab as int, n as nat);
    let ghost adds = Seq::new(n as nat, |i: int| AxisOp::Add((i + 1) as usize));
    let mut names: Vec<String> = Vec::new();
    let mut ops: Vec<AxisOp> = Vec::new();
    for i in 0..n
        invariant
            n < usize::MAX,
            prefix@ == name@ + ".scale_input"@ + decimal(ab as int) + "_axis_fix_"@,
            all == scale_names(name@, ab as int, n as nat),
            adds == Seq::new(n as nat, |i: int| AxisOp::Add((i + 1) as usize)),
            texts(names@) == all.take(i as int),
            ops@ == adds.take(i as int),
    {
        let ghost before = texts(names@);
        names.push(numbered(&prefix, i + 1));
        ops.push(AxisOp::Add(i + 1));
        assert(texts(names@) =~= before.push(all[i as int]));
        assert(texts(names@) =~= all.take(i + 1));
        assert(ops@ =~= adds.take(i + 1));
    }
    assert(all.take(n as int) =~= all);
    assert(adds.take(n as int) =~= adds);
    push_chain(wires, Ref::Tap(4 + 2 * ab), names, &ops)
}

fn push_simple(
    wires: &mut Vec<Wire>,
    name: &String,
    suffix: &str,
    op: SimpleOp,
    inputs: Vec<Ref>,
) -> (r: Ref)
    requires
        all_suit(wires_view(old(wires)@)),
    ensures
        all_suit(wires_view(final(wires)@)),
        (wires_view(final(wires)@), r) == pushed(
            wires_view(old(wires)@),
            simple_wire(name@ + suffix@, op, inputs@),
        ),
{
    push_wire(wires, suffixed(name, suffix), Op::Simple(op), inputs)
}

fn one_ref(a: Ref) -> (r: Vec<Ref>)
    ensures
        r@ == seq![a],
{
    let mut refs: Vec<Ref> = Vec::new();
    refs.push(a);
    assert(refs@ =~= seq![a]);
    refs
}

fn two_refs(a: Ref, b: Ref) -> (r: Vec<Ref>)
    ensures
        r@ == seq![a, b],
{
    let mut refs = one_ref(a);
    refs.push(b);
    assert(refs@ =~= seq![a, b]);
    refs
}

fn three_refs(a: Ref, b: Ref, c: Ref) -> (r: Vec<Ref>)
    ensures
        r@ == seq![a, b, c],
{
    let mut refs = two_refs(a, b);
    refs.push(c);
    assert(refs@ =~= seq![a, b, c]);
    refs
}

/// The other output of an operator with two.
fn second_output(r: Ref) -> (s: Ref)
    requires
        r is Wire,
    ensures
        s == Ref::Wire(r->Wire_0, 1),
{
    match r {
        Ref::Wire(i, _) => Ref::Wire(i, 1),
        Ref::Tap(_) => r,
    }
}

fn slots(a: usize) -> (r: Vec<usize>)
    ensures
        r@ == seq![a],
{
    let mut slots: Vec<usize> = Vec::new();
    slots.push(a);
    assert(slots@ =~= seq![a]);
    slots
}

fn push_products(
    wires: &mut Vec<Wire>,
    name: &String,
    op: &EinSum,
    a_k: usize,
    b_k: usize,
    a_scale: Ref,
    b_scale: Ref,
    Ghost(k): Ghost<char>,
) -> (r: Terms)
    requires
        all_suit(wires_view(old(wires)@)),
        op@.wf(),
        a_k == op@.axes.first_in(0, k),
        b_k == op@.axes.first_in(1, k),
    ensures
        all_suit(wires_view(final(wires)@)),
        (wires_view(final(wires)@), r) == products(
            op@,
            name@,
            k,
            wires_view(old(wires)@),
            a_scale,
            b_scale,
        ),
{
    let mut operands = slots(0);
    operands.push(1);
    assert(operands@ =~= seq![0usize, 1usize]);
    let axes = match op.axes.extract_sub_mapping(&operands, &slots(0)) {
        Ok(axes) => axes,
        Err(_) => {
            assert(false);
            op.axes.clone()
        },
    };
    let raw = EinSum { axes, operating_dt: op.operating_dt, q_params: None };
    proof {
        assert(raw@ == raw_einsum(op@));
        assert(raw@.axes.outputs[0] == op@.axes.outputs[0]);
    }
    let a = push_simple(
        wires,
        name,
        ".ensure_q8_a",
        SimpleOp::EnsureSigned,
        two_refs(Ref::Tap(0), Ref::Tap(3)),
    );
    let b = push_simple(
        wires,
        name,
        ".ensure_q8_b",
        SimpleOp::EnsureSigned,
        two_refs(Ref::Tap(1), Ref::Tap(5)),
    );
    let product = push_wire(wires, name.clone(), Op::EinSum(raw), two_refs(a, b));
    let a_i32 = push_simple(wires, name, ".a_as_i32", SimpleOp::Cast(DatumType::I32), one_ref(a));
    let b_i32 = push_simple(wires, name, ".b_as_i32", SimpleOp::Cast(DatumType::I32), one_ref(b));
    let sum_a = push_simple(wires, name, ".sum_a", SimpleOp::Sum(a_k), one_ref(a_i32));
    let sum_b = push_simple(wires, name, ".sum_b", SimpleOp::Sum(b_k), one_ref(b_i32));
    Terms {
        a_scale,
        b_scale,
        a0: second_output(a),
        b0: second_output(b),
        product,
        sum_a,
        sum_b,
    }
}

fn push_corrections(
    wires: &mut Vec<Wire>,
    name: &String,
    terms: Terms,
    bias: Ref,
    k: TDim,
    dt: DatumType,
) -> (r: Ref)
    requires
        all_suit(wires_view(old(wires)@)),
    ensures
        all_suit(wires_view(final(wires)@)),
        (wires_view(final(wires)@), r) == corrections(
            name@,
            wires_view(old(wires)@),
            terms,
            bias,
            k,
            dt,
        ),
{
    let scale = push_simple(
        wires,
        name,
        ".combine_scales",
        SimpleOp::CombineScales,
        three_refs(terms.a_scale, terms.b_scale, Ref::Tap(8)),
    );
    let biased = push_simple(
        wires,
        name,
        ".add_bias",
        SimpleOp::Add,
        two_refs(terms.product, bias),
    );
    let mut parts = three_refs(biased, terms.a0, terms.b0);
    parts.push(terms.sum_a);
    parts.push(terms.sum_b);
    assert(parts@ =~= seq![biased, terms.a0, terms.b0, terms.sum_a, terms.sum_b]);
    let centered = push_simple(
        wires,
        name,
        ".compensate_zero_points",
        SimpleOp::CompensateZeroPoints(k),
        parts,
    );
    push_simple(
        wires,
        name,
        ".requant",
        SimpleOp::Requant(dt),
        three_refs(centered, scale, Ref::Tap(7)),
    )
}

/// Brings the axes of a term to those of the output.
fn push_fix(
    wires: &mut Vec<Wire>,
    name: &String,
    var: &str,
    op: &EinSum,
    slot: usize,
    term: Ref,
) -> (r: Result<Ref, Error>)
    requires
        all_suit(wires_view(old(wires)@)),
        op@.wf(),
        slot < op@.axes.inputs.len(),
    ensures
        all_suit(wires_view(final(wires)@)),
        match axis_ops(term_axes(op@.axes, slot)) {
            Ok(ops) => r is Ok && (wires_view(final(wires)@), r->Ok_0) == fixed(
                wires_view(old(wires)@),
                term,
                name@,
                var@,
                ops,
            ),
            Err(e) => r == Err::<Ref, Error>(e),
        },
{
    match op.axes.extract_sub_mapping(&slots(slot), &slots(0)) {
        Ok(mapping) => wire_axes_fix(wires, name, var, &mapping, term),
        Err(e) => {
            assert(false);
            Err(e)
        },
    }
}

/// Replaces a quantized einsum by one of the raw operands, what corrects this for
/// the zero points, and the quantization of the result. The contract says which
/// operators these are and what each takes; what they come to, if they compute what
/// they are described to, is `requantized::lemma_dequantized`.
pub fn dequant(model: &TypedModel, node: &TypedNode, op: &EinSumAnnotatedAsMatMul) -> (r:
    Result<TypedModelPatch, Error>)
    requires
        belongs(model, node),
        node@.op == OpView::EinSum(op.op@),
        op.op@.q_params is Some,
        op.annotates(
            op.op@,
            input_shapes(model@, node@),
            op.m_axis.repr,
            op.k_axis.repr,
            op.n_axis.repr,
        ),
    ensures
        is_patch(
            r,
            model@,
            dequantized(op.op@, model@, node.id as int, op.k_axis.repr),
        ),
        is_dequantizable(model@, node.id as int, op.k_axis.repr) ==> r is Ok,
        r matches Ok(p) ==> requantizes(model@, node.id as int, p@),
        r matches Ok(p) ==> accumulates(model@, node.id as int, p@, op.k_axis.repr),
{
    let ghost e = op.op@.axes;
    let ghost k = op.k_axis.repr;
    proof {
        assert(node_wf(model@.nodes, node.id as int));
        if is_dequantizable(model@, node.id as int, k) {
            lemma_labels_fit(&op.op.axes);
            lemma_parts_suit(model@, node.id as int, k);
        }
        assert(node.outputs@.len() == node@.outputs.len());
        assert(node@.outputs[0] == node.outputs@[0]@);
        lemma_axis(e, op.k_axis);
        assert(op.k_axis.inputs@[0]@.len() == e.count_in(0, k));
        assert(op.k_axis.inputs@[1]@.len() == e.count_in(1, k));
    }
    if node.inputs.len() != 9 {
        return Err(Error::NotNineInputs);
    }
    let facts = node_facts(model, node);
    let rank = node.outputs[0].shape.len();
    let axes = &op.op.axes;
    let n0 = match count_scale_axes(axes, &facts, rank, 0) {
        Ok(n) => n,
        Err(err) => {
            return Err(err);
        },
    };
    let n1 = match count_scale_axes(axes, &facts, rank, 1) {
        Ok(n) => n,
        Err(err) => {
            return Err(err);
        },
    };
    let name = &node.name;
    let mut wires: Vec<Wire> = Vec::new();
    assert(wires_view(wires@) =~= Seq::empty());
    let a_scale = push_scale(&mut wires, name, 0, n0);
    let b_scale = push_scale(&mut wires, name, 1, n1);
    let terms = push_products(
        &mut wires,
        name,
        op.op,
        op.a_k(),
        op.b_k(),
        a_scale,
        b_scale,
        Ghost(k),
    );
    let sum_a = match push_fix(&mut wires, name, "sum_a", op.op, 0, terms.sum_a) {
        Ok(r) => r,
        Err(err) => {
            return Err(err);
        },
    };
    let sum_b = match push_fix(&mut wires, name, "sum_b", op.op, 1, terms.sum_b) {
        Ok(r) => r,
        Err(err) => {
            return Err(err);
        },
    };
    let bias = match push_fix(&mut wires, name, "bias", op.op, 2, Ref::Tap(2)) {
        Ok(r) => r,
        Err(err) => {
            return Err(err);
        },
    };
    let dt = match op.op.q_params {
        Some(dt) => dt,
        None => op.op.operating_dt,
    };
    let terms = Terms { sum_a, sum_b, ..terms };
    let by = push_corrections(&mut wires, name, terms, bias, op.k, dt);
    let ghost want = dequant_patch(
        op.op@,
        node@,
        node.id as int,
        k,
        op.k,
        (n0 as nat, n1 as nat),
        (
            axis_ops(term_axes(e, 0))->Ok_0,
            axis_ops(term_axes(e, 1))->Ok_0,
            axis_ops(term_axes(e, 2))->Ok_0,
        ),
    );
    assert(want.wires == wires_view(wires@) && want.by == by);
    proof {
        lemma_labels_fit(&op.op.axes);
        assert(want.wires.len() == wires.len());
        assert(want == patch_of(model@, node.id as int, k));
        if is_dequantizable(model@, node.id as int, k) {
            lemma_dequantizable(model@, node.id as int, k);
        }
        if want.fault(model@) is None {
            lemma_requantizes(model@, node.id as int, k, want);
            lemma_positions(e.inputs[0], k);
            lemma_positions(e.inputs[1], k);
            lemma_accumulates(model@, node.id as int, k, want);
        }
    }
    TypedModelPatch::new(
        "Dequantizing einsum".to_owned(),
        model,
        node.id,
        copy_outlets(&node.inputs),
        wires,
        by,
    )
}

/// A scale along an axis of the output gets so many axes that, counted from the
/// last one on, its first axis is that axis, and the others have the dimension
/// one.
pub proof fn lemma_scale_axes(e: Expr, facts: Seq<Fact>, rank: int, ab: int, d: TDim)
    requires
        e.outputs.len() == 1,
        rank == e.outputs[0].len(),
        rank <= usize::MAX,
        known_volume(facts[scale_input(ab)].shape) != Some(1int),
        e.inputs[scale_input(ab)] == seq![e.inputs[scale_input(ab)][0]],
        facts[scale_input(ab)].shape == seq![d],
    ensures
        match scale_axes(e, facts, rank, ab) {
            Ok(n) => ({
                let c = e.inputs[scale_input(ab)][0];
                let adds = Seq::new(n as nat, |i: int| AxisOp::Add((i + 1) as usize));
                &&& 0 <= n
                &&& e.outputs[0][rank - 1 - n] == c
                &&& changed(adds, seq![d], TDim::Val(1)) == Some(
                    Seq::new(
                        (n + 1) as nat,
                        |i: int|
                            if i == 0 {
                                d
                            } else {
                                TDim::Val(1)
                            },
                    ),
                )
            }),
            Err(err) => err == Error::UnknownLabel && !e.outputs[0].contains(
                e.inputs[scale_input(ab)][0],
            ),
        },
{
    let c = e.inputs[scale_input(ab)][0];
    lemma_positions(e.outputs[0], c);
    match scale_axes(e, facts, rank, ab) {
        Ok(n) => {
            assert(e.outputs[0][e.first_out(0, c)] == c);
            lemma_add_units(d, n as nat);
        },
        Err(_) => {},
    }
}

proof fn lemma_add_units(d: TDim, n: nat)
    requires
        n < usize::MAX,
    ensures
        changed(
            Seq::new(n, |i: int| AxisOp::Add((i + 1) as usize)),
            seq![d],
            TDim::Val(1),
        ) == Some(
            Seq::new(
                n + 1,
                |i: int|
                    if i == 0 {
                        d
                    } else {
                        TDim::Val(1)
                    },
            ),
        ),
    decreases n,
{
    let adds = Seq::new(n, |i: int| AxisOp::Add((i + 1) as usize));
    let shape = Seq::new(
        n + 1,
        |i: int|
            if i == 0 {
                d
            } else {
                TDim::Val(1)
            },
    );
    if n == 0 {
        assert(shape =~= seq![d]);
    } else {
        let fewer = (n - 1) as nat;
        lemma_add_units(d, fewer);
        assert(adds.drop_last() =~= Seq::new(fewer, |i: int| AxisOp::Add((i + 1) as usize)));
        let before = Seq::new(
            fewer + 1,
            |i: int|
                if i == 0 {
                    d
                } else {
                    TDim::Val(1)
                },
        );
        assert(before.insert(n as int, TDim::Val(1)) =~= shape);
    }
}

} // verus!
