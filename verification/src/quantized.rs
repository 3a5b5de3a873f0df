//! What a quantized einsum means, element by element, and that dequantizing one keeps it.

use vstd::prelude::*;

use crate::axis_ops::{axis_ops, changed, dims_for, lemma_axis_ops, lemma_axis_ops_units};
use crate::axis_values::{axis_values, lemma_tabulated, lemma_unit_axis};
use crate::centered::{
    accumulated, depth, first_dims, first_inputs, joint, lemma_depth, lemma_extent_found,
    lemma_first_inputs, lemma_first_sums, lemma_one_total, lemma_units_summed, offsets_given,
    offsets_suit, relatively,
};
use crate::dequant::{
    Terms, axis_wire, chained, dequant_patch, dequantized, fix_names, fixed, known_volume,
    lemma_dequant_aims, lemma_unit_volume, products, pushed, raw_einsum, scale_axes, scale_input,
    scale_names, scaled, simple_wire, term_axes,
};
use crate::dim::TDim;
use crate::error::Error;
use crate::facts::lemma_extent_value;
use crate::labels::{Expr, lemma_positions, positions};
use crate::meaning::{
    Meaning, einsum_by, elements, entry_by, lemma_extent_one, lemma_sum_shape, terms,
};
use crate::model::{Model, Outlet, facts_of, node_wf};
use crate::ops::{AxisOp, DatumType, EinSumView, Fact, OpView, SimpleOp, broadcast_dim, fact_shapes};
use crate::packed::lemma_axis_of;
use crate::patch::{
    Patch, Ref, WireView, has_ref, lemma_resolve, lemma_wire_facts, ref_fact, ref_facts,
};
use crate::preserve::{inputs_of, is_sound, lemma_sound, obeys};
use crate::product::{
    Assignment, bind, broadcasts, coords_in, extent, is_summed, lemma_bind, lemma_row_extent_one,
    lemma_row_extent_trivial, lemma_sum_same, output_dims, row_extent, shapes_of, suits,
    summed_extents, total,
};
use crate::requantized::{
    calculates, lacking, lemma_chain_fact, lemma_dequantized, lemma_lacking, lemma_starts, spread,
    starts,
};
use crate::roles::{dim_in, one};
use crate::run::{Run, keeps, lemma_kept};
use crate::search::{leads, lemma_leads};
use crate::tensor::{Value, in_bounds, is_shape, lemma_tabulate_same, tabulate};

verus! {

/// The coordinates in a tensor that stretches to others from its last axes on.
pub open spec fn aligned(coords: Seq<int>, shape: Seq<int>) -> Seq<int> {
    Seq::new(
        shape.len(),
        |p: int|
            if shape[p] == 1 {
                0
            } else {
                coords[p + coords.len() - shape.len()]
            },
    )
}

/// A shape with axes of dimension one in front, up to a rank.
pub open spec fn stretched(shape: Seq<int>, rank: nat) -> Seq<int> {
    Seq::new((rank - shape.len()) as nat, |i: int| 1int) + shape
}

/// The shape of two shapes that broadcast from their last axes on.
pub open spec fn rank_joint(a: Seq<int>, b: Seq<int>) -> Seq<int> {
    if a.len() <= b.len() {
        joint(stretched(a, b.len()), b)
    } else {
        joint(a, stretched(b, a.len()))
    }
}

/// The tensor of what a function makes of the elements of three, which broadcast from
/// their last axes on.
pub open spec fn combined(
    combine: spec_fn(int, int, int) -> int,
    a: Value,
    b: Value,
    c: Value,
) -> Value {
    tabulate(
        rank_joint(rank_joint(a.shape, b.shape), c.shape),
        |coords: Seq<int>|
            combine(
                a.at(aligned(coords, a.shape)),
                b.at(aligned(coords, b.shape)),
                c.at(aligned(coords, c.shape)),
            ),
    )
}

/// The tensor of what a function makes of the elements of one, of a scale that stretches
/// to it from its last axes on, and of a zero point.
pub open spec fn rescaled(
    rescale: spec_fn(int, int, int) -> int,
    x: Value,
    scale: Value,
    c0: Value,
) -> Value {
    tabulate(
        x.shape,
        |coords: Seq<int>|
            rescale(x.at(coords), scale.at(aligned(coords, scale.shape)), c0.scalar()),
    )
}

/// Whether the operators for scales compute what some functions make of elements.
pub open spec fn rescales(
    run: Run,
    dt: DatumType,
    combine: spec_fn(int, int, int) -> int,
    rescale: spec_fn(int, int, int) -> int,
) -> bool {
    &&& forall|xs: Seq<Value>| #[trigger]
        run.compute(OpView::Simple(SimpleOp::CombineScales), xs) == seq![
            combined(combine, xs[0], xs[1], xs[2]),
        ]
    &&& forall|xs: Seq<Value>| #[trigger]
        run.compute(OpView::Simple(SimpleOp::Requant(dt)), xs) == seq![
            rescaled(rescale, xs[0], xs[1], xs[2]),
        ]
}

/// What a quantized einsum makes of elements of its nine inputs: the operands, the bias,
/// the zero point and the scale of each operand, and those of the output. It sums up the
/// products of the operands, each relative to its zero point, adds the bias, and brings
/// the sum to the scale that it makes of the three.
pub open spec fn quantizing(
    combine: spec_fn(int, int, int) -> int,
    rescale: spec_fn(int, int, int) -> int,
) -> Meaning {
    Meaning {
        term: |v: Seq<int>| (v[0] - v[3]) * (v[1] - v[5]),
        finish: |total: int, v: Seq<int>| rescale(total + v[2], combine(v[4], v[6], v[8]), v[7]),
    }
}

/// Whether the scale of an operand is a single one, or runs along one axis.
pub open spec fn scale_given(e: Expr, facts: Seq<Fact>, s: int) -> bool {
    ||| e.inputs[s].len() == 1
    ||| forall|i: int| 0 <= i < facts[s].shape.len() ==> #[trigger] facts[s].shape[i] == TDim::Val(
        1,
    )
}

/// Whether the scales of the operands are single ones, or run along one axis each, and
/// what the output is quantized by is single.
pub open spec fn scales_given(e: Expr, facts: Seq<Fact>) -> bool {
    &&& scale_given(e, facts, 4)
    &&& scale_given(e, facts, 6)
    &&& e.inputs[7].len() == 0
    &&& e.inputs[8].len() == 0
}

/// Whether a shape stretches to another from its last axes on.
spec fn stretches(shape: Seq<int>, dims: Seq<int>) -> bool {
    forall|p: int|
        0 <= p < shape.len() ==> #[trigger] shape[p] == 1 || (p + dims.len() - shape.len() >= 0
            && shape[p] == dims[p + dims.len() - shape.len()])
}

/// Coordinates within a shape are within one that stretches to it.
proof fn lemma_aligned(coords: Seq<int>, shape: Seq<int>, dims: Seq<int>)
    requires
        in_bounds(coords, dims),
        stretches(shape, dims),
    ensures
        in_bounds(aligned(coords, shape), shape),
{
    let at = aligned(coords, shape);
    assert forall|p: int| 0 <= p < shape.len() implies 0 <= #[trigger] at[p] < shape[p] by {
        if shape[p] != 1 {
            let q = p + dims.len() - shape.len();
            assert(0 <= coords[q] < dims[q]);
        }
    }
}

/// Two shapes that stretch to another stretch to it together.
proof fn lemma_rank_joint(a: Seq<int>, b: Seq<int>, dims: Seq<int>)
    requires
        stretches(a, dims),
        stretches(b, dims),
        is_shape(a),
        is_shape(b),
    ensures
        stretches(rank_joint(a, b), dims),
        is_shape(rank_joint(a, b)),
        rank_joint(a, b).len() >= a.len(),
        rank_joint(a, b).len() >= b.len(),
{
    let j = rank_joint(a, b);
    let (x, y) = (j.len() - a.len(), j.len() - b.len());
    assert forall|p: int| 0 <= p < j.len() implies (#[trigger] j[p] == 1 || (p + dims.len()
        - j.len() >= 0 && j[p] == dims[p + dims.len() - j.len()])) && 0 <= j[p] by {
        if p >= x {
            assert(a[p - x] == 1 || a[p - x] == dims[p + dims.len() - j.len()]);
            assert(0 <= a[p - x]);
        }
        if p >= y {
            assert(b[p - y] == 1 || b[p - y] == dims[p + dims.len() - j.len()]);
            assert(0 <= b[p - y]);
        }
    }
}

/// An axis of a shape other than one stays in a shape that it broadcasts to.
proof fn lemma_joint_dim(a: Seq<int>, b: Seq<int>, dims: Seq<int>)
    requires
        stretches(a, dims),
        stretches(b, dims),
    ensures
        forall|p: int|
            0 <= p < a.len() && #[trigger] a[p] != 1 ==> rank_joint(a, b)[p + rank_joint(
                a,
                b,
            ).len() - a.len()] == a[p],
        forall|p: int|
            0 <= p < b.len() && #[trigger] b[p] != 1 ==> rank_joint(a, b)[p + rank_joint(
                a,
                b,
            ).len() - b.len()] == b[p],
{
    let j = rank_joint(a, b);
    let (x, y) = (j.len() - a.len(), j.len() - b.len());
    assert forall|p: int| 0 <= p < a.len() && #[trigger] a[p] != 1 implies j[p + x] == a[p] by {
        if p + x >= y {
            assert(b[p + x - y] == 1 || b[p + x - y] == dims[p + x + dims.len() - j.len()]);
        }
    }
    assert forall|p: int| 0 <= p < b.len() && #[trigger] b[p] != 1 implies j[p + y] == b[p] by {
        if p + y >= x {
            assert(a[p + y - x] == 1 || a[p + y - x] == dims[p + y + dims.len() - j.len()]);
        }
    }
}

/// Elements of a tensor that stretches twice are those of one that stretches once.
proof fn lemma_aligned_twice(coords: Seq<int>, a: Seq<int>, j: Seq<int>)
    requires
        j.len() >= a.len(),
        forall|p: int|
            0 <= p < a.len() && #[trigger] a[p] != 1 ==> j[p + j.len() - a.len()] == a[p],
    ensures
        aligned(aligned(coords, j), a) == aligned(coords, a),
{
    assert(aligned(aligned(coords, j), a) =~= aligned(coords, a));
}

/// The scale that elements of the output are brought to.
proof fn lemma_combined_at(
    combine: spec_fn(int, int, int) -> int,
    a: Value,
    b: Value,
    c: Value,
    dims: Seq<int>,
    coords: Seq<int>,
)
    requires
        a.valid() && b.valid() && c.valid(),
        stretches(a.shape, dims),
        stretches(b.shape, dims),
        stretches(c.shape, dims),
        in_bounds(coords, dims),
    ensures
        ({
            let s = combined(combine, a, b, c);
            s.at(aligned(coords, s.shape)) == combine(
                a.at(aligned(coords, a.shape)),
                b.at(aligned(coords, b.shape)),
                c.at(aligned(coords, c.shape)),
            )
        }),
{
    let ab = rank_joint(a.shape, b.shape);
    let abc = rank_joint(ab, c.shape);
    let f = |coords: Seq<int>|
        combine(
            a.at(aligned(coords, a.shape)),
            b.at(aligned(coords, b.shape)),
            c.at(aligned(coords, c.shape)),
        );
    lemma_rank_joint(a.shape, b.shape, dims);
    lemma_rank_joint(ab, c.shape, dims);
    lemma_joint_dim(a.shape, b.shape, dims);
    lemma_joint_dim(ab, c.shape, dims);
    lemma_aligned(coords, abc, dims);
    let at = aligned(coords, abc);
    lemma_tabulated(abc, f, at);
    assert forall|p: int| 0 <= p < a.shape.len() && #[trigger] a.shape[p] != 1 implies abc[p
        + abc.len() - a.shape.len()] == a.shape[p] by {
        let q = p + ab.len() - a.shape.len();
        assert(ab[q] != 1);
    }
    assert forall|p: int| 0 <= p < b.shape.len() && #[trigger] b.shape[p] != 1 implies abc[p
        + abc.len() - b.shape.len()] == b.shape[p] by {
        let q = p + ab.len() - b.shape.len();
        assert(ab[q] != 1);
    }
    lemma_aligned_twice(coords, a.shape, abc);
    lemma_aligned_twice(coords, b.shape, abc);
    lemma_aligned_twice(coords, c.shape, abc);
}

/// Axes of dimension one added behind the one of a tensor.
proof fn lemma_trailing_axes(x: Value, ops: Seq<AxisOp>, n: int, v: int)
    requires
        x.valid(),
        x.shape.len() == 1,
        0 <= n <= ops.len(),
        n < usize::MAX,
        forall|i: int| 0 <= i < n ==> #[trigger] ops[i] == AxisOp::Add((i + 1) as usize),
    ensures
        axis_values(ops, x, n).valid(),
        axis_values(ops, x, n).shape == x.shape + Seq::new(n as nat, |i: int| 1int),
        axis_values(ops, x, n).at(seq![v] + Seq::new(n as nat, |i: int| 0int)) == x.at(seq![v]),
    decreases n,
{
    let y = axis_values(ops, x, n);
    if n > 0 {
        let z = axis_values(ops, x, n - 1);
        let before = seq![v] + Seq::new((n - 1) as nat, |i: int| 0int);
        lemma_trailing_axes(x, ops, n - 1, v);
        assert(ops[n - 1] == AxisOp::Add(n as usize));
        assert(y == z.with_axis(n));
        lemma_unit_axis(z.shape, before, n);
        assert(before.insert(n, 0) =~= seq![v] + Seq::new(n as nat, |i: int| 0int));
        assert(y.shape =~= x.shape + Seq::new(n as nat, |i: int| 1int));
        assert forall|i: int| 0 <= i < y.shape.len() implies 0 <= #[trigger] y.shape[i] by {
            if i == 0 {
                assert(0 <= x.shape[0]);
            }
        }
    } else {
        assert(y.shape =~= x.shape + Seq::new(n as nat, |i: int| 1int));
        assert(seq![v] =~= seq![v] + Seq::new(n as nat, |i: int| 0int));
    }
}

/// A scale that is known to be a single one is that.
proof fn lemma_single_scale(symbols: spec_fn(u64) -> int, fact: Fact, x: Value)
    requires
        obeys(symbols, fact, x),
        known_volume(fact.shape) == Some(1int),
    ensures
        forall|p: int| 0 <= p < x.shape.len() ==> #[trigger] x.shape[p] == 1,
{
    assert forall|p: int| 0 <= p < x.shape.len() implies #[trigger] x.shape[p] == 1 by {
        lemma_unit_volume(fact.shape, p);
        assert(0 <= x.shape[p]);
    }
}

/// The volume of a shape of dimensions of one is known.
pub proof fn lemma_ones_volume(shape: Seq<TDim>)
    requires
        forall|i: int| 0 <= i < shape.len() ==> #[trigger] shape[i] == TDim::Val(1),
    ensures
        known_volume(shape) == Some(1int),
    decreases shape.len(),
{
    if shape.len() > 0 {
        let short = shape.drop_last();
        assert forall|i: int| 0 <= i < short.len() implies #[trigger] short[i] == TDim::Val(1) by {
            assert(short[i] == shape[i]);
        }
        lemma_ones_volume(short);
        assert(shape.last() == shape[shape.len() - 1]);
        assert(1int * 1 == 1);
    }
}

/// A scale with the axes that it lacks stretches to the output, and its element there is
/// the one under the label that the scale has.
proof fn lemma_spread_at(
    symbols: spec_fn(u64) -> int,
    e: Expr,
    facts: Seq<Fact>,
    xs: Seq<Value>,
    ab: int,
    n: int,
    dims: Seq<int>,
    coords: Seq<int>,
)
    requires
        ab == 0 || ab == 1,
        e.inputs.len() == 9,
        e.outputs.len() == 1,
        e.outputs[0].no_duplicates(),
        e.outputs[0].len() <= usize::MAX,
        suits(e, xs),
        obeys(symbols, facts[scale_input(ab)], xs[scale_input(ab)]),
        scale_given(e, facts, scale_input(ab)),
        scale_axes(e, facts, e.outputs[0].len() as int, ab) == Ok::<int, Error>(n),
        dims == output_dims(e, shapes_of(xs), 1),
        broadcasts(e, shapes_of(xs)),
        in_bounds(coords, dims),
    ensures
        ({
            let s = scale_input(ab);
            let y = spread(xs, ab, n);
            &&& y.valid()
            &&& stretches(y.shape, dims)
            &&& y.at(aligned(coords, y.shape)) == xs[s].at(
                coords_in(e.inputs[s], xs[s].shape, bind(e.outputs[0], coords)),
            )
        }),
{
    let s = scale_input(ab);
    let x = xs[s];
    let out = e.outputs[0];
    let y = spread(xs, ab, n);
    let at = coords_in(e.inputs[s], x.shape, bind(out, coords));
    assert(x.valid());
    if known_volume(facts[s].shape) == Some(1int) {
        lemma_single_scale(symbols, facts[s], x);
        assert(y == x);
        assert(aligned(coords, y.shape) =~= at);
    } else {
        if e.inputs[s].len() != 1 {
            lemma_ones_volume(facts[s].shape);
        }
        let c = e.inputs[s][0];
        let q = e.first_out(0, c);
        lemma_positions(out, c);
        let ops = Seq::new(n as nat, |i: int| AxisOp::Add((i + 1) as usize));
        let d = x.shape[0];
        let v: int = if d == 1 {
            0
        } else {
            coords[q]
        };
        lemma_trailing_axes(x, ops, n, v);
        assert(shapes_of(xs)[s][0] == d);
        assert(dims[q] == extent(e.inputs, shapes_of(xs), c, 1));
        assert(stretches(y.shape, dims)) by {
            assert forall|p: int| 0 <= p < y.shape.len() implies #[trigger] y.shape[p] == 1 || (p
                + dims.len() - y.shape.len() >= 0 && y.shape[p] == dims[p + dims.len()
                - y.shape.len()]) by {}
        }
        assert(aligned(coords, y.shape) =~= seq![v] + Seq::new(n as nat, |i: int| 0int));
        lemma_bind(out, coords, q);
        assert(at =~= seq![v]);
    }
}

/// Of the labels that the output does not have, only that of the sums has a dimension
/// other than one in any of the nine inputs.
proof fn lemma_nine_sums(
    symbols: spec_fn(u64) -> int,
    e: Expr,
    facts: Seq<Fact>,
    xs: Seq<Value>,
    m: char,
    k: char,
    n: char,
    scales: (int, int),
)
    requires
        offsets_suit(symbols, e, facts, xs, m, k, n),
        obeys(symbols, facts[4], xs[4]),
        obeys(symbols, facts[6], xs[6]),
        scales_given(e, facts),
        scale_axes(e, facts, e.outputs[0].len() as int, 0) == Ok::<int, Error>(scales.0),
        scale_axes(e, facts, e.outputs[0].len() as int, 1) == Ok::<int, Error>(scales.1),
    ensures
        is_summed(e, k),
        extent(e.inputs, shapes_of(xs), k, 1) == depth(e, xs, k),
        forall|c: char|
            c != k && #[trigger] is_summed(e, c) ==> extent(e.inputs, shapes_of(xs), c, 1) == 1,
{
    let shapes = shapes_of(xs);
    lemma_depth(symbols, e, facts, xs, m, k, n);
    assert(e.inputs[0].contains(k));
    assert(is_summed(e, k));
    assert forall|s: int| 0 <= s < e.inputs.len() implies (#[trigger] shapes[s]).len()
        == e.inputs[s].len() by {
        assert(xs[s].valid());
    }
    assert forall|c: char| !e.outputs[0].contains(c) && #[trigger] extent(
        e.inputs,
        shapes,
        c,
        1,
    ) != 1 implies c == k && extent(e.inputs, shapes, c, 1) == depth(e, xs, k) by {
        let (s, p) = lemma_extent_found(e.inputs, shapes, c);
        if s < 3 {
            if c != k || s == 2 {
                lemma_units_summed(symbols, e, facts, xs, m, k, n, s, p);
            }
            assert(e.inputs[s][p] == e.inputs[s][e.first_in(s, k)]);
            assert(p == e.first_in(s, k));
        } else {
            assert(s == 4 || s == 6);
            assert(shapes[s].len() == e.inputs[s].len());
            if known_volume(facts[s].shape) == Some(1int) {
                lemma_single_scale(symbols, facts[s], xs[s]);
            } else {
                if e.inputs[s].len() != 1 {
                    lemma_ones_volume(facts[s].shape);
                }
                lemma_positions(e.outputs[0], c);
                assert(s == scale_input(0) || s == scale_input(1));
            }
        }
    }
    if extent(e.inputs, shapes, k, 1) == 1 {
        lemma_extent_one(e.inputs, shapes, k, 1int);
        assert(row_extent(e.inputs[0], shapes[0], k, 1) == 1);
        assert(shapes[0].len() == e.inputs[0].len());
        lemma_row_extent_one(e.inputs[0], shapes[0], k, 1int);
    }
}

/// The fact of an operator of a faultless patch that comes after others, from those of
/// its inputs.
proof fn lemma_pushed_fact(m: Model, p: Patch, wires: Seq<WireView>, wire: WireView)
    requires
        p.facts(m) is Some,
        p.wires.len() <= usize::MAX,
        starts(p, wires.push(wire)),
    ensures
        starts(p, wires),
        ({
            let taps = facts_of(m.nodes, p.taps);
            let all = p.facts(m)->0;
            &&& all.len() == p.wires.len()
            &&& wires.len() < all.len()
            &&& wire.op.facts(ref_facts(taps, all, wire.inputs)) == Some(all[wires.len() as int])
        }),
{
    let taps = facts_of(m.nodes, p.taps);
    let all = p.facts(m)->0;
    let n = wires.len() as int;
    lemma_starts(p, wires, wire);
    lemma_wire_facts(taps, p.wires, n);
    assert forall|i: int| 0 <= i < wire.inputs.len() implies #[trigger] ref_facts(
        taps,
        all.take(n),
        wire.inputs,
    )[i] == ref_facts(taps, all, wire.inputs)[i] by {
        assert(has_ref(taps, all.take(n), wire.inputs[i]));
    }
    assert(ref_facts(taps, all.take(n), wire.inputs) =~= ref_facts(taps, all, wire.inputs));
}

/// What comes before a chain of axis operators.
proof fn lemma_chain_starts(
    p: Patch,
    wires: Seq<WireView>,
    input: Ref,
    names: Seq<Seq<char>>,
    ops: Seq<AxisOp>,
    n: int,
)
    requires
        starts(p, chained(wires, input, names, ops, n).0),
    ensures
        starts(p, wires),
    decreases n,
{
    if n > 0 {
        let (before, r) = chained(wires, input, names, ops, n - 1);
        lemma_starts(p, before, axis_wire(names[n - 1], ops[n - 1], r));
        lemma_chain_starts(p, wires, input, names, ops, n - 1);
    }
}

/// The dimension that the bias has under a label of the output, once it has its axes.
proof fn lemma_bias_dim(e: Expr, facts: Seq<Fact>, ops: Seq<AxisOp>, shape: Seq<TDim>, q: int)
    requires
        e.inputs.len() == 9,
        e.outputs.len() == 1,
        facts[2].shape.len() == e.inputs[2].len(),
        axis_ops(term_axes(e, 2)) == Ok::<Seq<AxisOp>, Error>(ops),
        changed(ops, facts[2].shape, one()) == Some(shape),
        e.inputs[2].len() <= usize::MAX,
        e.outputs[0].len() <= usize::MAX,
        0 <= q < e.outputs[0].len(),
        forall|i: int|
            0 <= i < e.inputs[2].len() && #[trigger] e.inputs[2][i] == e.outputs[0][q]
                ==> facts[2].shape[i] == one(),
    ensures
        shape[q] == one(),
{
    let f = term_axes(e, 2);
    let (from, to) = (e.inputs[2], e.outputs[0]);
    assert(f.inputs[0] == from && f.outputs[0] == to);
    lemma_axis_ops_units(f, ops, facts[2].shape, one());
    let dims = |c: char|
        if from.contains(c) {
            facts[2].shape[positions(from, c)[0]]
        } else {
            one()
        };
    lemma_axis_ops(f, ops, dims, one());
    assert forall|i: int| 0 <= i < from.len() implies #[trigger] dims(from[i])
        == facts[2].shape[i] by {
        lemma_axis_of(from, i);
    }
    assert(dims_for(from, to, dims, one()) =~= facts[2].shape) by {
        assert forall|i: int| 0 <= i < from.len() implies #[trigger] dims_for(
            from,
            to,
            dims,
            one(),
        )[i] == facts[2].shape[i] by {
            assert(dims(from[i]) == facts[2].shape[i]);
            assert(f.inputs[0][i] == from[i]);
        }
    }
    let c = to[q];
    if from.contains(c) {
        lemma_positions(from, c);
    }
    assert(shape == dims_for(to, from, dims, one()));
}

/// The dimension that the product of the operands has under a label of the output.
proof fn lemma_product_dim(
    m: Model,
    id: int,
    p: Patch,
    k: char,
    wires: Seq<WireView>,
    a_scale: Ref,
    b_scale: Ref,
    q: int,
)
    requires
        m.wf(),
        0 <= id < m.nodes.len(),
        m.nodes[id].op is EinSum,
        p.facts(m) is Some,
        p.taps == m.nodes[id].inputs,
        p.wires.len() <= usize::MAX,
        ({
            let op = m.nodes[id].op->EinSum_0;
            let e = op.axes;
            let facts = facts_of(m.nodes, m.nodes[id].inputs);
            &&& starts(p, products(op, m.nodes[id].name, k, wires, a_scale, b_scale).0)
            &&& e.inputs.len() == 9
            &&& 0 <= q < e.outputs[0].len()
            &&& forall|t: int, i: int|
                0 <= t < 3 && 0 <= i < e.inputs[t].len() && #[trigger] e.inputs[t][i]
                    == e.outputs[0][q] ==> facts[t].shape[i] == one()
        }),
    ensures
        ({
            let op = m.nodes[id].op->EinSum_0;
            let terms = products(op, m.nodes[id].name, k, wires, a_scale, b_scale).1;
            let fact = ref_fact(
                facts_of(m.nodes, p.taps),
                p.facts(m)->0,
                terms.product,
            );
            fact.shape[q] == one()
        }),
{
    let op = m.nodes[id].op->EinSum_0;
    let name = m.nodes[id].name;
    let e = op.axes;
    let facts = facts_of(m.nodes, p.taps);
    let all = p.facts(m)->0;
    assert(node_wf(m.nodes, id));
    let sign_a = simple_wire(
        name + ".ensure_q8_a"@,
        SimpleOp::EnsureSigned,
        seq![Ref::Tap(0), Ref::Tap(3)],
    );
    let (v1, a) = pushed(wires, sign_a);
    let sign_b = simple_wire(
        name + ".ensure_q8_b"@,
        SimpleOp::EnsureSigned,
        seq![Ref::Tap(1), Ref::Tap(5)],
    );
    let (v2, b) = pushed(v1, sign_b);
    let times = WireView { name, op: OpView::EinSum(raw_einsum(op)), inputs: seq![a, b] };
    let (v3, product) = pushed(v2, times);
    let cast_a = simple_wire(name + ".a_as_i32"@, SimpleOp::Cast(DatumType::I32), seq![a]);
    let (v4, a_i32) = pushed(v3, cast_a);
    let cast_b = simple_wire(name + ".b_as_i32"@, SimpleOp::Cast(DatumType::I32), seq![b]);
    let (v5, b_i32) = pushed(v4, cast_b);
    let total_a = simple_wire(
        name + ".sum_a"@,
        SimpleOp::Sum(e.first_in(0, k) as usize),
        seq![a_i32],
    );
    let (v6, sum_a) = pushed(v5, total_a);
    let total_b = simple_wire(
        name + ".sum_b"@,
        SimpleOp::Sum(e.first_in(1, k) as usize),
        seq![b_i32],
    );
    let (v7, sum_b) = pushed(v6, total_b);
    assert(v7 == products(op, name, k, wires, a_scale, b_scale).0);
    lemma_starts(p, v6, total_b);
    lemma_starts(p, v5, total_a);
    lemma_starts(p, v4, cast_b);
    lemma_starts(p, v3, cast_a);
    lemma_pushed_fact(m, p, v2, times);
    lemma_pushed_fact(m, p, v1, sign_b);
    lemma_pushed_fact(m, p, wires, sign_a);
    assert(ref_facts(facts, all, sign_a.inputs)[0] == facts[0]);
    assert(ref_facts(facts, all, sign_b.inputs)[0] == facts[1]);
    let both = ref_facts(facts, all, times.inputs);
    assert(both[0] == all[wires.len() as int][0]);
    assert(both[1] == all[v1.len() as int][0]);
    let f = raw_einsum(op).axes;
    let c = e.outputs[0][q];
    assert(f.inputs =~= seq![e.inputs[0], e.inputs[1]]);
    assert(f.outputs =~= e.outputs);
    assert(facts[0].shape.len() == e.inputs[0].len());
    assert(facts[1].shape.len() == e.inputs[1].len());
    let shapes = fact_shapes(both);
    assert forall|t: int| 0 <= t < f.inputs.len() implies row_extent(
        #[trigger] f.inputs[t],
        shapes[t],
        c,
        one(),
    ) == one() by {
        assert(shapes[t] == facts[t].shape);
        assert(f.inputs[t] == e.inputs[t]);
        lemma_row_extent_trivial(f.inputs[t], shapes[t], c, one());
    }
    lemma_extent_one(f.inputs, shapes, c, one());
}

/// Where the operands and the bias have a label of the output in dimensions of one only,
/// so has the output of a dequantized einsum.
proof fn lemma_unit_output(m: Model, id: int, k: char, p: Patch, q: int)
    requires
        m.wf(),
        0 <= id < m.nodes.len(),
        m.nodes[id].op is EinSum,
        dequantized(m.nodes[id].op->EinSum_0, m, id, k) == Ok::<Patch, Error>(p),
        p.wires.len() <= usize::MAX,
        ({
            let e = (m.nodes[id].op->EinSum_0).axes;
            let facts = facts_of(m.nodes, m.nodes[id].inputs);
            &&& e.inputs[2].len() <= usize::MAX
            &&& e.outputs[0].len() <= usize::MAX
            &&& 0 <= q < e.outputs[0].len()
            &&& forall|t: int, i: int|
                0 <= t < 3 && 0 <= i < e.inputs[t].len() && #[trigger] e.inputs[t][i]
                    == e.outputs[0][q] ==> facts[t].shape[i] == one()
        }),
    ensures
        m.nodes[id].outputs[0].shape[q] == one(),
{
    let node = m.nodes[id];
    let op = node.op->EinSum_0;
    let e = op.axes;
    let name = node.name;
    let facts = facts_of(m.nodes, node.inputs);
    let rank = node.outputs[0].shape.len() as int;
    let n0 = scale_axes(e, facts, rank, 0)->Ok_0 as nat;
    let n1 = scale_axes(e, facts, rank, 1)->Ok_0 as nat;
    let fixes = (
        axis_ops(term_axes(e, 0))->Ok_0,
        axis_ops(term_axes(e, 1))->Ok_0,
        axis_ops(term_axes(e, 2))->Ok_0,
    );
    let kd = dim_in(e, fact_shapes(facts), 0, k);
    let dt = op.q_params->0;
    let c = e.outputs[0][q];
    lemma_dequant_aims(m, id, k, p);
    assert(node_wf(m.nodes, id));
    let all = p.facts(m)->0;
    let none = Seq::<WireView>::empty();
    let (w0, a_scale) = scaled(none, name, 0, n0);
    let (w1, b_scale) = scaled(w0, name, 1, n1);
    let (w2, terms) = products(op, name, k, w1, a_scale, b_scale);
    let (w3, sum_a) = fixed(w2, terms.sum_a, name, "sum_a"@, fixes.0);
    let (w4, sum_b) = fixed(w3, terms.sum_b, name, "sum_b"@, fixes.1);
    let (w5, bias) = fixed(w4, Ref::Tap(2), name, "bias"@, fixes.2);
    let last = Terms { sum_a, sum_b, ..terms };
    assert(p == dequant_patch(op, node, id, k, kd, (n0, n1), fixes));
    assert(p.taps == node.inputs);
    // what the parts are put together by
    let combine = simple_wire(
        name + ".combine_scales"@,
        SimpleOp::CombineScales,
        seq![last.a_scale, last.b_scale, Ref::Tap(8)],
    );
    let (v1, scale) = pushed(w5, combine);
    let plus = simple_wire(name + ".add_bias"@, SimpleOp::Add, seq![last.product, bias]);
    let (v2, biased) = pushed(v1, plus);
    let center = simple_wire(
        name + ".compensate_zero_points"@,
        SimpleOp::CompensateZeroPoints(kd),
        seq![biased, last.a0, last.b0, last.sum_a, last.sum_b],
    );
    let (v3, centered) = pushed(v2, center);
    let quantize = simple_wire(
        name + ".requant"@,
        SimpleOp::Requant(dt),
        seq![centered, scale, Ref::Tap(7)],
    );
    let (v4, by) = pushed(v3, quantize);
    assert(v4 == p.wires && by == p.by);
    lemma_pushed_fact(m, p, v3, quantize);
    lemma_pushed_fact(m, p, v2, center);
    lemma_pushed_fact(m, p, v1, plus);
    lemma_pushed_fact(m, p, w5, combine);
    assert(ref_fact(facts, all, by) == all[v3.len() as int][0]);
    assert(ref_facts(facts, all, quantize.inputs)[0] == all[v2.len() as int][0]);
    assert(ref_facts(facts, all, center.inputs)[0] == all[v1.len() as int][0]);
    let sums = ref_facts(facts, all, plus.inputs);
    assert(node.outputs[0].shape == all[v1.len() as int][0].shape);
    assert(node.outputs[0].shape[q] == broadcast_dim(sums[0].shape[q], sums[1].shape[q])->0);
    // the bias
    let f = term_axes(e, 2);
    let names = fix_names(name, "bias"@, fixes.2.len());
    lemma_chain_fact(m, p, w4, Ref::Tap(2), names, fixes.2, fixes.2.len() as int);
    assert(fixes.2.take(fixes.2.len() as int) =~= fixes.2);
    lemma_chain_starts(p, w4, Ref::Tap(2), names, fixes.2, fixes.2.len() as int);
    lemma_bias_dim(e, facts, fixes.2, sums[1].shape, q);
    // the product
    let names_b = fix_names(name, "sum_b"@, fixes.1.len());
    let names_a = fix_names(name, "sum_a"@, fixes.0.len());
    lemma_chain_starts(p, w3, terms.sum_b, names_b, fixes.1, fixes.1.len() as int);
    lemma_chain_starts(p, w2, terms.sum_a, names_a, fixes.0, fixes.0.len() as int);
    lemma_product_dim(m, id, p, k, w1, a_scale, b_scale, q);
}

/// The output of a quantized einsum that can be dequantized has the shape that its
/// operands and its bias give it.
proof fn lemma_nine_dims(
    run: Run,
    symbols: spec_fn(u64) -> int,
    m: Model,
    id: int,
    rows: char,
    k: char,
    columns: char,
    p: Patch,
)
    requires
        m.wf(),
        is_sound(run, symbols, m, id),
        offsets_suit(
            symbols,
            (m.nodes[id].op->EinSum_0).axes,
            facts_of(m.nodes, m.nodes[id].inputs),
            inputs_of(run, m, id),
            rows,
            k,
            columns,
        ),
        dequantized(m.nodes[id].op->EinSum_0, m, id, k) == Ok::<Patch, Error>(p),
        p.wires.len() <= usize::MAX,
    ensures
        first_dims((m.nodes[id].op->EinSum_0).axes, inputs_of(run, m, id), 3) == output_dims(
            (m.nodes[id].op->EinSum_0).axes,
            shapes_of(inputs_of(run, m, id)),
            1,
        ),
{
    let node = m.nodes[id];
    let op = node.op->EinSum_0;
    let e = op.axes;
    let facts = facts_of(m.nodes, node.inputs);
    let xs = inputs_of(run, m, id);
    let shapes = shapes_of(xs);
    let left = first_dims(e, xs, 3);
    let right = output_dims(e, shapes, 1);
    lemma_sound(run, symbols, m, id);
    assert(node_wf(m.nodes, id));
    assert forall|s: int| 0 <= s < e.inputs.len() implies (#[trigger] shapes[s]).len()
        == e.inputs[s].len() by {
        assert(xs[s].valid());
    }
    assert forall|q: int| 0 <= q < right.len() implies #[trigger] left[q] == right[q] by {
        let c = e.outputs[0][q];
        lemma_first_inputs(e, shapes, 3, c);
        if left[q] == 1 {
            let f = first_inputs(e, 3);
            let some = shapes.take(3);
            lemma_extent_one(f.inputs, some, c, 1int);
            assert forall|t: int, i: int|
                0 <= t < 3 && 0 <= i < e.inputs[t].len() && #[trigger] e.inputs[t][i]
                    == e.outputs[0][q] implies facts[t].shape[i] == one() by {
                assert(f.inputs[t] == e.inputs[t] && some[t] == shapes[t]);
                assert(row_extent(f.inputs[t], some[t], c, 1) == 1);
                assert(shapes[t].len() == e.inputs[t].len());
                lemma_row_extent_one(f.inputs[t], some[t], c, 1int);
                assert(xs[t].shape[i] == 1);
                assert(obeys(symbols, facts[t], inputs_of(run, m, id)[t]));
                assert(facts[t].shape.len() == e.inputs[t].len());
            }
            lemma_unit_output(m, id, k, p, q);
            assert forall|t: int| 0 <= t < facts.len() implies (#[trigger] facts[t]).shape.len()
                == e.inputs[t].len() && obeys(symbols, facts[t], xs[t]) by {
                assert(obeys(symbols, facts[t], inputs_of(run, m, id)[t]));
            }
            lemma_extent_value(symbols, e.inputs, facts, xs, c);
            assert(node.outputs[0].shape[q] == extent(e.inputs, fact_shapes(facts), c, one()));
        }
    }
    assert(left =~= right);
}

/// The sum of the terms of an element of the output.
proof fn lemma_nine_total(
    symbols: spec_fn(u64) -> int,
    e: Expr,
    facts: Seq<Fact>,
    xs: Seq<Value>,
    m: char,
    k: char,
    n: char,
    scales: (int, int),
    by: Meaning,
    coords: Seq<int>,
)
    requires
        offsets_suit(symbols, e, facts, xs, m, k, n),
        obeys(symbols, facts[4], xs[4]),
        obeys(symbols, facts[6], xs[6]),
        scales_given(e, facts),
        scale_axes(e, facts, e.outputs[0].len() as int, 0) == Ok::<int, Error>(scales.0),
        scale_axes(e, facts, e.outputs[0].len() as int, 1) == Ok::<int, Error>(scales.1),
        forall|v: Seq<int>| #[trigger] (by.term)(v) == (v[0] - v[3]) * (v[1] - v[5]),
    ensures
        total(summed_extents(e, shapes_of(xs)), terms(e, xs, by), bind(e.outputs[0], coords), 0)
            == total(
            summed_extents(first_inputs(e, 3), shapes_of(xs.take(3))),
            terms(first_inputs(e, 3), xs.take(3), relatively(xs[3].scalar(), xs[5].scalar())),
            bind(e.outputs[0], coords),
            0,
        ),
{
    let f = first_inputs(e, 3);
    let zs = xs.take(3);
    let base = bind(e.outputs[0], coords);
    let d = depth(e, xs, k);
    let raw = relatively(xs[3].scalar(), xs[5].scalar());
    lemma_nine_sums(symbols, e, facts, xs, m, k, n, scales);
    lemma_one_total(e, xs, by, k, d, base);
    lemma_first_sums(symbols, e, facts, xs, m, k, n, 3);
    assert(shapes_of(zs) =~= shapes_of(xs).take(3));
    assert(suits(f, zs)) by {
        assert forall|s: int| 0 <= s < zs.len() implies (#[trigger] zs[s]).valid()
            && zs[s].shape.len() == f.inputs[s].len() by {
            assert(xs[s].valid());
        }
    }
    lemma_one_total(f, zs, raw, k, d, base);
    let left = |v: int| terms(e, xs, by)(base.insert(k, v));
    let right = |v: int| terms(f, zs, raw)(base.insert(k, v));
    assert forall|v: int| 0 <= v < d implies #[trigger] left(v) == right(v) by {
        let nine = elements(e, xs, base.insert(k, v));
        let three = elements(f, zs, base.insert(k, v));
        assert(nine[0] == three[0] && nine[1] == three[1]);
        lemma_scalar_element(e, xs, base.insert(k, v), 3);
        lemma_scalar_element(e, xs, base.insert(k, v), 5);
    }
    lemma_sum_same(d, left, right);
}

/// The element of an input without axes.
proof fn lemma_scalar_element(e: Expr, xs: Seq<Value>, values: Assignment, s: int)
    requires
        0 <= s < e.inputs.len(),
        e.inputs[s].len() == 0,
    ensures
        elements(e, xs, values)[s] == xs[s].scalar(),
{
    assert(coords_in(e.inputs[s], xs[s].shape, values) =~= Seq::empty());
}

/// A dequantized einsum computes what the quantized one means: of the elements that the
/// labels pick from its nine inputs, the sum of the products of the operands, each
/// relative to its zero point, plus the bias, brought to the scale that the element of
/// the scale of the first operand, that of the second and that of the output make, and to
/// the zero point of the output.
///
/// This holds for any functions of elements that the operators for scales compute, if the
/// other operators compute what they are described to; with single zero points, and
/// scales of the operands that are single or run along one axis each.
pub proof fn lemma_dequant_meaning(
    run: Run,
    symbols: spec_fn(u64) -> int,
    m: Model,
    id: int,
    rows: char,
    k: char,
    columns: char,
    p: Patch,
    combine: spec_fn(int, int, int) -> int,
    rescale: spec_fn(int, int, int) -> int,
)
    requires
        m.wf(),
        is_sound(run, symbols, m, id),
        calculates(run, symbols),
        rescales(run, (m.nodes[id].op->EinSum_0).q_params->0, combine, rescale),
        offsets_given(
            symbols,
            (m.nodes[id].op->EinSum_0).axes,
            facts_of(m.nodes, m.nodes[id].inputs),
            inputs_of(run, m, id),
            rows,
            k,
            columns,
        ),
        scales_given(
            (m.nodes[id].op->EinSum_0).axes,
            facts_of(m.nodes, m.nodes[id].inputs),
        ),
        dequantized(m.nodes[id].op->EinSum_0, m, id, k) == Ok::<Patch, Error>(p),
        p.wires.len() <= usize::MAX,
    ensures
        run.value(p.applied(m), p.resolve(p.by)) == einsum_by(
            (m.nodes[id].op->EinSum_0).axes,
            inputs_of(run, m, id),
            quantizing(combine, rescale),
        ),
{
    let node = m.nodes[id];
    let op = node.op->EinSum_0;
    let e = op.axes;
    let facts = facts_of(m.nodes, node.inputs);
    let xs = inputs_of(run, m, id);
    let dims = output_dims(e, shapes_of(xs), 1);
    let by = quantizing(combine, rescale);
    let f = first_inputs(e, 3);
    let zs = xs.take(3);
    let raw = relatively(xs[3].scalar(), xs[5].scalar());
    let (n0, n1) = lacking(m, id);
    lemma_sound(run, symbols, m, id);
    lemma_dequantized(run, symbols, m, id, rows, k, columns, p);
    lemma_nine_dims(run, symbols, m, id, rows, k, columns, p);
    assert(node_wf(m.nodes, id));
    assert(node.outputs[0].shape.len() == e.outputs[0].len());
    assert(obeys(symbols, facts[4], inputs_of(run, m, id)[4]));
    assert(obeys(symbols, facts[6], inputs_of(run, m, id)[6]));
    assert(xs[7].valid() && xs[8].valid());
    let x = accumulated(e, xs);
    let (a, b) = (spread(xs, 0, n0), spread(xs, 1, n1));
    let parts = seq![a, b, xs[8]];
    let scale = combined(combine, a, b, xs[8]);
    assert(run.compute(OpView::Simple(SimpleOp::CombineScales), parts) == seq![
        combined(combine, parts[0], parts[1], parts[2]),
    ]);
    let last = seq![x, scale, xs[7]];
    assert(run.compute(OpView::Simple(SimpleOp::Requant(op.q_params->0)), last) == seq![
        rescaled(rescale, last[0], last[1], last[2]),
    ]);
    assert(run.value(p.applied(m), p.resolve(p.by)) == rescaled(rescale, x, scale, xs[7]));
    assert(shapes_of(zs) =~= shapes_of(xs).take(3));
    assert(x.shape == dims);
    lemma_sum_shape(e, xs);
    let left = |coords: Seq<int>|
        rescale(x.at(coords), scale.at(aligned(coords, scale.shape)), xs[7].scalar());
    let right = entry_by(e, xs, by);
    assert forall|coords: Seq<int>| #[trigger] in_bounds(coords, dims) implies left(coords)
        == right(coords) by {
        let base = bind(e.outputs[0], coords);
        let nine = elements(e, xs, base);
        let three = elements(f, zs, base);
        lemma_tabulated(dims, entry_by(f, zs, raw), coords);
        lemma_nine_total(symbols, e, facts, xs, rows, k, columns, (n0, n1), by, coords);
        lemma_spread_at(symbols, e, facts, xs, 0, n0, dims, coords);
        lemma_spread_at(symbols, e, facts, xs, 1, n1, dims, coords);
        assert(xs[8].shape.len() == 0);
        lemma_combined_at(combine, a, b, xs[8], dims, coords);
        assert(aligned(coords, xs[8].shape) =~= Seq::empty());
        lemma_scalar_element(e, xs, base, 7);
        lemma_scalar_element(e, xs, base, 8);
        assert(nine[2] == three[2]);
    }
    lemma_tabulate_same(dims, left, right);
    assert(rescaled(rescale, x, scale, xs[7]) == tabulate(dims, left));
}

/// Dequantizing a quantized einsum keeps what the model takes and computes, where it
/// means what its operators make of elements.
pub proof fn lemma_dequant_means_kept(
    run: Run,
    symbols: spec_fn(u64) -> int,
    m: Model,
    id: int,
    rows: char,
    k: char,
    columns: char,
    p: Patch,
    combine: spec_fn(int, int, int) -> int,
    rescale: spec_fn(int, int, int) -> int,
)
    requires
        m.wf(),
        is_sound(run, symbols, m, id),
        calculates(run, symbols),
        (m.nodes[id].op->EinSum_0).q_params is Some,
        rescales(run, (m.nodes[id].op->EinSum_0).q_params->0, combine, rescale),
        (run.quantized)((m.nodes[id].op->EinSum_0).q_params->0) == quantizing(combine, rescale),
        offsets_given(
            symbols,
            (m.nodes[id].op->EinSum_0).axes,
            facts_of(m.nodes, m.nodes[id].inputs),
            inputs_of(run, m, id),
            rows,
            k,
            columns,
        ),
        scales_given(
            (m.nodes[id].op->EinSum_0).axes,
            facts_of(m.nodes, m.nodes[id].inputs),
        ),
        dequantized(m.nodes[id].op->EinSum_0, m, id, k) == Ok::<Patch, Error>(p),
        p.wires.len() <= usize::MAX,
    ensures
        keeps(run, m, p),
{
    lemma_sound(run, symbols, m, id);
    lemma_dequant_aims(m, id, k, p);
    lemma_dequant_meaning(run, symbols, m, id, rows, k, columns, p, combine, rescale);
    lemma_kept(run, m, p);
}

/// Whether what an operator takes is the scale of an operand, as input `s` of an einsum:
/// a single one as it is; and one that runs along an axis with a shape that, lined up with
/// the output at the last axes, has its dimension along the axis of the same label, and
/// one along the others.
pub open spec fn takes_scale(m: Model, id: int, made: Model, s: int, o: Outlet) -> bool {
    let node = m.nodes[id];
    let e = (node.op->EinSum_0).axes;
    let given = m.nodes[node.inputs[s].node].outputs[node.inputs[s].slot].shape;
    let rank = node.outputs[0].shape.len();
    let shape = made.nodes[o.node].outputs[o.slot].shape;
    if forall|i: int| 0 <= i < given.len() ==> #[trigger] given[i] == TDim::Val(1) {
        o == node.inputs[s]
    } else {
        e.inputs[s].len() == 1 ==> exists|q: int| #[trigger]
            leads(e.outputs[0], q, e.inputs[s][0]) && shape == Seq::new(
                (rank - q) as nat,
                |i: int|
                    if i == 0 {
                        given[0]
                    } else {
                        TDim::Val(1)
                    },
            )
    }
}

/// Whether a patch puts in the place of a quantized einsum an operator that brings values
/// to the type of the output, by a scale that is made of the scales of the first operand,
/// of the second, and of the output, and with the zero point of the output.
pub open spec fn requantizes(m: Model, id: int, p: Patch) -> bool {
    let node = m.nodes[id];
    let op = node.op->EinSum_0;
    let made = p.applied(m);
    let by = p.resolve(p.by);
    let last = made.nodes[by.node];
    let scale = made.nodes[last.inputs[1].node];
    &&& p.context == "Dequantizing einsum"@
    &&& by.slot == 0
    &&& last.name == node.name + ".requant"@
    &&& last.op == OpView::Simple(SimpleOp::Requant(op.q_params->0))
    &&& last.outputs == node.outputs
    &&& last.inputs.len() == 3
    &&& last.inputs[1].slot == 0
    &&& last.inputs[2] == node.inputs[7]
    &&& scale.name == node.name + ".combine_scales"@
    &&& scale.op == OpView::Simple(SimpleOp::CombineScales)
    &&& scale.inputs.len() == 3
    &&& takes_scale(m, id, made, 4, scale.inputs[0])
    &&& takes_scale(m, id, made, 6, scale.inputs[1])
    &&& scale.inputs[2] == node.inputs[8]
}

/// The shape that trailing axes of dimension one give.
pub proof fn lemma_trailing_shape(ops: Seq<AxisOp>, d: TDim, n: int)
    requires
        0 <= n <= ops.len(),
        n < usize::MAX,
        forall|i: int| 0 <= i < n ==> #[trigger] ops[i] == AxisOp::Add((i + 1) as usize),
    ensures
        changed(ops.take(n), seq![d], one()) == Some(
            Seq::new(
                (n + 1) as nat,
                |i: int|
                    if i == 0 {
                        d
                    } else {
                        one()
                    },
            ),
        ),
    decreases n,
{
    let want = Seq::new(
        (n + 1) as nat,
        |i: int|
            if i == 0 {
                d
            } else {
                one()
            },
    );
    if n > 0 {
        lemma_trailing_shape(ops, d, n - 1);
        assert(ops.take(n).drop_last() =~= ops.take(n - 1));
        assert(ops.take(n).last() == ops[n - 1]);
        assert(ops[n - 1] == AxisOp::Add(n as usize));
        let before = changed(ops.take(n - 1), seq![d], one())->0;
        assert(before.insert(n, one()) =~= want);
    } else {
        assert(ops.take(0) =~= Seq::empty());
        assert(want =~= seq![d]);
    }
}

/// The volume of one axis is its dimension.
pub proof fn lemma_lone_volume(d: TDim)
    requires
        d != TDim::Val(1),
    ensures
        known_volume(seq![d]) != Some(1int),
{
    assert(seq![d].drop_last() =~= Seq::empty());
    reveal_with_fuel(known_volume, 2);
}

/// The scale of an operand, as it reaches the operator that combines the scales.
proof fn lemma_takes_scale(
    m: Model,
    id: int,
    k: char,
    p: Patch,
    ab: int,
    wires: Seq<WireView>,
)
    requires
        m.wf(),
        0 <= id < m.nodes.len(),
        m.nodes[id].op is EinSum,
        dequantized(m.nodes[id].op->EinSum_0, m, id, k) == Ok::<Patch, Error>(p),
        p.wires.len() <= usize::MAX,
        (m.nodes[id].op->EinSum_0).axes.outputs[0].len() <= usize::MAX,
        ab == 0 || ab == 1,
        ({
            let e = (m.nodes[id].op->EinSum_0).axes;
            let facts = facts_of(m.nodes, m.nodes[id].inputs);
            let n = scale_axes(e, facts, m.nodes[id].outputs[0].shape.len() as int, ab)->Ok_0;
            starts(p, scaled(wires, m.nodes[id].name, ab, n as nat).0)
        }),
    ensures
        ({
            let e = (m.nodes[id].op->EinSum_0).axes;
            let facts = facts_of(m.nodes, m.nodes[id].inputs);
            let n = scale_axes(e, facts, m.nodes[id].outputs[0].shape.len() as int, ab)->Ok_0;
            takes_scale(
                m,
                id,
                p.applied(m),
                scale_input(ab),
                p.resolve(scaled(wires, m.nodes[id].name, ab, n as nat).1),
            )
        }),
{
    let node = m.nodes[id];
    let op = node.op->EinSum_0;
    let e = op.axes;
    let facts = facts_of(m.nodes, node.inputs);
    let rank = node.outputs[0].shape.len() as int;
    let s = scale_input(ab);
    let n = scale_axes(e, facts, rank, ab)->Ok_0;
    let input = Ref::Tap(s as usize);
    let names = scale_names(node.name, ab, n as nat);
    let ops = Seq::new(n as nat, |i: int| AxisOp::Add((i + 1) as usize));
    let (all, end) = scaled(wires, node.name, ab, n as nat);
    lemma_dequant_aims(m, id, k, p);
    lemma_lacking(m, id, ab);
    assert(node_wf(m.nodes, id));
    assert(p.taps == node.inputs);
    assert(facts[s].shape.len() == e.inputs[s].len());
    let given = facts[s].shape;
    if forall|i: int| 0 <= i < given.len() ==> #[trigger] given[i] == TDim::Val(1) {
        lemma_ones_volume(given);
    } else if e.inputs[s].len() == 1 {
        let c = e.inputs[s][0];
        assert(given =~= seq![given[0]]);
        lemma_lone_volume(given[0]);
        lemma_leads(e.outputs[0], c);
        lemma_positions(e.outputs[0], c);
        let q = e.first_out(0, c);
        assert(leads(e.outputs[0], q, c));
        lemma_chain_fact(m, p, wires, input, names, ops, n);
        lemma_trailing_shape(ops, given[0], n);
        assert(ops.take(n) =~= ops);
        let facts_all = p.facts(m)->0;
        lemma_wire_facts(facts, p.wires, p.wires.len() as int);
        assert(facts_all.take(p.wires.len() as int) =~= facts_all);
        if n > 0 {
            let (before, r) = chained(wires, input, names, ops, n - 1);
            let wire = axis_wire(names[n - 1], ops[n - 1], r);
            lemma_pushed_fact(m, p, before, wire);
        }
        lemma_resolve(m, p, end, p.wires.len() as int);
        let shape = p.applied(m).nodes[p.resolve(end).node].outputs[p.resolve(end).slot].shape;
        assert(shape =~= Seq::new(
            (rank - q) as nat,
            |i: int|
                if i == 0 {
                    given[0]
                } else {
                    TDim::Val(1)
                },
        ));
    }
}

/// What a quantized einsum is dequantized to takes the scales of its inputs in order, each
/// lined up with its axis of the output.
pub proof fn lemma_requantizes(m: Model, id: int, k: char, p: Patch)
    requires
        m.wf(),
        0 <= id < m.nodes.len(),
        m.nodes[id].op is EinSum,
        dequantized(m.nodes[id].op->EinSum_0, m, id, k) == Ok::<Patch, Error>(p),
        p.wires.len() <= usize::MAX,
        (m.nodes[id].op->EinSum_0).axes.outputs[0].len() <= usize::MAX,
    ensures
        requantizes(m, id, p),
{
    let node = m.nodes[id];
    let op = node.op->EinSum_0;
    let e = op.axes;
    let name = node.name;
    let made = p.applied(m);
    let facts = facts_of(m.nodes, node.inputs);
    let rank = node.outputs[0].shape.len() as int;
    let n0 = scale_axes(e, facts, rank, 0)->Ok_0 as nat;
    let n1 = scale_axes(e, facts, rank, 1)->Ok_0 as nat;
    let fixes = (
        axis_ops(term_axes(e, 0))->Ok_0,
        axis_ops(term_axes(e, 1))->Ok_0,
        axis_ops(term_axes(e, 2))->Ok_0,
    );
    let kd = dim_in(e, fact_shapes(facts), 0, k);
    let dt = op.q_params->0;
    lemma_dequant_aims(m, id, k, p);
    assert(node_wf(m.nodes, id));
    let none = Seq::<WireView>::empty();
    let (w0, a_scale) = scaled(none, name, 0, n0);
    let (w1, b_scale) = scaled(w0, name, 1, n1);
    let (w2, terms) = products(op, name, k, w1, a_scale, b_scale);
    let (w3, sum_a) = fixed(w2, terms.sum_a, name, "sum_a"@, fixes.0);
    let (w4, sum_b) = fixed(w3, terms.sum_b, name, "sum_b"@, fixes.1);
    let (w5, bias) = fixed(w4, Ref::Tap(2), name, "bias"@, fixes.2);
    let last = Terms { sum_a, sum_b, ..terms };
    assert(p == dequant_patch(op, node, id, k, kd, (n0, n1), fixes));
    let combine = simple_wire(
        name + ".combine_scales"@,
        SimpleOp::CombineScales,
        seq![last.a_scale, last.b_scale, Ref::Tap(8)],
    );
    let (v1, scale) = pushed(w5, combine);
    let plus = simple_wire(name + ".add_bias"@, SimpleOp::Add, seq![last.product, bias]);
    let (v2, biased) = pushed(v1, plus);
    let center = simple_wire(
        name + ".compensate_zero_points"@,
        SimpleOp::CompensateZeroPoints(kd),
        seq![biased, last.a0, last.b0, last.sum_a, last.sum_b],
    );
    let (v3, centered) = pushed(v2, center);
    let quantize = simple_wire(
        name + ".requant"@,
        SimpleOp::Requant(dt),
        seq![centered, scale, Ref::Tap(7)],
    );
    let (v4, by) = pushed(v3, quantize);
    assert(v4 == p.wires && by == p.by);
    lemma_pushed_fact(m, p, v3, quantize);
    lemma_pushed_fact(m, p, v2, center);
    lemma_pushed_fact(m, p, v1, plus);
    lemma_pushed_fact(m, p, w5, combine);
    let end = made.nodes[id + v3.len()];
    let mix = made.nodes[id + w5.len()];
    assert(p.wires[v3.len() as int] == quantize);
    assert(p.wires[w5.len() as int] == combine) by {
        assert(v1[w5.len() as int] == combine);
    }
    assert(end == p.wire_nodes(m)[v3.len() as int]);
    assert(mix == p.wire_nodes(m)[w5.len() as int]);
    assert(end.inputs =~= seq![p.resolve(centered), p.resolve(scale), p.resolve(Ref::Tap(7))]);
    assert(mix.inputs =~= seq![
        p.resolve(a_scale),
        p.resolve(b_scale),
        p.resolve(Ref::Tap(8)),
    ]);
    assert(end.outputs =~= node.outputs);
    let names_c = fix_names(name, "bias"@, fixes.2.len());
    let names_b = fix_names(name, "sum_b"@, fixes.1.len());
    let names_a = fix_names(name, "sum_a"@, fixes.0.len());
    lemma_chain_starts(p, w4, Ref::Tap(2), names_c, fixes.2, fixes.2.len() as int);
    lemma_chain_starts(p, w3, terms.sum_b, names_b, fixes.1, fixes.1.len() as int);
    lemma_chain_starts(p, w2, terms.sum_a, names_a, fixes.0, fixes.0.len() as int);
    lemma_products_start(p, op, name, k, w1, a_scale, b_scale);
    lemma_takes_scale(m, id, k, p, 1, w0);
    lemma_chain_starts(
        p,
        w0,
        Ref::Tap(6),
        scale_names(name, 1, n1),
        Seq::new(n1, |i: int| AxisOp::Add((i + 1) as usize)),
        n1 as int,
    );
    lemma_takes_scale(m, id, k, p, 0, none);
}

/// What comes before the products of the operands.
proof fn lemma_products_start(
    p: Patch,
    op: EinSumView,
    name: Seq<char>,
    k: char,
    wires: Seq<WireView>,
    a_scale: Ref,
    b_scale: Ref,
)
    requires
        starts(p, products(op, name, k, wires, a_scale, b_scale).0),
    ensures
        starts(p, wires),
{
    let all = products(op, name, k, wires, a_scale, b_scale).0;
    assert forall|i: int| 0 <= i < wires.len() implies p.wires[i] == #[trigger] wires[i] by {
        assert(all[i] == wires[i]);
    }
}

/// Whether an outlet is what a node of signed bytes makes of an operand and its zero point:
/// the operand, or the zero point.
pub open spec fn is_signed(m: Model, id: int, made: Model, o: Outlet, x: int, x0: int) -> bool {
    let node = m.nodes[id];
    &&& made.nodes[o.node].op == OpView::Simple(SimpleOp::EnsureSigned)
    &&& made.nodes[o.node].inputs == seq![node.inputs[x], node.inputs[x0]]
}

/// Whether a node sums the signed bytes of an operand up along an axis, as integers of 32
/// bits.
pub open spec fn sums_up(made: Model, j: int, o: Outlet, axis: int) -> bool {
    let total = made.nodes[j];
    &&& total.op matches OpView::Simple(SimpleOp::Sum(at))
    &&& at == axis
    &&& total.inputs.len() == 1
    &&& total.inputs[0].slot == 0
    &&& made.nodes[total.inputs[0].node].op == OpView::Simple(SimpleOp::Cast(DatumType::I32))
    &&& made.nodes[total.inputs[0].node].inputs == seq![o]
}

/// Whether what a patch brings to the type of the output is the raw product of signed
/// bytes, plus the bias, from which the zero points are taken away again: with those of
/// both operands, with as many terms as the sums have, and with both operands summed up
/// along the sums.
pub open spec fn accumulates(m: Model, id: int, p: Patch, k: char) -> bool {
    let node = m.nodes[id];
    let op = node.op->EinSum_0;
    let facts = facts_of(m.nodes, node.inputs);
    let made = p.applied(m);
    let last = made.nodes[p.resolve(p.by).node];
    let center = made.nodes[last.inputs[0].node];
    let biased = made.nodes[center.inputs[0].node];
    let product = made.nodes[biased.inputs[0].node];
    let (a0, b0) = (center.inputs[1], center.inputs[2]);
    &&& exists|i: int, j: int|
        {
            &&& #[trigger] leads(op.axes.inputs[0], i, k)
            &&& #[trigger] leads(op.axes.inputs[1], j, k)
            &&& center.op == OpView::Simple(SimpleOp::CompensateZeroPoints(facts[0].shape[i]))
            &&& exists|s: int, t: int| #[trigger]
                sums_up(made, s, product.inputs[0], i) && #[trigger] sums_up(
                    made,
                    t,
                    product.inputs[1],
                    j,
                )
        }
    &&& last.inputs[0].slot == 0
    &&& center.name == node.name + ".compensate_zero_points"@
    &&& center.inputs.len() == 5
    &&& center.inputs[0].slot == 0
    &&& a0.slot == 1
    &&& is_signed(m, id, made, a0, 0, 3)
    &&& b0.slot == 1
    &&& is_signed(m, id, made, b0, 1, 5)
    &&& biased.name == node.name + ".add_bias"@
    &&& biased.op == OpView::Simple(SimpleOp::Add)
    &&& biased.inputs.len() == 2
    &&& biased.inputs[0].slot == 0
    &&& product.inputs == seq![
        Outlet { node: a0.node, slot: 0 },
        Outlet { node: b0.node, slot: 0 },
    ]
    &&& product.name == node.name
    &&& product.op matches OpView::EinSum(raw)
    &&& raw.axes.inputs == seq![op.axes.inputs[0], op.axes.inputs[1]]
    &&& raw.axes.outputs == op.axes.outputs
    &&& raw.operating_dt == op.operating_dt
    &&& raw.q_params is None
}

/// The node of an operator of a patch.
proof fn lemma_wire_node(m: Model, p: Patch, wires: Seq<WireView>, wire: WireView)
    requires
        p.facts(m) is Some,
        p.wires.len() <= usize::MAX,
        0 <= p.node < m.nodes.len(),
        starts(p, wires.push(wire)),
    ensures
        starts(p, wires),
        ({
            let node = p.applied(m).nodes[p.node + wires.len()];
            &&& node.name == wire.name
            &&& node.op == wire.op
            &&& node.inputs == Seq::new(wire.inputs.len(), |j: int| p.resolve(wire.inputs[j]))
            &&& p.resolve(pushed(wires, wire).1) == Outlet {
                node: p.node + wires.len(),
                slot: 0,
            }
        }),
{
    lemma_starts(p, wires, wire);
    lemma_wire_facts(facts_of(m.nodes, p.taps), p.wires, p.wires.len() as int);
    assert(p.applied(m).nodes[p.node + wires.len()] == p.wire_nodes(m)[wires.len() as int]);
}

/// The products of a dequantized einsum, by the nodes of the rewritten model.
proof fn lemma_product_nodes(
    m: Model,
    id: int,
    p: Patch,
    k: char,
    wires: Seq<WireView>,
    a_scale: Ref,
    b_scale: Ref,
)
    requires
        m.wf(),
        0 <= id < m.nodes.len(),
        m.nodes[id].op is EinSum,
        p.node == id,
        p.facts(m) is Some,
        p.taps == m.nodes[id].inputs,
        p.taps.len() == 9,
        p.wires.len() <= usize::MAX,
        ({
            let op = m.nodes[id].op->EinSum_0;
            &&& starts(p, products(op, m.nodes[id].name, k, wires, a_scale, b_scale).0)
            &&& op.axes.inputs[0].len() <= usize::MAX
            &&& op.axes.inputs[1].len() <= usize::MAX
            &&& op.axes.inputs[0].contains(k)
            &&& op.axes.inputs[1].contains(k)
        }),
    ensures
        ({
            let op = m.nodes[id].op->EinSum_0;
            let made = p.applied(m);
            let terms = products(op, m.nodes[id].name, k, wires, a_scale, b_scale).1;
            let product = p.resolve(terms.product);
            let (a0, b0) = (p.resolve(terms.a0), p.resolve(terms.b0));
            &&& product.slot == 0
            &&& a0.slot == 1 && b0.slot == 1
            &&& is_signed(m, id, made, a0, 0, 3)
            &&& is_signed(m, id, made, b0, 1, 5)
            &&& made.nodes[product.node].name == m.nodes[id].name
            &&& made.nodes[product.node].op == OpView::EinSum(raw_einsum(op))
            &&& made.nodes[product.node].inputs == seq![
                Outlet { node: a0.node, slot: 0 },
                Outlet { node: b0.node, slot: 0 },
            ]
            &&& sums_up(
                made,
                p.resolve(terms.sum_a).node,
                Outlet { node: a0.node, slot: 0 },
                op.axes.first_in(0, k),
            )
            &&& sums_up(
                made,
                p.resolve(terms.sum_b).node,
                Outlet { node: b0.node, slot: 0 },
                op.axes.first_in(1, k),
            )
        }),
{
    let node = m.nodes[id];
    let op = node.op->EinSum_0;
    let name = node.name;
    let e = op.axes;
    let made = p.applied(m);
    let w = wires.len();
    let sign_a = simple_wire(
        name + ".ensure_q8_a"@,
        SimpleOp::EnsureSigned,
        seq![Ref::Tap(0), Ref::Tap(3)],
    );
    let (v1, a) = pushed(wires, sign_a);
    let sign_b = simple_wire(
        name + ".ensure_q8_b"@,
        SimpleOp::EnsureSigned,
        seq![Ref::Tap(1), Ref::Tap(5)],
    );
    let (v2, b) = pushed(v1, sign_b);
    let times = WireView { name, op: OpView::EinSum(raw_einsum(op)), inputs: seq![a, b] };
    let (v3, product) = pushed(v2, times);
    let cast_a = simple_wire(name + ".a_as_i32"@, SimpleOp::Cast(DatumType::I32), seq![a]);
    let (v4, a_i32) = pushed(v3, cast_a);
    let cast_b = simple_wire(name + ".b_as_i32"@, SimpleOp::Cast(DatumType::I32), seq![b]);
    let (v5, b_i32) = pushed(v4, cast_b);
    let total_a = simple_wire(
        name + ".sum_a"@,
        SimpleOp::Sum(e.first_in(0, k) as usize),
        seq![a_i32],
    );
    let (v6, sum_a) = pushed(v5, total_a);
    let total_b = simple_wire(
        name + ".sum_b"@,
        SimpleOp::Sum(e.first_in(1, k) as usize),
        seq![b_i32],
    );
    let (v7, sum_b) = pushed(v6, total_b);
    assert(v7 == products(op, name, k, wires, a_scale, b_scale).0);
    lemma_wire_node(m, p, v6, total_b);
    lemma_wire_node(m, p, v5, total_a);
    lemma_wire_node(m, p, v4, cast_b);
    lemma_wire_node(m, p, v3, cast_a);
    lemma_wire_node(m, p, v2, times);
    lemma_wire_node(m, p, v1, sign_b);
    lemma_wire_node(m, p, wires, sign_a);
    let terms = products(op, name, k, wires, a_scale, b_scale).1;
    let (oa, ob) = (Outlet { node: id + w, slot: 0 }, Outlet { node: id + w + 1, slot: 0 });
    assert(p.resolve(terms.a0) == Outlet { node: id + w, slot: 1 });
    assert(p.resolve(terms.b0) == Outlet { node: id + w + 1, slot: 1 });
    assert(made.nodes[id + w].inputs =~= seq![node.inputs[0], node.inputs[3]]);
    assert(made.nodes[id + w + 1].inputs =~= seq![node.inputs[1], node.inputs[5]]);
    assert(made.nodes[id + w + 2].inputs =~= seq![oa, ob]);
    assert(made.nodes[id + w + 3].inputs =~= seq![oa]);
    assert(made.nodes[id + w + 4].inputs =~= seq![ob]);
    assert(made.nodes[id + w + 5].inputs =~= seq![Outlet { node: id + w + 3, slot: 0 }]);
    assert(made.nodes[id + w + 6].inputs =~= seq![Outlet { node: id + w + 4, slot: 0 }]);
    lemma_positions(e.inputs[0], k);
    lemma_positions(e.inputs[1], k);
}

/// What a quantized einsum over the sums `k` is dequantized to takes its operands, their
/// zero points and its bias in order.
pub proof fn lemma_accumulates(m: Model, id: int, k: char, p: Patch)
    requires
        m.wf(),
        0 <= id < m.nodes.len(),
        m.nodes[id].op is EinSum,
        dequantized(m.nodes[id].op->EinSum_0, m, id, k) == Ok::<Patch, Error>(p),
        p.wires.len() <= usize::MAX,
        (m.nodes[id].op->EinSum_0).axes.inputs[0].len() <= usize::MAX,
        (m.nodes[id].op->EinSum_0).axes.inputs[1].len() <= usize::MAX,
        (m.nodes[id].op->EinSum_0).axes.inputs[0].contains(k),
        (m.nodes[id].op->EinSum_0).axes.inputs[1].contains(k),
    ensures
        accumulates(m, id, p, k),
{
    let node = m.nodes[id];
    let op = node.op->EinSum_0;
    let e = op.axes;
    let name = node.name;
    let made = p.applied(m);
    let facts = facts_of(m.nodes, node.inputs);
    let rank = node.outputs[0].shape.len() as int;
    let n0 = scale_axes(e, facts, rank, 0)->Ok_0 as nat;
    let n1 = scale_axes(e, facts, rank, 1)->Ok_0 as nat;
    let fixes = (
        axis_ops(term_axes(e, 0))->Ok_0,
        axis_ops(term_axes(e, 1))->Ok_0,
        axis_ops(term_axes(e, 2))->Ok_0,
    );
    let kd = dim_in(e, fact_shapes(facts), 0, k);
    let dt = op.q_params->0;
    lemma_dequant_aims(m, id, k, p);
    assert(node_wf(m.nodes, id));
    let none = Seq::<WireView>::empty();
    let (w0, a_scale) = scaled(none, name, 0, n0);
    let (w1, b_scale) = scaled(w0, name, 1, n1);
    let (w2, terms) = products(op, name, k, w1, a_scale, b_scale);
    let (w3, sum_a) = fixed(w2, terms.sum_a, name, "sum_a"@, fixes.0);
    let (w4, sum_b) = fixed(w3, terms.sum_b, name, "sum_b"@, fixes.1);
    let (w5, bias) = fixed(w4, Ref::Tap(2), name, "bias"@, fixes.2);
    let last = Terms { sum_a, sum_b, ..terms };
    assert(p == dequant_patch(op, node, id, k, kd, (n0, n1), fixes));
    let combine = simple_wire(
        name + ".combine_scales"@,
        SimpleOp::CombineScales,
        seq![last.a_scale, last.b_scale, Ref::Tap(8)],
    );
    let (v1, scale) = pushed(w5, combine);
    let plus = simple_wire(name + ".add_bias"@, SimpleOp::Add, seq![last.product, bias]);
    let (v2, biased) = pushed(v1, plus);
    let center = simple_wire(
        name + ".compensate_zero_points"@,
        SimpleOp::CompensateZeroPoints(kd),
        seq![biased, last.a0, last.b0, last.sum_a, last.sum_b],
    );
    let (v3, centered) = pushed(v2, center);
    let quantize = simple_wire(
        name + ".requant"@,
        SimpleOp::Requant(dt),
        seq![centered, scale, Ref::Tap(7)],
    );
    let (v4, by) = pushed(v3, quantize);
    assert(v4 == p.wires && by == p.by);
    lemma_wire_node(m, p, v3, quantize);
    lemma_wire_node(m, p, v2, center);
    lemma_wire_node(m, p, v1, plus);
    lemma_starts(p, w5, combine);
    let names_c = fix_names(name, "bias"@, fixes.2.len());
    let names_b = fix_names(name, "sum_b"@, fixes.1.len());
    let names_a = fix_names(name, "sum_a"@, fixes.0.len());
    lemma_chain_starts(p, w4, Ref::Tap(2), names_c, fixes.2, fixes.2.len() as int);
    lemma_chain_starts(p, w3, terms.sum_b, names_b, fixes.1, fixes.1.len() as int);
    lemma_chain_starts(p, w2, terms.sum_a, names_a, fixes.0, fixes.0.len() as int);
    lemma_product_nodes(m, id, p, k, w1, a_scale, b_scale);
    let (i, j) = (e.first_in(0, k), e.first_in(1, k));
    lemma_leads(e.inputs[0], k);
    lemma_leads(e.inputs[1], k);
    assert(leads(e.inputs[0], i, k) && leads(e.inputs[1], j, k));
    let end = made.nodes[id + v3.len()];
    assert(end.inputs[0] == Outlet { node: id + v2.len(), slot: 0 });
    let middle = made.nodes[id + v2.len()];
    assert(middle.inputs[0] == Outlet { node: id + v1.len(), slot: 0 });
    assert(middle.inputs[1] == p.resolve(terms.a0) && middle.inputs[2] == p.resolve(terms.b0));
    let sum = made.nodes[id + v1.len()];
    assert(sum.inputs[0] == p.resolve(terms.product));
    let product = made.nodes[sum.inputs[0].node];
    assert(sums_up(made, p.resolve(terms.sum_a).node, product.inputs[0], i));
    assert(sums_up(made, p.resolve(terms.sum_b).node, product.inputs[1], j));
    assert(kd == facts[0].shape[i]);
    let raw = raw_einsum(op).axes;
    assert(raw.inputs =~= seq![e.inputs[0], e.inputs[1]]);
    assert(raw.outputs =~= e.outputs);
}

} // verus!
