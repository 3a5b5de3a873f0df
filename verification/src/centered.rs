//! What a dequantized einsum computes before it is quantized again, if its operators
//! compute what they are described to.

use vstd::prelude::*;

use crate::axis_ops::axis_ops;
use crate::axis_values::{
    axis_values, clip, dim_of, lemma_shape_under_output, lemma_tabulated, lemma_under_output,
};
use crate::dequant::term_axes;
use crate::error::Error;
use crate::labels::{Expr, lemma_positions, lemma_single};
use crate::meaning::{
    Meaning, einsum_by, elements, entry_by, is_sum, lemma_extent_one, lemma_sum_shape, plainly,
    product_of, terms,
};
use crate::ops::{AxisOp, Fact};
use crate::packed::{has_parts, lemma_axis_of, lemma_found, lemma_only_k_summed};
use crate::preserve::shape_value;
use crate::product::{
    Assignment, agree, bind, broadcasts, coords_in, extent, is_summed, lemma_bind,
    lemma_row_extent_found, lemma_row_extent_one, lemma_row_extent_single, lemma_row_extent_trivial,
    lemma_sum_same, lemma_total_same, lemma_total_single, output_dims, row_extent, same_extents,
    same_leaf, shapes_of, suits, sum, summed_extents, total,
};
use crate::tensor::{Value, in_bounds, is_shape, lemma_tabulate_same, tabulate};

verus! {

impl Value {
    /// The one element of a tensor without axes.
    pub open spec fn scalar(self) -> int {
        self.at(Seq::empty())
    }

    /// The sums along an axis, which stays with the dimension one.
    pub open spec fn summed(self, axis: int) -> Value {
        tabulate(
            self.shape.update(axis, 1),
            |coords: Seq<int>| sum(self.shape[axis], |v: int| self.at(coords.update(axis, v))),
        )
    }
}

/// The shape of two shapes of one rank that broadcast.
pub open spec fn joint(a: Seq<int>, b: Seq<int>) -> Seq<int> {
    Seq::new(
        a.len(),
        |p: int|
            if a[p] != 1 {
                a[p]
            } else {
                b[p]
            },
    )
}

/// The sum of two tensors, broadcasting.
pub open spec fn added(x: Value, y: Value) -> Value {
    tabulate(
        joint(x.shape, y.shape),
        |coords: Seq<int>| x.at(clip(coords, x.shape)) + y.at(clip(coords, y.shape)),
    )
}

/// A product of raw values without the zero points of its operands: of the product, the
/// zero points, and the sums of the operands, of so many terms.
pub open spec fn compensated(k: int, x: Value, a0: Value, b0: Value, a: Value, b: Value) -> Value {
    tabulate(
        x.shape,
        |coords: Seq<int>|
            x.at(coords) - a0.scalar() * b.at(clip(coords, b.shape)) - b0.scalar() * a.at(
                clip(coords, a.shape),
            ) + k * (a0.scalar() * b0.scalar()),
    )
}

/// Whether an operand and its zero point are others with the same differences.
pub open spec fn is_shifted(x: Value, x0: Value, y: Value, y0: Value) -> bool {
    &&& y.valid()
    &&& y.shape == x.shape
    &&& forall|coords: Seq<int>| #[trigger]
        in_bounds(coords, x.shape) ==> y.at(coords) - y0.scalar() == x.at(coords) - x0.scalar()
}

/// What a quantized einsum makes of elements before it is quantized: the sum of the
/// products of the operands, each relative to its zero point, plus the bias.
pub open spec fn relatively(a0: int, b0: int) -> Meaning {
    Meaning {
        term: |v: Seq<int>| (v[0] - a0) * (v[1] - b0),
        finish: |total: int, v: Seq<int>| total + v[2],
    }
}

/// An expression with the first inputs only.
pub open spec fn first_inputs(e: Expr, n: int) -> Expr {
    Expr { inputs: e.inputs.take(n), outputs: e.outputs }
}

/// What a quantized einsum comes to before it is quantized: of the operands, the bias,
/// and the zero points.
pub open spec fn accumulated(e: Expr, xs: Seq<Value>) -> Value {
    einsum_by(
        first_inputs(e, 3),
        xs.take(3),
        relatively(xs[3].scalar(), xs[5].scalar()),
    )
}

/// The dimension other than one that a label has along some slots.
pub proof fn lemma_extent_found(labels: Seq<Seq<char>>, shapes: Seq<Seq<int>>, c: char) -> (at: (
    int,
    int,
))
    requires
        shapes.len() == labels.len(),
        forall|s: int| 0 <= s < labels.len() ==> (#[trigger] shapes[s]).len() == labels[s].len(),
        extent(labels, shapes, c, 1) != 1,
    ensures
        0 <= at.0 < labels.len(),
        0 <= at.1 < labels[at.0].len(),
        labels[at.0][at.1] == c,
        shapes[at.0][at.1] == extent(labels, shapes, c, 1),
    decreases labels.len(),
{
    let (a, b) = (labels.drop_last(), shapes.drop_last());
    assert forall|s: int| 0 <= s < a.len() implies (#[trigger] b[s]).len() == a[s].len() by {
        assert(b[s] == shapes[s]);
    }
    if extent(a, b, c, 1) != 1 {
        lemma_extent_found(a, b, c)
    } else {
        let s = labels.len() - 1;
        assert(shapes[s].len() == labels[s].len());
        (s, lemma_row_extent_found(labels.last(), shapes.last(), c, 1int))
    }
}

/// The first inputs broadcast where all do, and an extent other than one along them is
/// that along all.
pub proof fn lemma_first_inputs(e: Expr, shapes: Seq<Seq<int>>, n: int, c: char)
    requires
        0 <= n <= e.inputs.len(),
        shapes.len() == e.inputs.len(),
        forall|s: int|
            0 <= s < e.inputs.len() ==> (#[trigger] shapes[s]).len() == e.inputs[s].len(),
        broadcasts(e, shapes),
    ensures
        broadcasts(first_inputs(e, n), shapes.take(n)),
        extent(e.inputs.take(n), shapes.take(n), c, 1) != 1 ==> extent(
            e.inputs.take(n),
            shapes.take(n),
            c,
            1,
        ) == extent(e.inputs, shapes, c, 1),
{
    let f = first_inputs(e, n);
    let some = shapes.take(n);
    if extent(f.inputs, some, c, 1) != 1 {
        let (s, p) = lemma_extent_found(f.inputs, some, c);
        assert(e.inputs[s][p] == c);
    }
    assert forall|s: int, p: int|
        0 <= s < f.inputs.len() && 0 <= p < f.inputs[s].len() implies some[s][p] == 1 || some[s][p]
        == extent(f.inputs, some, #[trigger] f.inputs[s][p], 1) by {
        let l = f.inputs[s][p];
        assert(e.inputs[s][p] == l);
        if some[s][p] != 1 {
            lemma_extent_one(f.inputs, some, l, 1int);
            if extent(f.inputs, some, l, 1) == 1 {
                assert(row_extent(f.inputs[s], some[s], l, 1) == 1);
                assert(shapes[s].len() == e.inputs[s].len());
                lemma_row_extent_one(f.inputs[s], some[s], l, 1int);
            }
            let (t, q) = lemma_extent_found(f.inputs, some, l);
            assert(e.inputs[t][q] == l);
        }
    }
}

/// Where but one label is summed over with an extent other than one, the sum is one
/// over its values.
pub proof fn lemma_one_total(
    e: Expr,
    xs: Seq<Value>,
    by: Meaning,
    k: char,
    depth: int,
    base: Assignment,
)
    requires
        suits(e, xs),
        broadcasts(e, shapes_of(xs)),
        is_summed(e, k),
        extent(e.inputs, shapes_of(xs), k, 1) == depth,
        forall|c: char|
            c != k && #[trigger] is_summed(e, c) ==> extent(e.inputs, shapes_of(xs), c, 1) == 1,
    ensures
        total(summed_extents(e, shapes_of(xs)), terms(e, xs, by), base, 0) == sum(
            depth,
            |v: int| terms(e, xs, by)(base.insert(k, v)),
        ),
{
    let shapes = shapes_of(xs);
    let live = |c: char| c == k || extent(e.inputs, shapes, c, 1) != 1;
    let s1 = summed_extents(e, shapes);
    let s2 = |c: char|
        if c == k {
            Some(depth)
        } else {
            None
        };
    let leaf = terms(e, xs, by);
    assert(same_extents(s1, s2, live));
    assert forall|b1: Assignment, b2: Assignment| #[trigger] agree(live, b1, b2) implies leaf(b1)
        == leaf(b2) by {
        let left = elements(e, xs, b1);
        let right = elements(e, xs, b2);
        assert forall|s: int| 0 <= s < left.len() implies #[trigger] left[s] == right[s] by {
            assert(xs[s].valid());
            let c1 = coords_in(e.inputs[s], xs[s].shape, b1);
            let c2 = coords_in(e.inputs[s], xs[s].shape, b2);
            assert forall|p: int| 0 <= p < c1.len() implies c1[p] == c2[p] by {
                if xs[s].shape[p] != 1 {
                    assert(shapes[s][p] == xs[s].shape[p]);
                    assert(live(e.inputs[s][p]));
                    assert(b1[e.inputs[s][p]] == b2[e.inputs[s][p]]);
                }
            }
            assert(c1 =~= c2);
        }
        assert(left =~= right);
    }
    assert(same_leaf(leaf, leaf, live));
    assert(agree(live, base, base));
    lemma_total_same(s1, leaf, s2, leaf, live, base, base, 0);
    lemma_total_single(s2, leaf, base, k, depth, 0);
}

/// The products of operands relative to their zero points, from those of raw operands.
proof fn lemma_relative(
    n: int,
    a: spec_fn(int) -> int,
    b: spec_fn(int) -> int,
    a0: int,
    b0: int,
)
    requires
        n >= 0,
    ensures
        sum(n, |v: int| a(v) * b(v)) - a0 * sum(n, b) - b0 * sum(n, a) + n * (a0 * b0) == sum(
            n,
            |v: int| (a(v) - a0) * (b(v) - b0),
        ),
    decreases n,
{
    if n > 0 {
        lemma_relative(n - 1, a, b, a0, b0);
        let (x, y) = (a(n - 1), b(n - 1));
        let (sa, sb) = (sum(n - 1, a), sum(n - 1, b));
        assert((x - a0) * (y - b0) == x * y - a0 * y - b0 * x + a0 * b0) by (nonlinear_arith);
        assert(a0 * (sb + y) == a0 * sb + a0 * y) by (nonlinear_arith);
        assert(b0 * (sa + x) == b0 * sa + b0 * x) by (nonlinear_arith);
        assert(n * (a0 * b0) == (n - 1) * (a0 * b0) + a0 * b0) by (nonlinear_arith);
    } else {
        assert(a0 * 0 == 0 && b0 * 0 == 0 && 0 * (a0 * b0) == 0);
    }
}

/// Whether a quantized einsum of nine inputs has found its rows, sums and columns, with
/// tensors that broadcast, and its zero points are single ones.
pub open spec fn offsets_given(
    symbols: spec_fn(u64) -> int,
    e: Expr,
    facts: Seq<Fact>,
    xs: Seq<Value>,
    m: char,
    k: char,
    n: char,
) -> bool {
    &&& has_parts(symbols, e, facts, xs, m, k, n)
    &&& e.inputs.len() == 9
    &&& suits(e, xs)
    &&& broadcasts(e, shapes_of(xs))
    &&& e.inputs[3].len() == 0
    &&& e.inputs[5].len() == 0
    &&& e.inputs[0].len() <= usize::MAX
    &&& e.inputs[1].len() <= usize::MAX
    &&& e.inputs[2].len() <= usize::MAX
    &&& e.outputs[0].len() <= usize::MAX
}

/// Whether also the bias has no label twice, and but the dimension one under labels that
/// the output does not have.
pub open spec fn offsets_suit(
    symbols: spec_fn(u64) -> int,
    e: Expr,
    facts: Seq<Fact>,
    xs: Seq<Value>,
    m: char,
    k: char,
    n: char,
) -> bool {
    &&& offsets_given(symbols, e, facts, xs, m, k, n)
    &&& e.inputs[2].no_duplicates()
    &&& forall|p: int|
        0 <= p < e.inputs[2].len() && !e.outputs[0].contains(#[trigger] e.inputs[2][p])
            ==> xs[2].shape[p] == 1
}

/// The shape of an einsum of the first inputs.
pub open spec fn first_dims(e: Expr, xs: Seq<Value>, n: int) -> Seq<int> {
    output_dims(first_inputs(e, n), shapes_of(xs).take(n), 1)
}

/// Of the labels that the output does not have only that of the sums has a dimension
/// other than one.
pub proof fn lemma_units_summed(
    symbols: spec_fn(u64) -> int,
    e: Expr,
    facts: Seq<Fact>,
    xs: Seq<Value>,
    m: char,
    k: char,
    n: char,
    t: int,
    p: int,
)
    requires
        offsets_suit(symbols, e, facts, xs, m, k, n),
        0 <= t < 3,
        0 <= p < e.inputs[t].len(),
        !e.outputs[0].contains(e.inputs[t][p]),
        e.inputs[t][p] != k || t == 2,
    ensures
        xs[t].shape[p] == 1,
{
    if t < 2 && xs[t].shape[p] != 1 {
        lemma_only_k_summed(symbols, e, facts, xs, m, k, n, t, p);
    }
}

/// How long the sums are.
pub open spec fn depth(e: Expr, xs: Seq<Value>, k: char) -> int {
    xs[0].shape[e.first_in(0, k)]
}

/// Where the sums are in the operands, and how long they are.
pub proof fn lemma_depth(
    symbols: spec_fn(u64) -> int,
    e: Expr,
    facts: Seq<Fact>,
    xs: Seq<Value>,
    m: char,
    k: char,
    n: char,
)
    requires
        offsets_suit(symbols, e, facts, xs, m, k, n),
    ensures
        0 <= e.first_in(0, k) < e.inputs[0].len(),
        0 <= e.first_in(1, k) < e.inputs[1].len(),
        e.inputs[0][e.first_in(0, k)] == k,
        e.inputs[1][e.first_in(1, k)] == k,
        xs[1].shape[e.first_in(1, k)] == depth(e, xs, k),
        depth(e, xs, k) >= 0,
        !e.outputs[0].contains(k),
        xs[0].valid() && xs[1].valid() && xs[2].valid(),
        xs[0].shape.len() == e.inputs[0].len(),
        xs[1].shape.len() == e.inputs[1].len(),
        xs[2].shape.len() == e.inputs[2].len(),
{
    lemma_found(symbols, e, facts, xs, m, k, n);
    lemma_single(e.inputs[0], k);
    lemma_single(e.inputs[1], k);
    lemma_positions(e.outputs[0], k);
    let (i, j) = (e.first_in(0, k), e.first_in(1, k));
    assert(xs[0].valid() && xs[1].valid() && xs[2].valid());
    assert(xs[0].shape[i] == shape_value(symbols, facts[0].shape)[i]);
    assert(xs[1].shape[j] == shape_value(symbols, facts[1].shape)[j]);
    assert(0 <= xs[0].shape[i]);
}

/// The sums of the first inputs are over one label.
pub proof fn lemma_first_sums(
    symbols: spec_fn(u64) -> int,
    e: Expr,
    facts: Seq<Fact>,
    xs: Seq<Value>,
    m: char,
    k: char,
    n: char,
    w: int,
)
    requires
        offsets_suit(symbols, e, facts, xs, m, k, n),
        2 <= w <= 3,
    ensures
        ({
            let f = first_inputs(e, w);
            let shapes = shapes_of(xs).take(w);
            &&& broadcasts(f, shapes)
            &&& is_summed(f, k)
            &&& extent(f.inputs, shapes, k, 1) == depth(e, xs, k)
            &&& forall|c: char|
                c != k && #[trigger] is_summed(f, c) ==> extent(f.inputs, shapes, c, 1) == 1
        }),
{
    let f = first_inputs(e, w);
    let all = shapes_of(xs);
    let shapes = all.take(w);
    lemma_depth(symbols, e, facts, xs, m, k, n);
    assert forall|s: int| 0 <= s < e.inputs.len() implies (#[trigger] all[s]).len()
        == e.inputs[s].len() by {
        assert(xs[s].valid());
    }
    lemma_first_inputs(e, all, w, k);
    assert(f.inputs[0].contains(k));
    assert(is_summed(f, k));
    assert forall|c: char| c != k && #[trigger] is_summed(f, c) implies extent(
        f.inputs,
        shapes,
        c,
        1,
    ) == 1 by {
        lemma_extent_one(f.inputs, shapes, c, 1int);
        assert forall|s: int| 0 <= s < f.inputs.len() implies row_extent(
            #[trigger] f.inputs[s],
            shapes[s],
            c,
            1,
        ) == 1 by {
            assert forall|p: int| 0 <= p < f.inputs[s].len() && #[trigger] f.inputs[s][p]
                == c implies shapes[s][p] == 1 by {
                lemma_units_summed(symbols, e, facts, xs, m, k, n, s, p);
            }
            assert(all[s].len() == e.inputs[s].len());
            lemma_row_extent_trivial(f.inputs[s], shapes[s], c, 1int);
        }
    }
    let d = depth(e, xs, k);
    let i = e.first_in(0, k);
    assert(f.inputs[0][i] == k);
    if d != 1 {
        assert(shapes[0][i] == d);
    } else {
        lemma_extent_one(f.inputs, shapes, k, 1int);
        assert forall|s: int| 0 <= s < f.inputs.len() implies row_extent(
            #[trigger] f.inputs[s],
            shapes[s],
            k,
            1,
        ) == 1 by {
            assert forall|p: int| 0 <= p < f.inputs[s].len() && #[trigger] f.inputs[s][p]
                == k implies shapes[s][p] == 1 by {
                if s == 2 {
                    lemma_units_summed(symbols, e, facts, xs, m, k, n, s, p);
                } else {
                    assert(e.inputs[s][p] == e.inputs[s][e.first_in(s, k)]);
                    assert(p == e.first_in(s, k));
                }
            }
            assert(all[s].len() == e.inputs[s].len());
            lemma_row_extent_trivial(f.inputs[s], shapes[s], k, 1int);
        }
    }
}

/// Along an axis of the output that an input has with a dimension other than one, the
/// output of the first inputs has it.
proof fn lemma_first_dim(
    symbols: spec_fn(u64) -> int,
    e: Expr,
    facts: Seq<Fact>,
    xs: Seq<Value>,
    m: char,
    k: char,
    n: char,
    w: int,
    t: int,
    p: int,
    q: int,
)
    requires
        offsets_suit(symbols, e, facts, xs, m, k, n),
        2 <= w <= 3,
        0 <= t < w,
        0 <= p < e.inputs[t].len(),
        0 <= q < e.outputs[0].len(),
        e.inputs[t][p] == e.outputs[0][q],
        xs[t].shape[p] != 1,
    ensures
        first_dims(e, xs, w)[q] == xs[t].shape[p],
{
    let f = first_inputs(e, w);
    lemma_first_sums(symbols, e, facts, xs, m, k, n, w);
    assert(f.inputs[t][p] == e.inputs[t][p]);
    assert(shapes_of(xs).take(w)[t][p] == xs[t].shape[p]);
}

/// The elements of an operand that the terms take are within it, and do not depend on
/// coordinates along which the product of the operands stretches.
proof fn lemma_operand_coords(
    symbols: spec_fn(u64) -> int,
    e: Expr,
    facts: Seq<Fact>,
    xs: Seq<Value>,
    m: char,
    k: char,
    n: char,
    t: int,
    coords: Seq<int>,
    v: int,
)
    requires
        offsets_suit(symbols, e, facts, xs, m, k, n),
        t == 0 || t == 1,
        in_bounds(coords, first_dims(e, xs, 3)),
        0 <= v < depth(e, xs, k),
    ensures
        in_bounds(
            coords_in(e.inputs[t], xs[t].shape, bind(e.outputs[0], coords).insert(k, v)),
            xs[t].shape,
        ),
        coords_in(
            e.inputs[t],
            xs[t].shape,
            bind(e.outputs[0], clip(coords, first_dims(e, xs, 2))).insert(k, v),
        ) == coords_in(e.inputs[t], xs[t].shape, bind(e.outputs[0], coords).insert(k, v)),
{
    let out = e.outputs[0];
    let short = clip(coords, first_dims(e, xs, 2));
    let values = bind(out, coords).insert(k, v);
    let other = bind(out, short).insert(k, v);
    let at = coords_in(e.inputs[t], xs[t].shape, values);
    let there = coords_in(e.inputs[t], xs[t].shape, other);
    lemma_depth(symbols, e, facts, xs, m, k, n);
    assert forall|p: int| 0 <= p < at.len() implies 0 <= #[trigger] at[p] < xs[t].shape[p]
        && there[p] == at[p] by {
        let l = e.inputs[t][p];
        if xs[t].shape[p] != 1 {
            if l == k {
                assert(p == e.first_in(t, k));
            } else {
                if !out.contains(l) {
                    lemma_units_summed(symbols, e, facts, xs, m, k, n, t, p);
                }
                let q = choose|q: int| 0 <= q < out.len() && out[q] == l;
                lemma_bind(out, coords, q);
                lemma_bind(out, short, q);
                lemma_first_dim(symbols, e, facts, xs, m, k, n, 2, t, p, q);
                lemma_first_dim(symbols, e, facts, xs, m, k, n, 3, t, p, q);
            }
        }
    }
    assert(there =~= at);
}

/// The elements of an operand that the terms of an element of the output take.
pub open spec fn reading(e: Expr, t: int, x: Value, k: char, coords: Seq<int>) -> spec_fn(
    int,
) -> int {
    |v: int| x.at(coords_in(e.inputs[t], x.shape, bind(e.outputs[0], coords).insert(k, v)))
}

/// The product of the raw operands.
proof fn lemma_product_value(
    symbols: spec_fn(u64) -> int,
    e: Expr,
    facts: Seq<Fact>,
    xs: Seq<Value>,
    m: char,
    k: char,
    n: char,
    ys: Seq<Value>,
    coords: Seq<int>,
)
    requires
        offsets_suit(symbols, e, facts, xs, m, k, n),
        ys.len() == 2,
        ys[0].valid() && ys[0].shape == xs[0].shape,
        ys[1].valid() && ys[1].shape == xs[1].shape,
        in_bounds(coords, first_dims(e, xs, 3)),
    ensures
        ({
            let product = einsum_by(first_inputs(e, 2), ys, plainly());
            let (a, b) = (reading(e, 0, ys[0], k, coords), reading(e, 1, ys[1], k, coords));
            &&& product.valid()
            &&& product.shape == first_dims(e, xs, 2)
            &&& product.at(clip(coords, product.shape)) == sum(
                depth(e, xs, k),
                |v: int| a(v) * b(v),
            )
        }),
{
    let f = first_inputs(e, 2);
    let by = plainly();
    let product = einsum_by(f, ys, by);
    let dims = first_dims(e, xs, 2);
    let short = clip(coords, dims);
    let (a, b) = (reading(e, 0, ys[0], k, coords), reading(e, 1, ys[1], k, coords));
    let d = depth(e, xs, k);
    let base = bind(e.outputs[0], short);
    lemma_depth(symbols, e, facts, xs, m, k, n);
    lemma_first_sums(symbols, e, facts, xs, m, k, n, 2);
    assert(shapes_of(ys) =~= shapes_of(xs).take(2));
    assert(suits(f, ys));
    assert(is_sum(f));
    lemma_sum_shape(f, ys);
    assert(in_bounds(short, dims)) by {
        assert forall|q: int| 0 <= q < dims.len() implies 0 <= #[trigger] short[q] < dims[q] by {
            if dims[q] != 1 {
                lemma_first_longer(symbols, e, facts, xs, m, k, n, q);
            }
        }
    }
    lemma_tabulated(dims, entry_by(f, ys, by), short);
    lemma_one_total(f, ys, by, k, d, base);
    let left = |v: int| terms(f, ys, by)(base.insert(k, v));
    let right = |v: int| a(v) * b(v);
    assert forall|v: int| 0 <= v < d implies #[trigger] left(v) == right(v) by {
        lemma_operand_coords(symbols, e, facts, xs, m, k, n, 0, coords, v);
        lemma_operand_coords(symbols, e, facts, xs, m, k, n, 1, coords, v);
        let picked = elements(f, ys, base.insert(k, v));
        assert(picked[0] == a(v) && picked[1] == b(v));
        reveal_with_fuel(product_of, 3);
        assert(picked.drop_last().last() == picked[0]);
        assert(picked.drop_last().drop_last().len() == 0);
        assert(1 * picked[0] == picked[0]);
    }
    lemma_sum_same(d, left, right);
}

/// Where the product of the operands has a dimension other than one, it keeps it with
/// the bias.
proof fn lemma_first_longer(
    symbols: spec_fn(u64) -> int,
    e: Expr,
    facts: Seq<Fact>,
    xs: Seq<Value>,
    m: char,
    k: char,
    n: char,
    q: int,
)
    requires
        offsets_suit(symbols, e, facts, xs, m, k, n),
        0 <= q < e.outputs[0].len(),
    ensures
        first_dims(e, xs, 3)[q] == (if first_dims(e, xs, 2)[q] != 1 {
            first_dims(e, xs, 2)[q]
        } else {
            dim_of(e.inputs[2], xs[2].shape, e.outputs[0][q])
        }),
{
    let c = e.outputs[0][q];
    let all = shapes_of(xs);
    let (f, g) = (first_inputs(e, 3), first_inputs(e, 2));
    assert(f.inputs.drop_last() =~= g.inputs);
    assert(all.take(3).drop_last() =~= all.take(2));
    assert(f.inputs.last() == e.inputs[2]);
    assert(all.take(3).last() == xs[2].shape);
    lemma_depth(symbols, e, facts, xs, m, k, n);
    if e.inputs[2].contains(c) {
        let p = choose|p: int| 0 <= p < e.inputs[2].len() && e.inputs[2][p] == c;
        lemma_axis_of(e.inputs[2], p);
        lemma_row_extent_single(e.inputs[2], xs[2].shape, c, p, 1int);
    } else {
        lemma_row_extent_trivial(e.inputs[2], xs[2].shape, c, 1int);
    }
}

/// The sums of an operand.
proof fn lemma_sum_value(
    symbols: spec_fn(u64) -> int,
    e: Expr,
    facts: Seq<Fact>,
    xs: Seq<Value>,
    m: char,
    k: char,
    n: char,
    t: int,
    y: Value,
    ops: Seq<AxisOp>,
    coords: Seq<int>,
)
    requires
        offsets_suit(symbols, e, facts, xs, m, k, n),
        t == 0 || t == 1,
        y.valid(),
        y.shape == xs[t].shape,
        axis_ops(term_axes(e, t as usize)) == Ok::<Seq<AxisOp>, Error>(ops),
        in_bounds(coords, first_dims(e, xs, 3)),
    ensures
        ({
            let sums = axis_values(ops, y.summed(e.first_in(t, k)), ops.len() as int);
            sums.at(clip(coords, sums.shape)) == sum(
                depth(e, xs, k),
                reading(e, t, y, k, coords),
            )
        }),
{
    let axis = e.first_in(t, k);
    let s = y.summed(axis);
    let d = depth(e, xs, k);
    let out = e.outputs[0];
    let labels = e.inputs[t];
    let f = term_axes(e, t as usize);
    let values = bind(out, coords);
    lemma_depth(symbols, e, facts, xs, m, k, n);
    assert(f.inputs[0] == labels && f.outputs[0] == out);
    assert(is_shape(s.shape)) by {
        assert forall|p: int| 0 <= p < s.shape.len() implies 0 <= #[trigger] s.shape[p] by {
            assert(0 <= y.shape[p]);
        }
    }
    let at = coords_in(labels, s.shape, values);
    assert forall|p: int| 0 <= p < labels.len() && !out.contains(#[trigger] labels[p]) implies s.shape[p]
        == 1 by {
        if p != axis {
            lemma_axis_of(labels, axis);
            lemma_units_summed(symbols, e, facts, xs, m, k, n, t, p);
        }
    }
    assert forall|p: int|
        #![trigger out[p]]
        0 <= p < coords.len() implies dim_of(labels, s.shape, out[p]) == 1 || 0 <= coords[p]
        < dim_of(labels, s.shape, out[p]) by {
        if labels.contains(out[p]) {
            let i = choose|i: int| 0 <= i < labels.len() && labels[i] == out[p];
            lemma_axis_of(labels, i);
            if s.shape[i] != 1 {
                lemma_first_dim(symbols, e, facts, xs, m, k, n, 3, t, i, p);
            }
        }
    }
    let g = |c: Seq<int>| sum(y.shape[axis], |v: int| y.at(c.update(axis, v)));
    assert(in_bounds(at, s.shape)) by {
        assert forall|p: int| 0 <= p < at.len() implies 0 <= #[trigger] at[p] < s.shape[p] by {
            if s.shape[p] != 1 {
                let l = labels[p];
                assert(out.contains(l));
                let q = choose|q: int| 0 <= q < out.len() && out[q] == l;
                lemma_bind(out, coords, q);
                lemma_first_dim(symbols, e, facts, xs, m, k, n, 3, t, p, q);
            }
        }
    }
    lemma_tabulated(s.shape, g, at);
    lemma_under_output(f, ops, s, coords);
    let left = |v: int| y.at(at.update(axis, v));
    let right = reading(e, t, y, k, coords);
    assert forall|v: int| 0 <= v < d implies #[trigger] left(v) == right(v) by {
        let there = coords_in(labels, y.shape, values.insert(k, v));
        assert(at.update(axis, v) =~= there) by {
            assert forall|p: int| 0 <= p < there.len() implies #[trigger] there[p] == at.update(
                axis,
                v,
            )[p] by {
                if p != axis {
                    assert(labels[p] != labels[axis]);
                }
            }
        }
    }
    lemma_sum_same(d, left, right);
}

/// The bias.
proof fn lemma_bias_value(
    symbols: spec_fn(u64) -> int,
    e: Expr,
    facts: Seq<Fact>,
    xs: Seq<Value>,
    m: char,
    k: char,
    n: char,
    ops: Seq<AxisOp>,
    coords: Seq<int>,
)
    requires
        offsets_suit(symbols, e, facts, xs, m, k, n),
        axis_ops(term_axes(e, 2)) == Ok::<Seq<AxisOp>, Error>(ops),
        in_bounds(coords, first_dims(e, xs, 3)),
    ensures
        ({
            let bias = axis_values(ops, xs[2], ops.len() as int);
            &&& bias.valid()
            &&& bias.shape.len() == e.outputs[0].len()
            &&& forall|q: int|
                0 <= q < bias.shape.len() ==> #[trigger] bias.shape[q] == dim_of(
                    e.inputs[2],
                    xs[2].shape,
                    e.outputs[0][q],
                )
            &&& bias.at(clip(coords, bias.shape)) == xs[2].at(
                coords_in(e.inputs[2], xs[2].shape, bind(e.outputs[0], coords)),
            )
        }),
{
    let labels = e.inputs[2];
    let out = e.outputs[0];
    let f = term_axes(e, 2);
    lemma_depth(symbols, e, facts, xs, m, k, n);
    assert(f.inputs[0] == labels && f.outputs[0] == out);
    assert forall|p: int|
        #![trigger out[p]]
        0 <= p < coords.len() implies dim_of(labels, xs[2].shape, out[p]) == 1 || 0 <= coords[p]
        < dim_of(labels, xs[2].shape, out[p]) by {
        if labels.contains(out[p]) {
            let i = choose|i: int| 0 <= i < labels.len() && labels[i] == out[p];
            lemma_axis_of(labels, i);
            if xs[2].shape[i] != 1 {
                lemma_first_dim(symbols, e, facts, xs, m, k, n, 3, 2, i, p);
            }
        }
    }
    lemma_under_output(f, ops, xs[2], coords);
}

/// What the operators of a dequantized einsum come to before the last.
pub open spec fn centered(
    e: Expr,
    xs: Seq<Value>,
    k: char,
    a: (Value, Value),
    b: (Value, Value),
    fixes: (Seq<AxisOp>, Seq<AxisOp>, Seq<AxisOp>),
) -> Value {
    let product = einsum_by(first_inputs(e, 2), seq![a.0, b.0], plainly());
    let sum_a = axis_values(fixes.0, a.0.summed(e.first_in(0, k)), fixes.0.len() as int);
    let sum_b = axis_values(fixes.1, b.0.summed(e.first_in(1, k)), fixes.1.len() as int);
    let bias = axis_values(fixes.2, xs[2], fixes.2.len() as int);
    compensated(depth(e, xs, k), added(product, bias), a.1, b.1, sum_a, sum_b)
}

/// The shape of the product of the operands, with the bias.
proof fn lemma_joint_shape(
    symbols: spec_fn(u64) -> int,
    e: Expr,
    facts: Seq<Fact>,
    xs: Seq<Value>,
    m: char,
    k: char,
    n: char,
    ops: Seq<AxisOp>,
)
    requires
        offsets_suit(symbols, e, facts, xs, m, k, n),
        axis_ops(term_axes(e, 2)) == Ok::<Seq<AxisOp>, Error>(ops),
    ensures
        joint(
            first_dims(e, xs, 2),
            axis_values(ops, xs[2], ops.len() as int).shape,
        ) == first_dims(e, xs, 3),
        is_shape(first_dims(e, xs, 3)),
{
    let f = term_axes(e, 2);
    let g = first_inputs(e, 3);
    let bias = axis_values(ops, xs[2], ops.len() as int);
    lemma_depth(symbols, e, facts, xs, m, k, n);
    assert(f.inputs[0] == e.inputs[2] && f.outputs[0] == e.outputs[0]);
    lemma_shape_under_output(f, ops, xs[2]);
    let left = joint(first_dims(e, xs, 2), bias.shape);
    let right = first_dims(e, xs, 3);
    assert forall|q: int| 0 <= q < left.len() implies #[trigger] left[q] == right[q] by {
        lemma_first_longer(symbols, e, facts, xs, m, k, n, q);
    }
    assert(left =~= right);
    assert(shapes_of(xs.take(3)) =~= shapes_of(xs).take(3));
    assert(suits(g, xs.take(3)));
    assert(is_sum(g));
    lemma_sum_shape(g, xs.take(3));
}

/// An element before the last operator.
proof fn lemma_centered_at(
    symbols: spec_fn(u64) -> int,
    e: Expr,
    facts: Seq<Fact>,
    xs: Seq<Value>,
    m: char,
    k: char,
    n: char,
    a: (Value, Value),
    b: (Value, Value),
    fixes: (Seq<AxisOp>, Seq<AxisOp>, Seq<AxisOp>),
    coords: Seq<int>,
)
    requires
        offsets_suit(symbols, e, facts, xs, m, k, n),
        is_shifted(xs[0], xs[3], a.0, a.1),
        is_shifted(xs[1], xs[5], b.0, b.1),
        axis_ops(term_axes(e, 0)) == Ok::<Seq<AxisOp>, Error>(fixes.0),
        axis_ops(term_axes(e, 1)) == Ok::<Seq<AxisOp>, Error>(fixes.1),
        axis_ops(term_axes(e, 2)) == Ok::<Seq<AxisOp>, Error>(fixes.2),
        in_bounds(coords, first_dims(e, xs, 3)),
    ensures
        ({
            let product = einsum_by(first_inputs(e, 2), seq![a.0, b.0], plainly());
            let sum_a = axis_values(
                fixes.0,
                a.0.summed(e.first_in(0, k)),
                fixes.0.len() as int,
            );
            let sum_b = axis_values(
                fixes.1,
                b.0.summed(e.first_in(1, k)),
                fixes.1.len() as int,
            );
            let bias = axis_values(fixes.2, xs[2], fixes.2.len() as int);
            product.at(clip(coords, product.shape)) + bias.at(clip(coords, bias.shape))
                - a.1.scalar() * sum_b.at(clip(coords, sum_b.shape)) - b.1.scalar() * sum_a.at(
                clip(coords, sum_a.shape),
            ) + depth(e, xs, k) * (a.1.scalar() * b.1.scalar()) == entry_by(
                first_inputs(e, 3),
                xs.take(3),
                relatively(xs[3].scalar(), xs[5].scalar()),
            )(coords)
        }),
{
    let d = depth(e, xs, k);
    let g = first_inputs(e, 3);
    let by = relatively(xs[3].scalar(), xs[5].scalar());
    let base = bind(e.outputs[0], coords);
    let (ra, rb) = (reading(e, 0, a.0, k, coords), reading(e, 1, b.0, k, coords));
    let zs = xs.take(3);
    lemma_depth(symbols, e, facts, xs, m, k, n);
    lemma_product_value(symbols, e, facts, xs, m, k, n, seq![a.0, b.0], coords);
    lemma_sum_value(symbols, e, facts, xs, m, k, n, 0, a.0, fixes.0, coords);
    lemma_sum_value(symbols, e, facts, xs, m, k, n, 1, b.0, fixes.1, coords);
    lemma_bias_value(symbols, e, facts, xs, m, k, n, fixes.2, coords);
    lemma_relative(d, ra, rb, a.1.scalar(), b.1.scalar());
    lemma_first_sums(symbols, e, facts, xs, m, k, n, 3);
    assert(shapes_of(zs) =~= shapes_of(xs).take(3));
    assert(suits(g, zs));
    lemma_one_total(g, zs, by, k, d, base);
    let left = |v: int| (ra(v) - a.1.scalar()) * (rb(v) - b.1.scalar());
    let right = |v: int| terms(g, zs, by)(base.insert(k, v));
    assert forall|v: int| 0 <= v < d implies #[trigger] left(v) == right(v) by {
        lemma_operand_coords(symbols, e, facts, xs, m, k, n, 0, coords, v);
        lemma_operand_coords(symbols, e, facts, xs, m, k, n, 1, coords, v);
        let picked = elements(g, zs, base.insert(k, v));
        assert(picked[0] - xs[3].scalar() == ra(v) - a.1.scalar());
        assert(picked[1] - xs[5].scalar() == rb(v) - b.1.scalar());
    }
    lemma_sum_same(d, left, right);
    assert(elements(g, zs, base)[2] == xs[2].at(coords_in(e.inputs[2], xs[2].shape, base)));
}

/// What a dequantized einsum comes to before the last operator is the sum of the
/// products of the operands, each relative to its zero point, plus the bias.
pub proof fn lemma_centered(
    symbols: spec_fn(u64) -> int,
    e: Expr,
    facts: Seq<Fact>,
    xs: Seq<Value>,
    m: char,
    k: char,
    n: char,
    a: (Value, Value),
    b: (Value, Value),
    fixes: (Seq<AxisOp>, Seq<AxisOp>, Seq<AxisOp>),
)
    requires
        offsets_suit(symbols, e, facts, xs, m, k, n),
        is_shifted(xs[0], xs[3], a.0, a.1),
        is_shifted(xs[1], xs[5], b.0, b.1),
        axis_ops(term_axes(e, 0)) == Ok::<Seq<AxisOp>, Error>(fixes.0),
        axis_ops(term_axes(e, 1)) == Ok::<Seq<AxisOp>, Error>(fixes.1),
        axis_ops(term_axes(e, 2)) == Ok::<Seq<AxisOp>, Error>(fixes.2),
    ensures
        centered(e, xs, k, a, b, fixes) == accumulated(e, xs),
{
    let d = depth(e, xs, k);
    let dims = first_dims(e, xs, 3);
    let g = first_inputs(e, 3);
    let by = relatively(xs[3].scalar(), xs[5].scalar());
    let product = einsum_by(first_inputs(e, 2), seq![a.0, b.0], plainly());
    let sum_a = axis_values(fixes.0, a.0.summed(e.first_in(0, k)), fixes.0.len() as int);
    let sum_b = axis_values(fixes.1, b.0.summed(e.first_in(1, k)), fixes.1.len() as int);
    let bias = axis_values(fixes.2, xs[2], fixes.2.len() as int);
    let biased = added(product, bias);
    let h = |coords: Seq<int>|
        product.at(clip(coords, product.shape)) + bias.at(clip(coords, bias.shape));
    let left = |coords: Seq<int>|
        biased.at(coords) - a.1.scalar() * sum_b.at(clip(coords, sum_b.shape)) - b.1.scalar()
            * sum_a.at(clip(coords, sum_a.shape)) + d * (a.1.scalar() * b.1.scalar());
    let right = entry_by(g, xs.take(3), by);
    assert(shapes_of(seq![a.0, b.0]) =~= shapes_of(xs).take(2));
    assert(shapes_of(xs.take(3)) =~= shapes_of(xs).take(3));
    lemma_joint_shape(symbols, e, facts, xs, m, k, n, fixes.2);
    assert(product.shape == first_dims(e, xs, 2));
    assert(biased.shape == dims);
    assert forall|coords: Seq<int>| #[trigger] in_bounds(coords, dims) implies left(coords)
        == right(coords) by {
        lemma_tabulated(dims, h, coords);
        lemma_centered_at(symbols, e, facts, xs, m, k, n, a, b, fixes, coords);
    }
    lemma_tabulate_same(dims, left, right);
    assert(centered(e, xs, k, a, b, fixes) == tabulate(dims, left));
}

} // verus!
