//! That what is computed is as its fact says.

use vstd::prelude::*;

use crate::dim::TDim;
use crate::matmul::BasicMatMul;
use crate::meaning::lemma_extent_one;
use crate::ops::{EinSumView, Fact, SimpleOp, fact_shapes, ranks_suit};
use crate::preserve::{dim_value, obeys, shape_value};
use crate::product::{
    einsum, extent, lemma_row_extent_found, lemma_row_extent_one, output_dims, row_extent,
    shapes_of,
};
use crate::tensor::Value;

verus! {

/// Whether no symbol has the value one, so that an axis of dimension one is known
/// to be that.
pub open spec fn no_hidden_one(symbols: spec_fn(u64) -> int) -> bool {
    forall|s: u64| #[trigger] symbols(s) != 1
}

proof fn lemma_row_extent_value(
    symbols: spec_fn(u64) -> int,
    labels: Seq<char>,
    shape: Seq<TDim>,
    c: char,
)
    requires
        no_hidden_one(symbols),
        shape.len() == labels.len(),
    ensures
        row_extent(labels, shape_value(symbols, shape), c, 1) == dim_value(
            symbols,
            row_extent(labels, shape, c, TDim::Val(1)),
        ),
    decreases labels.len(),
{
    if labels.len() > 0 {
        lemma_row_extent_value(symbols, labels.drop_last(), shape.drop_last(), c);
        assert(shape_value(symbols, shape).drop_last() =~= shape_value(
            symbols,
            shape.drop_last(),
        ));
    }
}

pub proof fn lemma_extent_value(
    symbols: spec_fn(u64) -> int,
    labels: Seq<Seq<char>>,
    facts: Seq<Fact>,
    xs: Seq<Value>,
    c: char,
)
    requires
        no_hidden_one(symbols),
        labels.len() == facts.len(),
        xs.len() == facts.len(),
        forall|t: int|
            0 <= t < facts.len() ==> (#[trigger] facts[t]).shape.len() == labels[t].len() && obeys(
                symbols,
                facts[t],
                xs[t],
            ),
    ensures
        extent(labels, shapes_of(xs), c, 1) == dim_value(
            symbols,
            extent(labels, fact_shapes(facts), c, TDim::Val(1)),
        ),
    decreases labels.len(),
{
    if labels.len() > 0 {
        let (l, f, x) = (labels.drop_last(), facts.drop_last(), xs.drop_last());
        assert forall|t: int| 0 <= t < f.len() implies (#[trigger] f[t]).shape.len() == l[t].len()
            && obeys(symbols, f[t], x[t]) by {
            assert(facts[t].shape.len() == labels[t].len());
        }
        lemma_extent_value(symbols, l, f, x, c);
        assert(shapes_of(xs).drop_last() =~= shapes_of(x));
        assert(fact_shapes(facts).drop_last() =~= fact_shapes(f));
        let last = facts.len() - 1;
        assert(facts[last].shape.len() == labels[last].len());
        lemma_row_extent_value(symbols, labels.last(), facts.last().shape, c);
    }
}

/// An einsum gives a tensor of the shape that its fact says.
pub proof fn lemma_einsum_fact(
    symbols: spec_fn(u64) -> int,
    op: EinSumView,
    facts: Seq<Fact>,
    xs: Seq<Value>,
)
    requires
        no_hidden_one(symbols),
        ranks_suit(op.axes, facts),
        xs.len() == facts.len(),
        forall|t: int| 0 <= t < facts.len() ==> obeys(symbols, #[trigger] facts[t], xs[t]),
    ensures
        einsum(op.axes, xs).shape == shape_value(symbols, op.output_fact(facts).shape),
{
    let left = output_dims(op.axes, shapes_of(xs), 1);
    let right = shape_value(symbols, op.output_fact(facts).shape);
    assert forall|p: int| 0 <= p < left.len() implies #[trigger] left[p] == right[p] by {
        lemma_extent_value(symbols, op.axes.inputs, facts, xs, op.axes.outputs[0][p]);
    }
    assert(left =~= right);
}

/// A matrix product gives a tensor of the shape that its fact says.
pub proof fn lemma_product_fact(
    symbols: spec_fn(u64) -> int,
    op: BasicMatMul,
    facts: Seq<Fact>,
    a: Value,
    b: Value,
)
    requires
        no_hidden_one(symbols),
        SimpleOp::BasicMatMul(op).facts(facts) is Some,
        obeys(symbols, facts[0], a),
        obeys(symbols, facts[1], b),
    ensures
        op.product(a, b).shape == shape_value(
            symbols,
            (SimpleOp::BasicMatMul(op).facts(facts)->0)[0].shape,
        ),
{
    let out = (SimpleOp::BasicMatMul(op).facts(facts)->0)[0].shape;
    assert(op.product(a, b).shape =~= shape_value(symbols, out));
}

/// What the fact of an einsum says: it has the type that the einsum operates in, or that
/// it quantizes to; and an axis for each label of the output, of a dimension other than
/// one that an input has under the label, if there is one, and else of dimension one.
pub proof fn lemma_output_fact(op: EinSumView, facts: Seq<Fact>, q: int)
    requires
        op.axes.outputs.len() == 1,
        ranks_suit(op.axes, facts),
        0 <= q < op.axes.outputs[0].len(),
    ensures
        ({
            let e = op.axes;
            let fact = op.output_fact(facts);
            let c = e.outputs[0][q];
            &&& fact.datum_type == match op.q_params {
                Some(dt) => dt,
                None => op.operating_dt,
            }
            &&& fact.shape.len() == e.outputs[0].len()
            &&& fact.shape[q] == TDim::Val(1) ==> forall|s: int, i: int|
                0 <= s < e.inputs.len() && 0 <= i < e.inputs[s].len() && #[trigger] e.inputs[s][i]
                    == c ==> facts[s].shape[i] == TDim::Val(1)
            &&& fact.shape[q] != TDim::Val(1) ==> exists|s: int, i: int|
                0 <= s < e.inputs.len() && 0 <= i < e.inputs[s].len() && #[trigger] e.inputs[s][i]
                    == c && facts[s].shape[i] == fact.shape[q]
        }),
{
    let e = op.axes;
    let shapes = fact_shapes(facts);
    let c = e.outputs[0][q];
    let one = TDim::Val(1);
    assert forall|s: int| 0 <= s < e.inputs.len() implies (#[trigger] shapes[s]).len()
        == e.inputs[s].len() by {
        assert(facts[s].shape.len() == e.inputs[s].len());
    }
    if extent(e.inputs, shapes, c, one) == one {
        lemma_extent_one(e.inputs, shapes, c, one);
        assert forall|s: int, i: int|
            0 <= s < e.inputs.len() && 0 <= i < e.inputs[s].len() && #[trigger] e.inputs[s][i]
                == c implies facts[s].shape[i] == one by {
            assert(row_extent(e.inputs[s], shapes[s], c, one) == one);
            assert(shapes[s].len() == e.inputs[s].len());
            lemma_row_extent_one(e.inputs[s], shapes[s], c, one);
        }
    } else {
        let (s, i) = lemma_dim_found(e.inputs, shapes, c);
        assert(e.inputs[s][i] == c);
    }
}

/// The dimension other than one that a label has along some slots.
proof fn lemma_dim_found(labels: Seq<Seq<char>>, shapes: Seq<Seq<TDim>>, c: char) -> (at: (
    int,
    int,
))
    requires
        shapes.len() == labels.len(),
        forall|s: int| 0 <= s < labels.len() ==> (#[trigger] shapes[s]).len() == labels[s].len(),
        extent(labels, shapes, c, TDim::Val(1)) != TDim::Val(1),
    ensures
        0 <= at.0 < labels.len(),
        0 <= at.1 < labels[at.0].len(),
        labels[at.0][at.1] == c,
        shapes[at.0][at.1] == extent(labels, shapes, c, TDim::Val(1)),
    decreases labels.len(),
{
    let (a, b) = (labels.drop_last(), shapes.drop_last());
    assert forall|s: int| 0 <= s < a.len() implies (#[trigger] b[s]).len() == a[s].len() by {
        assert(b[s] == shapes[s]);
    }
    if extent(a, b, c, TDim::Val(1)) != TDim::Val(1) {
        lemma_dim_found(a, b, c)
    } else {
        let s = labels.len() - 1;
        assert(shapes[s].len() == labels[s].len());
        (s, lemma_row_extent_found(labels.last(), shapes.last(), c, TDim::Val(1)))
    }
}

/// When matrices can be multiplied, and what the product is: there are two operands of one
/// rank, two at least, and as many columns in the first as rows in the second; the product
/// has the type of the first.
pub proof fn lemma_product_given(op: BasicMatMul, facts: Seq<Fact>)
    ensures
        ({
            let (a, b) = (facts[0].shape, facts[1].shape);
            let n = a.len() as int;
            let suits = facts.len() >= 2 && b.len() == n && n >= 2 && a[if op.transpose_a {
                n - 2
            } else {
                n - 1
            }] == b[if op.transpose_b {
                n - 1
            } else {
                n - 2
            }];
            match SimpleOp::BasicMatMul(op).facts(facts) {
                Some(outputs) => {
                    let c = outputs[0].shape;
                    let rows = a[if op.transpose_a {
                        n - 1
                    } else {
                        n - 2
                    }];
                    let columns = b[if op.transpose_b {
                        n - 2
                    } else {
                        n - 1
                    }];
                    &&& suits
                    &&& outputs.len() == 1
                    &&& outputs[0].datum_type == facts[0].datum_type
                    &&& c.len() == n
                    &&& c[n - 2] == if op.transpose_c {
                        columns
                    } else {
                        rows
                    }
                    &&& c[n - 1] == if op.transpose_c {
                        rows
                    } else {
                        columns
                    }
                    &&& forall|p: int|
                        0 <= p < n - 2 ==> #[trigger] c[p] == if a[p] == TDim::Val(1) {
                            b[p]
                        } else {
                            a[p]
                        }
                },
                None => !suits,
            }
        }),
{
}

} // verus!
