//! What axis operators make of tensors.

use vstd::prelude::*;

use crate::axis_ops::{axis_ops, changed, dims_for, lemma_axis_ops};
use crate::error::Error;
use crate::labels::{Expr, lemma_positions, positions};
use crate::ops::AxisOp;
use crate::product::{Assignment, bind, coords_in, lemma_bind};
use crate::progress::lemma_at_most_once;
use crate::tensor::{
    Value, flat, in_bounds, is_shape, lemma_flat, lemma_volume_nonneg, tabulate, volume,
};

verus! {

/// An axis of dimension one, wherever it is, changes neither the volume nor the
/// position of any element.
pub proof fn lemma_unit_axis(shape: Seq<int>, coords: Seq<int>, i: int)
    requires
        coords.len() == shape.len(),
        0 <= i <= shape.len(),
    ensures
        volume(shape.insert(i, 1)) == volume(shape),
        flat(shape.insert(i, 1), coords.insert(i, 0)) == flat(shape, coords),
    decreases shape.len(),
{
    let s = shape.insert(i, 1);
    let c = coords.insert(i, 0);
    if i == shape.len() {
        assert(s.drop_last() =~= shape);
        assert(c.drop_last() =~= coords);
        assert(s.last() == 1 && c.last() == 0);
        assert(volume(shape) * 1 == volume(shape));
        assert(flat(shape, coords) * 1 == flat(shape, coords));
    } else {
        assert(s.drop_last() =~= shape.drop_last().insert(i, 1));
        assert(c.drop_last() =~= coords.drop_last().insert(i, 0));
        assert(s.last() == shape.last());
        assert(c.last() == coords.last());
        lemma_unit_axis(shape.drop_last(), coords.drop_last(), i);
    }
}

/// The elements of a tensor are those that a function gives.
pub proof fn lemma_tabulated(shape: Seq<int>, f: spec_fn(Seq<int>) -> int, coords: Seq<int>)
    requires
        is_shape(shape),
        in_bounds(coords, shape),
    ensures
        tabulate(shape, f).valid(),
        tabulate(shape, f).at(coords) == f(coords),
{
    lemma_volume_nonneg(shape);
    lemma_flat(shape, coords);
}

/// What an axis operator makes of a tensor.
pub open spec fn axis_value(op: AxisOp, x: Value) -> Value {
    match op {
        AxisOp::Add(i) => x.with_axis(i as int),
        AxisOp::Rm(i) => x.without_axis(i as int),
        AxisOp::Move(i, j) => x.with_moved(i as int, j as int),
    }
}

/// What the first axis operators make of a tensor, one after the other.
pub open spec fn axis_values(ops: Seq<AxisOp>, x: Value, n: int) -> Value
    decreases n,
{
    if n <= 0 {
        x
    } else {
        axis_value(ops[n - 1], axis_values(ops, x, n - 1))
    }
}

/// The labels of axes: none for an axis of dimension one that has none.
pub type Tags = Seq<Option<char>>;

/// The coordinates that values of the labels give.
pub open spec fn tag_coords(tags: Tags, shape: Seq<int>, values: Assignment) -> Seq<int> {
    Seq::new(
        tags.len(),
        |p: int|
            match tags[p] {
                Some(c) => if shape[p] == 1 {
                    0
                } else {
                    values[c]
                },
                None => 0,
            },
    )
}

/// Whether a tensor has the axes, those without a label of dimension one, and values
/// of the labels are within it.
pub open spec fn fits(tags: Tags, x: Value, values: Assignment) -> bool {
    &&& x.valid()
    &&& x.shape.len() == tags.len()
    &&& forall|p: int|
        0 <= p < tags.len() ==> match #[trigger] tags[p] {
            Some(c) => x.shape[p] == 1 || 0 <= values[c] < x.shape[p],
            None => x.shape[p] == 1,
        }
}

/// An axis operator leaves the elements under the labels.
proof fn lemma_axis_value(op: AxisOp, tags: Tags, x: Value, values: Assignment)
    requires
        fits(tags, x, values),
        op.change(tags, None) is Some,
    ensures
        fits(op.change(tags, None)->0, axis_value(op, x), values),
        op.change(x.shape, 1) == Some(axis_value(op, x).shape),
        axis_value(op, x).at(
            tag_coords(op.change(tags, None)->0, axis_value(op, x).shape, values),
        ) == x.at(tag_coords(tags, x.shape, values)),
{
    let after = op.change(tags, None)->0;
    let y = axis_value(op, x);
    let before = tag_coords(tags, x.shape, values);
    let now = tag_coords(after, y.shape, values);
    match op {
        AxisOp::Add(i) => {
            lemma_unit_axis(x.shape, before, i as int);
            assert(is_shape(y.shape)) by {
                assert forall|p: int| 0 <= p < y.shape.len() implies 0 <= #[trigger] y.shape[p] by {
                    if p < i {
                        assert(0 <= x.shape[p]);
                    } else if p > i {
                        assert(0 <= x.shape[p - 1]);
                    }
                }
            }
            assert forall|p: int| 0 <= p < after.len() implies match #[trigger] after[p] {
                Some(c) => y.shape[p] == 1 || 0 <= values[c] < y.shape[p],
                None => y.shape[p] == 1,
            } by {
                if p < i {
                    assert(after[p] == tags[p]);
                } else if p > i {
                    assert(after[p] == tags[p - 1]);
                }
            }
            assert(now =~= before.insert(i as int, 0));
        },
        AxisOp::Rm(i) => {
            let short = before.remove(i as int);
            assert(tags[i as int] is None);
            assert(x.shape[i as int] == 1);
            lemma_unit_axis(y.shape, short, i as int);
            assert(y.shape.insert(i as int, 1) =~= x.shape);
            assert(short.insert(i as int, 0) =~= before);
            assert(is_shape(y.shape)) by {
                assert forall|p: int| 0 <= p < y.shape.len() implies 0 <= #[trigger] y.shape[p] by {
                    if p < i {
                        assert(0 <= x.shape[p]);
                    } else {
                        assert(0 <= x.shape[p + 1]);
                    }
                }
            }
            assert forall|p: int| 0 <= p < after.len() implies match #[trigger] after[p] {
                Some(c) => y.shape[p] == 1 || 0 <= values[c] < y.shape[p],
                None => y.shape[p] == 1,
            } by {
                if p < i {
                    assert(after[p] == tags[p]);
                } else {
                    assert(after[p] == tags[p + 1]);
                }
            }
            assert(now =~= short);
        },
        AxisOp::Move(from, to) => {
            lemma_move_value(tags, x, values, from as int, to as int);
        },
    }
}

proof fn lemma_move_value(tags: Tags, x: Value, values: Assignment, from: int, to: int)
    requires
        fits(tags, x, values),
        0 <= from < tags.len(),
        0 <= to < tags.len(),
    ensures
        fits(
            tags.remove(from).insert(to, tags[from]),
            x.with_moved(from, to),
            values,
        ),
        x.with_moved(from, to).at(
            tag_coords(
                tags.remove(from).insert(to, tags[from]),
                x.with_moved(from, to).shape,
                values,
            ),
        ) == x.at(tag_coords(tags, x.shape, values)),
{
    let after = tags.remove(from).insert(to, tags[from]);
    let y = x.with_moved(from, to);
    let before = tag_coords(tags, x.shape, values);
    let now = tag_coords(after, y.shape, values);
    let old_at = |p: int|
        if p == to {
            from
        } else {
            let q = if p < to {
                p
            } else {
                p - 1
            };
            if q < from {
                q
            } else {
                q + 1
            }
        };
    assert forall|p: int| 0 <= p < after.len() implies 0 <= old_at(p) < tags.len()
        && #[trigger] after[p] == tags[old_at(p)] && y.shape[p] == x.shape[old_at(p)] by {}
    assert(is_shape(y.shape)) by {
        assert forall|p: int| 0 <= p < y.shape.len() implies 0 <= #[trigger] y.shape[p] by {
            assert(after[p] == tags[old_at(p)]);
            assert(0 <= x.shape[old_at(p)]);
        }
    }
    assert forall|p: int| 0 <= p < after.len() implies match #[trigger] after[p] {
        Some(c) => y.shape[p] == 1 || 0 <= values[c] < y.shape[p],
        None => y.shape[p] == 1,
    } by {
        assert(after[p] == tags[old_at(p)]);
    }
    assert(in_bounds(now, y.shape)) by {
        assert forall|p: int| 0 <= p < now.len() implies 0 <= #[trigger] now[p] < y.shape[p] by {
            assert(after[p] == tags[old_at(p)]);
        }
    }
    let f = |coords: Seq<int>| x.at(coords.remove(to).insert(from, coords[to]));
    lemma_tabulated(y.shape, f, now);
    let back = now.remove(to).insert(from, now[to]);
    assert(back =~= before) by {
        assert forall|q: int| 0 <= q < before.len() implies #[trigger] back[q] == before[q] by {
            let p = if q == from {
                to
            } else {
                let r = if q < from {
                    q
                } else {
                    q - 1
                };
                if r < to {
                    r
                } else {
                    r + 1
                }
            };
            assert(old_at(p) == q);
            assert(after[p] == tags[old_at(p)]);
            assert(back[q] == now[p]);
        }
    }
}

/// Axis operators leave the elements under the labels.
pub proof fn lemma_axis_values(
    ops: Seq<AxisOp>,
    n: int,
    tags: Tags,
    x: Value,
    values: Assignment,
)
    requires
        0 <= n <= ops.len(),
        fits(tags, x, values),
        changed(ops.take(n), tags, None) is Some,
    ensures
        fits(changed(ops.take(n), tags, None)->0, axis_values(ops, x, n), values),
        changed(ops.take(n), x.shape, 1) == Some(axis_values(ops, x, n).shape),
        axis_values(ops, x, n).at(
            tag_coords(
                changed(ops.take(n), tags, None)->0,
                axis_values(ops, x, n).shape,
                values,
            ),
        ) == x.at(tag_coords(tags, x.shape, values)),
    decreases n,
{
    if n > 0 {
        assert(ops.take(n).drop_last() =~= ops.take(n - 1));
        assert(ops.take(n).last() == ops[n - 1]);
        lemma_axis_values(ops, n - 1, tags, x, values);
        lemma_axis_value(
            ops[n - 1],
            changed(ops.take(n - 1), tags, None)->0,
            axis_values(ops, x, n - 1),
            values,
        );
    } else {
        assert(ops.take(0) =~= Seq::empty());
    }
}

/// Coordinates within a shape that stretches along axes of dimension one.
pub open spec fn clip(coords: Seq<int>, shape: Seq<int>) -> Seq<int> {
    Seq::new(
        shape.len(),
        |p: int|
            if shape[p] == 1 {
                0
            } else {
                coords[p]
            },
    )
}

/// The dimension that a label has in a slot; one, if it does not have it.
pub open spec fn dim_of(labels: Seq<char>, shape: Seq<int>, c: char) -> int {
    if labels.contains(c) {
        shape[positions(labels, c)[0]]
    } else {
        1
    }
}

/// The axis operators of a mapping of one input and one output bring a tensor under
/// the labels of the output: its elements there are those under the labels that it
/// had.
pub proof fn lemma_under_output(e: Expr, ops: Seq<AxisOp>, x: Value, coords: Seq<int>)
    requires
        axis_ops(e) == Ok::<Seq<AxisOp>, Error>(ops),
        e.inputs[0].len() <= usize::MAX,
        e.outputs[0].len() <= usize::MAX,
        x.valid(),
        x.shape.len() == e.inputs[0].len(),
        coords.len() == e.outputs[0].len(),
        forall|p: int|
            0 <= p < e.inputs[0].len() && !e.outputs[0].contains(#[trigger] e.inputs[0][p])
                ==> x.shape[p] == 1,
        forall|p: int|
            #![trigger e.outputs[0][p]]
            0 <= p < coords.len() ==> dim_of(e.inputs[0], x.shape, e.outputs[0][p]) == 1 || 0
                <= coords[p] < dim_of(e.inputs[0], x.shape, e.outputs[0][p]),
    ensures
        axis_values(ops, x, ops.len() as int).valid(),
        axis_values(ops, x, ops.len() as int).shape == Seq::new(
            e.outputs[0].len(),
            |p: int| dim_of(e.inputs[0], x.shape, e.outputs[0][p]),
        ),
        axis_values(ops, x, ops.len() as int).at(
            clip(coords, axis_values(ops, x, ops.len() as int).shape),
        ) == x.at(coords_in(e.inputs[0], x.shape, bind(e.outputs[0], coords))),
{
    let (from, to) = (e.inputs[0], e.outputs[0]);
    let n = ops.len() as int;
    let values = bind(to, coords);
    let some = |c: char| Some(c);
    let dims = |c: char| dim_of(from, x.shape, c);
    let tags = dims_for(from, to, some, None);
    let after = dims_for(to, from, some, None);
    let y = axis_values(ops, x, n);
    assert(ops.take(n) =~= ops);
    lemma_axis_ops(e, ops, some, None);
    lemma_axis_ops(e, ops, dims, 1);
    assert forall|p: int| 0 <= p < from.len() implies dim_of(from, x.shape, #[trigger] from[p])
        == x.shape[p] by {
        lemma_at_most_once(from, from[p]);
        lemma_positions(from, from[p]);
        assert(positions(from, from[p]).contains(p));
    }
    assert(dims_for(from, to, dims, 1) =~= x.shape);
    assert(fits(tags, x, values)) by {
        assert forall|p: int| 0 <= p < tags.len() implies match #[trigger] tags[p] {
            Some(c) => x.shape[p] == 1 || 0 <= values[c] < x.shape[p],
            None => x.shape[p] == 1,
        } by {
            let c = from[p];
            if to.contains(c) {
                let q = choose|q: int| 0 <= q < to.len() && to[q] == c;
                lemma_bind(to, coords, q);
                assert(dim_of(from, x.shape, to[q]) == x.shape[p]);
            }
        }
    }
    lemma_axis_values(ops, n, tags, x, values);
    assert(y.shape == dims_for(to, from, dims, 1));
    assert(y.shape =~= Seq::new(to.len(), |p: int| dim_of(from, x.shape, to[p])));
    assert(tag_coords(tags, x.shape, values) =~= coords_in(from, x.shape, values));
    let there = tag_coords(after, y.shape, values);
    assert(there =~= clip(coords, y.shape)) by {
        assert forall|p: int| 0 <= p < there.len() implies #[trigger] there[p] == clip(
            coords,
            y.shape,
        )[p] by {
            lemma_bind(to, coords, p);
        }
    }
}

/// The shape that axis operators make of that of a tensor.
pub proof fn lemma_axis_shape(ops: Seq<AxisOp>, n: int, x: Value)
    requires
        0 <= n <= ops.len(),
        changed(ops.take(n), x.shape, 1) is Some,
    ensures
        changed(ops.take(n), x.shape, 1) == Some(axis_values(ops, x, n).shape),
    decreases n,
{
    if n > 0 {
        assert(ops.take(n).drop_last() =~= ops.take(n - 1));
        assert(ops.take(n).last() == ops[n - 1]);
        lemma_axis_shape(ops, n - 1, x);
    } else {
        assert(ops.take(0) =~= Seq::empty());
    }
}

/// The shape of a tensor under the labels of the output.
pub proof fn lemma_shape_under_output(e: Expr, ops: Seq<AxisOp>, x: Value)
    requires
        axis_ops(e) == Ok::<Seq<AxisOp>, Error>(ops),
        e.inputs[0].len() <= usize::MAX,
        e.outputs[0].len() <= usize::MAX,
        x.shape.len() == e.inputs[0].len(),
        forall|p: int|
            0 <= p < e.inputs[0].len() && !e.outputs[0].contains(#[trigger] e.inputs[0][p])
                ==> x.shape[p] == 1,
    ensures
        axis_values(ops, x, ops.len() as int).shape == Seq::new(
            e.outputs[0].len(),
            |p: int| dim_of(e.inputs[0], x.shape, e.outputs[0][p]),
        ),
{
    let (from, to) = (e.inputs[0], e.outputs[0]);
    let dims = |c: char| dim_of(from, x.shape, c);
    lemma_axis_ops(e, ops, dims, 1);
    assert forall|p: int| 0 <= p < from.len() implies dim_of(from, x.shape, #[trigger] from[p])
        == x.shape[p] by {
        lemma_at_most_once(from, from[p]);
        lemma_positions(from, from[p]);
        assert(positions(from, from[p]).contains(p));
    }
    assert(dims_for(from, to, dims, 1) =~= x.shape);
    assert(ops.take(ops.len() as int) =~= ops);
    lemma_axis_shape(ops, ops.len() as int, x);
    assert(dims_for(to, from, dims, 1) =~= Seq::new(
        to.len(),
        |p: int| dim_of(from, x.shape, to[p]),
    ));
}

} // verus!
