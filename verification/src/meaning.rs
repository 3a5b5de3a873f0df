//! What an einsum of any number of inputs computes, quantized ones too; and that leading
//! axes of dimension one do not matter to it.

use vstd::prelude::*;

use crate::labels::Expr;
use crate::product::{
    Assignment, agree, bind, broadcasts, coords_in, einsum, einsum_entry, extent, front, grows,
    is_summed, lemma_bind, lemma_front_at, lemma_front_contains, lemma_row_extent_front,
    lemma_row_extent_one, lemma_row_extent_shape, lemma_row_extent_trivial, lemma_total_same,
    output_dims, row_extent, same_extents, same_leaf, shapes_of, suits, summed_extents, term, total,
    value_front, values_front, with_front,
};
use crate::tensor::{
    Value, is_shape, lemma_front_axis, lemma_front_unflat, lemma_unflat, lemma_volume_nonneg,
    tabulate, unflat, volume,
};

verus! {

/// What an einsum makes of elements: a term, of one element of each input; and an
/// element of the output, of the sum of the terms, and of the elements of the inputs
/// along the axes of the output.
pub struct Meaning {
    pub term: spec_fn(Seq<int>) -> int,
    pub finish: spec_fn(int, Seq<int>) -> int,
}

/// The product of some integers.
pub open spec fn product_of(factors: Seq<int>) -> int
    decreases factors.len(),
{
    if factors.len() == 0 {
        1
    } else {
        product_of(factors.drop_last()) * factors.last()
    }
}

/// What an einsum without quantization makes of elements: the sum of their products.
pub open spec fn plainly() -> Meaning {
    Meaning { term: |v: Seq<int>| product_of(v), finish: |total: int, v: Seq<int>| total }
}

/// The elements of the inputs that values of the labels pick.
pub open spec fn elements(e: Expr, xs: Seq<Value>, values: Assignment) -> Seq<int> {
    Seq::new(
        e.inputs.len(),
        |s: int| xs[s].at(coords_in(e.inputs[s], xs[s].shape, values)),
    )
}

/// The terms of an einsum.
pub open spec fn terms(e: Expr, xs: Seq<Value>, by: Meaning) -> spec_fn(Assignment) -> int {
    |values: Assignment| (by.term)(elements(e, xs, values))
}

/// An element of the output of an einsum.
pub open spec fn entry_by(e: Expr, xs: Seq<Value>, by: Meaning) -> spec_fn(Seq<int>) -> int {
    |coords: Seq<int>|
        (by.finish)(
            total(
                summed_extents(e, shapes_of(xs)),
                terms(e, xs, by),
                bind(e.outputs[0], coords),
                0,
            ),
            elements(e, xs, bind(e.outputs[0], coords)),
        )
}

/// What an einsum computes, by what it makes of elements.
pub open spec fn einsum_by(e: Expr, xs: Seq<Value>, by: Meaning) -> Value {
    tabulate(output_dims(e, shapes_of(xs), 1), entry_by(e, xs, by))
}

/// The einsum of two tensors.
pub proof fn lemma_of_two(e: Expr, xs: Seq<Value>)
    requires
        e.inputs.len() == 2,
    ensures
        einsum_by(e, xs, plainly()) == einsum(e, xs),
{
    let by = plainly();
    assert forall|values: Assignment| #[trigger] terms(e, xs, by)(values) == term(e, xs)(values) by {
        let v = elements(e, xs, values);
        reveal_with_fuel(product_of, 3);
        assert(v.drop_last().last() == v[0]);
        assert(v.drop_last().drop_last().len() == 0);
        assert(1 * v[0] == v[0]);
    }
    assert(terms(e, xs, by) =~= term(e, xs));
    assert(entry_by(e, xs, by) =~= einsum_entry(e, xs));
}

/// Whether the expression has two inputs at least, and one output, whose labels differ.
pub open spec fn is_sum(e: Expr) -> bool {
    &&& e.inputs.len() >= 2
    &&& e.outputs.len() == 1
    &&& e.outputs[0].no_duplicates()
}

/// Extents are the same where those along each slot are.
pub proof fn lemma_extent_rows<D>(
    l1: Seq<Seq<char>>,
    s1: Seq<Seq<D>>,
    l2: Seq<Seq<char>>,
    s2: Seq<Seq<D>>,
    c: char,
    one: D,
)
    requires
        l1.len() == l2.len(),
        s1.len() == l1.len(),
        s2.len() == l1.len(),
        forall|s: int|
            0 <= s < l1.len() ==> row_extent(#[trigger] l1[s], s1[s], c, one) == row_extent(
                l2[s],
                s2[s],
                c,
                one,
            ),
    ensures
        extent(l1, s1, c, one) == extent(l2, s2, c, one),
    decreases l1.len(),
{
    if l1.len() > 0 {
        let (a, b) = (l1.drop_last(), l2.drop_last());
        assert forall|s: int| 0 <= s < a.len() implies row_extent(
            #[trigger] a[s],
            s1.drop_last()[s],
            c,
            one,
        ) == row_extent(b[s], s2.drop_last()[s], c, one) by {
            assert(l1[s] == a[s]);
        }
        lemma_extent_rows(a, s1.drop_last(), b, s2.drop_last(), c, one);
        assert(l1[l1.len() - 1] == l1.last());
    }
}

/// An extent is one where those along all slots are.
pub proof fn lemma_extent_one<D>(labels: Seq<Seq<char>>, shapes: Seq<Seq<D>>, c: char, one: D)
    requires
        shapes.len() == labels.len(),
    ensures
        extent(labels, shapes, c, one) == one <==> forall|s: int|
            0 <= s < labels.len() ==> row_extent(#[trigger] labels[s], shapes[s], c, one) == one,
    decreases labels.len(),
{
    if labels.len() > 0 {
        let a = labels.drop_last();
        let b = shapes.drop_last();
        lemma_extent_one(a, b, c, one);
        assert(labels[labels.len() - 1] == labels.last());
        if extent(labels, shapes, c, one) == one {
            assert forall|s: int| 0 <= s < labels.len() implies row_extent(
                #[trigger] labels[s],
                shapes[s],
                c,
                one,
            ) == one by {
                if s < labels.len() - 1 {
                    assert(a[s] == labels[s]);
                }
            }
        }
        if forall|s: int|
            0 <= s < labels.len() ==> row_extent(#[trigger] labels[s], shapes[s], c, one) == one {
            assert forall|s: int| 0 <= s < a.len() implies row_extent(
                #[trigger] a[s],
                b[s],
                c,
                one,
            ) == one by {
                assert(a[s] == labels[s]);
            }
        }
    }
}

/// Extents of shapes are not negative.
pub proof fn lemma_extent_shape(labels: Seq<Seq<char>>, shapes: Seq<Seq<int>>, c: char)
    requires
        shapes.len() == labels.len(),
        forall|s: int|
            0 <= s < labels.len() ==> (#[trigger] shapes[s]).len() == labels[s].len() && is_shape(
                shapes[s],
            ),
    ensures
        extent(labels, shapes, c, 1) >= 0,
    decreases labels.len(),
{
    if labels.len() > 0 {
        let b = shapes.drop_last();
        assert forall|s: int| 0 <= s < b.len() implies (#[trigger] b[s]).len()
            == labels.drop_last()[s].len() && is_shape(b[s]) by {
            assert(b[s] == shapes[s]);
        }
        lemma_extent_shape(labels.drop_last(), b, c);
        assert(shapes[shapes.len() - 1] == shapes.last());
        lemma_row_extent_shape(labels.last(), shapes.last(), c);
    }
}

/// The output of an einsum has a shape.
pub proof fn lemma_sum_shape(e: Expr, xs: Seq<Value>)
    requires
        is_sum(e),
        suits(e, xs),
    ensures
        is_shape(output_dims(e, shapes_of(xs), 1)),
        volume(output_dims(e, shapes_of(xs), 1)) >= 0,
{
    let dims = output_dims(e, shapes_of(xs), 1);
    let shapes = shapes_of(xs);
    assert forall|s: int| 0 <= s < e.inputs.len() implies (#[trigger] shapes[s]).len()
        == e.inputs[s].len() && is_shape(shapes[s]) by {
        assert(xs[s].valid());
    }
    assert forall|p: int| 0 <= p < dims.len() implies 0 <= #[trigger] dims[p] by {
        lemma_extent_shape(e.inputs, shapes, e.outputs[0][p]);
    }
    lemma_volume_nonneg(dims);
}

proof fn lemma_front_extent(e: Expr, xs: Seq<Value>, c: char, i0: bool, i1: bool, o: bool, l: char)
    requires
        is_sum(e),
        suits(e, xs),
    ensures
        extent(with_front(e, c, i0, i1, o).inputs, shapes_of(values_front(xs, i0, i1)), l, 1)
            == extent(e.inputs, shapes_of(xs), l, 1),
{
    let f = with_front(e, c, i0, i1, o);
    let ys = values_front(xs, i0, i1);
    assert forall|s: int| 0 <= s < f.inputs.len() implies row_extent(
        #[trigger] f.inputs[s],
        shapes_of(ys)[s],
        l,
        1,
    ) == row_extent(e.inputs[s], shapes_of(xs)[s], l, 1) by {
        assert(xs[s].valid());
        lemma_row_extent_front(e.inputs[s], xs[s].shape, l, c, 1int);
    }
    lemma_extent_rows(f.inputs, shapes_of(ys), e.inputs, shapes_of(xs), l, 1int);
}

/// The labels that matter under new leading axes: all, but for the new one where it has
/// the extent one.
spec fn matter(e: Expr, xs: Seq<Value>, c: char) -> spec_fn(char) -> bool {
    |l: char| l != c || extent(e.inputs, shapes_of(xs), c, 1) != 1
}

/// The elements that values of the labels pick are the same under new leading axes.
proof fn lemma_front_elements(
    e: Expr,
    xs: Seq<Value>,
    c: char,
    i0: bool,
    i1: bool,
    o: bool,
    b1: Assignment,
    b2: Assignment,
)
    requires
        is_sum(e),
        suits(e, xs),
        agree(matter(e, xs, c), b1, b2),
    ensures
        elements(with_front(e, c, i0, i1, o), values_front(xs, i0, i1), b1) == elements(e, xs, b2),
{
    let f = with_front(e, c, i0, i1, o);
    let ys = values_front(xs, i0, i1);
    let live = matter(e, xs, c);
    let left = elements(f, ys, b1);
    let right = elements(e, xs, b2);
    lemma_extent_one(e.inputs, shapes_of(xs), c, 1int);
    assert forall|s: int| 0 <= s < left.len() implies #[trigger] left[s] == right[s] by {
        assert(xs[s].valid());
        assert forall|p: int| 0 <= p < e.inputs[s].len() && xs[s].shape[p] != 1 implies live(
            #[trigger] e.inputs[s][p],
        ) by {
            if e.inputs[s][p] == c && extent(e.inputs, shapes_of(xs), c, 1) == 1 {
                assert(row_extent(e.inputs[s], shapes_of(xs)[s], c, 1) == 1);
                lemma_row_extent_one(e.inputs[s], xs[s].shape, c, 1int);
            }
        }
        lemma_front_at(e.inputs[s], xs[s], c, grows(s, i0, i1), live, b1, b2);
    }
    assert(left =~= right);
}

/// The labels that are summed over are the same under new leading axes, but for the
/// new one where it does not matter.
proof fn lemma_front_sums(e: Expr, xs: Seq<Value>, c: char, i0: bool, i1: bool, o: bool)
    requires
        is_sum(e),
        suits(e, xs),
        o ==> !e.outputs[0].contains(c) && extent(e.inputs, shapes_of(xs), c, 1) == 1,
    ensures
        same_extents(
            summed_extents(with_front(e, c, i0, i1, o), shapes_of(values_front(xs, i0, i1))),
            summed_extents(e, shapes_of(xs)),
            matter(e, xs, c),
        ),
{
    let f = with_front(e, c, i0, i1, o);
    let ys = values_front(xs, i0, i1);
    let live = matter(e, xs, c);
    let s1 = summed_extents(f, shapes_of(ys));
    let s2 = summed_extents(e, shapes_of(xs));
    assert forall|l: char|
        match (#[trigger] s1(l), #[trigger] s2(l)) {
            (Some(m), Some(k)) => m == k,
            (Some(m), None) => m == 1 && !live(l),
            (None, Some(k)) => k == 1 && !live(l),
            (None, None) => true,
        } by {
        lemma_front_extent(e, xs, c, i0, i1, o, l);
        lemma_front_contains(e.outputs[0], o, c, l);
        if is_summed(e, l) {
            let s = choose|s: int| 0 <= s < e.inputs.len() && (#[trigger] e.inputs[s]).contains(l);
            lemma_front_contains(e.inputs[s], grows(s, i0, i1), c, l);
            assert(f.inputs[s].contains(l));
        }
        if is_summed(f, l) && !is_summed(e, l) {
            let s = choose|s: int| 0 <= s < f.inputs.len() && (#[trigger] f.inputs[s]).contains(l);
            lemma_front_contains(e.inputs[s], grows(s, i0, i1), c, l);
            assert(!e.outputs[0].contains(l));
            assert(!e.inputs[s].contains(l));
            assert(l == c);
            assert forall|t: int| 0 <= t < e.inputs.len() implies row_extent(
                #[trigger] e.inputs[t],
                shapes_of(xs)[t],
                c,
                1,
            ) == 1 by {
                assert(!e.inputs[t].contains(c));
                assert(xs[t].valid());
                lemma_row_extent_trivial(e.inputs[t], xs[t].shape, c, 1int);
            }
            lemma_extent_one(e.inputs, shapes_of(xs), c, 1int);
        }
    }
}

/// The values that coordinates give to the labels that matter are the same under a new
/// leading axis.
proof fn lemma_front_bind(
    out: Seq<char>,
    live: spec_fn(char) -> bool,
    c: char,
    o: bool,
    coords: Seq<int>,
)
    requires
        out.no_duplicates(),
        o ==> !out.contains(c) && !live(c),
        coords.len() == out.len(),
    ensures
        agree(
            live,
            bind(
                front(out, o, c),
                if o {
                    coords.insert(0, 0)
                } else {
                    coords
                },
            ),
            bind(out, coords),
        ),
{
    if o {
        let coords1 = coords.insert(0, 0);
        let long = out.insert(0, c);
        assert(long.no_duplicates()) by {
            assert forall|i: int, j: int|
                0 <= i < long.len() && 0 <= j < long.len() && i != j implies long[i] != long[j] by {
                if i > 0 && j > 0 {
                    assert(out[i - 1] != out[j - 1]);
                } else if i > 0 {
                    assert(out.contains(out[i - 1]));
                } else {
                    assert(out.contains(out[j - 1]));
                }
            }
        }
        let (a1, a2) = (bind(long, coords1), bind(out, coords));
        assert forall|l: char| live(l) implies #[trigger] a1[l] == a2[l] by {
            lemma_front_contains(out, true, c, l);
            if out.contains(l) {
                let p = choose|p: int| 0 <= p < out.len() && out[p] == l;
                lemma_bind(out, coords, p);
                assert(long[p + 1] == l);
                lemma_bind(long, coords1, p + 1);
            }
        }
    }
}

proof fn lemma_front_entry(
    e: Expr,
    xs: Seq<Value>,
    by: Meaning,
    c: char,
    i0: bool,
    i1: bool,
    o: bool,
    coords: Seq<int>,
)
    requires
        is_sum(e),
        suits(e, xs),
        o ==> !e.outputs[0].contains(c) && extent(e.inputs, shapes_of(xs), c, 1) == 1,
        coords.len() == e.outputs[0].len(),
    ensures
        entry_by(with_front(e, c, i0, i1, o), values_front(xs, i0, i1), by)(
            if o {
                coords.insert(0, 0)
            } else {
                coords
            },
        ) == entry_by(e, xs, by)(coords),
{
    let f = with_front(e, c, i0, i1, o);
    let ys = values_front(xs, i0, i1);
    let live = matter(e, xs, c);
    let s1 = summed_extents(f, shapes_of(ys));
    let s2 = summed_extents(e, shapes_of(xs));
    let coords1 = if o {
        coords.insert(0, 0)
    } else {
        coords
    };
    let a1 = bind(f.outputs[0], coords1);
    let a2 = bind(e.outputs[0], coords);
    lemma_front_sums(e, xs, c, i0, i1, o);
    assert(same_leaf(terms(f, ys, by), terms(e, xs, by), live)) by {
        assert forall|b1: Assignment, b2: Assignment| #[trigger] agree(live, b1, b2) implies terms(
            f,
            ys,
            by,
        )(b1) == terms(e, xs, by)(b2) by {
            lemma_front_elements(e, xs, c, i0, i1, o, b1, b2);
        }
    }
    lemma_front_bind(e.outputs[0], live, c, o, coords);
    lemma_front_elements(e, xs, c, i0, i1, o, a1, a2);
    lemma_total_same(s1, terms(f, ys, by), s2, terms(e, xs, by), live, a1, a2, 0);
}

/// Leading axes of dimension one, under a label that is new or that already has
/// that extent, do not change what an einsum computes.
pub proof fn lemma_front(
    e: Expr,
    xs: Seq<Value>,
    by: Meaning,
    c: char,
    i0: bool,
    i1: bool,
    o: bool,
)
    requires
        is_sum(e),
        suits(e, xs),
        o ==> !e.outputs[0].contains(c) && extent(e.inputs, shapes_of(xs), c, 1) == 1,
    ensures
        einsum_by(with_front(e, c, i0, i1, o), values_front(xs, i0, i1), by) == value_front(
            einsum_by(e, xs, by),
            o,
        ),
{
    let f = with_front(e, c, i0, i1, o);
    let ys = values_front(xs, i0, i1);
    let dims = output_dims(e, shapes_of(xs), 1);
    let dims1 = output_dims(f, shapes_of(ys), 1);
    lemma_sum_shape(e, xs);
    assert(dims1 =~= if o {
        dims.insert(0, 1)
    } else {
        dims
    }) by {
        assert forall|p: int| 0 <= p < dims1.len() implies #[trigger] dims1[p] == (if o {
            dims.insert(0, 1)
        } else {
            dims
        })[p] by {
            lemma_front_extent(e, xs, c, i0, i1, o, f.outputs[0][p]);
            if o && p > 0 {
                assert(f.outputs[0][p] == e.outputs[0][p - 1]);
            }
        }
    }
    let left = einsum_by(f, ys, by);
    let right = value_front(einsum_by(e, xs, by), o);
    lemma_front_axis(dims, dims);
    assert(left.data =~= right.data) by {
        assert forall|q: int| 0 <= q < left.data.len() implies #[trigger] left.data[q]
            == right.data[q] by {
            lemma_unflat(dims, q);
            lemma_front_entry(e, xs, by, c, i0, i1, o, unflat(dims, q));
            if o {
                lemma_front_unflat(dims, q);
            }
        }
    }
}

/// Leading axes of dimension one leave the inputs broadcasting.
pub proof fn lemma_front_broadcasts(e: Expr, xs: Seq<Value>, c: char, i0: bool, i1: bool, o: bool)
    requires
        is_sum(e),
        suits(e, xs),
        broadcasts(e, shapes_of(xs)),
    ensures
        suits(with_front(e, c, i0, i1, o), values_front(xs, i0, i1)),
        broadcasts(with_front(e, c, i0, i1, o), shapes_of(values_front(xs, i0, i1))),
{
    let f = with_front(e, c, i0, i1, o);
    let ys = values_front(xs, i0, i1);
    let shapes = shapes_of(xs);
    assert forall|s: int| 0 <= s < ys.len() implies (#[trigger] ys[s]).valid()
        && ys[s].shape.len() == f.inputs[s].len() by {
        assert(xs[s].valid());
        lemma_front_axis(xs[s].shape, xs[s].shape);
        assert(is_shape(xs[s].shape.insert(0, 1))) by {
            assert forall|p: int| 0 <= p < xs[s].shape.len() + 1 implies 0
                <= #[trigger] xs[s].shape.insert(0, 1)[p] by {
                if p > 0 {
                    assert(0 <= xs[s].shape[p - 1]);
                }
            }
        }
    }
    assert forall|s: int, p: int|
        0 <= s < f.inputs.len() && 0 <= p < f.inputs[s].len() implies shapes_of(ys)[s][p] == 1
        || shapes_of(ys)[s][p] == extent(f.inputs, shapes_of(ys), #[trigger] f.inputs[s][p], 1) by {
        let c2 = f.inputs[s][p];
        assert(xs[s].valid());
        lemma_front_extent(e, xs, c, i0, i1, o, c2);
        if grows(s, i0, i1) && p > 0 {
            assert(c2 == e.inputs[s][p - 1]);
            assert(shapes_of(ys)[s][p] == shapes[s][p - 1]);
        } else if !grows(s, i0, i1) {
            assert(c2 == e.inputs[s][p]);
        }
    }
}

} // verus!
