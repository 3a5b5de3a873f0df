//! What an einsum computes, and how it reacts to changes of its expression.

use vstd::prelude::*;

use crate::labels::Expr;
use crate::tensor::{
    Value, in_bounds, is_shape, lemma_front_axis, lemma_shape_prefix, lemma_tabulate_same,
    lemma_volume_nonneg, tabulate,
};

verus! {

/// The first dimension other than one that a label has along one slot; one, if
/// there is none.
pub open spec fn row_extent<D>(labels: Seq<char>, shape: Seq<D>, c: char, one: D) -> D
    decreases labels.len(),
{
    if labels.len() == 0 {
        one
    } else {
        let before = row_extent(labels.drop_last(), shape.drop_last(), c, one);
        if before != one {
            before
        } else if labels.last() == c {
            shape.last()
        } else {
            one
        }
    }
}

/// The first dimension other than one that a label has along the slots; one, if
/// there is none. Dimensions of one stretch to the others.
pub open spec fn extent<D>(labels: Seq<Seq<char>>, shapes: Seq<Seq<D>>, c: char, one: D) -> D
    decreases labels.len(),
{
    if labels.len() == 0 {
        one
    } else {
        let before = extent(labels.drop_last(), shapes.drop_last(), c, one);
        if before != one {
            before
        } else {
            row_extent(labels.last(), shapes.last(), c, one)
        }
    }
}

/// The shape of the output of an einsum whose inputs have the given shapes.
pub open spec fn output_dims<D>(e: Expr, shapes: Seq<Seq<D>>, one: D) -> Seq<D> {
    Seq::new(e.outputs[0].len(), |p: int| extent(e.inputs, shapes, e.outputs[0][p], one))
}

/// The sum of `f` over the first `n` integers.
pub open spec fn sum(n: int, f: spec_fn(int) -> int) -> int
    decreases n,
{
    if n <= 0 {
        0
    } else {
        sum(n - 1, f) + f(n - 1)
    }
}

/// A value for each label.
pub type Assignment = Map<char, int>;

/// The sum of `leaf` over all values of the labels that have an extent in
/// `extents`, label by label from the character `code` on.
pub open spec fn total(
    extents: spec_fn(char) -> Option<int>,
    leaf: spec_fn(Assignment) -> int,
    values: Assignment,
    code: int,
) -> int
    decreases 2 * (0x110000 - code), 0int,
{
    if code < 0 || code >= 0x110000 {
        leaf(values)
    } else if (code as char) as int == code && extents(code as char) is Some {
        total_below(extents, leaf, values, code, extents(code as char)->0)
    } else {
        total(extents, leaf, values, code + 1)
    }
}

/// The part of that sum in which the label `code` has a value below `n`.
pub open spec fn total_below(
    extents: spec_fn(char) -> Option<int>,
    leaf: spec_fn(Assignment) -> int,
    values: Assignment,
    code: int,
    n: int,
) -> int
    decreases 2 * (0x110000 - code) - 1, n,
{
    if n <= 0 || code < 0 || code >= 0x110000 {
        0
    } else {
        total_below(extents, leaf, values, code, n - 1) + total(
            extents,
            leaf,
            values.insert(code as char, n - 1),
            code + 1,
        )
    }
}

/// The shapes of some tensors.
pub open spec fn shapes_of(xs: Seq<Value>) -> Seq<Seq<int>> {
    Seq::new(xs.len(), |i: int| xs[i].shape)
}

/// Whether an einsum sums over a label: an input has it, the output does not.
pub open spec fn is_summed(e: Expr, c: char) -> bool {
    &&& (exists|s: int| 0 <= s < e.inputs.len() && (#[trigger] e.inputs[s]).contains(c))
    &&& !e.outputs[0].contains(c)
}

/// The extents of the labels that an einsum sums over.
pub open spec fn summed_extents(e: Expr, shapes: Seq<Seq<int>>) -> spec_fn(char) -> Option<int> {
    |c: char|
        if is_summed(e, c) {
            Some(extent(e.inputs, shapes, c, 1))
        } else {
            None
        }
}

/// The coordinates in a slot that values of the labels give; an axis of
/// dimension one has but the coordinate zero.
pub open spec fn coords_in(labels: Seq<char>, shape: Seq<int>, values: Assignment) -> Seq<int> {
    Seq::new(
        labels.len(),
        |p: int|
            if shape[p] == 1 {
                0
            } else {
                values[labels[p]]
            },
    )
}

/// The product of one element of each of the two inputs.
pub open spec fn term(e: Expr, xs: Seq<Value>) -> spec_fn(Assignment) -> int {
    |values: Assignment|
        xs[0].at(coords_in(e.inputs[0], xs[0].shape, values)) * xs[1].at(
            coords_in(e.inputs[1], xs[1].shape, values),
        )
}

/// The values that coordinates in a slot give to its labels; zero for the
/// labels that it does not have.
pub open spec fn bind(labels: Seq<char>, coords: Seq<int>) -> Assignment {
    Map::new(
        |c: char| true,
        |c: char|
            if labels.contains(c) {
                coords[choose|p: int| 0 <= p < labels.len() && labels[p] == c]
            } else {
                0
            },
    )
}

/// An element of the output of an einsum.
pub open spec fn einsum_entry(e: Expr, xs: Seq<Value>) -> spec_fn(Seq<int>) -> int {
    |coords: Seq<int>|
        total(
            summed_extents(e, shapes_of(xs)),
            term(e, xs),
            bind(e.outputs[0], coords),
            0,
        )
}

/// What an einsum of two inputs computes: each element of the output is the sum
/// of the products of the elements of the inputs over all values of the labels
/// that the output does not have.
pub open spec fn einsum(e: Expr, xs: Seq<Value>) -> Value {
    tabulate(output_dims(e, shapes_of(xs), 1), einsum_entry(e, xs))
}

/// Whether the expression has two inputs and one output, whose labels differ.
pub open spec fn is_binary(e: Expr) -> bool {
    &&& e.inputs.len() == 2
    &&& e.outputs.len() == 1
    &&& e.outputs[0].no_duplicates()
}

/// Whether there is one tensor for each input, of its rank.
pub open spec fn suits(e: Expr, xs: Seq<Value>) -> bool {
    &&& xs.len() == e.inputs.len()
    &&& forall|s: int|
        0 <= s < xs.len() ==> (#[trigger] xs[s]).valid() && xs[s].shape.len()
            == e.inputs[s].len()
}

/// Whether two assignments give the same values to the labels that matter.
pub open spec fn agree(live: spec_fn(char) -> bool, a: Assignment, b: Assignment) -> bool {
    forall|c: char| live(c) ==> #[trigger] a[c] == b[c]
}

pub proof fn lemma_sum_same(n: int, f: spec_fn(int) -> int, g: spec_fn(int) -> int)
    requires
        forall|v: int| 0 <= v < n ==> #[trigger] f(v) == g(v),
    ensures
        sum(n, f) == sum(n, g),
    decreases n,
{
    if n > 0 {
        lemma_sum_same(n - 1, f, g);
        assert(f(n - 1) == g(n - 1));
    }
}

/// Whether two families of extents are the same, but for labels of extent one
/// that do not matter.
pub open spec fn same_extents(
    s1: spec_fn(char) -> Option<int>,
    s2: spec_fn(char) -> Option<int>,
    live: spec_fn(char) -> bool,
) -> bool {
    forall|c: char|
        match (#[trigger] s1(c), #[trigger] s2(c)) {
            (Some(m), Some(n)) => m == n,
            (Some(m), None) => m == 1 && !live(c),
            (None, Some(n)) => n == 1 && !live(c),
            (None, None) => true,
        }
}

/// Whether two functions agree on assignments that do.
pub open spec fn same_leaf(
    f1: spec_fn(Assignment) -> int,
    f2: spec_fn(Assignment) -> int,
    live: spec_fn(char) -> bool,
) -> bool {
    forall|b1: Assignment, b2: Assignment| #[trigger] agree(live, b1, b2) ==> f1(b1) == f2(b2)
}

proof fn lemma_agree_insert(
    live: spec_fn(char) -> bool,
    a: Assignment,
    b: Assignment,
    c: char,
    v: int,
)
    requires
        agree(live, a, b),
    ensures
        agree(live, a.insert(c, v), b.insert(c, v)),
        !live(c) ==> agree(live, a.insert(c, v), b),
        !live(c) ==> agree(live, a, b.insert(c, v)),
{
    assert forall|d: char| live(d) implies #[trigger] a.insert(c, v)[d] == b.insert(c, v)[d] by {
        assert(a[d] == b[d]);
    }
    if !live(c) {
        assert forall|d: char| live(d) implies #[trigger] a.insert(c, v)[d] == b[d] by {
            assert(a[d] == b[d]);
        }
        assert forall|d: char| live(d) implies #[trigger] a[d] == b.insert(c, v)[d] by {
            assert(a[d] == b[d]);
        }
    }
}

/// Two sums are the same if their terms are, and if their labels have the same
/// extents, but for labels of extent one that do not matter to the terms.
pub proof fn lemma_total_same(
    s1: spec_fn(char) -> Option<int>,
    f1: spec_fn(Assignment) -> int,
    s2: spec_fn(char) -> Option<int>,
    f2: spec_fn(Assignment) -> int,
    live: spec_fn(char) -> bool,
    a1: Assignment,
    a2: Assignment,
    code: int,
)
    requires
        same_extents(s1, s2, live),
        same_leaf(f1, f2, live),
        agree(live, a1, a2),
    ensures
        total(s1, f1, a1, code) == total(s2, f2, a2, code),
    decreases 2 * (0x110000 - code), 0int,
{
    if code < 0 || code >= 0x110000 {
    } else if (code as char) as int != code {
        lemma_total_same(s1, f1, s2, f2, live, a1, a2, code + 1);
    } else {
        let c = code as char;
        match (s1(c), s2(c)) {
            (Some(m), Some(n)) => {
                lemma_total_below_same(s1, f1, s2, f2, live, a1, a2, code, n);
            },
            (Some(m), None) => {
                lemma_agree_insert(live, a1, a2, c, 0);
                lemma_total_same(s1, f1, s2, f2, live, a1.insert(c, 0), a2, code + 1);
                assert(total(s1, f1, a1, code) == total_below(s1, f1, a1, code, 1));
                assert(total_below(s1, f1, a1, code, 0) == 0);
                assert(total_below(s1, f1, a1, code, 1) == total(
                    s1,
                    f1,
                    a1.insert(c, 0),
                    code + 1,
                ));
            },
            (None, Some(n)) => {
                lemma_agree_insert(live, a1, a2, c, 0);
                lemma_total_same(s1, f1, s2, f2, live, a1, a2.insert(c, 0), code + 1);
                assert(total(s2, f2, a2, code) == total_below(s2, f2, a2, code, 1));
                assert(total_below(s2, f2, a2, code, 0) == 0);
                assert(total_below(s2, f2, a2, code, 1) == total(
                    s2,
                    f2,
                    a2.insert(c, 0),
                    code + 1,
                ));
            },
            (None, None) => {
                lemma_total_same(s1, f1, s2, f2, live, a1, a2, code + 1);
            },
        }
    }
}

proof fn lemma_total_below_same(
    s1: spec_fn(char) -> Option<int>,
    f1: spec_fn(Assignment) -> int,
    s2: spec_fn(char) -> Option<int>,
    f2: spec_fn(Assignment) -> int,
    live: spec_fn(char) -> bool,
    a1: Assignment,
    a2: Assignment,
    code: int,
    n: int,
)
    requires
        same_extents(s1, s2, live),
        same_leaf(f1, f2, live),
        agree(live, a1, a2),
        0 <= code < 0x110000,
    ensures
        total_below(s1, f1, a1, code, n) == total_below(s2, f2, a2, code, n),
    decreases 2 * (0x110000 - code) - 1, n,
{
    if n > 0 {
        let c = code as char;
        lemma_total_below_same(s1, f1, s2, f2, live, a1, a2, code, n - 1);
        lemma_agree_insert(live, a1, a2, c, n - 1);
        lemma_total_same(
            s1,
            f1,
            s2,
            f2,
            live,
            a1.insert(c, n - 1),
            a2.insert(c, n - 1),
            code + 1,
        );
    }
}

/// A sum over a single label is the sum over its values.
pub proof fn lemma_total_single(
    extents: spec_fn(char) -> Option<int>,
    leaf: spec_fn(Assignment) -> int,
    values: Assignment,
    k: char,
    n: int,
    code: int,
)
    requires
        extents(k) == Some(n),
        forall|c: char| c != k ==> #[trigger] extents(c) is None,
        0 <= code,
    ensures
        code <= k as int ==> total(extents, leaf, values, code) == sum(
            n,
            |v: int| leaf(values.insert(k, v)),
        ),
        code > k as int ==> total(extents, leaf, values, code) == leaf(values),
    decreases 2 * (0x110000 - code), 0int,
{
    if code < 0x110000 {
        if (code as char) as int != code || code as char != k {
            lemma_total_single(extents, leaf, values, k, n, code + 1);
            assert(code != k as int);
        } else {
            lemma_total_below_single(extents, leaf, values, k, n, code, n);
        }
    }
}

proof fn lemma_total_below_single(
    extents: spec_fn(char) -> Option<int>,
    leaf: spec_fn(Assignment) -> int,
    values: Assignment,
    k: char,
    n: int,
    code: int,
    m: int,
)
    requires
        extents(k) == Some(n),
        forall|c: char| c != k ==> #[trigger] extents(c) is None,
        0 <= code < 0x110000,
        code == k as int,
        code as char == k,
    ensures
        total_below(extents, leaf, values, code, m) == sum(
            m,
            |v: int| leaf(values.insert(k, v)),
        ),
    decreases 2 * (0x110000 - code) - 1, m,
{
    if m > 0 {
        lemma_total_below_single(extents, leaf, values, k, n, code, m - 1);
        lemma_total_single(extents, leaf, values.insert(k, m - 1), k, n, code + 1);
    }
}

/// A new leading axis of dimension one leaves the extents alone.
pub proof fn lemma_row_extent_front<D>(labels: Seq<char>, shape: Seq<D>, c: char, d: char, one: D)
    requires
        shape.len() == labels.len(),
    ensures
        row_extent(labels.insert(0, d), shape.insert(0, one), c, one) == row_extent(
            labels,
            shape,
            c,
            one,
        ),
    decreases labels.len(),
{
    let l = labels.insert(0, d);
    let s = shape.insert(0, one);
    if labels.len() == 0 {
        assert(l.drop_last() =~= Seq::<char>::empty());
        assert(l.len() == 1);
        assert(s.len() == 1);
        assert(s.last() == one);
        assert(row_extent(l.drop_last(), s.drop_last(), c, one) == one);
    } else {
        assert(l.drop_last() =~= labels.drop_last().insert(0, d));
        assert(s.drop_last() =~= shape.drop_last().insert(0, one));
        assert(l.last() == labels.last());
        assert(s.last() == shape.last());
        lemma_row_extent_front(labels.drop_last(), shape.drop_last(), c, d, one);
        assert(l.len() > 0);
        assert(row_extent(l.drop_last(), s.drop_last(), c, one) == row_extent(labels.drop_last(), shape.drop_last(), c, one));
    }
}

/// The extents along two slots.
pub proof fn lemma_extent_two<D>(labels: Seq<Seq<char>>, shapes: Seq<Seq<D>>, c: char, one: D)
    requires
        labels.len() == 2,
        shapes.len() == 2,
    ensures
        extent(labels, shapes, c, one) == (if row_extent(labels[0], shapes[0], c, one) != one {
            row_extent(labels[0], shapes[0], c, one)
        } else {
            row_extent(labels[1], shapes[1], c, one)
        }),
{
    reveal_with_fuel(extent, 3);
    assert(labels.drop_last().last() == labels[0]);
    assert(shapes.drop_last().last() == shapes[0]);
}

/// A label whose extent along a slot is one has no other dimension there.
pub proof fn lemma_row_extent_one<D>(labels: Seq<char>, shape: Seq<D>, c: char, one: D)
    requires
        shape.len() == labels.len(),
        row_extent(labels, shape, c, one) == one,
    ensures
        forall|p: int| 0 <= p < labels.len() && #[trigger] labels[p] == c ==> shape[p] == one,
    decreases labels.len(),
{
    if labels.len() > 0 {
        lemma_row_extent_one(labels.drop_last(), shape.drop_last(), c, one);
        assert forall|p: int| 0 <= p < labels.len() && #[trigger] labels[p] == c implies shape[p]
            == one by {
            if p < labels.len() - 1 {
                assert(labels.drop_last()[p] == c);
            }
        }
    }
}

/// A label that a slot does not have, or has in dimensions of one only, has the
/// extent one there.
pub proof fn lemma_row_extent_trivial<D>(labels: Seq<char>, shape: Seq<D>, c: char, one: D)
    requires
        shape.len() == labels.len(),
        forall|p: int| 0 <= p < labels.len() && #[trigger] labels[p] == c ==> shape[p] == one,
    ensures
        row_extent(labels, shape, c, one) == one,
    decreases labels.len(),
{
    if labels.len() > 0 {
        assert forall|p: int|
            0 <= p < labels.drop_last().len() && #[trigger] labels.drop_last()[p]
                == c implies shape.drop_last()[p] == one by {
            assert(labels[p] == c);
        }
        lemma_row_extent_trivial(labels.drop_last(), shape.drop_last(), c, one);
        assert(labels[labels.len() - 1] == labels.last());
    }
}

/// Coordinates are bound to the labels of the slot, if these differ.
pub proof fn lemma_bind(labels: Seq<char>, coords: Seq<int>, p: int)
    requires
        labels.no_duplicates(),
        0 <= p < labels.len(),
    ensures
        bind(labels, coords)[labels[p]] == coords[p],
{
    assert(labels.contains(labels[p]));
    let q = choose|q: int| 0 <= q < labels.len() && labels[q] == labels[p];
    assert(q == p);
}

pub proof fn lemma_row_extent_shape(labels: Seq<char>, shape: Seq<int>, c: char)
    requires
        shape.len() == labels.len(),
        is_shape(shape),
    ensures
        row_extent(labels, shape, c, 1) >= 0,
    decreases labels.len(),
{
    if labels.len() > 0 {
        lemma_shape_prefix(shape);
        lemma_row_extent_shape(labels.drop_last(), shape.drop_last(), c);
    }
}

/// The output of an einsum has a shape.
pub proof fn lemma_output_shape(e: Expr, xs: Seq<Value>)
    requires
        is_binary(e),
        suits(e, xs),
    ensures
        is_shape(output_dims(e, shapes_of(xs), 1)),
        einsum(e, xs).valid(),
{
    let dims = output_dims(e, shapes_of(xs), 1);
    assert forall|p: int| 0 <= p < dims.len() implies 0 <= #[trigger] dims[p] by {
        let c = e.outputs[0][p];
        lemma_extent_two(e.inputs, shapes_of(xs), c, 1);
        assert(xs[0].valid() && xs[1].valid());
        lemma_row_extent_shape(e.inputs[0], xs[0].shape, c);
        lemma_row_extent_shape(e.inputs[1], xs[1].shape, c);
    }
    lemma_volume_nonneg(dims);
}

/// Labels, with one more in front if asked for.
pub open spec fn front(labels: Seq<char>, add: bool, c: char) -> Seq<char> {
    if add {
        labels.insert(0, c)
    } else {
        labels
    }
}

/// Whether an input gets a leading axis: the first or the second, if asked for.
pub open spec fn grows(s: int, first: bool, second: bool) -> bool {
    (s == 0 && first) || (s == 1 && second)
}

/// An expression, with a leading axis under the label `c` in the first input, in the
/// second, and in the output, as far as asked for.
pub open spec fn with_front(e: Expr, c: char, first: bool, second: bool, out: bool) -> Expr {
    Expr {
        inputs: Seq::new(
            e.inputs.len(),
            |s: int| front(e.inputs[s], grows(s, first, second), c),
        ),
        outputs: seq![front(e.outputs[0], out, c)],
    }
}

/// A tensor, with a leading axis of dimension one if asked for.
pub open spec fn value_front(x: Value, add: bool) -> Value {
    if add {
        x.with_axis(0)
    } else {
        x
    }
}

/// Tensors, the first two with leading axes of dimension one as far as asked for.
pub open spec fn values_front(xs: Seq<Value>, first: bool, second: bool) -> Seq<Value> {
    Seq::new(xs.len(), |s: int| value_front(xs[s], grows(s, first, second)))
}

pub proof fn lemma_front_contains(labels: Seq<char>, add: bool, c: char, l: char)
    ensures
        front(labels, add, c).contains(l) <==> labels.contains(l) || (add && l == c),
{
    if add {
        let f = labels.insert(0, c);
        if labels.contains(l) {
            let p = choose|p: int| 0 <= p < labels.len() && labels[p] == l;
            assert(f[p + 1] == l);
        }
        if l == c {
            assert(f[0] == l);
        }
        if f.contains(l) {
            let p = choose|p: int| 0 <= p < f.len() && f[p] == l;
            if p > 0 {
                assert(labels[p - 1] == l);
            }
        }
    }
}

/// The element of an input that values of the labels pick is the same under a
/// new leading axis.
pub proof fn lemma_front_at(
    labels: Seq<char>,
    x: Value,
    c: char,
    add: bool,
    live: spec_fn(char) -> bool,
    a: Assignment,
    b: Assignment,
)
    requires
        x.shape.len() == labels.len(),
        forall|p: int| 0 <= p < labels.len() && x.shape[p] != 1 ==> live(#[trigger] labels[p]),
        agree(live, a, b),
    ensures
        value_front(x, add).at(
            coords_in(front(labels, add, c), value_front(x, add).shape, a),
        ) == x.at(coords_in(labels, x.shape, b)),
{
    let inner = coords_in(labels, x.shape, b);
    let outer = coords_in(front(labels, add, c), value_front(x, add).shape, a);
    if add {
        assert(outer =~= inner.insert(0, 0)) by {
            assert(outer.len() == inner.len() + 1);
            assert forall|p: int| 0 <= p < outer.len() implies #[trigger] outer[p]
                == inner.insert(0, 0)[p] by {
                if p > 0 {
                    assert(x.shape.insert(0, 1)[p] == x.shape[p - 1]);
                    assert(labels.insert(0, c)[p] == labels[p - 1]);
                    if x.shape[p - 1] != 1 {
                        assert(live(labels[p - 1]));
                        assert(a[labels[p - 1]] == b[labels[p - 1]]);
                    }
                }
            }
        }
        lemma_front_axis(x.shape, inner);
    } else {
        assert(outer =~= inner) by {
            assert forall|p: int| 0 <= p < outer.len() implies #[trigger] outer[p] == inner[p] by {
                if x.shape[p] != 1 {
                    assert(live(labels[p]));
                    assert(a[labels[p]] == b[labels[p]]);
                }
            }
        }
    }
}

/// An extent other than one is the dimension of some axis of the slot.
pub proof fn lemma_row_extent_found<D>(labels: Seq<char>, shape: Seq<D>, c: char, one: D) -> (p: int)
    requires
        shape.len() == labels.len(),
        row_extent(labels, shape, c, one) != one,
    ensures
        0 <= p < labels.len(),
        labels[p] == c,
        shape[p] == row_extent(labels, shape, c, one),
    decreases labels.len(),
{
    if row_extent(labels.drop_last(), shape.drop_last(), c, one) != one {
        lemma_row_extent_found(labels.drop_last(), shape.drop_last(), c, one)
    } else {
        labels.len() - 1
    }
}

/// The extent of a label that occurs once in a slot is its dimension there.
pub proof fn lemma_row_extent_single<D>(labels: Seq<char>, shape: Seq<D>, c: char, p: int, one: D)
    requires
        shape.len() == labels.len(),
        0 <= p < labels.len(),
        labels[p] == c,
        forall|q: int| 0 <= q < labels.len() && #[trigger] labels[q] == c ==> q == p,
    ensures
        row_extent(labels, shape, c, one) == shape[p],
{
    if row_extent(labels, shape, c, one) == one {
        lemma_row_extent_one(labels, shape, c, one);
    } else {
        lemma_row_extent_found(labels, shape, c, one);
    }
}

/// Whether the inputs broadcast: every dimension is one, or the extent of its
/// label.
pub open spec fn broadcasts(e: Expr, shapes: Seq<Seq<int>>) -> bool {
    forall|s: int, p: int|
        0 <= s < e.inputs.len() && 0 <= p < e.inputs[s].len() ==> shapes[s][p] == 1
            || shapes[s][p] == extent(e.inputs, shapes, #[trigger] e.inputs[s][p], 1)
}

/// Exchanging the two inputs does not change what an einsum computes.
pub proof fn lemma_swap(e: Expr, xs: Seq<Value>)
    requires
        is_binary(e),
        suits(e, xs),
        broadcasts(e, shapes_of(xs)),
    ensures
        einsum(e.swapped(), seq![xs[1], xs[0]]) == einsum(e, xs),
{
    let f = e.swapped();
    let ys = seq![xs[1], xs[0]];
    assert(xs[0].valid() && xs[1].valid());
    assert forall|c: char| #[trigger]
        extent(f.inputs, shapes_of(ys), c, 1) == extent(e.inputs, shapes_of(xs), c, 1) by {
        lemma_extent_two(e.inputs, shapes_of(xs), c, 1);
        lemma_extent_two(f.inputs, shapes_of(ys), c, 1);
        if row_extent(e.inputs[0], xs[0].shape, c, 1) != 1 && row_extent(
            e.inputs[1],
            xs[1].shape,
            c,
            1,
        ) != 1 {
            let p = lemma_row_extent_found(e.inputs[1], xs[1].shape, c, 1);
            assert(e.inputs[1][p] == c);
        }
    }
    let dims = output_dims(e, shapes_of(xs), 1);
    lemma_output_shape(e, xs);
    assert(output_dims(f, shapes_of(ys), 1) =~= dims);
    let live = |c: char| true;
    let s1 = summed_extents(f, shapes_of(ys));
    let s2 = summed_extents(e, shapes_of(xs));
    assert(same_extents(s1, s2, live)) by {
        assert forall|c: char|
            match (#[trigger] s1(c), #[trigger] s2(c)) {
                (Some(m), Some(k)) => m == k,
                (Some(m), None) => m == 1 && !live(c),
                (None, Some(k)) => k == 1 && !live(c),
                (None, None) => true,
            } by {
            if is_summed(e, c) {
                let s = choose|s: int|
                    0 <= s < e.inputs.len() && (#[trigger] e.inputs[s]).contains(c);
                assert(f.inputs[1 - s].contains(c));
            }
            if is_summed(f, c) {
                let s = choose|s: int|
                    0 <= s < f.inputs.len() && (#[trigger] f.inputs[s]).contains(c);
                assert(e.inputs[1 - s].contains(c));
            }
        }
    }
    assert(same_leaf(term(f, ys), term(e, xs), live)) by {
        assert forall|b1: Assignment, b2: Assignment| #[trigger] agree(live, b1, b2) implies term(
            f,
            ys,
        )(b1) == term(e, xs)(b2) by {
            assert forall|s: int| 0 <= s < 2 implies #[trigger] coords_in(
                e.inputs[s],
                xs[s].shape,
                b1,
            ) == coords_in(e.inputs[s], xs[s].shape, b2) by {
                assert forall|p: int| 0 <= p < e.inputs[s].len() implies b1[#[trigger] e.inputs[s][p]]
                    == b2[e.inputs[s][p]] by {
                    assert(live(e.inputs[s][p]));
                }
                assert(coords_in(e.inputs[s], xs[s].shape, b1) =~= coords_in(
                    e.inputs[s],
                    xs[s].shape,
                    b2,
                ));
            }
            let u = xs[0].at(coords_in(e.inputs[0], xs[0].shape, b1));
            let v = xs[1].at(coords_in(e.inputs[1], xs[1].shape, b1));
            assert(coords_in(e.inputs[0], xs[0].shape, b1) == coords_in(
                e.inputs[0],
                xs[0].shape,
                b2,
            ));
            assert(coords_in(e.inputs[1], xs[1].shape, b1) == coords_in(
                e.inputs[1],
                xs[1].shape,
                b2,
            ));
            assert(u * v == v * u) by (nonlinear_arith);
        }
    }
    assert forall|coords: Seq<int>| #[trigger] in_bounds(coords, dims) implies einsum_entry(f, ys)(
        coords,
    ) == einsum_entry(e, xs)(coords) by {
        let a = bind(e.outputs[0], coords);
        lemma_total_same(s1, term(f, ys), s2, term(e, xs), live, a, a, 0);
    }
    lemma_tabulate_same(dims, einsum_entry(f, ys), einsum_entry(e, xs));
}

/// Whether two expressions differ only in the labels of input axes of dimension
/// one.
pub open spec fn same_but_units(e: Expr, f: Expr, shapes: Seq<Seq<int>>) -> bool {
    &&& f.outputs == e.outputs
    &&& f.inputs.len() == e.inputs.len()
    &&& forall|s: int|
        0 <= s < e.inputs.len() ==> (#[trigger] f.inputs[s]).len() == e.inputs[s].len()
    &&& forall|s: int, p: int|
        0 <= s < e.inputs.len() && 0 <= p < e.inputs[s].len() && shapes[s][p] != 1
            ==> #[trigger] f.inputs[s][p] == e.inputs[s][p]
}

proof fn lemma_row_extent_units(l1: Seq<char>, l2: Seq<char>, shape: Seq<int>, c: char)
    requires
        l1.len() == shape.len(),
        l2.len() == shape.len(),
        forall|p: int| 0 <= p < shape.len() && shape[p] != 1 ==> #[trigger] l2[p] == l1[p],
    ensures
        row_extent(l2, shape, c, 1) == row_extent(l1, shape, c, 1),
    decreases shape.len(),
{
    if shape.len() > 0 {
        let (k1, k2, short) = (l1.drop_last(), l2.drop_last(), shape.drop_last());
        assert forall|p: int| 0 <= p < short.len() && short[p] != 1 implies #[trigger] k2[p]
            == k1[p] by {
            assert(l2[p] == l1[p]);
        }
        lemma_row_extent_units(k1, k2, short, c);
        let last = shape.len() - 1;
        assert(shape[last] != 1 ==> l2[last] == l1[last]);
    }
}

/// The labels of input axes of dimension one do not matter to what an einsum
/// computes.
pub proof fn lemma_units(e: Expr, f: Expr, xs: Seq<Value>)
    requires
        is_binary(e),
        suits(e, xs),
        same_but_units(e, f, shapes_of(xs)),
    ensures
        einsum(f, xs) == einsum(e, xs),
        broadcasts(e, shapes_of(xs)) ==> broadcasts(f, shapes_of(xs)),
{
    let shapes = shapes_of(xs);
    assert(xs[0].valid() && xs[1].valid());
    assert(f.inputs[0].len() == e.inputs[0].len() && f.inputs[1].len() == e.inputs[1].len());
    assert forall|c: char| #[trigger]
        extent(f.inputs, shapes, c, 1) == extent(e.inputs, shapes, c, 1) by {
        lemma_extent_two(e.inputs, shapes, c, 1);
        lemma_extent_two(f.inputs, shapes, c, 1);
        lemma_row_extent_units(e.inputs[0], f.inputs[0], shapes[0], c);
        lemma_row_extent_units(e.inputs[1], f.inputs[1], shapes[1], c);
    }
    let live = |c: char| extent(e.inputs, shapes, c, 1) != 1;
    assert forall|s: int, p: int|
        0 <= s < 2 && 0 <= p < e.inputs[s].len() && xs[s].shape[p] != 1 implies live(
        #[trigger] e.inputs[s][p],
    ) && f.inputs[s][p] == e.inputs[s][p] by {
        let c = e.inputs[s][p];
        assert(f.inputs[s][p] == c);
        lemma_extent_two(e.inputs, shapes, c, 1);
        if extent(e.inputs, shapes, c, 1) == 1 {
            lemma_row_extent_one(e.inputs[s], xs[s].shape, c, 1int);
        }
    }
    let s1 = summed_extents(f, shapes);
    let s2 = summed_extents(e, shapes);
    assert(same_extents(s1, s2, live)) by {
        assert forall|l: char|
            match (#[trigger] s1(l), #[trigger] s2(l)) {
                (Some(m), Some(k)) => m == k,
                (Some(m), None) => m == 1 && !live(l),
                (None, Some(k)) => k == 1 && !live(l),
                (None, None) => true,
            } by {
            assert(extent(f.inputs, shapes, l, 1) == extent(e.inputs, shapes, l, 1));
            lemma_extent_two(e.inputs, shapes, l, 1);
            if live(l) {
                let s: int = if row_extent(e.inputs[0], shapes[0], l, 1) != 1 {
                    0
                } else {
                    1
                };
                let p = lemma_row_extent_found(e.inputs[s], shapes[s], l, 1int);
                assert(f.inputs[s][p] == e.inputs[s][p]);
                assert(f.inputs[s].contains(l) && e.inputs[s].contains(l));
            }
        }
    }
    assert(same_leaf(term(f, xs), term(e, xs), live)) by {
        assert forall|b1: Assignment, b2: Assignment| #[trigger] agree(live, b1, b2) implies term(
            f,
            xs,
        )(b1) == term(e, xs)(b2) by {
            assert forall|s: int| 0 <= s < 2 implies #[trigger] coords_in(
                f.inputs[s],
                xs[s].shape,
                b1,
            ) == coords_in(e.inputs[s], xs[s].shape, b2) by {
                let left = coords_in(f.inputs[s], xs[s].shape, b1);
                let right = coords_in(e.inputs[s], xs[s].shape, b2);
                assert(left.len() == right.len());
                assert forall|p: int| 0 <= p < left.len() implies left[p] == right[p] by {
                    if xs[s].shape[p] != 1 {
                        assert(live(e.inputs[s][p]));
                        assert(b1[e.inputs[s][p]] == b2[e.inputs[s][p]]);
                    }
                }
                assert(left =~= right);
            }
            assert(coords_in(f.inputs[0], xs[0].shape, b1) == coords_in(
                e.inputs[0],
                xs[0].shape,
                b2,
            ));
            assert(coords_in(f.inputs[1], xs[1].shape, b1) == coords_in(
                e.inputs[1],
                xs[1].shape,
                b2,
            ));
        }
    }
    let dims = output_dims(e, shapes, 1);
    assert(output_dims(f, shapes, 1) =~= dims);
    lemma_output_shape(e, xs);
    assert forall|coords: Seq<int>| #[trigger] in_bounds(coords, dims) implies einsum_entry(
        f,
        xs,
    )(coords) == einsum_entry(e, xs)(coords) by {
        let a = bind(e.outputs[0], coords);
        lemma_total_same(s1, term(f, xs), s2, term(e, xs), live, a, a, 0);
    }
    lemma_tabulate_same(dims, einsum_entry(f, xs), einsum_entry(e, xs));
    if broadcasts(e, shapes) {
        assert forall|s: int, p: int|
            0 <= s < f.inputs.len() && 0 <= p < f.inputs[s].len() implies shapes[s][p] == 1
            || shapes[s][p] == extent(f.inputs, shapes, #[trigger] f.inputs[s][p], 1) by {
            assert(f.inputs[s].len() == e.inputs[s].len());
            if shapes[s][p] != 1 {
                assert(f.inputs[s][p] == e.inputs[s][p]);
            }
        }
    }
}

/// A sum of sums is the sum of the terms.
pub proof fn lemma_sum_added(n: int, f: spec_fn(int) -> int, g: spec_fn(int) -> int)
    ensures
        sum(n, |v: int| f(v) + g(v)) == sum(n, f) + sum(n, g),
    decreases n,
{
    if n > 0 {
        lemma_sum_added(n - 1, f, g);
    }
}

/// A sum of which one term is not zero is that term, if it is among those summed up, and
/// else zero.
pub proof fn lemma_sum_lone(n: int, f: spec_fn(int) -> int, i: int)
    requires
        forall|v: int| v != i ==> #[trigger] f(v) == 0,
    ensures
        sum(n, f) == if 0 <= i < n {
            f(i)
        } else {
            0
        },
    decreases n,
{
    if n > 0 {
        lemma_sum_lone(n - 1, f, i);
    }
}

} // verus!
