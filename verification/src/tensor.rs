//! Dense tensors: shapes, row-major positions, and values.

use vstd::prelude::*;

verus! {

/// How many elements a shape holds.
pub open spec fn volume(shape: Seq<int>) -> int
    decreases shape.len(),
{
    if shape.len() == 0 {
        1
    } else {
        volume(shape.drop_last()) * shape.last()
    }
}

/// Whether every dimension is non-negative.
pub open spec fn is_shape(shape: Seq<int>) -> bool {
    forall|i: int| 0 <= i < shape.len() ==> 0 <= #[trigger] shape[i]
}

/// Whether the coordinates are those of an element.
pub open spec fn in_bounds(coords: Seq<int>, shape: Seq<int>) -> bool {
    &&& coords.len() == shape.len()
    &&& forall|i: int| 0 <= i < shape.len() ==> 0 <= #[trigger] coords[i] < shape[i]
}

/// The row-major position of an element.
pub open spec fn flat(shape: Seq<int>, coords: Seq<int>) -> int
    decreases shape.len(),
{
    if shape.len() == 0 {
        0
    } else {
        flat(shape.drop_last(), coords.drop_last()) * shape.last() + coords.last()
    }
}

/// The coordinates of the element at a row-major position.
pub open spec fn unflat(shape: Seq<int>, position: int) -> Seq<int>
    decreases shape.len(),
{
    if shape.len() == 0 {
        Seq::empty()
    } else {
        unflat(shape.drop_last(), position / shape.last()).push(position % shape.last())
    }
}

/// The value of a tensor: its shape, and its elements in row-major order.
#[verifier::ext_equal]
pub struct Value {
    pub shape: Seq<int>,
    pub data: Seq<int>,
}

impl Value {
    /// Whether the elements are as many as the shape holds.
    pub open spec fn valid(self) -> bool {
        &&& is_shape(self.shape)
        &&& self.data.len() == volume(self.shape)
    }

    /// The element at some coordinates.
    pub open spec fn at(self, coords: Seq<int>) -> int {
        self.data[flat(self.shape, coords)]
    }

    /// With one more axis, of dimension one.
    pub open spec fn with_axis(self, axis: int) -> Value {
        Value { shape: self.shape.insert(axis, 1), data: self.data }
    }

    /// Without an axis of dimension one.
    pub open spec fn without_axis(self, axis: int) -> Value {
        Value { shape: self.shape.remove(axis), data: self.data }
    }
}

impl Value {
    /// With an axis moved to another position.
    pub open spec fn with_moved(self, from: int, to: int) -> Value {
        tabulate(
            self.shape.remove(from).insert(to, self.shape[from]),
            |coords: Seq<int>| self.at(coords.remove(to).insert(from, coords[to])),
        )
    }
}

/// The tensor of a shape with the elements that a function gives.
pub open spec fn tabulate(shape: Seq<int>, f: spec_fn(Seq<int>) -> int) -> Value {
    Value { shape, data: Seq::new(volume(shape) as nat, |q: int| f(unflat(shape, q))) }
}

pub proof fn lemma_shape_prefix(shape: Seq<int>)
    requires
        is_shape(shape),
        shape.len() > 0,
    ensures
        is_shape(shape.drop_last()),
        shape.last() >= 0,
{
    assert forall|i: int| 0 <= i < shape.drop_last().len() implies 0
        <= #[trigger] shape.drop_last()[i] by {
        assert(0 <= shape[i]);
    }
    assert(0 <= shape[shape.len() - 1]);
}

pub proof fn lemma_volume_nonneg(shape: Seq<int>)
    requires
        is_shape(shape),
    ensures
        volume(shape) >= 0,
    decreases shape.len(),
{
    if shape.len() > 0 {
        lemma_shape_prefix(shape);
        lemma_volume_nonneg(shape.drop_last());
        assert(volume(shape.drop_last()) * shape.last() >= 0) by (nonlinear_arith)
            requires
                volume(shape.drop_last()) >= 0,
                shape.last() >= 0,
        ;
    }
}

/// The position of an element is within the volume, and tells its coordinates.
pub proof fn lemma_flat(shape: Seq<int>, coords: Seq<int>)
    requires
        in_bounds(coords, shape),
    ensures
        0 <= flat(shape, coords) < volume(shape),
        unflat(shape, flat(shape, coords)) == coords,
    decreases shape.len(),
{
    if shape.len() == 0 {
        assert(coords =~= Seq::<int>::empty());
    } else {
        let s = shape.drop_last();
        let c = coords.drop_last();
        assert(in_bounds(c, s)) by {
            assert forall|i: int| 0 <= i < s.len() implies 0 <= #[trigger] c[i] < s[i] by {
                assert(0 <= coords[i] < shape[i]);
            }
        }
        lemma_flat(s, c);
        let d = shape.last();
        let x = coords.last();
        assert(0 <= coords[shape.len() - 1] < shape[shape.len() - 1]);
        let f = flat(s, c);
        let v = volume(s);
        assert(0 <= f * d + x < v * d) by (nonlinear_arith)
            requires
                0 <= f < v,
                0 <= x < d,
        ;
        vstd::arithmetic::div_mod::lemma_fundamental_div_mod_converse(f * d + x, d, f, x);
        assert(unflat(shape, flat(shape, coords)) =~= coords);
    }
}

/// A position within the volume is that of an element.
pub proof fn lemma_unflat(shape: Seq<int>, position: int)
    requires
        is_shape(shape),
        0 <= position < volume(shape),
    ensures
        in_bounds(unflat(shape, position), shape),
        flat(shape, unflat(shape, position)) == position,
    decreases shape.len(),
{
    if shape.len() > 0 {
        lemma_shape_prefix(shape);
        let s = shape.drop_last();
        let d = shape.last();
        let v = volume(s);
        lemma_volume_nonneg(s);
        if d == 0 {
            assert(v * d == 0) by (nonlinear_arith)
                requires
                    d == 0,
            ;
        }
        let q = position / d;
        let r = position % d;
        vstd::arithmetic::div_mod::lemma_fundamental_div_mod(position, d);
        assert(0 <= q < v) by (nonlinear_arith)
            requires
                position == d * q + r,
                0 <= r < d,
                0 <= position < v * d,
        ;
        lemma_unflat(s, q);
        let c = unflat(shape, position);
        assert(c.drop_last() =~= unflat(s, q));
        assert forall|i: int| 0 <= i < shape.len() implies 0 <= #[trigger] c[i] < shape[i] by {
            if i < s.len() {
                assert(c[i] == unflat(s, q)[i]);
                assert(shape[i] == s[i]);
            }
        }
        assert(q * d + r == position) by (nonlinear_arith)
            requires
                position == d * q + r,
        ;
    }
}

/// Functions that agree on a shape tabulate to the same tensor.
pub proof fn lemma_tabulate_same(
    shape: Seq<int>,
    f: spec_fn(Seq<int>) -> int,
    g: spec_fn(Seq<int>) -> int,
)
    requires
        is_shape(shape),
        forall|coords: Seq<int>| #[trigger] in_bounds(coords, shape) ==> f(coords) == g(coords),
    ensures
        tabulate(shape, f) == tabulate(shape, g),
{
    lemma_volume_nonneg(shape);
    let a = tabulate(shape, f);
    let b = tabulate(shape, g);
    assert forall|q: int| 0 <= q < a.data.len() implies #[trigger] a.data[q] == b.data[q] by {
        lemma_unflat(shape, q);
        assert(in_bounds(unflat(shape, q), shape));
    }
    assert(a.data =~= b.data);
}

/// A leading axis of dimension one changes neither the volume nor the
/// position of any element.
pub proof fn lemma_front_axis(shape: Seq<int>, coords: Seq<int>)
    requires
        coords.len() == shape.len(),
    ensures
        volume(shape.insert(0, 1)) == volume(shape),
        flat(shape.insert(0, 1), coords.insert(0, 0)) == flat(shape, coords),
    decreases shape.len(),
{
    let s = shape.insert(0, 1);
    let c = coords.insert(0, 0);
    if shape.len() == 0 {
        assert(s.drop_last() =~= Seq::<int>::empty());
        assert(volume(s.drop_last()) == 1);
        assert(flat(s.drop_last(), c.drop_last()) == 0);
        assert(s.last() == 1);
        assert(c.last() == 0);
    } else {
        assert(s.drop_last() =~= shape.drop_last().insert(0, 1));
        assert(c.drop_last() =~= coords.drop_last().insert(0, 0));
        assert(s.last() == shape.last());
        assert(c.last() == coords.last());
        lemma_front_axis(shape.drop_last(), coords.drop_last());
    }
}

/// The coordinates under a leading axis of dimension one.
pub proof fn lemma_front_unflat(shape: Seq<int>, position: int)
    requires
        is_shape(shape),
        0 <= position < volume(shape),
    ensures
        unflat(shape.insert(0, 1), position) == unflat(shape, position).insert(0, 0),
{
    lemma_unflat(shape, position);
    let c = unflat(shape, position);
    let s1 = shape.insert(0, 1);
    let c1 = c.insert(0, 0);
    lemma_front_axis(shape, c);
    assert(in_bounds(c1, s1)) by {
        assert forall|i: int| 0 <= i < s1.len() implies 0 <= #[trigger] c1[i] < s1[i] by {
            if i > 0 {
                assert(0 <= c[i - 1] < shape[i - 1]);
            }
        }
    }
    lemma_flat(s1, c1);
}

/// The product of the dimensions other than zero.
pub open spec fn span(shape: Seq<int>) -> int
    decreases shape.len(),
{
    if shape.len() == 0 {
        1
    } else {
        span(shape.drop_last()) * (if shape.last() == 0 {
            1
        } else {
            shape.last()
        })
    }
}

/// Whether an array of that shape can be addressed at all.
pub open spec fn addressable(shape: Seq<int>) -> bool {
    is_shape(shape) && span(shape) <= isize::MAX
}

/// The integers that machine integers are.
pub open spec fn ints(s: Seq<usize>) -> Seq<int> {
    Seq::new(s.len(), |i: int| s[i] as int)
}

/// A dense tensor of integers, in row-major order.
#[derive(Debug)]
pub struct Tensor {
    shape: Vec<usize>,
    data: Vec<i64>,
}

impl View for Tensor {
    type V = Value;

    closed spec fn view(&self) -> Value {
        Value {
            shape: ints(self.shape@),
            data: Seq::new(self.data@.len(), |i: int| self.data@[i] as int),
        }
    }
}

pub proof fn lemma_span(shape: Seq<int>)
    requires
        is_shape(shape),
    ensures
        span(shape) >= 1,
        volume(shape) <= span(shape),
        (forall|i: int| 0 <= i < shape.len() ==> #[trigger] shape[i] > 0) ==> volume(shape)
            == span(shape),
        forall|i: int| 0 <= i < shape.len() ==> #[trigger] shape[i] <= span(shape),
    decreases shape.len(),
{
    if shape.len() > 0 {
        lemma_shape_prefix(shape);
        let s = shape.drop_last();
        let d = shape.last();
        lemma_span(s);
        lemma_volume_nonneg(s);
        let e = if d == 0 {
            1
        } else {
            d
        };
        assert(span(s) * e >= 1) by (nonlinear_arith)
            requires
                span(s) >= 1,
                e >= 1,
        ;
        assert(volume(s) * d <= span(s) * e) by (nonlinear_arith)
            requires
                0 <= volume(s) <= span(s),
                0 <= d <= e,
        ;
        assert(span(s) <= span(s) * e) by (nonlinear_arith)
            requires
                span(s) >= 1,
                e >= 1,
        ;
        assert(e <= span(s) * e) by (nonlinear_arith)
            requires
                span(s) >= 1,
                e >= 1,
        ;
        assert forall|i: int| 0 <= i < shape.len() implies #[trigger] shape[i] <= span(shape) by {
            if i < s.len() {
                assert(s[i] <= span(s));
            }
        }
        if forall|i: int| 0 <= i < shape.len() ==> #[trigger] shape[i] > 0 {
            assert forall|i: int| 0 <= i < s.len() implies #[trigger] s[i] > 0 by {
                assert(shape[i] > 0);
            }
            assert(shape[shape.len() - 1] > 0);
        }
    }
}

/// The leading part of a shape spans no more than the shape.
pub proof fn lemma_span_take(shape: Seq<int>, n: int)
    requires
        is_shape(shape),
        0 <= n <= shape.len(),
    ensures
        is_shape(shape.take(n)),
        span(shape.take(n)) <= span(shape),
    decreases shape.len(),
{
    if n == shape.len() {
        assert(shape.take(n) =~= shape);
    } else {
        lemma_shape_prefix(shape);
        let s = shape.drop_last();
        assert(s.take(n) =~= shape.take(n));
        lemma_span_take(s, n);
        lemma_span(s);
        let e = if shape.last() == 0 {
            1
        } else {
            shape.last()
        };
        assert(span(s) <= span(s) * e) by (nonlinear_arith)
            requires
                span(s) >= 1,
                e >= 1,
        ;
    }
}

impl Tensor {
    #[verifier::type_invariant]
    spec fn complete(self) -> bool {
        self@.valid()
    }

    /// The tensor of a shape with the given elements, if they are as many as
    /// the shape holds.
    pub fn new(shape: Vec<usize>, data: Vec<i64>) -> (r: Option<Tensor>)
        ensures
            r is Some <==> data@.len() == volume(ints(shape@)),
            r matches Some(t) ==> t@ == (Value {
                shape: ints(shape@),
                data: Seq::new(data@.len(), |i: int| data@[i] as int),
            }),
    {
        if count(&shape, data.len()) {
            Some(Tensor { shape, data })
        } else {
            None
        }
    }

    /// The tensor of a shape whose elements are all zero.
    pub fn zero(shape: Vec<usize>) -> (r: Tensor)
        requires
            addressable(ints(shape@)),
        ensures
            r@ == tabulate(ints(shape@), |coords: Seq<int>| 0int),
    {
        let ghost dims = ints(shape@);
        let mut n: usize = 1;
        for i in 0..shape.len()
            invariant
                dims == ints(shape@),
                addressable(dims),
                n == volume(dims.take(i as int)),
        {
            let ghost next = dims.take(i + 1);
            proof {
                assert(next.drop_last() =~= dims.take(i as int));
                assert(next.last() == dims[i as int]);
                lemma_span_take(dims, i + 1);
                lemma_span(next);
                lemma_volume_nonneg(next);
            }
            n = n * shape[i];
        }
        assert(dims.take(shape@.len() as int) =~= dims);
        let data: Vec<i64> = vec![0i64; n];
        let r = Tensor { shape, data };
        assert(r@ =~= tabulate(dims, |coords: Seq<int>| 0int));
        r
    }

    pub fn shape(&self) -> (r: &Vec<usize>)
        ensures
            ints(r@) == self@.shape,
            is_shape(self@.shape),
    {
        &self.shape
    }

    pub fn data(&self) -> (r: &Vec<i64>)
        ensures
            r@.len() == self@.data.len(),
            forall|i: int| 0 <= i < r@.len() ==> #[trigger] r@[i] == self@.data[i],
            self@.valid(),
    {
        proof {
            use_type_invariant(self);
        }
        &self.data
    }
}

/// Whether a shape holds as many elements as given.
fn count(shape: &Vec<usize>, expected: usize) -> (r: bool)
    ensures
        r == (volume(ints(shape@)) == expected),
{
    let ghost dims = ints(shape@);
    let mut empty = false;
    for i in 0..shape.len()
        invariant
            dims == ints(shape@),
            empty <==> exists|j: int| 0 <= j < i && #[trigger] dims[j] == 0,
    {
        if shape[i] == 0 {
            assert(dims[i as int] == 0);
            empty = true;
        }
    }
    if empty {
        proof {
            let j = choose|j: int| 0 <= j < dims.len() && #[trigger] dims[j] == 0;
            lemma_volume_zero(dims, j);
        }
        return expected == 0;
    }
    let mut n: usize = 1;
    for i in 0..shape.len()
        invariant
            dims == ints(shape@),
            forall|j: int| 0 <= j < dims.len() ==> #[trigger] dims[j] > 0,
            n == volume(dims.take(i as int)),
            n >= 1,
    {
        assert(dims.take(i + 1).drop_last() =~= dims.take(i as int));
        assert(dims.take(i + 1).last() == shape@[i as int]);
        proof {
            assert(dims[i as int] > 0);
            lemma_volume_take(dims, i + 1);
        }
        match n.checked_mul(shape[i]) {
            Some(m) => {
                proof {
                    let d = shape@[i as int] as int;
                    assert(n * d >= 1) by (nonlinear_arith)
                        requires
                            n >= 1,
                            d >= 1,
                    ;
                }
                n = m;
            },
            None => {
                return false;
            },
        }
    }
    assert(dims.take(shape@.len() as int) =~= dims);
    n == expected
}

proof fn lemma_volume_zero(shape: Seq<int>, j: int)
    requires
        0 <= j < shape.len(),
        shape[j] == 0,
    ensures
        volume(shape) == 0,
    decreases shape.len(),
{
    if j < shape.len() - 1 {
        lemma_volume_zero(shape.drop_last(), j);
        assert(0 * shape.last() == 0);
    } else {
        assert(volume(shape.drop_last()) * 0 == 0);
    }
}

proof fn lemma_volume_take(shape: Seq<int>, n: int)
    requires
        forall|j: int| 0 <= j < shape.len() ==> #[trigger] shape[j] > 0,
        0 <= n <= shape.len(),
    ensures
        volume(shape.take(n)) <= volume(shape),
{
    assert(is_shape(shape));
    assert forall|j: int| 0 <= j < n implies #[trigger] shape.take(n)[j] > 0 by {
        assert(shape[j] > 0);
    }
    lemma_span_take(shape, n);
    lemma_span(shape);
    lemma_span(shape.take(n));
}

} // verus!
