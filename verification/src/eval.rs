//! Evaluation of the batched matrix product on integers.

use vstd::prelude::*;

use crate::dim::DimLike;
use crate::error::Error;
use crate::matmul::{BasicMatMul, clamp, pair, pair_first, pair_second};
use crate::product::{lemma_sum_same, sum};
use crate::tensor::{
    Tensor, Value, addressable, flat, in_bounds, ints, is_shape, lemma_flat, lemma_span,
    lemma_span_take, lemma_unflat, lemma_volume_nonneg, tabulate, unflat, volume,
};

verus! {

/// A matrix of integers, in row-major order.
pub struct Matrix {
    pub rows: usize,
    pub cols: usize,
    pub data: Vec<i64>,
}

impl Matrix {
    pub open spec fn wf(&self) -> bool {
        self.data@.len() == self.rows * self.cols
    }

    /// The element of a row and a column.
    pub open spec fn at(&self, i: int, j: int) -> int {
        self.data@[i * self.cols + j] as int
    }
}

/// The terms of an element of a matrix product.
pub open spec fn dot_terms(a: &Matrix, b: &Matrix, i: int, j: int) -> spec_fn(int) -> int {
    |v: int| a.at(i, v) * b.at(v, j)
}

/// Whether a sum of `n` terms can be computed, from left to right, on `i64`.
pub open spec fn sum_fits(n: int, f: spec_fn(int) -> int) -> bool {
    &&& forall|v: int| 0 <= v < n ==> i64::MIN <= #[trigger] f(v) <= i64::MAX
    &&& forall|v: int| 0 <= v <= n ==> i64::MIN <= #[trigger] sum(v, f) <= i64::MAX
}

/// `ndarray`'s `dot` on two matrices of `i64`: each element of the product is
/// the sum, from left to right, of the products of the elements of a row of `a`
/// and a column of `b`. The matrices are handed over as they are laid out, row
/// after row, and so is the product.
#[verifier::external_body]
fn dot(a: &Matrix, b: &Matrix) -> (c: Matrix)
    requires
        a.wf(),
        b.wf(),
        a.cols == b.rows,
        a.rows <= isize::MAX,
        a.cols <= isize::MAX,
        b.cols <= isize::MAX,
        8 * (a.rows * b.cols) <= isize::MAX,
        forall|i: int, j: int|
            0 <= i < a.rows && 0 <= j < b.cols ==> sum_fits(
                a.cols as int,
                #[trigger] dot_terms(a, b, i, j),
            ),
    ensures
        c.wf(),
        c.rows == a.rows,
        c.cols == b.cols,
        forall|i: int, j: int|
            0 <= i < c.rows && 0 <= j < c.cols ==> #[trigger] c.at(i, j) == sum(
                a.cols as int,
                dot_terms(a, b, i, j),
            ),
{
    let left = ndarray::ArrayView2::from_shape((a.rows, a.cols), &a.data).unwrap();
    let right = ndarray::ArrayView2::from_shape((b.rows, b.cols), &b.data).unwrap();
    let product = left.dot(&right);
    Matrix { rows: a.rows, cols: b.cols, data: product.iter().copied().collect() }
}

/// A shape, split into the stacked part and the matrix.
pub proof fn lemma_flat_matrix(shape: Seq<int>, coords: Seq<int>)
    requires
        shape.len() >= 2,
        coords.len() == shape.len(),
    ensures
        volume(shape) == volume(shape.take(shape.len() - 2)) * shape[shape.len() - 2]
            * shape[shape.len() - 1],
        flat(shape, coords) == (flat(
            shape.take(shape.len() - 2),
            coords.take(shape.len() - 2),
        ) * shape[shape.len() - 2] + coords[shape.len() - 2]) * shape[shape.len() - 1]
            + coords[shape.len() - 1],
{
    let r = shape.len() as int;
    let s = shape.drop_last();
    let c = coords.drop_last();
    assert(s.drop_last() =~= shape.take(r - 2));
    assert(c.drop_last() =~= coords.take(r - 2));
    assert(s.last() == shape[r - 2]);
    assert(c.last() == coords[r - 2]);
    assert(volume(s) == volume(s.drop_last()) * s.last());
    assert(flat(s, c) == flat(s.drop_last(), c.drop_last()) * s.last() + c.last());
}

/// The coordinates of an element of a block.
proof fn lemma_unflat_matrix(shape: Seq<int>, block: int, i: int, j: int)
    requires
        shape.len() >= 2,
        0 <= i < shape[shape.len() - 2],
        0 <= j < shape[shape.len() - 1],
    ensures
        unflat(shape, (block * shape[shape.len() - 2] + i) * shape[shape.len() - 1] + j) == unflat(
            shape.take(shape.len() - 2),
            block,
        ) + seq![i, j],
{
    let r = shape.len() as int;
    let rows = shape[r - 2];
    let cols = shape[r - 1];
    let q = block * rows + i;
    vstd::arithmetic::div_mod::lemma_fundamental_div_mod_converse(q * cols + j, cols, q, j);
    vstd::arithmetic::div_mod::lemma_fundamental_div_mod_converse(q, rows, block, i);
    let s = shape.drop_last();
    assert(s.drop_last() =~= shape.take(r - 2));
    assert(s.last() == rows);
    assert(unflat(shape, q * cols + j) == unflat(s, q).push(j));
    assert(unflat(s, q) == unflat(shape.take(r - 2), block).push(i));
    assert(unflat(shape, q * cols + j) =~= unflat(shape.take(r - 2), block) + seq![i, j]);
}

/// The coordinates of a position in the leading part of a shape.
fn coordinates(shape: &Vec<usize>, n: usize, position: usize) -> (r: Vec<usize>)
    requires
        n <= shape@.len(),
        position < volume(ints(shape@).take(n as int)),
    ensures
        ints(r@) == unflat(ints(shape@).take(n as int), position as int),
        in_bounds(ints(r@), ints(shape@).take(n as int)),
    decreases n,
{
    let ghost dims = ints(shape@).take(n as int);
    assert(is_shape(dims));
    proof {
        lemma_unflat(dims, position as int);
    }
    if n == 0 {
        let r: Vec<usize> = Vec::new();
        assert(ints(r@) =~= Seq::<int>::empty());
        return r;
    }
    let d = shape[n - 1];
    let ghost before = ints(shape@).take(n - 1);
    assert(dims.drop_last() =~= before);
    assert(dims.last() == d);
    proof {
        assert(is_shape(before));
        lemma_volume_nonneg(before);
        let v = volume(before);
        if d == 0 {
            assert(v * 0 == 0);
        }
        let p = position as int;
        let q = p / (d as int);
        vstd::arithmetic::div_mod::lemma_fundamental_div_mod(p, d as int);
        let rem = p % (d as int);
        assert(q < v) by (nonlinear_arith)
            requires
                p == d * q + rem,
                0 <= rem,
                p < v * d,
                d > 0,
        ;
    }
    let mut r = coordinates(shape, n - 1, position / d);
    let ghost head = r@;
    r.push(position % d);
    assert(ints(r@) =~= ints(head).push((position % d) as int));
    r
}

/// The stacked axes of a shape.
spec fn stack(shape: Seq<int>) -> Seq<int> {
    shape.take(shape.len() - 2)
}

proof fn lemma_clamp_in_bounds(coords: Seq<int>, shape: Seq<int>)
    requires
        shape.len() >= 2,
        coords.len() >= shape.len() - 2,
        forall|i: int| 0 <= i < shape.len() - 2 ==> 0 <= #[trigger] coords[i],
        forall|i: int| 0 <= i < shape.len() - 2 ==> 0 < #[trigger] shape[i],
    ensures
        in_bounds(clamp(coords, shape), stack(shape)),
{
    let c = clamp(coords, shape);
    assert forall|i: int| 0 <= i < stack(shape).len() implies 0 <= #[trigger] c[i]
        < stack(shape)[i] by {
        assert(0 <= coords[i]);
        assert(0 < shape[i]);
    }
}

/// The block of an operand that coordinates along the stacked axes select.
fn block_of(shape: &Vec<usize>, coords: &Vec<usize>) -> (r: usize)
    requires
        shape@.len() >= 2,
        coords@.len() == shape@.len() - 2,
        addressable(ints(shape@)),
        forall|i: int| 0 <= i < shape@.len() - 2 ==> 0 < #[trigger] ints(shape@)[i],
    ensures
        r == flat(stack(ints(shape@)), clamp(ints(coords@), ints(shape@))),
        r < volume(stack(ints(shape@))),
{
    let ghost dims = ints(shape@);
    let ghost cut = clamp(ints(coords@), dims);
    let n = shape.len() - 2;
    let mut block: usize = 0;
    proof {
        lemma_clamp_in_bounds(ints(coords@), dims);
        assert(stack(dims).take(0) =~= Seq::<int>::empty());
    }
    for i in 0..n
        invariant
            n == shape@.len() - 2,
            coords@.len() == n,
            dims == ints(shape@),
            cut == clamp(ints(coords@), dims),
            addressable(dims),
            forall|j: int| 0 <= j < n ==> 0 < #[trigger] dims[j],
            in_bounds(cut, stack(dims)),
            block == flat(stack(dims).take(i as int), cut.take(i as int)),
    {
        let ghost next = stack(dims).take(i + 1);
        proof {
            assert(next.drop_last() =~= stack(dims).take(i as int));
            assert(cut.take(i + 1).drop_last() =~= cut.take(i as int));
            assert(next.last() == dims[i as int]);
            assert(cut.take(i + 1).last() == cut[i as int]);
            assert(in_bounds(cut.take(i + 1), next)) by {
                assert forall|j: int| 0 <= j < next.len() implies 0 <= #[trigger] cut.take(
                    i + 1,
                )[j] < next[j] by {
                    assert(0 <= cut[j] < stack(dims)[j]);
                }
            }
            lemma_flat(next, cut.take(i + 1));
            assert(next =~= dims.take(i + 1));
            lemma_span_take(dims, i + 1);
            lemma_span(next);
            assert(0 < dims[i as int]);
            let f = block as int;
            let d = dims[i as int];
            assert(in_bounds(cut.take(i as int), stack(dims).take(i as int))) by {
                assert forall|j: int| 0 <= j < i implies 0 <= #[trigger] cut.take(i as int)[j]
                    < stack(dims).take(i as int)[j] by {
                    assert(0 <= cut[j] < stack(dims)[j]);
                }
            }
            lemma_flat(stack(dims).take(i as int), cut.take(i as int));
            assert(0 <= f * d) by (nonlinear_arith)
                requires
                    0 <= f,
                    0 < d,
            ;
        }
        let last = shape[i] - 1;
        let x = if coords[i] < last {
            coords[i]
        } else {
            last
        };
        assert(x == cut[i as int]);
        block = block * shape[i] + x;
    }
    proof {
        assert(stack(dims).take(n as int) =~= stack(dims));
        assert(cut.take(n as int) =~= cut);
        lemma_flat(stack(dims), cut);
    }
    block
}

/// One matrix of a stack, transposed if asked for.
fn matrix_of(x: &Tensor, block: usize, transposed: bool) -> (r: Matrix)
    requires
        x@.shape.len() >= 2,
        block < volume(stack(x@.shape)),
    ensures
        r.wf(),
        r.rows == pair_first(x@.shape, transposed),
        r.cols == pair_second(x@.shape, transposed),
        forall|coords: Seq<int>, i: int, j: int|
            in_bounds(coords, stack(x@.shape)) && flat(stack(x@.shape), coords) == block && 0 <= i
                < r.rows && 0 <= j < r.cols ==> #[trigger] r.at(i, j) == x@.at(
                #[trigger] (coords + pair(transposed, i, j)),
            ),
{
    let shape = x.shape();
    let data = x.data();
    let n = shape.len();
    let ghost dims = x@.shape;
    let height = shape[n - 2];
    let width = shape[n - 1];
    let (rows, cols) = if transposed {
        (width, height)
    } else {
        (height, width)
    };
    assert(dims[n - 2] == height && dims[n - 1] == width);
    proof {
        lemma_flat_matrix(dims, dims);
        assert(is_shape(stack(dims)));
        lemma_volume_nonneg(stack(dims));
    }
    let ghost blocks = volume(stack(dims));
    let len = data.len();
    assert(0 * cols == 0);
    let mut out: Vec<i64> = Vec::new();
    for i in 0..rows
        invariant
            len == data@.len(),
            data@.len() == x@.data.len(),
            forall|q: int| 0 <= q < data@.len() ==> #[trigger] data@[q] == x@.data[q],
            data@.len() == blocks * height * width,
            block < blocks,
            (rows, cols) == if transposed {
                (width, height)
            } else {
                (height, width)
            },
            out@.len() == i * cols,
            forall|a: int, b: int|
                0 <= a < i && 0 <= b < cols ==> #[trigger] out@[a * cols + b] == (if transposed {
                    x@.data[(block * height + b) * width + a]
                } else {
                    x@.data[(block * height + a) * width + b]
                }),
    {
        for j in 0..cols
            invariant
                len == data@.len(),
                data@.len() == x@.data.len(),
                forall|q: int| 0 <= q < data@.len() ==> #[trigger] data@[q] == x@.data[q],
                data@.len() == blocks * height * width,
                block < blocks,
                (rows, cols) == if transposed {
                    (width, height)
                } else {
                    (height, width)
                },
                i < rows,
                out@.len() == i * cols + j,
                forall|a: int, b: int|
                    ((0 <= a < i && 0 <= b < cols) || (a == i && 0 <= b < j)) ==> #[trigger] out@[a
                        * cols + b] == (if transposed {
                        x@.data[(block * height + b) * width + a]
                    } else {
                        x@.data[(block * height + a) * width + b]
                    }),
        {
            let (u, w) = if transposed {
                (j, i)
            } else {
                (i, j)
            };
            proof {
                assert(0 <= block * height <= (block * height + u) * width + w < blocks * height
                    * width && 0 <= block * height + u <= (block * height + u) * width + w)
                    by (nonlinear_arith)
                    requires
                        0 <= block < blocks,
                        0 <= u < height,
                        0 <= w < width,
                ;
                assert(0 <= (block * height + u) * width <= (block * height + u) * width + w);
            }
            let ghost before = out@;
            out.push(data[(block * height + u) * width + w]);
            assert forall|a: int, b: int|
                ((0 <= a < i && 0 <= b < cols) || (a == i && 0 <= b < j + 1)) implies #[trigger] out@[a
                * cols + b] == (if transposed {
                x@.data[(block * height + b) * width + a]
            } else {
                x@.data[(block * height + a) * width + b]
            }) by {
                if a == i && b == j {
                    assert(a * cols + b == before.len());
                } else {
                    assert(0 <= a * cols + b < before.len()) by (nonlinear_arith)
                        requires
                            (0 <= a < i && 0 <= b < cols) || (a == i && 0 <= b < j),
                            before.len() == i * cols + j,
                            0 <= j,
                            0 <= i,
                            0 <= cols,
                    ;
                    assert(out@[a * cols + b] == before[a * cols + b]);
                }
            }
        }
        assert((i + 1) * cols == i * cols + cols) by (nonlinear_arith);
    }
    let r = Matrix { rows, cols, data: out };
    assert forall|coords: Seq<int>, i: int, j: int|
        in_bounds(coords, stack(x@.shape)) && flat(stack(x@.shape), coords) == block && 0 <= i
            < r.rows && 0 <= j < r.cols implies #[trigger] r.at(i, j) == x@.at(
        #[trigger] (coords + pair(transposed, i, j)),
    ) by {
        let all = coords + pair(transposed, i, j);
        assert(all.take(dims.len() - 2) =~= coords);
        lemma_flat_matrix(dims, all);
        assert(r.at(i, j) == out@[i * cols + j]);
    }
    r
}

/// Where there are elements, there are matrices, and these have elements.
proof fn lemma_block_sizes(len: int, blocks: int, rows: int, cols: int)
    by (nonlinear_arith)
    requires
        len == blocks * rows * cols,
        len > 0,
        blocks >= 0,
        rows >= 0,
        cols >= 0,
    ensures
        rows > 0,
        cols > 0,
        0 < blocks <= len,
        0 < rows * cols <= len,
{
}

proof fn lemma_block_left(block: int, blocks: int, size: int, rows: int, cols: int)
    requires
        size == rows * cols,
        size > 0,
        block * size < blocks * rows * cols,
    ensures
        block < blocks,
        block * size + size <= blocks * rows * cols,
        size <= blocks * rows * cols || block < 0,
{
    assert(blocks * rows * cols == blocks * size) by (nonlinear_arith)
        requires
            size == rows * cols,
    ;
    assert(block < blocks) by (nonlinear_arith)
        requires
            block * size < blocks * size,
            size > 0,
    ;
    assert(block * size + size <= blocks * size) by (nonlinear_arith)
        requires
            block < blocks,
            size > 0,
    ;
    if block >= 0 {
        assert(block * size >= 0) by (nonlinear_arith)
            requires
                block >= 0,
                size > 0,
        ;
    }
}

proof fn lemma_sum_fits_same(n: int, f: spec_fn(int) -> int, g: spec_fn(int) -> int)
    requires
        sum_fits(n, f),
        forall|v: int| 0 <= v < n ==> #[trigger] f(v) == g(v),
    ensures
        sum_fits(n, g),
        n >= 0 ==> sum(n, f) == sum(n, g),
{
    assert forall|v: int| 0 <= v < n implies i64::MIN <= #[trigger] g(v) <= i64::MAX by {
        assert(f(v) == g(v));
    }
    assert forall|v: int| 0 <= v <= n implies i64::MIN <= #[trigger] sum(v, g) <= i64::MAX by {
        lemma_sum_same(v, f, g);
        assert(i64::MIN <= sum(v, f) <= i64::MAX);
    }
    lemma_sum_same(n, f, g);
}

/// The elements of the two matrices that an element of a block of the product
/// multiplies.
proof fn lemma_block_terms(
    op: BasicMatMul,
    a: Value,
    b: Value,
    coords: Seq<int>,
    x: int,
    y: int,
    full: Seq<int>,
    left: &Matrix,
    right: &Matrix,
)
    requires
        full == coords + seq![x, y],
        a.shape.len() == b.shape.len() >= 2,
        coords.len() == a.shape.len() - 2,
        in_bounds(clamp(coords, a.shape), stack(a.shape)),
        in_bounds(clamp(coords, b.shape), stack(b.shape)),
        pair_second(a.shape, op.transpose_a) == pair_first(b.shape, op.transpose_b),
        left.cols == pair_second(a.shape, op.transpose_a),
        right.rows == left.cols,
        ({
            let (l, tl, r, tr) = if op.transpose_c {
                (b, !op.transpose_b, a, !op.transpose_a)
            } else {
                (a, op.transpose_a, b, op.transpose_b)
            };
            let cl = clamp(coords, l.shape);
            let cr = clamp(coords, r.shape);
            &&& forall|i: int, j: int|
                0 <= i < left.rows && 0 <= j < left.cols ==> #[trigger] left.at(i, j) == l.at(
                    cl + pair(tl, i, j),
                )
            &&& forall|i: int, j: int|
                0 <= i < right.rows && 0 <= j < right.cols ==> #[trigger] right.at(i, j) == r.at(
                    cr + pair(tr, i, j),
                )
        }),
        0 <= x < left.rows,
        0 <= y < right.cols,
    ensures
        forall|v: int|
            0 <= v < left.cols ==> #[trigger] op.terms(a, b, full)(v) == dot_terms(
                left,
                right,
                x,
                y,
            )(v),
{
    assert(clamp(full, a.shape) =~= clamp(coords, a.shape));
    assert(clamp(full, b.shape) =~= clamp(coords, b.shape));
    assert forall|v: int| 0 <= v < left.cols implies #[trigger] op.terms(a, b, full)(v)
        == dot_terms(left, right, x, y)(v) by {
        let p = left.at(x, v);
        let q = right.at(v, y);
        if op.transpose_c {
            assert(pair(!op.transpose_b, x, v) =~= pair(op.transpose_b, v, x));
            assert(pair(!op.transpose_a, v, y) =~= pair(op.transpose_a, y, v));
            assert(p * q == q * p) by (nonlinear_arith);
        }
    }
}

/// A copy of a shape.
fn copy_shape(shape: &Vec<usize>) -> (r: Vec<usize>)
    ensures
        r@ == shape@,
{
    let mut copy: Vec<usize> = Vec::new();
    for i in 0..shape.len()
        invariant
            copy@ == shape@.take(i as int),
    {
        copy.push(shape[i]);
        assert(shape@.take(i + 1) =~= shape@.take(i as int).push(shape@[i as int]));
    }
    assert(shape@.take(shape@.len() as int) =~= shape@);
    copy
}

impl BasicMatMul {
    /// Whether two tensors can be multiplied: they have the same rank, and as
    /// many columns in the first as there are rows in the second; no stacked
    /// axis of the second is empty unless the product is; every sum can be
    /// computed on `i64`; and the shapes are within reach of the machine.
    pub open spec fn multiplies(self, a: Value, b: Value) -> bool {
        let dims = self.dims(a.shape, b.shape, 1);
        &&& a.shape.len() == b.shape.len() >= 2
        &&& pair_second(a.shape, self.transpose_a) == pair_first(b.shape, self.transpose_b)
        &&& volume(dims.take(dims.len() - 2)) > 0 ==> forall|i: int|
            0 <= i < b.shape.len() - 2 ==> 0 < #[trigger] b.shape[i]
        &&& forall|coords: Seq<int>| #[trigger]
            in_bounds(coords, dims) ==> sum_fits(
                pair_second(a.shape, self.transpose_a),
                self.terms(a, b, coords),
            )
        &&& addressable(a.shape)
        &&& addressable(b.shape)
        &&& addressable(dims)
        &&& 8 * volume(dims) <= isize::MAX
    }

    /// The shape of the product.
    pub fn output_shape<D: DimLike>(&self, a: &Vec<D>, b: &Vec<D>) -> (r: Vec<D>)
        requires
            a@.len() >= 2,
            b@.len() >= 2,
            forall|i: int|
                0 <= i < a@.len() - 2 && #[trigger] a@[i] == D::unit() ==> i < b@.len(),
        ensures
            r@ == self.dims(a@, b@, D::unit()),
    {
        let n = a.len() - 2;
        let ghost dims = self.dims(a@, b@, D::unit());
        let mut output: Vec<D> = Vec::new();
        for i in 0..n
            invariant
                n == a@.len() - 2,
                forall|j: int|
                    0 <= j < a@.len() - 2 && #[trigger] a@[j] == D::unit() ==> j < b@.len(),
                dims == self.dims(a@, b@, D::unit()),
                output@ == dims.take(i as int),
        {
            let d = a[i];
            output.push(
                if d.is_one() {
                    b[i]
                } else {
                    d
                },
            );
            assert(output@ =~= dims.take(i + 1));
        }
        let rows = a[if self.transpose_a {
            a.len() - 1
        } else {
            a.len() - 2
        }];
        let cols = b[if self.transpose_b {
            b.len() - 2
        } else {
            b.len() - 1
        }];
        if self.transpose_c {
            output.push(cols);
            output.push(rows);
        } else {
            output.push(rows);
            output.push(cols);
        }
        assert(output@ =~= dims);
        output
    }

    /// The name of the operator.
    pub fn name(&self) -> (r: String)
        ensures
            r@ == "MatMul"@,
    {
        "MatMul".to_owned()
    }

    /// Whether a run of the operator leaves nothing behind for the next.
    pub fn is_stateless(&self) -> (r: bool)
        ensures
            r,
    {
        true
    }

    /// The product of the tensors, if there are two of them.
    pub fn eval(&self, inputs: Vec<Tensor>) -> (r: Result<Vec<Tensor>, Error>)
        requires
            inputs@.len() == 2 ==> self.multiplies(inputs@[0]@, inputs@[1]@),
        ensures
            match r {
                Ok(outputs) => inputs@.len() == 2 && outputs@.len() == 1 && outputs@[0]@
                    == self.product(inputs@[0]@, inputs@[1]@),
                Err(e) => inputs@.len() != 2 && e == Error::NotTwoInputs,
            },
    {
        if inputs.len() != 2 {
            return Err(Error::NotTwoInputs);
        }
        let a = &inputs[0];
        let b = &inputs[1];
        let shape = self.output_shape(a.shape(), b.shape());
        assert(ints(shape@) =~= self.dims(a@.shape, b@.shape, 1));
        let mut c = Tensor::zero(shape);
        self.eval_t(&mut c, a, b);
        let mut outputs: Vec<Tensor> = Vec::new();
        outputs.push(c);
        Ok(outputs)
    }

    /// One matrix of the product.
    fn product_block(&self, shape: &Vec<usize>, a: &Tensor, b: &Tensor, block: usize) -> (r: Matrix)
        requires
            self.multiplies(a@, b@),
            ints(shape@) == self.dims(a@.shape, b@.shape, 1),
            block < volume(stack(ints(shape@))),
        ensures
            r.wf(),
            r.rows == shape@[shape@.len() - 2],
            r.cols == shape@[shape@.len() - 1],
            forall|i: int, j: int|
                0 <= i < r.rows && 0 <= j < r.cols ==> #[trigger] r.at(i, j) == self.entry(a@, b@)(
                    unflat(stack(ints(shape@)), block as int) + seq![i, j],
                ),
    {
        let ghost dims = self.dims(a@.shape, b@.shape, 1);
        let n = shape.len();
        let coords = coordinates(shape, n - 2, block);
        let ghost at = ints(coords@);
        proof {
            assert(at =~= unflat(stack(dims), block as int));
            assert forall|i: int| 0 <= i < n - 2 implies 0 < #[trigger] a@.shape[i] by {
                assert(0 <= at[i] < stack(dims)[i]);
                assert(dims[i] == if a@.shape[i] == 1 {
                    b@.shape[i]
                } else {
                    a@.shape[i]
                });
            }
            assert forall|i: int| 0 <= i < n - 2 implies 0 <= #[trigger] at[i] by {
                assert(0 <= at[i] < stack(dims)[i]);
            }
            lemma_clamp_in_bounds(at, a@.shape);
            lemma_clamp_in_bounds(at, b@.shape);
            lemma_span(a@.shape);
            lemma_span(b@.shape);
        }
        let a_block = block_of(a.shape(), &coords);
        let b_block = block_of(b.shape(), &coords);
        let (left, right) = if self.transpose_c {
            (matrix_of(b, b_block, !self.transpose_b), matrix_of(a, a_block, !self.transpose_a))
        } else {
            (matrix_of(a, a_block, self.transpose_a), matrix_of(b, b_block, self.transpose_b))
        };
        proof {
            assert(dims[n - 2] == left.rows && dims[n - 1] == right.cols);
            lemma_flat_matrix(dims, dims);
            let blocks = volume(stack(dims));
            let rows = left.rows as int;
            let cols = right.cols as int;
            assert(rows * cols <= blocks * rows * cols) by (nonlinear_arith)
                requires
                    blocks >= 1,
                    rows >= 0,
                    cols >= 0,
            ;
            assert forall|i: int, j: int| 0 <= i < rows && 0 <= j < cols implies sum_fits(
                left.cols as int,
                #[trigger] dot_terms(&left, &right, i, j),
            ) && sum(left.cols as int, dot_terms(&left, &right, i, j)) == self.entry(a@, b@)(
                at + seq![i, j],
            ) by {
                let full = at + seq![i, j];
                lemma_block_terms(*self, a@, b@, at, i, j, full, &left, &right);
                assert(in_bounds(full, dims)) by {
                    assert forall|q: int| 0 <= q < dims.len() implies 0 <= #[trigger] full[q]
                        < dims[q] by {
                        if q < n - 2 {
                            assert(0 <= at[q] < stack(dims)[q]);
                        }
                    }
                }
                lemma_sum_fits_same(
                    left.cols as int,
                    self.terms(a@, b@, full),
                    dot_terms(&left, &right, i, j),
                );
            }
        }
        dot(&left, &right)
    }

    /// Adds the elements of one matrix of the product to those before it.
    fn push_block(
        &self,
        shape: &Vec<usize>,
        a: &Tensor,
        b: &Tensor,
        block: usize,
        out: &mut Vec<i64>,
    )
        requires
            self.multiplies(a@, b@),
            ints(shape@) == self.dims(a@.shape, b@.shape, 1),
            block < volume(stack(ints(shape@))),
            shape@[shape@.len() - 2] * shape@[shape@.len() - 1] <= usize::MAX,
            shape@[shape@.len() - 1] > 0,
            old(out)@.len() == block * (shape@[shape@.len() - 2] * shape@[shape@.len() - 1]),
        ensures
            final(out)@.len() == old(out)@.len() + shape@[shape@.len() - 2] * shape@[shape@.len()
                - 1],
            forall|q: int| 0 <= q < old(out)@.len() ==> #[trigger] final(out)@[q] == old(out)@[q],
            forall|q: int|
                old(out)@.len() <= q < final(out)@.len() ==> #[trigger] final(out)@[q] == self.entry(
                    a@,
                    b@,
                )(unflat(ints(shape@), q)),
    {
        let n = shape.len();
        let rows = shape[n - 2];
        let cols = shape[n - 1];
        let size = rows * cols;
        let product = self.product_block(shape, a, b, block);
        let ghost before = out@;
        let ghost dims = ints(shape@);
        let ghost entry = self.entry(a@, b@);
        for t in 0..size
            invariant
                size == rows * cols,
                cols > 0,
                n == shape@.len(),
                n >= 2,
                dims == ints(shape@),
                rows == dims[n - 2],
                cols == dims[n - 1],
                product.wf(),
                product.rows == rows,
                product.cols == cols,
                forall|i: int, j: int|
                    0 <= i < rows && 0 <= j < cols ==> #[trigger] product.at(i, j) == entry(
                        unflat(stack(dims), block as int) + seq![i, j],
                    ),
                before.len() == block * (rows * cols),
                out@.len() == before.len() + t,
                forall|q: int| 0 <= q < before.len() ==> #[trigger] out@[q] == before[q],
                forall|q: int|
                    before.len() <= q < out@.len() ==> #[trigger] out@[q] == entry(
                        unflat(dims, q),
                    ),
        {
            proof {
                let i = t as int / (cols as int);
                let j = t as int % (cols as int);
                vstd::arithmetic::div_mod::lemma_fundamental_div_mod(t as int, cols as int);
                assert(0 <= i < rows) by (nonlinear_arith)
                    requires
                        t == cols * i + j,
                        0 <= j < cols,
                        0 <= t < rows * cols,
                ;
                lemma_unflat_matrix(dims, block as int, i, j);
                assert((block * rows + i) * cols + j == block * (rows * cols) + t)
                    by (nonlinear_arith)
                    requires
                        t == cols * i + j,
                ;
                assert(i * cols + j == t) by (nonlinear_arith)
                    requires
                        t == cols * i + j,
                ;
                assert(product.at(i, j) == product.data@[t as int]);
            }
            out.push(product.data[t]);
        }
    }

    /// The elements of the product, matrix by matrix.
    fn push_blocks(
        &self,
        shape: &Vec<usize>,
        a: &Tensor,
        b: &Tensor,
        len: usize,
        out: &mut Vec<i64>,
        Ghost(blocks): Ghost<int>,
        Ghost(size): Ghost<int>,
    )
        requires
            self.multiplies(a@, b@),
            ints(shape@) == self.dims(a@.shape, b@.shape, 1),
            shape@.len() >= 2,
            blocks == volume(stack(ints(shape@))),
            size == ints(shape@)[shape@.len() - 2] * ints(shape@)[shape@.len() - 1],
            len == blocks * ints(shape@)[shape@.len() - 2] * ints(shape@)[shape@.len() - 1],
            ints(shape@)[shape@.len() - 1] > 0,
            0 < size <= len,
            blocks <= len,
            old(out)@.len() == 0,
        ensures
            final(out)@.len() == len,
            forall|q: int|
                0 <= q < len ==> #[trigger] final(out)@[q] == self.entry(a@, b@)(
                    unflat(ints(shape@), q),
                ),
    {
        let n = shape.len();
        let ghost dims = ints(shape@);
        let mut block: usize = 0;
        assert(0 * size == 0);
        while out.len() < len
            invariant
                self.multiplies(a@, b@),
                dims == self.dims(a@.shape, b@.shape, 1),
                ints(shape@) == dims,
                n == shape@.len(),
                n >= 2,
                dims[n - 1] > 0,
                blocks == volume(stack(dims)),
                len == blocks * dims[n - 2] * dims[n - 1],
                size == dims[n - 2] * dims[n - 1],
                0 < size <= len,
                blocks <= len,
                out@.len() == block * size,
                out@.len() <= len,
                forall|q: int|
                    0 <= q < out@.len() ==> #[trigger] out@[q] == self.entry(a@, b@)(
                        unflat(dims, q),
                    ),
            decreases len - out@.len(),
        {
            proof {
                lemma_block_left(block as int, blocks, size, dims[n - 2], dims[n - 1]);
            }
            self.push_block(shape, a, b, block, out);
            assert((block + 1) * size == block * size + size) by (nonlinear_arith);
            block = block + 1;
        }
    }

    /// The elements of the product.
    fn elements(&self, shape: &Vec<usize>, a: &Tensor, b: &Tensor, len: usize) -> (r: Vec<i64>)
        requires
            self.multiplies(a@, b@),
            ints(shape@) == self.dims(a@.shape, b@.shape, 1),
            len == volume(ints(shape@)),
        ensures
            r@.len() == len,
            forall|q: int|
                0 <= q < len ==> #[trigger] r@[q] == self.entry(a@, b@)(unflat(ints(shape@), q)),
    {
        let mut out: Vec<i64> = Vec::new();
        if len == 0 {
            return out;
        }
        let ghost dims = ints(shape@);
        let ghost n = shape@.len() as int;
        let ghost blocks = volume(stack(dims));
        let ghost size = dims[n - 2] * dims[n - 1];
        proof {
            lemma_flat_matrix(dims, dims);
            assert(is_shape(stack(dims)));
            lemma_volume_nonneg(stack(dims));
            lemma_block_sizes(len as int, blocks, dims[n - 2], dims[n - 1]);
        }
        self.push_blocks(shape, a, b, len, &mut out, Ghost(blocks), Ghost(size));
        out
    }

    /// Computes the product of two tensors into a third, of its shape.
    pub fn eval_t(&self, c: &mut Tensor, a: &Tensor, b: &Tensor)
        requires
            self.multiplies(a@, b@),
            old(c)@.shape == self.dims(a@.shape, b@.shape, 1),
        ensures
            final(c)@ == self.product(a@, b@),
    {
        let ghost dims = self.dims(a@.shape, b@.shape, 1);
        let shape = copy_shape(c.shape());
        let len = c.data().len();
        let out = self.elements(&shape, a, b, len);
        match Tensor::new(shape, out) {
            Some(t) => {
                assert(t@.data =~= tabulate(dims, self.entry(a@, b@)).data);
                *c = t;
            },
            None => {
                assert(false);
            },
        }
    }
}

} // verus!
