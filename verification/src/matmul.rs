//! The batched matrix product.

use vstd::prelude::*;

use crate::axis_values::lemma_tabulated;
use crate::labels::Expr;
use crate::product::{
    Assignment, bind, broadcasts, coords_in, einsum, einsum_entry, extent, is_binary, is_summed,
    lemma_bind, lemma_extent_two, lemma_output_shape, lemma_row_extent_single,
    lemma_row_extent_trivial, lemma_sum_same, lemma_total_single, lemma_units, output_dims,
    same_but_units, shapes_of, suits, sum, summed_extents, term,
};
use crate::tensor::{Value, in_bounds, is_shape, lemma_tabulate_same, tabulate};

verus! {

/// The product of two stacks of matrices. The last two axes of an operand are
/// the rows and the columns of its matrices, or the columns and the rows where
/// it is transposed; the axes before them are stacked, and broadcast.
#[derive(Clone, Copy, Debug, PartialEq, Eq, Structural)]
pub struct BasicMatMul {
    pub transpose_a: bool,
    pub transpose_b: bool,
    pub transpose_c: bool,
}

/// Two things, in this order or in the other.
pub open spec fn pair<T>(transposed: bool, x: T, y: T) -> Seq<T> {
    if transposed {
        seq![y, x]
    } else {
        seq![x, y]
    }
}

/// The first of a pair at the end of a sequence.
pub open spec fn pair_first<T>(s: Seq<T>, transposed: bool) -> T {
    if transposed {
        s[s.len() - 1]
    } else {
        s[s.len() - 2]
    }
}

/// The second of a pair at the end of a sequence.
pub open spec fn pair_second<T>(s: Seq<T>, transposed: bool) -> T {
    if transposed {
        s[s.len() - 2]
    } else {
        s[s.len() - 1]
    }
}

impl BasicMatMul {
    /// The shape of the product: the stacked axes, each that of the first
    /// operand unless this is one; then the rows of the first operand and the
    /// columns of the second.
    pub open spec fn dims<D>(self, a: Seq<D>, b: Seq<D>, one: D) -> Seq<D> {
        Seq::new(
            (a.len() - 2) as nat,
            |i: int|
                if a[i] == one {
                    b[i]
                } else {
                    a[i]
                },
        ) + pair(
            self.transpose_c,
            pair_first(a, self.transpose_a),
            pair_second(b, self.transpose_b),
        )
    }

    /// The terms that an element of the product sums up.
    pub open spec fn terms(self, a: Value, b: Value, coords: Seq<int>) -> spec_fn(int) -> int {
        |v: int|
            a.at(
                clamp(coords, a.shape) + pair(
                    self.transpose_a,
                    pair_first(coords, self.transpose_c),
                    v,
                ),
            ) * b.at(
                clamp(coords, b.shape) + pair(
                    self.transpose_b,
                    v,
                    pair_second(coords, self.transpose_c),
                ),
            )
    }

    /// An element of the product.
    pub open spec fn entry(self, a: Value, b: Value) -> spec_fn(Seq<int>) -> int {
        |coords: Seq<int>|
            sum(pair_second(a.shape, self.transpose_a), self.terms(a, b, coords))
    }

    /// What the product computes.
    pub open spec fn product(self, a: Value, b: Value) -> Value {
        tabulate(self.dims(a.shape, b.shape, 1), self.entry(a, b))
    }
}

/// Coordinates along the stacked axes of an operand: those of the product, cut
/// to the last one that the operand has.
pub open spec fn clamp(coords: Seq<int>, shape: Seq<int>) -> Seq<int> {
    Seq::new(
        (shape.len() - 2) as nat,
        |i: int|
            if coords[i] < shape[i] - 1 {
                coords[i]
            } else {
                shape[i] - 1
            },
    )
}

/// Whether an expression is that of a batched matrix product: the same labels
/// in front in both inputs and in the output, then `m` and `k` in the first
/// input, `k` and `n` in the second, `m` and `n` in the output, as the product
/// transposes them.
pub open spec fn is_batched(e: Expr, op: BasicMatMul, m: char, k: char, n: char) -> bool {
    let batch = e.inputs[0].take(e.inputs[0].len() - 2);
    &&& e.inputs.len() == 2
    &&& e.outputs.len() == 1
    &&& e.inputs[0].len() >= 2
    &&& e.inputs[0] == batch + pair(op.transpose_a, m, k)
    &&& e.inputs[1] == batch + pair(op.transpose_b, k, n)
    &&& e.outputs[0] == batch + pair(op.transpose_c, m, n)
    &&& (batch + seq![m, k, n]).no_duplicates()
}

proof fn lemma_batch_distinct(
    batch: Seq<char>,
    m: char,
    k: char,
    n: char,
    x: char,
    y: char,
    t: bool,
)
    requires
        (batch + seq![m, k, n]).no_duplicates(),
        x == m || x == k || x == n,
        y == m || y == k || y == n,
    ensures
        x != y ==> (batch + pair(t, x, y)).no_duplicates(),
        forall|c: char| #[trigger]
            (batch + pair(t, x, y)).contains(c) <==> batch.contains(c) || c == x || c == y,
        !batch.contains(m),
        !batch.contains(k),
        !batch.contains(n),
        m != k && m != n && k != n,
{
    let all = batch + seq![m, k, n];
    let w = batch.len() as int;
    assert(all[w] == m && all[w + 1] == k && all[w + 2] == n);
    assert forall|i: int| 0 <= i < w implies #[trigger] batch[i] != m && batch[i] != k && batch[i]
        != n by {
        assert(all[i] == batch[i]);
    }
    let some = batch + pair(t, x, y);
    assert forall|i: int, j: int|
        x != y && 0 <= i < some.len() && 0 <= j < some.len() && i != j implies some[i]
        != some[j] by {
        if i < w && j < w {
            assert(all[i] == batch[i] && all[j] == batch[j]);
        } else if i < w {
            assert(some[i] == batch[i]);
        } else if j < w {
            assert(some[j] == batch[j]);
        }
    }
    assert forall|c: char| #[trigger] some.contains(c) <==> batch.contains(c) || c == x || c
        == y by {
        if some.contains(c) {
            let i = choose|i: int| 0 <= i < some.len() && some[i] == c;
            if i < w {
                assert(batch[i] == c);
            }
        }
        if batch.contains(c) {
            let i = choose|i: int| 0 <= i < batch.len() && batch[i] == c;
            assert(some[i] == c);
        }
        if t {
            assert(some[w] == y && some[w + 1] == x);
        } else {
            assert(some[w] == x && some[w + 1] == y);
        }
    }
}

/// The extent of a label of a batched matrix product.
proof fn lemma_batched_extent<D>(
    e: Expr,
    shapes: Seq<Seq<D>>,
    op: BasicMatMul,
    m: char,
    k: char,
    n: char,
    one: D,
)
    requires
        is_batched(e, op, m, k, n),
        shapes.len() == 2,
        shapes[0].len() == e.inputs[0].len(),
        shapes[1].len() == e.inputs[1].len(),
    ensures
        is_binary(e),
        e.inputs[1].len() == e.inputs[0].len(),
        e.outputs[0].len() == e.inputs[0].len(),
        forall|q: int|
            0 <= q < e.inputs[0].len() - 2 ==> extent(
                e.inputs,
                shapes,
                #[trigger] e.outputs[0][q],
                one,
            ) == if shapes[0][q] == one {
                shapes[1][q]
            } else {
                shapes[0][q]
            },
        extent(e.inputs, shapes, m, one) == pair_first(shapes[0], op.transpose_a),
        extent(e.inputs, shapes, n, one) == pair_second(shapes[1], op.transpose_b),
        extent(e.inputs, shapes, k, one) == if pair_second(shapes[0], op.transpose_a) == one {
            pair_first(shapes[1], op.transpose_b)
        } else {
            pair_second(shapes[0], op.transpose_a)
        },
{
    let r = e.inputs[0].len();
    let batch = e.inputs[0].take(r - 2);
    lemma_batch_distinct(batch, m, k, n, m, k, op.transpose_a);
    lemma_batch_distinct(batch, m, k, n, k, n, op.transpose_b);
    lemma_batch_distinct(batch, m, k, n, m, n, op.transpose_c);
    assert forall|q: int| 0 <= q < r - 2 implies extent(
        e.inputs,
        shapes,
        #[trigger] e.outputs[0][q],
        one,
    ) == if shapes[0][q] == one {
        shapes[1][q]
    } else {
        shapes[0][q]
    } by {
        let c = e.outputs[0][q];
        assert(c == batch[q]);
        assert(e.inputs[0][q] == c && e.inputs[1][q] == c);
        lemma_extent_two(e.inputs, shapes, c, one);
        lemma_row_extent_single(e.inputs[0], shapes[0], c, q, one);
        lemma_row_extent_single(e.inputs[1], shapes[1], c, q, one);
    }
    let pm: int = if op.transpose_a {
        r - 1
    } else {
        r - 2
    };
    let pk: int = if op.transpose_a {
        r - 2
    } else {
        r - 1
    };
    let qk: int = if op.transpose_b {
        r - 1
    } else {
        r - 2
    };
    let qn: int = if op.transpose_b {
        r - 2
    } else {
        r - 1
    };
    assert(e.inputs[0][pm] == m && e.inputs[0][pk] == k);
    assert(e.inputs[1][qk] == k && e.inputs[1][qn] == n);
    lemma_extent_two(e.inputs, shapes, m, one);
    lemma_row_extent_single(e.inputs[0], shapes[0], m, pm, one);
    assert(!e.inputs[1].contains(m));
    lemma_row_extent_trivial(e.inputs[1], shapes[1], m, one);
    lemma_extent_two(e.inputs, shapes, k, one);
    lemma_row_extent_single(e.inputs[0], shapes[0], k, pk, one);
    lemma_row_extent_single(e.inputs[1], shapes[1], k, qk, one);
    lemma_extent_two(e.inputs, shapes, n, one);
    lemma_row_extent_single(e.inputs[1], shapes[1], n, qn, one);
    assert(!e.inputs[0].contains(n));
    lemma_row_extent_trivial(e.inputs[0], shapes[0], n, one);
}

/// The coordinates in an operand that values of the labels give.
proof fn lemma_batched_coords(
    labels: Seq<char>,
    batch: Seq<char>,
    shape: Seq<int>,
    t: bool,
    x: char,
    y: char,
    values: Assignment,
    coords: Seq<int>,
    i: int,
    j: int,
)
    requires
        labels == batch + pair(t, x, y),
        shape.len() == labels.len(),
        coords.len() >= batch.len(),
        forall|q: int| 0 <= q < batch.len() ==> values[#[trigger] batch[q]] == coords[q],
        forall|q: int| 0 <= q < batch.len() ==> 0 <= #[trigger] coords[q],
        forall|q: int|
            0 <= q < batch.len() && shape[q] != 1 ==> #[trigger] coords[q] < shape[q],
        values[x] == i,
        values[y] == j,
        0 <= i < pair_first(shape, t),
        0 <= j < pair_second(shape, t),
    ensures
        coords_in(labels, shape, values) == clamp(coords, shape) + pair(t, i, j),
{
    let left = coords_in(labels, shape, values);
    let right = clamp(coords, shape) + pair(t, i, j);
    assert(left.len() == right.len());
    assert forall|p: int| 0 <= p < left.len() implies #[trigger] left[p] == right[p] by {
        if p < batch.len() {
            assert(labels[p] == batch[p]);
            assert(0 <= coords[p]);
        } else if p == batch.len() {
            assert(labels[p] == pair(t, x, y)[0]);
        } else {
            assert(labels[p] == pair(t, x, y)[1]);
        }
    }
    assert(left =~= right);
}

/// A batched matrix product has the shape of the einsum of its expression.
pub proof fn lemma_batched_dims<D>(
    e: Expr,
    shapes: Seq<Seq<D>>,
    op: BasicMatMul,
    m: char,
    k: char,
    n: char,
    one: D,
)
    requires
        is_batched(e, op, m, k, n),
        shapes.len() == 2,
        shapes[0].len() == e.inputs[0].len(),
        shapes[1].len() == e.inputs[1].len(),
    ensures
        op.dims(shapes[0], shapes[1], one) == output_dims(e, shapes, one),
{
    let r = e.inputs[0].len();
    let dims = output_dims(e, shapes, one);
    let other = op.dims(shapes[0], shapes[1], one);
    lemma_batched_extent(e, shapes, op, m, k, n, one);
    assert forall|p: int| 0 <= p < dims.len() implies #[trigger] dims[p] == other[p] by {
        if p >= r - 2 {
            assert(e.outputs[0][p] == pair(op.transpose_c, m, n)[p - (r - 2)]);
        }
    }
    assert(other =~= dims);
}

/// The parts that the labels of a batched matrix product play: the sums are once
/// in each input and not in the output, the rows and the columns once in their
/// input and in the output, and the others once in all.
pub proof fn lemma_batched_parts(e: Expr, op: BasicMatMul, m: char, k: char, n: char, c: char)
    requires
        is_batched(e, op, m, k, n),
    ensures
        m != k && k != n && m != n,
        e.inputs[0].no_duplicates(),
        e.inputs[1].no_duplicates(),
        e.outputs[0].no_duplicates(),
        e.inputs[0].contains(c) && c != k ==> e.outputs[0].contains(c),
        e.inputs[1].contains(c) && c != k ==> e.outputs[0].contains(c),
        !e.outputs[0].contains(k),
        !e.inputs[1].contains(m),
        !e.inputs[0].contains(n),
{
    let batch = e.inputs[0].take(e.inputs[0].len() - 2);
    lemma_batch_distinct(batch, m, k, n, m, k, op.transpose_a);
    lemma_batch_distinct(batch, m, k, n, k, n, op.transpose_b);
    lemma_batch_distinct(batch, m, k, n, m, n, op.transpose_c);
    assert(e.inputs[0].contains(c) <==> batch.contains(c) || c == m || c == k);
    assert(e.inputs[1].contains(c) <==> batch.contains(c) || c == k || c == n);
    assert(e.outputs[0].contains(c) <==> batch.contains(c) || c == m || c == n);
    assert(!e.outputs[0].contains(k));
    assert(!e.inputs[1].contains(m));
    assert(!e.inputs[0].contains(n));
}

/// A batched matrix product computes the einsum of its expression.
pub proof fn lemma_batched(
    e: Expr,
    xs: Seq<Value>,
    op: BasicMatMul,
    m: char,
    k: char,
    n: char,
)
    requires
        is_batched(e, op, m, k, n),
        suits(e, xs),
        broadcasts(e, shapes_of(xs)),
        pair_second(xs[0].shape, op.transpose_a) == pair_first(xs[1].shape, op.transpose_b),
    ensures
        op.product(xs[0], xs[1]) == einsum(e, xs),
{
    let r = e.inputs[0].len();
    let batch = e.inputs[0].take(r - 2);
    let shapes = shapes_of(xs);
    let a = xs[0];
    let b = xs[1];
    let depth = pair_second(a.shape, op.transpose_a);
    assert(a.valid() && b.valid());
    lemma_batched_extent(e, shapes, op, m, k, n, 1int);
    lemma_batch_distinct(batch, m, k, n, m, k, op.transpose_a);
    lemma_batch_distinct(batch, m, k, n, k, n, op.transpose_b);
    lemma_batch_distinct(batch, m, k, n, m, n, op.transpose_c);
    lemma_output_shape(e, xs);
    let dims = output_dims(e, shapes, 1);
    lemma_batched_dims(e, shapes, op, m, k, n, 1int);
    let extents = summed_extents(e, shapes);
    assert(extents(k) == Some(depth)) by {
        assert(e.inputs[0].contains(k));
    }
    assert forall|c: char| c != k implies #[trigger] extents(c) is None by {
        if is_summed(e, c) {
            let s = choose|s: int| 0 <= s < e.inputs.len() && (#[trigger] e.inputs[s]).contains(c);
            assert(s == 0 || s == 1);
            assert(e.inputs[0].contains(c) || e.inputs[1].contains(c));
            assert(e.outputs[0].contains(c));
        }
    }
    assert forall|coords: Seq<int>| #[trigger] in_bounds(coords, dims) implies op.entry(a, b)(
        coords,
    ) == einsum_entry(e, xs)(coords) by {
        let base = bind(e.outputs[0], coords);
        lemma_total_single(extents, term(e, xs), base, k, depth, 0);
        let i = pair_first(coords, op.transpose_c);
        let j = pair_second(coords, op.transpose_c);
        let pm: int = if op.transpose_c {
            r - 1
        } else {
            r - 2
        };
        let pn: int = if op.transpose_c {
            r - 2
        } else {
            r - 1
        };
        assert(e.outputs[0][pm] == m && e.outputs[0][pn] == n);
        lemma_bind(e.outputs[0], coords, pm);
        lemma_bind(e.outputs[0], coords, pn);
        assert(0 <= coords[pm] < dims[pm] && 0 <= coords[pn] < dims[pn]);
        let f = op.terms(a, b, coords);
        let g = |v: int| term(e, xs)(base.insert(k, v));
        assert forall|v: int| 0 <= v < depth implies #[trigger] f(v) == g(v) by {
            let values = base.insert(k, v);
            assert forall|q: int| 0 <= q < batch.len() implies values[#[trigger] batch[q]]
                == coords[q] by {
                assert(batch.contains(batch[q]));
                assert(e.outputs[0][q] == batch[q]);
                lemma_bind(e.outputs[0], coords, q);
            }
            assert forall|q: int| 0 <= q < batch.len() implies 0 <= #[trigger] coords[q] by {
                assert(0 <= coords[q] < dims[q]);
            }
            assert forall|q: int| 0 <= q < batch.len() && a.shape[q] != 1 implies #[trigger] coords[q]
                < a.shape[q] by {
                assert(0 <= coords[q] < dims[q]);
                assert(e.outputs[0][q] == batch[q]);
            }
            assert forall|q: int| 0 <= q < batch.len() && b.shape[q] != 1 implies #[trigger] coords[q]
                < b.shape[q] by {
                assert(0 <= coords[q] < dims[q]);
                assert(e.outputs[0][q] == batch[q]);
                assert(e.inputs[1][q] == batch[q]);
            }
            lemma_batched_coords(
                e.inputs[0],
                batch,
                a.shape,
                op.transpose_a,
                m,
                k,
                values,
                coords,
                i,
                v,
            );
            lemma_batched_coords(
                e.inputs[1],
                batch,
                b.shape,
                op.transpose_b,
                k,
                n,
                values,
                coords,
                v,
                j,
            );
        }
        lemma_sum_same(depth, f, g);
    }
    lemma_tabulate_same(dims, op.entry(a, b), einsum_entry(e, xs));
}

/// Whether an expression is that of a batched matrix product, but for the labels
/// of input axes of dimension one.
pub open spec fn lays_out(e: Expr, shapes: Seq<Seq<int>>, op: BasicMatMul) -> bool {
    exists|f: Expr, m: char, k: char, n: char|
        #![trigger is_batched(f, op, m, k, n)]
        same_but_units(e, f, shapes) && is_batched(f, op, m, k, n)
}

/// A batched matrix product computes the einsum of an expression that is its own
/// but for axes of dimension one.
pub proof fn lemma_laid_out(e: Expr, xs: Seq<Value>, op: BasicMatMul)
    requires
        is_binary(e),
        suits(e, xs),
        broadcasts(e, shapes_of(xs)),
        lays_out(e, shapes_of(xs), op),
        pair_second(xs[0].shape, op.transpose_a) == pair_first(xs[1].shape, op.transpose_b),
    ensures
        op.product(xs[0], xs[1]) == einsum(e, xs),
{
    let (f, m, k, n) = choose|f: Expr, m: char, k: char, n: char|
        #![trigger is_batched(f, op, m, k, n)]
        same_but_units(e, f, shapes_of(xs)) && is_batched(f, op, m, k, n);
    lemma_units(e, f, xs);
    assert(suits(f, xs)) by {
        assert forall|s: int| 0 <= s < xs.len() implies (#[trigger] xs[s]).valid()
            && xs[s].shape.len() == f.inputs[s].len() by {
            assert(f.inputs[s].len() == e.inputs[s].len());
        }
    }
    lemma_batched(f, xs, op, m, k, n);
}

/// The coordinates of an element of a matrix of a stack: that at the same place as others,
/// or the last along an axis that ends before.
pub open spec fn matrix_at(coords: Seq<int>, shape: Seq<int>, u: int, v: int) -> Seq<int> {
    let n = shape.len();
    Seq::new(
        n,
        |p: int|
            if p == n - 2 {
                u
            } else if p == n - 1 {
                v
            } else if coords[p] >= shape[p] {
                shape[p] - 1
            } else {
                coords[p]
            },
    )
}

/// The products of the elements of a row of one matrix and of a column of another.
pub open spec fn row_by_column(op: BasicMatMul, a: Value, b: Value, coords: Seq<int>) -> spec_fn(
    int,
) -> int {
    let n = coords.len();
    let (i, j) = if op.transpose_c {
        (coords[n - 1], coords[n - 2])
    } else {
        (coords[n - 2], coords[n - 1])
    };
    |v: int|
        a.at(
            if op.transpose_a {
                matrix_at(coords, a.shape, v, i)
            } else {
                matrix_at(coords, a.shape, i, v)
            },
        ) * b.at(
            if op.transpose_b {
                matrix_at(coords, b.shape, j, v)
            } else {
                matrix_at(coords, b.shape, v, j)
            },
        )
}

/// The shape and the elements of a product of stacks of matrices, axis by axis.
///
/// Along a stacked axis it has the dimension of the first operand, or of the second where
/// that is one. An element is the sum, along the columns of the matrix of the first
/// operand, of its row times the column of the matrix of the second; each matrix is the
/// one at the same place of the stack, or the last along an axis that ends before. What is
/// transposed has its two last axes exchanged.
pub proof fn lemma_product_elements(op: BasicMatMul, a: Value, b: Value, coords: Seq<int>)
    requires
        a.valid(),
        b.valid(),
        a.shape.len() == b.shape.len(),
        a.shape.len() >= 2,
        in_bounds(coords, op.product(a, b).shape),
    ensures
        ({
            let n = a.shape.len() as int;
            let c = op.product(a, b);
            let (rows, depth) = if op.transpose_a {
                (a.shape[n - 1], a.shape[n - 2])
            } else {
                (a.shape[n - 2], a.shape[n - 1])
            };
            let columns = if op.transpose_b {
                b.shape[n - 2]
            } else {
                b.shape[n - 1]
            };
            &&& c.valid()
            &&& c.shape.len() == n
            &&& forall|p: int|
                0 <= p < n - 2 ==> #[trigger] c.shape[p] == if a.shape[p] == 1 {
                    b.shape[p]
                } else {
                    a.shape[p]
                }
            &&& if op.transpose_c {
                c.shape[n - 2] == columns && c.shape[n - 1] == rows
            } else {
                c.shape[n - 2] == rows && c.shape[n - 1] == columns
            }
            &&& c.at(coords) == sum(depth, row_by_column(op, a, b, coords))
        }),
{
    let n = a.shape.len() as int;
    let dims = op.dims(a.shape, b.shape, 1);
    assert(is_shape(dims)) by {
        assert forall|p: int| 0 <= p < dims.len() implies 0 <= #[trigger] dims[p] by {
            if p < n - 2 {
                assert(0 <= a.shape[p] && 0 <= b.shape[p]);
            } else {
                assert(0 <= a.shape[n - 1] && 0 <= a.shape[n - 2]);
                assert(0 <= b.shape[n - 1] && 0 <= b.shape[n - 2]);
            }
        }
    }
    lemma_tabulated(dims, op.entry(a, b), coords);
    let left = op.terms(a, b, coords);
    let right = row_by_column(op, a, b, coords);
    let (i, j) = if op.transpose_c {
        (coords[n - 1], coords[n - 2])
    } else {
        (coords[n - 2], coords[n - 1])
    };
    assert forall|v: int| #[trigger] left(v) == right(v) by {
        let x = clamp(coords, a.shape) + pair(op.transpose_a, i, v);
        let y = clamp(coords, b.shape) + pair(op.transpose_b, v, j);
        if op.transpose_a {
            assert(x =~= matrix_at(coords, a.shape, v, i));
        } else {
            assert(x =~= matrix_at(coords, a.shape, i, v));
        }
        if op.transpose_b {
            assert(y =~= matrix_at(coords, b.shape, j, v));
        } else {
            assert(y =~= matrix_at(coords, b.shape, v, j));
        }
    }
    lemma_sum_same(pair_second(a.shape, op.transpose_a), left, right);
}

} // verus!
