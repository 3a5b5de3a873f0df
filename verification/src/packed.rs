//! The product of packed operands along the axes that a kernel is told: that it is
//! the einsum it takes the place of.

use vstd::prelude::*;

use crate::dim::TDim;
use crate::error::Error;
use crate::facts::no_hidden_one;
use crate::kernels::{
    axis_pairs, is_stacked, kernel_patch, lemma_all_pairs, opt_mat_mul, packed_axis,
};
use crate::labels::{
    Expr, lemma_absent, lemma_has, lemma_positions, lemma_single, lemma_single_at, positions,
};
use crate::model::{Model, facts_of, node_wf};
use crate::ops::{EinSumView, Fact, OpView, OptMatMulView, SimpleOp, fact_shapes, without_two};
use crate::optimize::{Step, mkn_step};
use crate::preserve::{dim_value, inputs_of, is_plain, lemma_plain, obeys, shape_value};
use crate::product::{
    Assignment, agree, bind, broadcasts, coords_in, einsum, einsum_entry, extent, is_summed,
    lemma_bind, lemma_extent_two, lemma_output_shape, lemma_row_extent_found,
    lemma_row_extent_single, lemma_row_extent_trivial, lemma_sum_same, lemma_total_same,
    lemma_total_single, output_dims, row_extent, same_extents, same_leaf, shapes_of, suits, sum,
    summed_extents, term,
};
use crate::progress::{is_simple, lemma_at_most_once, lemma_k_label, lemma_side_label};
use crate::roles::{
    Roles, blocks, dim_in, is_k, is_side, k_labels, lemma_filtered_none, one, roles, wide_k_labels,
};
use crate::run::{Run, keeps, lemma_kept, lemma_tap_value, lemma_wire_values};
use crate::swaps::{lemma_annotated, lemma_blocking_label};
use crate::tensor::{Value, in_bounds, lemma_tabulate_same, tabulate};

verus! {

/// The axis of the output that an axis of a packed operand runs along.
pub open spec fn output_axis(pairs: Seq<(usize, usize)>, q: int) -> Option<int> {
    if exists|i: int| 0 <= i < pairs.len() && (#[trigger] pairs[i]).1 == q {
        let i = choose|i: int| 0 <= i < pairs.len() && (#[trigger] pairs[i]).1 == q;
        Some(pairs[i].0 as int)
    } else {
        None
    }
}

/// The axis of a packed operand that runs along an axis of the output.
pub open spec fn operand_axis(pairs: Seq<(usize, usize)>, p: int) -> Option<int> {
    if exists|i: int| 0 <= i < pairs.len() && (#[trigger] pairs[i]).0 == p {
        let i = choose|i: int| 0 <= i < pairs.len() && (#[trigger] pairs[i]).0 == p;
        Some(pairs[i].1 as int)
    } else {
        None
    }
}

/// How an operand was packed: its tensor, and the axes that packing took away.
pub struct Operand {
    pub value: Value,
    pub mn: int,
    pub k: int,
}

impl Operand {
    /// The element for a row or a column, a term of the sums, and a matrix of the
    /// stack.
    pub open spec fn coords(
        self,
        pairs: Seq<(usize, usize)>,
        at: int,
        v: int,
        coords: Seq<int>,
    ) -> Seq<int> {
        Seq::new(
            self.value.shape.len(),
            |i: int|
                if i == self.mn {
                    at
                } else if i == self.k {
                    v
                } else {
                    match output_axis(pairs, packed_axis(i, self.mn, self.k)) {
                        Some(p) => coords[p],
                        None => 0,
                    }
                },
        )
    }
}

impl OptMatMulView {
    /// The shape of the product: rows, columns, and the axes of the stacks.
    pub open spec fn dims(self, a: Operand, b: Operand) -> Seq<int> {
        Seq::new(
            self.c_fact.shape.len(),
            |p: int|
                if p == self.c_m_axis {
                    a.value.shape[a.mn]
                } else if p == self.c_n_axis {
                    b.value.shape[b.mn]
                } else {
                    match (
                        operand_axis(self.c_to_a_axis_mapping, p),
                        operand_axis(self.c_to_b_axis_mapping, p),
                    ) {
                        (Some(q), _) => without_two(a.value.shape, a.mn, a.k)[q],
                        (None, Some(q)) => without_two(b.value.shape, b.mn, b.k)[q],
                        (None, None) => 1,
                    }
                },
        )
    }

    /// The terms that an element of the product sums up.
    pub open spec fn terms(self, a: Operand, b: Operand, coords: Seq<int>) -> spec_fn(int) -> int {
        |v: int|
            a.value.at(
                a.coords(
                    self.c_to_a_axis_mapping,
                    coords[self.c_m_axis as int],
                    v,
                    coords,
                ),
            ) * b.value.at(
                b.coords(
                    self.c_to_b_axis_mapping,
                    coords[self.c_n_axis as int],
                    v,
                    coords,
                ),
            )
    }

    /// An element of the product: a sum of as many terms as the kernel is told.
    pub open spec fn entry(
        self,
        symbols: spec_fn(u64) -> int,
        a: Operand,
        b: Operand,
    ) -> spec_fn(Seq<int>) -> int {
        |coords: Seq<int>| sum(dim_value(symbols, self.k), self.terms(a, b, coords))
    }

    /// The product of two packed operands along the axes that the kernel is told.
    pub open spec fn product(
        self,
        symbols: spec_fn(u64) -> int,
        a: Operand,
        b: Operand,
    ) -> Value {
        tabulate(self.dims(a, b), self.entry(symbols, a, b))
    }
}

/// Whether the labels that the output does not have, but both inputs, have the same
/// dimension in both.
pub open spec fn shared_sums_agree(e: Expr, shapes: Seq<Seq<TDim>>) -> bool {
    forall|c: char|
        #![trigger e.count_out(0, c)]
        e.count_out(0, c) == 0 && e.count_in(0, c) > 0 && e.count_in(1, c) > 0 ==> dim_in(
            e,
            shapes,
            0,
            c,
        ) == dim_in(e, shapes, 1, c)
}

/// Whether an einsum has found its rows, sums and columns, with its first two tensors as
/// their facts say. None of its first two inputs has a label twice.
pub open spec fn has_parts(
    symbols: spec_fn(u64) -> int,
    e: Expr,
    facts: Seq<Fact>,
    xs: Seq<Value>,
    m: char,
    k: char,
    n: char,
) -> bool {
    let shapes = fact_shapes(facts);
    &&& no_hidden_one(symbols)
    &&& e.inputs.len() >= 2
    &&& e.outputs.len() == 1
    &&& e.inputs[0].no_duplicates()
    &&& e.inputs[1].no_duplicates()
    &&& e.outputs[0].no_duplicates()
    &&& facts.len() >= 2
    &&& xs.len() >= 2
    &&& facts[0].shape.len() == e.inputs[0].len()
    &&& facts[1].shape.len() == e.inputs[1].len()
    &&& obeys(symbols, facts[0], xs[0])
    &&& obeys(symbols, facts[1], xs[1])
    &&& shared_sums_agree(e, shapes)
    &&& roles(e, shapes) == Roles::Found(m, k, n)
}

/// Whether an einsum of two tensors has found its rows, sums and columns, and the
/// tensors broadcast.
pub open spec fn has_found(
    symbols: spec_fn(u64) -> int,
    e: Expr,
    facts: Seq<Fact>,
    xs: Seq<Value>,
    m: char,
    k: char,
    n: char,
) -> bool {
    &&& has_parts(symbols, e, facts, xs, m, k, n)
    &&& is_simple(e, fact_shapes(facts))
    &&& suits(e, xs)
    &&& broadcasts(e, shapes_of(xs))
    &&& e.inputs[0].len() <= usize::MAX
    &&& e.inputs[1].len() <= usize::MAX
    &&& e.outputs[0].len() <= usize::MAX
}

/// The parts of the labels that were found.
pub proof fn lemma_found(
    symbols: spec_fn(u64) -> int,
    e: Expr,
    facts: Seq<Fact>,
    xs: Seq<Value>,
    m: char,
    k: char,
    n: char,
)
    requires
        has_parts(symbols, e, facts, xs, m, k, n),
    ensures
        is_side(e, fact_shapes(facts), 0, m),
        is_side(e, fact_shapes(facts), 1, n),
        is_k(e, fact_shapes(facts), k),
        m != k && n != k,
{
    let shapes = fact_shapes(facts);
    lemma_k_label(e, shapes);
    lemma_side_label(e, shapes, 0);
    lemma_side_label(e, shapes, 1);
}

/// A dimension is one where its fact says so.
proof fn lemma_unit(symbols: spec_fn(u64) -> int, fact: Fact, x: Value, i: int)
    requires
        no_hidden_one(symbols),
        obeys(symbols, fact, x),
        0 <= i < fact.shape.len(),
    ensures
        x.shape[i] == 1 <==> fact.shape[i] == one(),
{
}

/// Where the one axis of a label is in an input.
pub proof fn lemma_axis_of(labels: Seq<char>, i: int)
    requires
        labels.no_duplicates(),
        0 <= i < labels.len(),
    ensures
        positions(labels, labels[i]).len() == 1,
        positions(labels, labels[i])[0] == i,
{
    lemma_single_at(labels, labels[i], i);
}

/// A label that the output does not have, and an input has with a dimension other
/// than one, is that of the sums.
pub proof fn lemma_only_k_summed(
    symbols: spec_fn(u64) -> int,
    e: Expr,
    facts: Seq<Fact>,
    xs: Seq<Value>,
    m: char,
    k: char,
    n: char,
    t: int,
    i: int,
)
    requires
        has_parts(symbols, e, facts, xs, m, k, n),
        t == 0 || t == 1,
        0 <= i < e.inputs[t].len(),
        xs[t].shape[i] != 1,
        !e.outputs[0].contains(e.inputs[t][i]),
    ensures
        e.inputs[t][i] == k,
{
    let c = e.inputs[t][i];
    let shapes = fact_shapes(facts);
    assert(facts[t].shape.len() == e.inputs[t].len());
    lemma_unit(symbols, facts[t], xs[t], i);
    lemma_axis_of(e.inputs[t], i);
    lemma_absent(e.outputs[0], c);
    assert(e.count_out(0, c) == 0);
    assert(dim_in(e, shapes, t, c) != one());
    if e.count_in(1 - t, c) == 0 || dim_in(e, shapes, 1 - t, c) == one() {
        assert(blocks(e, shapes, c));
        lemma_blocking_label(e, shapes, c);
    } else {
        lemma_at_most_once(e.inputs[1 - t], c);
        assert(dim_in(e, shapes, 0, c) == dim_in(e, shapes, 1, c));
        assert(is_k(e, shapes, c));
        lemma_has(e, c);
        assert(e.inputs[t].contains(c));
        lemma_filtered_none(e.labels(), |d: char| is_k(e, shapes, d), c);
        let wide = |d: char| dim_in(e, shapes, 0, d) != one();
        lemma_filtered_none(k_labels(e, shapes), wide, c);
        let all = wide_k_labels(e, shapes);
        let j = choose|j: int| 0 <= j < all.len() && all[j] == c;
        assert(j == 0);
    }
}

/// The extent of a label with a dimension other than one is that dimension.
proof fn lemma_found_extent(e: Expr, xs: Seq<Value>, t: int, i: int)
    requires
        e.inputs.len() == 2,
        suits(e, xs),
        broadcasts(e, shapes_of(xs)),
        t == 0 || t == 1,
        0 <= i < e.inputs[t].len(),
        xs[t].shape[i] != 1,
    ensures
        extent(e.inputs, shapes_of(xs), e.inputs[t][i], 1) == xs[t].shape[i],
{
    assert(shapes_of(xs)[t][i] == xs[t].shape[i]);
}

/// A pair is that of a label that runs along both.
proof fn lemma_pair_of(
    e: Expr,
    shapes: Seq<Seq<TDim>>,
    slot: int,
    side: char,
    k: char,
    parts: Seq<char>,
    labels: Seq<char>,
    i: int,
) -> (c: char)
    requires
        0 <= i < axis_pairs(e, shapes, slot, side, k, parts, labels).len(),
    ensures
        is_stacked(e, shapes, slot, parts, c),
        axis_pairs(e, shapes, slot, side, k, parts, labels)[i] == (
            e.first_out(0, c) as usize,
            packed_axis(
                e.first_in(slot, c),
                e.first_in(slot, side),
                e.first_in(slot, k),
            ) as usize,
        ),
    decreases labels.len(),
{
    let before = axis_pairs(e, shapes, slot, side, k, parts, labels.drop_last());
    if i < before.len() {
        lemma_pair_of(e, shapes, slot, side, k, parts, labels.drop_last(), i)
    } else {
        labels.last()
    }
}

/// Packing keeps the other axes apart, and in their order.
proof fn lemma_packed_axis<T>(s: Seq<T>, i: int, j: int, x: int, y: int)
    requires
        0 <= x < s.len(),
        0 <= y < s.len(),
        x != y,
        0 <= i < s.len(),
        i != x && i != y,
        0 <= j < s.len(),
        j != x && j != y,
    ensures
        0 <= packed_axis(i, x, y) < s.len() - 2,
        without_two(s, x, y)[packed_axis(i, x, y)] == s[i],
        packed_axis(i, x, y) == packed_axis(j, x, y) ==> i == j,
{
}

/// Whether two labels are those of the matrices in an input, and belong to the
/// parts.
pub open spec fn are_parts(e: Expr, t: int, side: char, k: char, parts: Seq<char>) -> bool {
    &&& t == 0 || t == 1
    &&& e.count_in(t, side) == 1
    &&& e.count_in(t, k) == 1
    &&& side != k
    &&& parts.contains(side)
    &&& parts.contains(k)
    &&& e.inputs[t].len() <= usize::MAX
    &&& e.outputs[0].len() <= usize::MAX
}

/// The axis of the output for an axis of an operand is that under the same label, if
/// the two run along each other.
proof fn lemma_output_axis(
    e: Expr,
    shapes: Seq<Seq<TDim>>,
    t: int,
    side: char,
    k: char,
    parts: Seq<char>,
    i: int,
)
    requires
        is_simple(e, shapes),
        are_parts(e, t, side, k, parts),
        0 <= i < e.inputs[t].len(),
        i != e.first_in(t, side),
        i != e.first_in(t, k),
    ensures
        output_axis(
            axis_pairs(e, shapes, t, side, k, parts, e.labels()),
            packed_axis(i, e.first_in(t, side), e.first_in(t, k)),
        ) == (if is_stacked(e, shapes, t, parts, e.inputs[t][i]) {
            Some(e.first_out(0, e.inputs[t][i]))
        } else {
            None
        }),
{
    let c = e.inputs[t][i];
    let pairs = axis_pairs(e, shapes, t, side, k, parts, e.labels());
    let (x, y) = (e.first_in(t, side), e.first_in(t, k));
    let q = packed_axis(i, x, y);
    lemma_single(e.inputs[t], side);
    lemma_single(e.inputs[t], k);
    lemma_axis_of(e.inputs[t], i);
    lemma_packed_axis(e.inputs[t], i, i, x, y);
    assert forall|j: int| 0 <= j < pairs.len() && (#[trigger] pairs[j]).1 == q implies is_stacked(
        e,
        shapes,
        t,
        parts,
        c,
    ) && pairs[j].0 == e.first_out(0, c) by {
        let d = lemma_pair_of(e, shapes, t, side, k, parts, e.labels(), j);
        lemma_single(e.inputs[t], d);
        lemma_single(e.outputs[0], d);
        lemma_packed_axis(e.inputs[t], e.first_in(t, d), i, x, y);
        assert(e.first_in(t, d) == i);
    }
    if is_stacked(e, shapes, t, parts, c) {
        lemma_has(e, c);
        assert(e.inputs[t].contains(c));
        lemma_all_pairs(e, shapes, t, side, k, parts, e.labels(), c);
        let pair = (e.first_out(0, c) as usize, q as usize);
        let j = choose|j: int| 0 <= j < pairs.len() && pairs[j] == pair;
        assert(pairs[j].1 == q);
    }
}

/// The axis of an operand for an axis of the output is that under the same label, if
/// the two run along each other.
proof fn lemma_operand_axis(
    e: Expr,
    shapes: Seq<Seq<TDim>>,
    t: int,
    side: char,
    k: char,
    parts: Seq<char>,
    p: int,
)
    requires
        is_simple(e, shapes),
        are_parts(e, t, side, k, parts),
        0 <= p < e.outputs[0].len(),
    ensures
        operand_axis(axis_pairs(e, shapes, t, side, k, parts, e.labels()), p) == (if is_stacked(
            e,
            shapes,
            t,
            parts,
            e.outputs[0][p],
        ) {
            Some(
                packed_axis(
                    e.first_in(t, e.outputs[0][p]),
                    e.first_in(t, side),
                    e.first_in(t, k),
                ),
            )
        } else {
            None
        }),
{
    let c = e.outputs[0][p];
    let pairs = axis_pairs(e, shapes, t, side, k, parts, e.labels());
    let (x, y) = (e.first_in(t, side), e.first_in(t, k));
    lemma_single(e.inputs[t], side);
    lemma_single(e.inputs[t], k);
    lemma_axis_of(e.outputs[0], p);
    assert forall|j: int| 0 <= j < pairs.len() && (#[trigger] pairs[j]).0 == p implies is_stacked(
        e,
        shapes,
        t,
        parts,
        c,
    ) && pairs[j].1 == packed_axis(e.first_in(t, c), x, y) by {
        let d = lemma_pair_of(e, shapes, t, side, k, parts, e.labels(), j);
        lemma_single(e.outputs[0], d);
        lemma_single(e.inputs[t], d);
        assert(e.outputs[0][p] == d);
        lemma_packed_axis(e.inputs[t], e.first_in(t, d), e.first_in(t, d), x, y);
    }
    if is_stacked(e, shapes, t, parts, c) {
        lemma_has(e, c);
        lemma_positions(e.inputs[t], c);
        assert(e.inputs[t].contains(c));
        lemma_all_pairs(e, shapes, t, side, k, parts, e.labels(), c);
        let pair = (p as usize, packed_axis(e.first_in(t, c), x, y) as usize);
        let j = choose|j: int| 0 <= j < pairs.len() && pairs[j] == pair;
        assert(pairs[j].0 == p);
    }
}

/// The label of the rows, or of the columns.
pub open spec fn side_of(t: int, m: char, n: char) -> char {
    if t == 0 {
        m
    } else {
        n
    }
}

/// How an input of an einsum is packed.
pub open spec fn operand(e: Expr, xs: Seq<Value>, t: int, side: char, k: char) -> Operand {
    Operand { value: xs[t], mn: e.first_in(t, side), k: e.first_in(t, k) }
}

/// What the rows, the sums and the columns that were found are in an input.
proof fn lemma_found_in(
    symbols: spec_fn(u64) -> int,
    e: Expr,
    facts: Seq<Fact>,
    xs: Seq<Value>,
    m: char,
    k: char,
    n: char,
    t: int,
)
    requires
        has_found(symbols, e, facts, xs, m, k, n),
        t == 0 || t == 1,
    ensures
        are_parts(e, t, side_of(t, m, n), k, seq![m, k, n]),
        xs[t].shape.len() == e.inputs[t].len(),
        xs[t].valid(),
        forall|i: int|
            0 <= i < e.inputs[t].len() ==> (#[trigger] xs[t].shape[i] == 1
                <==> fact_shapes(facts)[t][i] == one()),
        forall|i: int|
            0 <= i < e.inputs[t].len() && e.inputs[t][i] == side_of(1 - t, m, n)
                ==> #[trigger] xs[t].shape[i] == 1,
{
    let parts = seq![m, k, n];
    lemma_found(symbols, e, facts, xs, m, k, n);
    assert(parts[0] == m && parts[1] == k && parts[2] == n);
    assert(xs[t].valid());
    assert forall|i: int| 0 <= i < e.inputs[t].len() implies (#[trigger] xs[t].shape[i] == 1
        <==> fact_shapes(facts)[t][i] == one()) by {
        lemma_unit(symbols, facts[t], xs[t], i);
    }
    assert forall|i: int|
        0 <= i < e.inputs[t].len() && e.inputs[t][i] == side_of(1 - t, m, n) implies #[trigger]
        xs[t].shape[i] == 1 by {
        lemma_axis_of(e.inputs[t], i);
    }
}

/// A label other than one of the parts whose dimension in an input is not one runs
/// along the output.
proof fn lemma_stacked(
    symbols: spec_fn(u64) -> int,
    e: Expr,
    facts: Seq<Fact>,
    xs: Seq<Value>,
    m: char,
    k: char,
    n: char,
    t: int,
    i: int,
)
    requires
        has_found(symbols, e, facts, xs, m, k, n),
        t == 0 || t == 1,
        0 <= i < e.inputs[t].len(),
        i != e.first_in(t, side_of(t, m, n)),
        i != e.first_in(t, k),
    ensures
        is_stacked(e, fact_shapes(facts), t, seq![m, k, n], e.inputs[t][i]) <==> xs[t].shape[i]
            != 1,
        xs[t].shape[i] != 1 ==> e.outputs[0].contains(e.inputs[t][i]),
{
    let c = e.inputs[t][i];
    let parts = seq![m, k, n];
    lemma_found_in(symbols, e, facts, xs, m, k, n, t);
    lemma_axis_of(e.inputs[t], i);
    if xs[t].shape[i] != 1 {
        if !e.outputs[0].contains(c) {
            lemma_only_k_summed(symbols, e, facts, xs, m, k, n, t, i);
        }
        let p = choose|p: int| 0 <= p < e.outputs[0].len() && e.outputs[0][p] == c;
        lemma_axis_of(e.outputs[0], p);
        assert(c != side_of(t, m, n) && c != k && c != side_of(1 - t, m, n));
        assert(!parts.contains(c));
    }
}

/// The elements that the kernel takes from an operand are those of the einsum.
proof fn lemma_operand_coords(
    symbols: spec_fn(u64) -> int,
    e: Expr,
    facts: Seq<Fact>,
    xs: Seq<Value>,
    m: char,
    k: char,
    n: char,
    t: int,
    coords: Seq<int>,
    v: int,
)
    requires
        has_found(symbols, e, facts, xs, m, k, n),
        t == 0 || t == 1,
        coords.len() == e.outputs[0].len(),
        0 <= v < xs[t].shape[e.first_in(t, k)],
        0 <= coords[e.first_out(0, side_of(t, m, n))] < xs[t].shape[e.first_in(
            t,
            side_of(t, m, n),
        )],
    ensures
        operand(e, xs, t, side_of(t, m, n), k).coords(
            axis_pairs(
                e,
                fact_shapes(facts),
                t,
                side_of(t, m, n),
                k,
                seq![m, k, n],
                e.labels(),
            ),
            coords[e.first_out(0, side_of(t, m, n))],
            v,
            coords,
        ) == coords_in(e.inputs[t], xs[t].shape, bind(e.outputs[0], coords).insert(k, v)),
{
    let side = side_of(t, m, n);
    let parts = seq![m, k, n];
    let shapes = fact_shapes(facts);
    let pairs = axis_pairs(e, shapes, t, side, k, parts, e.labels());
    let a = operand(e, xs, t, side, k);
    let values = bind(e.outputs[0], coords).insert(k, v);
    let left = a.coords(pairs, coords[e.first_out(0, side)], v, coords);
    let right = coords_in(e.inputs[t], xs[t].shape, values);
    lemma_found(symbols, e, facts, xs, m, k, n);
    lemma_found_in(symbols, e, facts, xs, m, k, n, t);
    lemma_single(e.inputs[t], side);
    lemma_single(e.inputs[t], k);
    lemma_single(e.outputs[0], side);
    assert(left.len() == right.len());
    assert forall|i: int| 0 <= i < left.len() implies #[trigger] left[i] == right[i] by {
        let c = e.inputs[t][i];
        if i == a.mn {
            lemma_bind(e.outputs[0], coords, e.first_out(0, side));
        } else if i != a.k {
            lemma_output_axis(e, shapes, t, side, k, parts, i);
            lemma_stacked(symbols, e, facts, xs, m, k, n, t, i);
            if xs[t].shape[i] != 1 {
                let p = choose|p: int| 0 <= p < e.outputs[0].len() && e.outputs[0][p] == c;
                lemma_axis_of(e.outputs[0], p);
                lemma_bind(e.outputs[0], coords, p);
            }
        }
    }
    assert(left =~= right);
}

/// The extent of a label that an input has, and the other has not or with the
/// dimension one, is its dimension there.
proof fn lemma_lone_extent(e: Expr, xs: Seq<Value>, t: int, i: int)
    requires
        e.inputs.len() == 2,
        suits(e, xs),
        t == 0 || t == 1,
        0 <= i < e.inputs[t].len(),
        e.inputs[t].no_duplicates(),
        forall|j: int|
            0 <= j < e.inputs[1 - t].len() && e.inputs[1 - t][j] == e.inputs[t][i]
                ==> #[trigger] xs[1 - t].shape[j] == 1,
    ensures
        extent(e.inputs, shapes_of(xs), e.inputs[t][i], 1) == xs[t].shape[i],
{
    let c = e.inputs[t][i];
    assert(xs[0].valid() && xs[1].valid());
    lemma_extent_two(e.inputs, shapes_of(xs), c, 1);
    lemma_row_extent_single(e.inputs[t], xs[t].shape, c, i, 1int);
    assert forall|j: int|
        0 <= j < e.inputs[1 - t].len() && #[trigger] e.inputs[1 - t][j] == c implies xs[1
        - t].shape[j] == 1 by {}
    lemma_row_extent_trivial(e.inputs[1 - t], xs[1 - t].shape, c, 1int);
}

/// The extents of the rows, of the columns and of the sums are the dimensions in
/// their inputs.
proof fn lemma_part_extents(
    symbols: spec_fn(u64) -> int,
    e: Expr,
    facts: Seq<Fact>,
    xs: Seq<Value>,
    m: char,
    k: char,
    n: char,
)
    requires
        has_found(symbols, e, facts, xs, m, k, n),
    ensures
        extent(e.inputs, shapes_of(xs), m, 1) == xs[0].shape[e.first_in(0, m)],
        extent(e.inputs, shapes_of(xs), n, 1) == xs[1].shape[e.first_in(1, n)],
        extent(e.inputs, shapes_of(xs), k, 1) == xs[0].shape[e.first_in(0, k)],
        xs[0].shape[e.first_in(0, k)] == xs[1].shape[e.first_in(1, k)],
{
    lemma_found(symbols, e, facts, xs, m, k, n);
    lemma_found_in(symbols, e, facts, xs, m, k, n, 0);
    lemma_found_in(symbols, e, facts, xs, m, k, n, 1);
    lemma_single(e.inputs[0], m);
    lemma_single(e.inputs[1], n);
    lemma_single(e.inputs[0], k);
    lemma_single(e.inputs[1], k);
    lemma_lone_extent(e, xs, 0, e.first_in(0, m));
    lemma_lone_extent(e, xs, 1, e.first_in(1, n));
    let (i, j) = (e.first_in(0, k), e.first_in(1, k));
    assert(xs[0].shape[i] == shape_value(symbols, facts[0].shape)[i]);
    assert(xs[1].shape[j] == shape_value(symbols, facts[1].shape)[j]);
    lemma_extent_two(e.inputs, shapes_of(xs), k, 1);
    lemma_row_extent_single(e.inputs[0], xs[0].shape, k, i, 1int);
    lemma_row_extent_single(e.inputs[1], xs[1].shape, k, j, 1int);
}

/// The dimension of an output axis that belongs to a stack is that of the operand
/// that it runs along; one, if there is none.
proof fn lemma_stack_dim(
    symbols: spec_fn(u64) -> int,
    e: Expr,
    facts: Seq<Fact>,
    xs: Seq<Value>,
    m: char,
    k: char,
    n: char,
    t: int,
    p: int,
)
    requires
        has_found(symbols, e, facts, xs, m, k, n),
        t == 0 || t == 1,
        0 <= p < e.outputs[0].len(),
        p != e.first_out(0, m),
        p != e.first_out(0, n),
    ensures
        ({
            let side = side_of(t, m, n);
            let pairs = axis_pairs(
                e,
                fact_shapes(facts),
                t,
                side,
                k,
                seq![m, k, n],
                e.labels(),
            );
            let (x, y) = (e.first_in(t, side), e.first_in(t, k));
            match operand_axis(pairs, p) {
                Some(q) => {
                    &&& without_two(xs[t].shape, x, y)[q] != 1
                    &&& without_two(xs[t].shape, x, y)[q] == extent(
                        e.inputs,
                        shapes_of(xs),
                        e.outputs[0][p],
                        1,
                    )
                },
                None => row_extent(e.inputs[t], xs[t].shape, e.outputs[0][p], 1) == 1,
            }
        }),
{
    let side = side_of(t, m, n);
    let parts = seq![m, k, n];
    let shapes = fact_shapes(facts);
    let c = e.outputs[0][p];
    let (x, y) = (e.first_in(t, side), e.first_in(t, k));
    lemma_found(symbols, e, facts, xs, m, k, n);
    lemma_found_in(symbols, e, facts, xs, m, k, n, t);
    lemma_operand_axis(e, shapes, t, side, k, parts, p);
    lemma_axis_of(e.outputs[0], p);
    lemma_single(e.inputs[t], side);
    lemma_single(e.inputs[t], k);
    assert(c != k);
    assert(c != m && c != n) by {
        lemma_single(e.outputs[0], m);
        lemma_single(e.outputs[0], n);
    }
    if is_stacked(e, shapes, t, parts, c) {
        lemma_single(e.inputs[t], c);
        let i = e.first_in(t, c);
        lemma_packed_axis(xs[t].shape, i, i, x, y);
        lemma_found_extent(e, xs, t, i);
    } else {
        assert forall|i: int| 0 <= i < e.inputs[t].len() && #[trigger] e.inputs[t][i]
            == c implies xs[t].shape[i] == 1 by {
            lemma_stacked(symbols, e, facts, xs, m, k, n, t, i);
        }
        lemma_row_extent_trivial(e.inputs[t], xs[t].shape, c, 1int);
    }
}

/// The product by the kernel has the shape of the einsum.
proof fn lemma_kernel_dims(
    symbols: spec_fn(u64) -> int,
    op: EinSumView,
    facts: Seq<Fact>,
    xs: Seq<Value>,
    m: char,
    k: char,
    n: char,
    kernel: (u64, u64),
)
    requires
        has_found(symbols, op.axes, facts, xs, m, k, n),
    ensures
        opt_mat_mul(op, facts, m, k, n, kernel).dims(
            operand(op.axes, xs, 0, m, k),
            operand(op.axes, xs, 1, n, k),
        ) == output_dims(op.axes, shapes_of(xs), 1),
{
    let e = op.axes;
    let o = opt_mat_mul(op, facts, m, k, n, kernel);
    let (a, b) = (operand(e, xs, 0, m, k), operand(e, xs, 1, n, k));
    let left = o.dims(a, b);
    let right = output_dims(e, shapes_of(xs), 1);
    lemma_found(symbols, e, facts, xs, m, k, n);
    lemma_part_extents(symbols, e, facts, xs, m, k, n);
    lemma_single(e.outputs[0], m);
    lemma_single(e.outputs[0], n);
    assert(left.len() == right.len());
    assert forall|p: int| 0 <= p < left.len() implies #[trigger] left[p] == right[p] by {
        if p != e.first_out(0, m) && p != e.first_out(0, n) {
            lemma_stack_dim(symbols, e, facts, xs, m, k, n, 0, p);
            lemma_stack_dim(symbols, e, facts, xs, m, k, n, 1, p);
            lemma_extent_two(e.inputs, shapes_of(xs), e.outputs[0][p], 1);
        }
    }
    assert(left =~= right);
}

/// An element of the einsum is one sum: over the label that was found, as the others
/// that are summed over have the extent one.
proof fn lemma_one_sum(
    symbols: spec_fn(u64) -> int,
    e: Expr,
    facts: Seq<Fact>,
    xs: Seq<Value>,
    m: char,
    k: char,
    n: char,
    coords: Seq<int>,
)
    requires
        has_found(symbols, e, facts, xs, m, k, n),
    ensures
        einsum_entry(e, xs)(coords) == sum(
            xs[0].shape[e.first_in(0, k)],
            |v: int| term(e, xs)(bind(e.outputs[0], coords).insert(k, v)),
        ),
{
    let shapes = shapes_of(xs);
    let depth = xs[0].shape[e.first_in(0, k)];
    let base = bind(e.outputs[0], coords);
    let live = |c: char| c == k || extent(e.inputs, shapes, c, 1) != 1;
    let s1 = summed_extents(e, shapes);
    let s2 = |c: char|
        if c == k {
            Some(depth)
        } else {
            None
        };
    lemma_found(symbols, e, facts, xs, m, k, n);
    lemma_part_extents(symbols, e, facts, xs, m, k, n);
    lemma_single(e.inputs[0], k);
    lemma_positions(e.outputs[0], k);
    assert(e.inputs[0].contains(k));
    assert(is_summed(e, k));
    assert(xs[0].valid() && xs[1].valid());
    assert forall|c: char|
        match (#[trigger] s1(c), #[trigger] s2(c)) {
            (Some(x), Some(y)) => x == y,
            (Some(x), None) => x == 1 && !live(c),
            (None, Some(y)) => y == 1 && !live(c),
            (None, None) => true,
        } by {
        if c != k && is_summed(e, c) && extent(e.inputs, shapes, c, 1) != 1 {
            lemma_extent_two(e.inputs, shapes, c, 1);
            let t: int = if row_extent(e.inputs[0], shapes[0], c, 1) != 1 {
                0
            } else {
                1
            };
            let i = lemma_row_extent_found(e.inputs[t], shapes[t], c, 1int);
            lemma_only_k_summed(symbols, e, facts, xs, m, k, n, t, i);
        }
    }
    assert(same_extents(s1, s2, live));
    assert forall|b1: Assignment, b2: Assignment| #[trigger] agree(live, b1, b2) implies term(
        e,
        xs,
    )(b1) == term(e, xs)(b2) by {
        assert forall|t: int| 0 <= t < 2 implies #[trigger] coords_in(
            e.inputs[t],
            xs[t].shape,
            b1,
        ) == coords_in(e.inputs[t], xs[t].shape, b2) by {
            let left = coords_in(e.inputs[t], xs[t].shape, b1);
            let right = coords_in(e.inputs[t], xs[t].shape, b2);
            assert forall|i: int| 0 <= i < left.len() implies left[i] == right[i] by {
                if xs[t].shape[i] != 1 {
                    lemma_found_extent(e, xs, t, i);
                    assert(live(e.inputs[t][i]));
                    assert(b1[e.inputs[t][i]] == b2[e.inputs[t][i]]);
                }
            }
            assert(left =~= right);
        }
        assert(coords_in(e.inputs[0], xs[0].shape, b1) == coords_in(e.inputs[0], xs[0].shape, b2));
        assert(coords_in(e.inputs[1], xs[1].shape, b1) == coords_in(e.inputs[1], xs[1].shape, b2));
    }
    assert(same_leaf(term(e, xs), term(e, xs), live));
    assert(agree(live, base, base));
    lemma_total_same(s1, term(e, xs), s2, term(e, xs), live, base, base, 0);
    lemma_total_single(s2, term(e, xs), base, k, depth, 0);
}

/// The product of the packed operands of an einsum, along the axes that its kernel is
/// told, is the einsum.
pub proof fn lemma_kernel_product(
    symbols: spec_fn(u64) -> int,
    op: EinSumView,
    facts: Seq<Fact>,
    xs: Seq<Value>,
    m: char,
    k: char,
    n: char,
    kernel: (u64, u64),
)
    requires
        has_found(symbols, op.axes, facts, xs, m, k, n),
    ensures
        opt_mat_mul(op, facts, m, k, n, kernel).product(
            symbols,
            operand(op.axes, xs, 0, m, k),
            operand(op.axes, xs, 1, n, k),
        ) == einsum(op.axes, xs),
{
    let e = op.axes;
    let o = opt_mat_mul(op, facts, m, k, n, kernel);
    let (a, b) = (operand(e, xs, 0, m, k), operand(e, xs, 1, n, k));
    let dims = output_dims(e, shapes_of(xs), 1);
    let depth = xs[0].shape[e.first_in(0, k)];
    lemma_kernel_dims(symbols, op, facts, xs, m, k, n, kernel);
    lemma_output_shape(e, xs);
    lemma_found(symbols, e, facts, xs, m, k, n);
    lemma_part_extents(symbols, e, facts, xs, m, k, n);
    lemma_single(e.outputs[0], m);
    lemma_single(e.outputs[0], n);
    assert(dim_value(symbols, o.k) == depth) by {
        lemma_single(e.inputs[0], k);
        assert(xs[0].shape == shape_value(symbols, facts[0].shape));
    }
    assert forall|coords: Seq<int>| #[trigger] in_bounds(coords, dims) implies o.entry(
        symbols,
        a,
        b,
    )(coords) == einsum_entry(e, xs)(coords) by {
        let left = o.terms(a, b, coords);
        let right = |v: int| term(e, xs)(bind(e.outputs[0], coords).insert(k, v));
        lemma_one_sum(symbols, e, facts, xs, m, k, n, coords);
        assert(0 <= coords[e.first_out(0, m)] < dims[e.first_out(0, m)]);
        assert(0 <= coords[e.first_out(0, n)] < dims[e.first_out(0, n)]);
        assert forall|v: int| 0 <= v < depth implies #[trigger] left(v) == right(v) by {
            lemma_operand_coords(symbols, e, facts, xs, m, k, n, 0, coords, v);
            lemma_operand_coords(symbols, e, facts, xs, m, k, n, 1, coords, v);
        }
        lemma_sum_same(depth, left, right);
    }
    lemma_tabulate_same(dims, o.entry(symbols, a, b), einsum_entry(e, xs));
}

/// Whether a kernel computes, from two operands as their packers pack them, their
/// product along the axes that it is told.
pub open spec fn multiplies(
    run: Run,
    symbols: spec_fn(u64) -> int,
    o: OptMatMulView,
    a: Operand,
    b: Operand,
    packers: (u64, u64),
) -> bool {
    let pack_a = OpView::Simple(SimpleOp::Pack(a.mn as usize, a.k as usize, packers.0));
    let pack_b = OpView::Simple(SimpleOp::Pack(b.mn as usize, b.k as usize, packers.1));
    let packed = seq![
        run.compute(pack_a, seq![a.value])[0],
        run.compute(pack_b, seq![b.value])[0],
    ];
    run.compute(OpView::OptMatMul(o), packed)[0] == o.product(symbols, a, b)
}

/// What the product by a kernel needs to compute a plain einsum. No input has a label
/// twice. A label that both inputs have, but not the output, has the same dimension in
/// both. A dimension that is not known is not one. The kernel computes the product
/// that it is told.
pub open spec fn kernel_suits(
    run: Run,
    symbols: spec_fn(u64) -> int,
    m: Model,
    id: int,
    packers: (u64, u64),
    kernel: (u64, u64),
) -> bool {
    let node = m.nodes[id];
    let op = node.op->EinSum_0;
    let e = op.axes;
    let facts = facts_of(m.nodes, node.inputs);
    let xs = inputs_of(run, m, id);
    &&& is_simple(e, fact_shapes(facts))
    &&& shared_sums_agree(e, fact_shapes(facts))
    &&& no_hidden_one(symbols)
    &&& e.inputs[0].len() <= usize::MAX
    &&& e.inputs[1].len() <= usize::MAX
    &&& e.outputs[0].len() <= usize::MAX
    &&& mkn_step(op, m, id) matches Ok(Step::Annotated(rows, k, columns))
    &&& multiplies(
        run,
        symbols,
        opt_mat_mul(op, facts, rows, k, columns, kernel),
        operand(e, xs, 0, rows, k),
        operand(e, xs, 1, columns, k),
        packers,
    )
}

/// The product by a kernel that takes the place of a plain einsum keeps what the model
/// takes and computes, if the kernel suits it.
pub proof fn lemma_kernel_step(
    run: Run,
    symbols: spec_fn(u64) -> int,
    m: Model,
    id: int,
    rows: char,
    k: char,
    columns: char,
    packers: (u64, u64),
    kernel: (u64, u64),
)
    requires
        m.wf(),
        is_plain(run, symbols, m, id),
        kernel_suits(run, symbols, m, id, packers, kernel),
        mkn_step(m.nodes[id].op->EinSum_0, m, id) == Ok::<Step, Error>(
            Step::Annotated(rows, k, columns),
        ),
        kernel_patch(m.nodes[id].op->EinSum_0, m, id, rows, k, columns, packers, kernel).fault(m)
            is None,
    ensures
        keeps(
            run,
            m,
            kernel_patch(m.nodes[id].op->EinSum_0, m, id, rows, k, columns, packers, kernel),
        ),
{
    let node = m.nodes[id];
    let op = node.op->EinSum_0;
    let e = op.axes;
    let facts = facts_of(m.nodes, node.inputs);
    let xs = inputs_of(run, m, id);
    let p = kernel_patch(op, m, id, rows, k, columns, packers, kernel);
    let made = p.applied(m);
    lemma_plain(run, symbols, m, id);
    lemma_annotated(op, m, id, rows, k, columns);
    assert(obeys(symbols, facts[0], inputs_of(run, m, id)[0]));
    assert(obeys(symbols, facts[1], inputs_of(run, m, id)[1]));
    assert(facts[0].shape == fact_shapes(facts)[0] && facts[1].shape == fact_shapes(facts)[1]);
    assert(has_found(symbols, e, facts, xs, rows, k, columns));
    lemma_kernel_product(symbols, op, facts, xs, rows, k, columns, kernel);
    assert(node_wf(m.nodes, id));
    assert(p.aims_at(m));
    lemma_tap_value(run, m, p, 0);
    lemma_tap_value(run, m, p, 1);
    lemma_wire_values(run, m, p, 0);
    lemma_wire_values(run, m, p, 1);
    lemma_wire_values(run, m, p, 2);
    let (r0, r1, r2) = (p.wires[0].inputs, p.wires[1].inputs, p.wires[2].inputs);
    assert(Seq::new(r0.len(), |j: int| run.value(made, p.resolve(r0[j]))) =~= seq![xs[0]]);
    assert(Seq::new(r1.len(), |j: int| run.value(made, p.resolve(r1[j]))) =~= seq![xs[1]]);
    assert(Seq::new(r2.len(), |j: int| run.value(made, p.resolve(r2[j]))) =~= seq![
        run.values(made)[id][0],
        run.values(made)[id + 1][0],
    ]);
    lemma_kept(run, m, p);
}

} // verus!
