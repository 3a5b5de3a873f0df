//! Which axes of an einsum play the parts of the rows, the columns and the sums
//! of a matrix product.

use vstd::prelude::*;

use crate::axes::{Axis, AxesMapping, axes_of, same};
use crate::dim::{DimLike, TDim};
use crate::labels::{Expr, lemma_positions, positions};
use crate::ops::{TypedFact, fact_refs, fact_shapes, ranks_suit};
use crate::product::output_dims;

verus! {

/// The dimension one.
pub open spec fn one() -> TDim {
    TDim::Val(1)
}

/// The first dimension that a label has in an input.
pub open spec fn dim_in(e: Expr, shapes: Seq<Seq<TDim>>, slot: int, c: char) -> TDim {
    shapes[slot][e.first_in(slot, c)]
}

/// The dimension that a label has in the output.
pub open spec fn dim_out(e: Expr, shapes: Seq<Seq<TDim>>, c: char) -> TDim {
    output_dims(e, shapes, one())[e.first_out(0, c)]
}

/// Whether a label can be summed over: it is once in each input, with the same
/// dimension, and not in the output.
pub open spec fn is_k(e: Expr, shapes: Seq<Seq<TDim>>, c: char) -> bool {
    &&& e.count_in(0, c) == 1
    &&& e.count_in(1, c) == 1
    &&& e.count_out(0, c) == 0
    &&& dim_in(e, shapes, 0, c) == dim_in(e, shapes, 1, c)
}

/// Whether a label is absent from an input, or has the dimension one there.
pub open spec fn is_void(e: Expr, shapes: Seq<Seq<TDim>>, slot: int, c: char) -> bool {
    e.count_in(slot, c) == 0 || dim_in(e, shapes, slot, c) == one()
}

/// Whether a label can be that of the rows of the first input, or of the columns
/// of the second: it is once in that input, void in the other, and once in the
/// output.
pub open spec fn is_side(e: Expr, shapes: Seq<Seq<TDim>>, own: int, c: char) -> bool {
    &&& e.count_in(own, c) == 1
    &&& is_void(e, shapes, 1 - own, c)
    &&& e.count_out(0, c) == 1
}

/// Whether a label has a dimension other than one in exactly one input, but not
/// in the output.
pub open spec fn blocks(e: Expr, shapes: Seq<Seq<TDim>>, c: char) -> bool {
    let left = e.count_in(0, c) > 0 && dim_in(e, shapes, 0, c) != one();
    let right = e.count_in(1, c) > 0 && dim_in(e, shapes, 1, c) != one();
    let out = e.count_out(0, c) > 0 && dim_out(e, shapes, c) != one();
    left != right && !out
}

/// How wide a label is in the output; a symbolic dimension is the widest.
pub open spec fn width(e: Expr, shapes: Seq<Seq<TDim>>, c: char) -> i64 {
    match dim_out(e, shapes, c).known() {
        Some(v) => v,
        None => i64::MAX,
    }
}

/// The last of the widest labels.
pub open spec fn widest(e: Expr, shapes: Seq<Seq<TDim>>, labels: Seq<char>) -> char
    decreases labels.len(),
{
    if labels.len() <= 1 {
        labels[0]
    } else {
        let best = widest(e, shapes, labels.drop_last());
        if width(e, shapes, labels.last()) >= width(e, shapes, best) {
            labels.last()
        } else {
            best
        }
    }
}

/// The labels that can be summed over.
pub open spec fn k_labels(e: Expr, shapes: Seq<Seq<TDim>>) -> Seq<char> {
    e.labels().filter(|c: char| is_k(e, shapes, c))
}

/// Those of them with a dimension other than one.
pub open spec fn wide_k_labels(e: Expr, shapes: Seq<Seq<TDim>>) -> Seq<char> {
    k_labels(e, shapes).filter(|c: char| dim_in(e, shapes, 0, c) != one())
}

/// The labels that can be that of the rows, or of the columns.
pub open spec fn side_labels(e: Expr, shapes: Seq<Seq<TDim>>, own: int) -> Seq<char> {
    e.labels().filter(|c: char| is_side(e, shapes, own, c))
}

/// The labels that a matrix product cannot express.
pub open spec fn blocking_labels(e: Expr, shapes: Seq<Seq<TDim>>) -> Seq<char> {
    e.labels().filter(|c: char| blocks(e, shapes, c))
}

/// What the axes of an einsum allow.
pub enum Roles {
    /// More than one label of a dimension other than one can be summed over.
    MultipleK,
    /// No label can be summed over.
    NoK,
    /// There are no rows.
    NoM(char),
    /// There are no columns.
    NoN(char, char),
    /// A label keeps the einsum from being a matrix product.
    Blocked(char),
    /// Rows, sums and columns.
    Found(char, char, char),
}

/// The label to sum over, unless there are several: the one with a dimension
/// other than one, or else the first.
pub open spec fn k_label(e: Expr, shapes: Seq<Seq<TDim>>) -> char {
    if wide_k_labels(e, shapes).len() > 0 {
        wide_k_labels(e, shapes)[0]
    } else {
        k_labels(e, shapes)[0]
    }
}

/// What the axes of an einsum allow: the sums, then the widest of the labels for
/// the rows and for the columns, as far as they are there.
pub open spec fn roles(e: Expr, shapes: Seq<Seq<TDim>>) -> Roles {
    let k = k_label(e, shapes);
    let m = widest(e, shapes, side_labels(e, shapes, 0));
    let n = widest(e, shapes, side_labels(e, shapes, 1));
    if wide_k_labels(e, shapes).len() > 1 {
        Roles::MultipleK
    } else if k_labels(e, shapes).len() == 0 {
        Roles::NoK
    } else if side_labels(e, shapes, 0).len() == 0 {
        Roles::NoM(k)
    } else if side_labels(e, shapes, 1).len() == 0 {
        Roles::NoN(k, m)
    } else if blocking_labels(e, shapes).len() > 0 {
        Roles::Blocked(blocking_labels(e, shapes)[0])
    } else {
        Roles::Found(m, k, n)
    }
}

/// The labels of some axes.
pub open spec fn reprs(axes: Seq<&Axis>) -> Seq<char> {
    Seq::new(axes.len(), |i: int| axes[i].repr)
}

/// Whether these are axes of an expression.
pub open spec fn all_of(axes: Seq<&Axis>, e: Expr) -> bool {
    forall|i: int| 0 <= i < axes.len() ==> (#[trigger] axes[i]).is_of(e, axes[i].repr)
}

/// What the selection of axes works on: an expression, the facts of its inputs,
/// and the shape of its output.
pub open spec fn can_select(e: Expr, facts: Seq<&TypedFact>, output: Seq<TDim>) -> bool {
    &&& e.inputs.len() >= 2
    &&& e.outputs.len() == 1
    &&& ranks_suit(e, fact_refs(facts))
    &&& output == output_dims(e, fact_shapes(fact_refs(facts)), one())
}

/// The occurrences of an axis are in range.
pub proof fn lemma_axis(e: Expr, axis: &Axis)
    requires
        axis.is_of(e, axis.repr),
    ensures
        forall|s: int|
            0 <= s < e.inputs.len() ==> (#[trigger] axis.inputs@[s])@.len() == e.count_in(
                s,
                axis.repr,
            ) && (e.count_in(s, axis.repr) > 0 ==> axis.inputs@[s]@[0] == e.first_in(s, axis.repr)
                && 0 <= e.first_in(s, axis.repr) < e.inputs[s].len()),
        forall|s: int|
            0 <= s < e.outputs.len() ==> (#[trigger] axis.outputs@[s])@.len() == e.count_out(
                s,
                axis.repr,
            ) && (e.count_out(s, axis.repr) > 0 ==> axis.outputs@[s]@[0] == e.first_out(
                s,
                axis.repr,
            ) && 0 <= e.first_out(s, axis.repr) < e.outputs[s].len()),
{
    assert forall|s: int| 0 <= s < e.inputs.len() implies (#[trigger] axis.inputs@[s])@.len()
        == e.count_in(s, axis.repr) && (e.count_in(s, axis.repr) > 0 ==> axis.inputs@[s]@[0]
        == e.first_in(s, axis.repr) && 0 <= e.first_in(s, axis.repr) < e.inputs[s].len()) by {
        assert(same(axis.inputs@[s]@, positions(e.inputs[s], axis.repr)));
        lemma_positions(e.inputs[s], axis.repr);
    }
    assert forall|s: int| 0 <= s < e.outputs.len() implies (#[trigger] axis.outputs@[s])@.len()
        == e.count_out(s, axis.repr) && (e.count_out(s, axis.repr) > 0 ==> axis.outputs@[s]@[0]
        == e.first_out(s, axis.repr) && 0 <= e.first_out(s, axis.repr) < e.outputs[s].len()) by {
        assert(same(axis.outputs@[s]@, positions(e.outputs[s], axis.repr)));
        lemma_positions(e.outputs[s], axis.repr);
    }
}

/// Whether an axis can be summed over.
fn check_k(axis: &Axis, facts: &Vec<&TypedFact>, Ghost(e): Ghost<Expr>) -> (r: bool)
    requires
        axis.is_of(e, axis.repr),
        e.inputs.len() >= 2,
        e.outputs.len() == 1,
        ranks_suit(e, fact_refs(facts@)),
    ensures
        r == is_k(e, fact_shapes(fact_refs(facts@)), axis.repr),
{
    proof {
        lemma_axis(e, axis);
        assert(axis.inputs@[0]@.len() == e.count_in(0, axis.repr));
        assert(axis.inputs@[1]@.len() == e.count_in(1, axis.repr));
        assert(axis.outputs@[0]@.len() == e.count_out(0, axis.repr));
        assert(fact_refs(facts@)[0].shape.len() == e.inputs[0].len());
        assert(fact_refs(facts@)[1].shape.len() == e.inputs[1].len());
    }
    axis.inputs[0].len() == 1 && axis.inputs[1].len() == 1 && axis.outputs[0].len() == 0
        && facts[0].shape[axis.inputs[0][0]] == facts[1].shape[axis.inputs[1][0]]
}

/// Whether an axis is absent from an input, or has the dimension one there.
pub fn check_void(axis: &Axis, facts: &Vec<&TypedFact>, slot: usize, Ghost(e): Ghost<Expr>) -> (r:
    bool)
    requires
        axis.is_of(e, axis.repr),
        slot < e.inputs.len(),
        ranks_suit(e, fact_refs(facts@)),
    ensures
        r == is_void(e, fact_shapes(fact_refs(facts@)), slot as int, axis.repr),
{
    proof {
        lemma_axis(e, axis);
        assert(axis.inputs@[slot as int]@.len() == e.count_in(slot as int, axis.repr));
        assert(fact_refs(facts@)[slot as int].shape.len() == e.inputs[slot as int].len());
    }
    axis.inputs[slot].len() == 0 || facts[slot].shape[axis.inputs[slot][0]].is_one()
}

/// Whether an axis can be that of the rows, or of the columns.
fn check_side(axis: &Axis, facts: &Vec<&TypedFact>, own: usize, Ghost(e): Ghost<Expr>) -> (r: bool)
    requires
        axis.is_of(e, axis.repr),
        own < 2,
        e.inputs.len() >= 2,
        e.outputs.len() == 1,
        ranks_suit(e, fact_refs(facts@)),
    ensures
        r == is_side(e, fact_shapes(fact_refs(facts@)), own as int, axis.repr),
{
    proof {
        lemma_axis(e, axis);
        assert(axis.inputs@[own as int]@.len() == e.count_in(own as int, axis.repr));
        assert(axis.outputs@[0]@.len() == e.count_out(0, axis.repr));
    }
    axis.inputs[own].len() == 1 && check_void(axis, facts, 1 - own, Ghost(e))
        && axis.outputs[0].len() == 1
}

/// Whether an axis keeps the einsum from being a matrix product.
fn check_blocks(
    axis: &Axis,
    facts: &Vec<&TypedFact>,
    output: &Vec<TDim>,
    Ghost(e): Ghost<Expr>,
) -> (r: bool)
    requires
        axis.is_of(e, axis.repr),
        can_select(e, facts@, output@),
    ensures
        r == blocks(e, fact_shapes(fact_refs(facts@)), axis.repr),
{
    proof {
        lemma_axis(e, axis);
        assert(axis.outputs@[0]@.len() == e.count_out(0, axis.repr));
    }
    let left = !check_void(axis, facts, 0, Ghost(e));
    let right = !check_void(axis, facts, 1, Ghost(e));
    let out = axis.outputs[0].len() > 0 && !output[axis.outputs[0][0]].is_one();
    left != right && !out
}

/// How wide an axis is in the output.
fn find_width(axis: &Axis, facts: &Vec<&TypedFact>, output: &Vec<TDim>, Ghost(e): Ghost<Expr>) -> (r:
    i64)
    requires
        axis.is_of(e, axis.repr),
        can_select(e, facts@, output@),
        e.count_out(0, axis.repr) > 0,
    ensures
        r == width(e, fact_shapes(fact_refs(facts@)), axis.repr),
{
    proof {
        lemma_axis(e, axis);
        assert(axis.outputs@[0]@.len() == e.count_out(0, axis.repr));
    }
    match output[axis.outputs[0][0]].as_i64() {
        Some(v) => v,
        None => i64::MAX,
    }
}

/// The axes that can be summed over.
pub fn find_k_axes<'a>(axes: &'a AxesMapping, facts: &Vec<&TypedFact>) -> (r: Vec<&'a Axis>)
    requires
        axes@.inputs.len() >= 2,
        axes@.outputs.len() == 1,
        ranks_suit(axes@, fact_refs(facts@)),
    ensures
        all_of(r@, axes@),
        reprs(r@) == k_labels(axes@, fact_shapes(fact_refs(facts@))),
{
    let ghost e = axes@;
    let ghost labels = e.labels();
    let ghost pred = |c: char| is_k(e, fact_shapes(fact_refs(facts@)), c);
    let all = axes.iter_all_axes();
    let mut found: Vec<&'a Axis> = Vec::new();
    assert(labels.take(0).filter(pred) =~= Seq::empty()) by {
        reveal(Seq::filter);
    }
    assert(reprs(found@) =~= Seq::empty());
    for i in 0..all.len()
        invariant
            e == axes@,
            axes_of(all@, e),
            e.inputs.len() >= 2,
            e.outputs.len() == 1,
            ranks_suit(e, fact_refs(facts@)),
            labels == e.labels(),
            pred == (|c: char| is_k(e, fact_shapes(fact_refs(facts@)), c)),
            all_of(found@, e),
            reprs(found@) == labels.take(i as int).filter(pred),
    {
        let axis = &all[i];
        assert(axis.is_of(e, labels[i as int]));
        let ghost before = found@;
        proof {
            assert(labels.take(i + 1).drop_last() =~= labels.take(i as int));
            assert(labels.take(i + 1).last() == axis.repr);
            reveal(Seq::filter);
        }
        if check_k(axis, facts, Ghost(e)) {
            found.push(axis);
            assert(reprs(found@) =~= reprs(before).push(axis.repr));
        }
    }
    assert(labels.take(all@.len() as int) =~= labels);
    found
}

/// Those of the axes that can be summed over that have a dimension other than
/// one.
pub fn keep_wide<'a>(
    axes: &'a AxesMapping,
    facts: &Vec<&TypedFact>,
    candidates: &Vec<&'a Axis>,
) -> (r: Vec<&'a Axis>)
    requires
        axes@.inputs.len() >= 2,
        ranks_suit(axes@, fact_refs(facts@)),
        all_of(candidates@, axes@),
        reprs(candidates@) == k_labels(axes@, fact_shapes(fact_refs(facts@))),
    ensures
        all_of(r@, axes@),
        reprs(r@) == wide_k_labels(axes@, fact_shapes(fact_refs(facts@))),
{
    let ghost e = axes@;
    let ghost shapes = fact_shapes(fact_refs(facts@));
    let ghost labels = k_labels(e, shapes);
    let ghost pred = |c: char| dim_in(e, shapes, 0, c) != one();
    let mut found: Vec<&'a Axis> = Vec::new();
    assert(labels.take(0).filter(pred) =~= Seq::empty()) by {
        reveal(Seq::filter);
    }
    assert(reprs(found@) =~= Seq::empty());
    for i in 0..candidates.len()
        invariant
            e == axes@,
            e.inputs.len() >= 2,
            ranks_suit(e, fact_refs(facts@)),
            shapes == fact_shapes(fact_refs(facts@)),
            all_of(candidates@, e),
            labels == k_labels(e, shapes),
            reprs(candidates@) == labels,
            pred == (|c: char| dim_in(e, shapes, 0, c) != one()),
            all_of(found@, e),
            reprs(found@) == labels.take(i as int).filter(pred),
    {
        let axis = candidates[i];
        let ghost before = found@;
        proof {
            assert(reprs(candidates@)[i as int] == labels[i as int]);
            assert(labels.take(i + 1).drop_last() =~= labels.take(i as int));
            assert(labels.take(i + 1).last() == axis.repr);
            reveal(Seq::filter);
            lemma_filtered(e.labels(), |c: char| is_k(e, shapes, c), i as int);
            lemma_axis(e, axis);
            assert(axis.inputs@[0]@.len() == e.count_in(0, axis.repr));
            assert(fact_refs(facts@)[0].shape.len() == e.inputs[0].len());
        }
        if !facts[0].shape[axis.inputs[0][0]].is_one() {
            found.push(axis);
            assert(reprs(found@) =~= reprs(before).push(axis.repr));
        }
    }
    assert(labels.take(candidates@.len() as int) =~= labels);
    found
}

/// What a filter lets through passes the filter, and is in the sequence.
pub proof fn lemma_filtered(labels: Seq<char>, pred: spec_fn(char) -> bool, i: int)
    requires
        0 <= i < labels.filter(pred).len(),
    ensures
        pred(labels.filter(pred)[i]),
        labels.contains(labels.filter(pred)[i]),
    decreases labels.len(),
{
    reveal(Seq::filter);
    if labels.len() > 0 {
        let short = labels.drop_last();
        if i < short.filter(pred).len() {
            lemma_filtered(short, pred, i);
            let p = choose|p: int| 0 <= p < short.len() && short[p] == short.filter(pred)[i];
            assert(labels[p] == short.filter(pred)[i]);
        } else {
            assert(labels[labels.len() - 1] == labels.filter(pred)[i]);
        }
    }
}

/// A filter lets nothing through only if nothing passes it.
pub proof fn lemma_filtered_none(labels: Seq<char>, pred: spec_fn(char) -> bool, c: char)
    requires
        labels.contains(c),
        pred(c),
    ensures
        labels.filter(pred).contains(c),
    decreases labels.len(),
{
    reveal(Seq::filter);
    let p = choose|p: int| 0 <= p < labels.len() && labels[p] == c;
    let short = labels.drop_last();
    if p < labels.len() - 1 {
        assert(short[p] == c);
        lemma_filtered_none(short, pred, c);
        let q = choose|q: int| 0 <= q < short.filter(pred).len() && short.filter(pred)[q] == c;
        assert(labels.filter(pred)[q] == c);
    } else {
        assert(labels.filter(pred)[labels.filter(pred).len() - 1] == c);
    }
}

/// The last of the widest labels is one of the labels.
pub proof fn lemma_widest(e: Expr, shapes: Seq<Seq<TDim>>, labels: Seq<char>)
    requires
        labels.len() > 0,
    ensures
        labels.contains(widest(e, shapes, labels)),
        forall|c: char| #[trigger]
            labels.contains(c) ==> width(e, shapes, c) <= width(
                e,
                shapes,
                widest(e, shapes, labels),
            ),
    decreases labels.len(),
{
    if labels.len() == 1 {
        assert(labels[0] == widest(e, shapes, labels));
    } else {
        let short = labels.drop_last();
        lemma_widest(e, shapes, short);
        let best = widest(e, shapes, short);
        let p = choose|p: int| 0 <= p < short.len() && short[p] == best;
        assert(labels[p] == best);
        assert(labels[labels.len() - 1] == labels.last());
        assert forall|c: char| #[trigger] labels.contains(c) implies width(e, shapes, c) <= width(
            e,
            shapes,
            widest(e, shapes, labels),
        ) by {
            let q = choose|q: int| 0 <= q < labels.len() && labels[q] == c;
            if q < labels.len() - 1 {
                assert(short[q] == c);
                assert(short.contains(c));
            }
        }
    }
}

/// The widest of the axes that can be that of the rows, or of the columns.
pub fn find_side_axis<'a>(
    axes: &'a AxesMapping,
    facts: &Vec<&TypedFact>,
    output: &Vec<TDim>,
    own: usize,
) -> (r: Option<&'a Axis>)
    requires
        own < 2,
        can_select(axes@, facts@, output@),
    ensures
        ({
            let shapes = fact_shapes(fact_refs(facts@));
            let sides = side_labels(axes@, shapes, own as int);
            match r {
                Some(axis) => sides.len() > 0 && axis.repr == widest(axes@, shapes, sides)
                    && axis.is_of(axes@, axis.repr) && is_side(
                    axes@,
                    shapes,
                    own as int,
                    axis.repr,
                ),
                None => sides.len() == 0,
            }
        }),
{
    let ghost e = axes@;
    let ghost shapes = fact_shapes(fact_refs(facts@));
    let ghost labels = e.labels();
    let ghost pred = |c: char| is_side(e, shapes, own as int, c);
    let all = axes.iter_all_axes();
    let mut best: Option<&'a Axis> = None;
    assert(labels.take(0).filter(pred) =~= Seq::empty()) by {
        reveal(Seq::filter);
    }
    for i in 0..all.len()
        invariant
            own < 2,
            e == axes@,
            axes_of(all@, e),
            can_select(e, facts@, output@),
            shapes == fact_shapes(fact_refs(facts@)),
            labels == e.labels(),
            pred == (|c: char| is_side(e, shapes, own as int, c)),
            ({
                let sides = labels.take(i as int).filter(pred);
                match best {
                    Some(axis) => sides.len() > 0 && axis.repr == widest(e, shapes, sides)
                        && axis.is_of(e, axis.repr) && is_side(e, shapes, own as int, axis.repr),
                    None => sides.len() == 0,
                }
            }),
    {
        let axis = &all[i];
        assert(axis.is_of(e, labels[i as int]));
        let ghost sides = labels.take(i as int).filter(pred);
        let ghost next = labels.take(i + 1).filter(pred);
        proof {
            assert(labels.take(i + 1).drop_last() =~= labels.take(i as int));
            assert(labels.take(i + 1).last() == axis.repr);
            reveal(Seq::filter);
        }
        if check_side(axis, facts, own, Ghost(e)) {
            assert(next == sides.push(axis.repr));
            assert(next.drop_last() =~= sides);
            best = match best {
                Some(other) => if find_width(axis, facts, output, Ghost(e)) >= find_width(
                    other,
                    facts,
                    output,
                    Ghost(e),
                ) {
                    Some(axis)
                } else {
                    Some(other)
                },
                None => Some(axis),
            };
        }
    }
    assert(labels.take(all@.len() as int) =~= labels);
    best
}

/// The first axis that a matrix product cannot express.
pub fn find_blocking<'a>(
    axes: &'a AxesMapping,
    facts: &Vec<&TypedFact>,
    output: &Vec<TDim>,
) -> (r: Option<&'a Axis>)
    requires
        can_select(axes@, facts@, output@),
    ensures
        ({
            let blocking = blocking_labels(axes@, fact_shapes(fact_refs(facts@)));
            match r {
                Some(axis) => blocking.len() > 0 && axis.repr == blocking[0] && axis.is_of(
                    axes@,
                    axis.repr,
                ),
                None => blocking.len() == 0,
            }
        }),
{
    let ghost e = axes@;
    let ghost labels = e.labels();
    let ghost pred = |c: char| blocks(e, fact_shapes(fact_refs(facts@)), c);
    let all = axes.iter_all_axes();
    assert(labels.take(0).filter(pred) =~= Seq::empty()) by {
        reveal(Seq::filter);
    }
    for i in 0..all.len()
        invariant
            e == axes@,
            axes_of(all@, e),
            can_select(e, facts@, output@),
            labels == e.labels(),
            pred == (|c: char| blocks(e, fact_shapes(fact_refs(facts@)), c)),
            labels.take(i as int).filter(pred).len() == 0,
    {
        let axis = &all[i];
        assert(axis.is_of(e, labels[i as int]));
        let ghost next = labels.take(i + 1).filter(pred);
        proof {
            assert(labels.take(i + 1).drop_last() =~= labels.take(i as int));
            assert(labels.take(i + 1).last() == axis.repr);
            reveal(Seq::filter);
        }
        if check_blocks(axis, facts, output, Ghost(e)) {
            proof {
                assert(next[0] == axis.repr);
                lemma_filter_prefix(labels, pred, i + 1);
            }
            return Some(axis);
        }
    }
    assert(labels.take(all@.len() as int) =~= labels);
    None
}

/// What a filter lets through of a prefix comes first.
pub proof fn lemma_filter_prefix(labels: Seq<char>, pred: spec_fn(char) -> bool, n: int)
    requires
        0 <= n <= labels.len(),
        labels.take(n).filter(pred).len() > 0,
    ensures
        labels.filter(pred).len() > 0,
        labels.filter(pred)[0] == labels.take(n).filter(pred)[0],
    decreases labels.len(),
{
    reveal(Seq::filter);
    if n == labels.len() {
        assert(labels.take(n) =~= labels);
    } else {
        assert(labels.drop_last().take(n) =~= labels.take(n));
        lemma_filter_prefix(labels.drop_last(), pred, n);
    }
}

} // verus!
