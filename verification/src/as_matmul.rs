//! The decomposition of an einsum into a matrix product.

use vstd::prelude::*;

use crate::axes::AxesMapping;
use crate::compact::{
    is_output, lemma_compacted, lemma_needed_after, lemma_origin, lemma_placed_node,
    lemma_still_needed, needed, takes,
};
use crate::error::Error;
use crate::labels::{Expr, lemma_has, lemma_positions};
use crate::matmul::BasicMatMul;
use crate::model::{
    Model, Node, Outlet, OutletId, TypedModel, TypedNode, copy_outlets, facts_of, has_outlet,
    has_outlets, node_wf, outlets_view,
};
use crate::names::{decimal, numbered};
use crate::ops::{EinSum, EinSumView, Fact, Op, OpView, SimpleOp, fact_refs, ranks_suit};
use crate::optimize::{
    AxesOrPatch, Step, all_taps, belongs, both_patch, ensure_mkn_axes, inject_side, input_patch,
    input_shapes, is_patch, k_patch, mkn_step, output_patch, quasi_sides, tap_refs,
};
use crate::patch::{Patch, Ref, TypedModelPatch, Wire, WireView, lemma_applied, wires_view};
use crate::preserve::lemma_step_aims;
use crate::roles::{Roles, lemma_axis, roles};

verus! {

/// Whether a node is an einsum.
pub open spec fn is_einsum(node: Node) -> bool {
    node.op is EinSum
}

/// The first einsum at or after a node.
pub open spec fn next_einsum(m: Model, i: int) -> Option<int>
    decreases m.nodes.len() - i,
{
    if i < 0 || i >= m.nodes.len() {
        None
    } else if is_einsum(m.nodes[i]) {
        Some(i)
    } else {
        next_einsum(m, i + 1)
    }
}

/// A model after its first einsum has been given the axes of a matrix product,
/// and the labels of the rows, the sums and the columns. At most `fuel` times
/// something is added, and each time the nodes go that no output needs.
pub open spec fn normalized(m: Model, fuel: nat) -> (Model, Result<(char, char, char), Error>)
    decreases fuel,
{
    let id = next_einsum(m, 0)->0;
    match mkn_step(m.nodes[id].op->EinSum_0, m, id) {
        Err(e) => (m, Err(e)),
        Ok(Step::NotAMatMul(_)) => (m, Err(Error::NotAMatMul)),
        Ok(Step::Annotated(rows, k, columns)) => (m, Ok((rows, k, columns))),
        Ok(Step::Patch(p)) => if fuel == 0 {
            (m, Err(Error::NoProgress))
        } else {
            normalized(p.applied(m).compacted(), (fuel - 1) as nat)
        },
    }
}

/// The label next to the sums at the end of the first input.
pub open spec fn row_label(e: Expr, k: char) -> char {
    let r = e.inputs[0].len();
    if e.inputs[0][r - 2] == k {
        e.inputs[0][r - 1]
    } else {
        e.inputs[0][r - 2]
    }
}

/// The label next to the sums at the end of the second input.
pub open spec fn column_label(e: Expr, k: char) -> char {
    let r = e.inputs[1].len();
    if e.inputs[1][r - 1] == k {
        e.inputs[1][r - 2]
    } else {
        e.inputs[1][r - 1]
    }
}

/// How the axes at the end of the slots are transposed.
pub open spec fn end_product(e: Expr, k: char) -> BasicMatMul {
    BasicMatMul {
        transpose_a: e.inputs[0][e.inputs[0].len() - 2] == k,
        transpose_b: e.inputs[1][e.inputs[1].len() - 1] == k,
        transpose_c: e.outputs[0][e.outputs[0].len() - 2] == column_label(e, k),
    }
}

/// Whether the two inputs and the output end in the axes of a matrix product
/// that sums over `k`.
pub open spec fn ends_in_product(e: Expr, k: char) -> bool {
    let a = e.inputs[0];
    let b = e.inputs[1];
    let c = e.outputs[0];
    &&& a.len() >= 2
    &&& b.len() >= 2
    &&& c.len() >= 2
    &&& a[a.len() - 2] == k || a[a.len() - 1] == k
    &&& b[b.len() - 2] == k || b[b.len() - 1] == k
    &&& (c[c.len() - 2] == row_label(e, k) && c[c.len() - 1] == column_label(e, k)) || (c[c.len()
        - 2] == column_label(e, k) && c[c.len() - 1] == row_label(e, k))
}

/// The matrix product for the labels of the rows, the sums and the columns.
/// Where the slots end in the axes of a matrix product over `k`, these are its
/// rows and columns; a stacked axis may have been picked in their stead.
pub open spec fn product_for(e: Expr, rows: char, k: char, columns: char) -> BasicMatMul {
    if ends_in_product(e, k) {
        end_product(e, k)
    } else {
        BasicMatMul {
            transpose_a: e.first_in(0, rows) > e.first_in(0, k),
            transpose_b: e.first_in(1, k) > e.first_in(1, columns),
            transpose_c: e.first_out(0, rows) > e.first_out(0, columns),
        }
    }
}

/// The patch that puts a matrix product in the place of an einsum.
pub open spec fn product_patch(op: BasicMatMul, node: Node, id: int) -> Patch {
    Patch {
        context: ""@,
        taps: node.inputs,
        wires: seq![
            WireView {
                name: node.name,
                op: OpView::Simple(SimpleOp::BasicMatMul(op)),
                inputs: tap_refs(node.inputs.len()),
            },
        ],
        node: id,
        by: Ref::Wire(0, 0),
    }
}

/// Whether the labels occur where a matrix product has them.
pub open spec fn has_roles(e: Expr, rows: char, k: char, columns: char) -> bool {
    &&& e.count_in(0, rows) > 0
    &&& e.count_in(0, k) > 0
    &&& e.count_in(1, k) > 0
    &&& e.count_in(1, columns) > 0
    &&& e.count_out(0, rows) > 0
    &&& e.count_out(0, columns) > 0
}

/// What putting a matrix product in the place of an einsum comes to.
pub open spec fn replacement(m: Model, id: int, rows: char, k: char, columns: char) -> Result<
    Patch,
    Error,
> {
    let e = (m.nodes[id].op->EinSum_0).axes;
    if e.inputs[0].len() != e.inputs[1].len() || e.inputs[0].len() != e.outputs[0].len() {
        Err(Error::RankMismatch)
    } else if !has_roles(e, rows, k, columns) {
        Err(Error::UnknownLabel)
    } else {
        product_patch(product_for(e, rows, k, columns), m.nodes[id], id).checked(m)
    }
}

/// How many einsums there are among the first nodes.
pub open spec fn einsums(nodes: Seq<Node>, n: int) -> nat
    decreases n,
{
    if n <= 0 {
        0
    } else {
        einsums(nodes, n - 1) + if is_einsum(nodes[n - 1]) {
            1nat
        } else {
            0
        }
    }
}

/// A model after its einsums have been replaced by matrix products one after the
/// other, up to the first that cannot be. Each time the nodes go that no output
/// needs.
pub open spec fn replaced(m: Model, rows: char, k: char, columns: char) -> (
    Model,
    Result<(), Error>,
)
    decreases einsums(m.nodes, m.nodes.len() as int),
{
    match next_einsum(m, 0) {
        None => (m, Ok(())),
        Some(id) => match replacement(m, id, rows, k, columns) {
            Err(e) => (m, Err(e)),
            Ok(p) => {
                proof {
                    lemma_fewer(m, id, rows, k, columns, p);
                }
                replaced(p.applied(m).compacted(), rows, k, columns)
            },
        },
    }
}

/// Nodes that differ in one that is no einsum any more have one einsum less.
proof fn lemma_one_less(a: Seq<Node>, b: Seq<Node>, id: int, n: int)
    requires
        a.len() == b.len(),
        0 <= id,
        n <= a.len(),
        forall|i: int|
            0 <= i < a.len() && i != id ==> is_einsum(#[trigger] a[i]) == is_einsum(b[i]),
        id < a.len(),
        is_einsum(a[id]),
        !is_einsum(b[id]),
    ensures
        einsums(a, n) == einsums(b, n) + if id < n {
            1nat
        } else {
            0
        },
    decreases n,
{
    if n > 0 {
        lemma_one_less(a, b, id, n - 1);
        if n - 1 != id {
            assert(is_einsum(a[n - 1]) == is_einsum(b[n - 1]));
        }
    }
}

/// Among those that stay there are no more einsums.
proof fn lemma_no_more(m: Model, n: int)
    ensures
        einsums(m.staying(n), m.staying(n).len() as int) <= einsums(m.nodes, n),
    decreases n,
{
    if n > 0 {
        lemma_no_more(m, n - 1);
        if m.stays(n - 1) {
            let all = m.staying(n);
            let before = m.staying(n - 1);
            lemma_same_einsums(before, all, before.len() as int);
        }
    }
}

proof fn lemma_same_einsums(a: Seq<Node>, b: Seq<Node>, n: int)
    requires
        n <= a.len(),
        n <= b.len(),
        forall|i: int| 0 <= i < n ==> #[trigger] a[i] == b[i],
    ensures
        einsums(a, n) == einsums(b, n),
    decreases n,
{
    if n > 0 {
        lemma_same_einsums(a, b, n - 1);
        assert(a[n - 1] == b[n - 1]);
    }
}

/// Each replacement leaves fewer einsums.
pub proof fn lemma_fewer(m: Model, id: int, rows: char, k: char, columns: char, p: Patch)
    requires
        next_einsum(m, 0) == Some(id),
        replacement(m, id, rows, k, columns) == Ok::<Patch, Error>(p),
    ensures
        einsums(p.applied(m).compacted().nodes, p.applied(m).compacted().nodes.len() as int)
            < einsums(m.nodes, m.nodes.len() as int),
{
    let a = p.applied(m);
    lemma_next_einsum(m, 0);
    assert(p.wires.len() == 1);
    assert(a.nodes.len() == m.nodes.len());
    assert(a.nodes[id] == p.wire_nodes(m)[0]);
    assert forall|i: int| 0 <= i < m.nodes.len() && i != id implies is_einsum(
        #[trigger] m.nodes[i],
    ) == is_einsum(a.nodes[i]) by {
        if i > id {
            assert(a.nodes[i] == p.later_nodes(m)[i - id - 1]);
        }
    }
    lemma_one_less(m.nodes, a.nodes, id, m.nodes.len() as int);
    lemma_no_more(a, a.nodes.len() as int);
}

/// How often something can be added: to an einsum that no output needs, with which it
/// goes; then to one an axis for the sums, one for the rows, and one for the columns.
pub open spec fn additions() -> nat {
    4
}

/// A model after its einsums have been decomposed, as far as they can be.
pub open spec fn decomposed(m: Model) -> (Model, Result<(), Error>) {
    match normalized(m, additions()) {
        (m1, Ok((rows, k, columns))) => replaced(m1, rows, k, columns),
        (m1, Err(e)) => (m1, Err(e)),
    }
}

/// The next einsum is one, and there is none before it.
pub proof fn lemma_next_einsum(m: Model, i: int)
    requires
        0 <= i <= m.nodes.len(),
    ensures
        match next_einsum(m, i) {
            Some(j) => i <= j < m.nodes.len() && is_einsum(m.nodes[j]) && forall|t: int|
                i <= t < j ==> !is_einsum(#[trigger] m.nodes[t]),
            None => forall|t: int| i <= t < m.nodes.len() ==> !is_einsum(#[trigger] m.nodes[t]),
        },
    decreases m.nodes.len() - i,
{
    if i < m.nodes.len() && !is_einsum(m.nodes[i]) {
        lemma_next_einsum(m, i + 1);
    }
}

fn find_einsum(model: &TypedModel, start: usize) -> (r: Option<usize>)
    requires
        start <= model.nodes@.len(),
    ensures
        match r {
            Some(i) => next_einsum(model@, start as int) == Some(i as int) && i < model.nodes@.len()
                && model.nodes@[i as int].op is EinSum,
            None => next_einsum(model@, start as int) is None,
        },
{
    for i in start..model.nodes.len()
        invariant
            next_einsum(model@, start as int) == next_einsum(model@, i as int),
    {
        assert(model@.nodes[i as int] == model.nodes@[i as int]@);
        match &model.nodes[i].op {
            Op::EinSum(_) => {
                return Some(i);
            },
            _ => {},
        }
    }
    None
}

/// An einsum of a well-formed model has one output, and is well-formed itself.
proof fn lemma_einsum_node(model: &TypedModel, i: int)
    requires
        model.wf(),
        0 <= i < model.nodes@.len(),
        model.nodes@[i].op is EinSum,
    ensures
        belongs(model, &model.nodes@[i]),
        (model.nodes@[i].op->EinSum_0)@.wf(),
        model@.nodes[i].op == OpView::EinSum((model.nodes@[i].op->EinSum_0)@),
{
    assert(node_wf(model@.nodes, i));
    assert(model@.nodes[i] == model.nodes@[i]@);
}

/// Whether an operator of a patch is an einsum, and what takes the place of the node is
/// its output, or made of it alone.
pub open spec fn puts_einsum(p: Patch, j: int) -> bool {
    &&& 0 <= j < p.wires.len() <= usize::MAX
    &&& p.wires[j].op is EinSum
    &&& p.by == Ref::Wire(j as usize, 0) || {
        &&& j + 1 < p.wires.len()
        &&& p.by == Ref::Wire((j + 1) as usize, 0)
        &&& p.wires[j + 1].inputs == seq![Ref::Wire(j as usize, 0)]
    }
}

/// A patch on the way to a matrix product puts an einsum in the place of the node.
pub proof fn lemma_step_einsum(op: EinSumView, m: Model, id: int, p: Patch) -> (j: int)
    requires
        mkn_step(op, m, id) == Ok::<Step, Error>(Step::Patch(p)),
    ensures
        p.node == id,
        puts_einsum(p, j),
{
    reveal(mkn_step);
    let node = m.nodes[id];
    match roles(op.axes, input_shapes(m, node)) {
        Roles::NoK => {
            assert(p == k_patch(op, node, id, op.axes.free_label()->0));
            2
        },
        Roles::NoM(k) => lemma_side_einsum(op, m, id, 0, seq![k], p),
        Roles::NoN(k, rows) => lemma_side_einsum(op, m, id, 1, seq![k, rows], p),
        _ => 0,
    }
}

proof fn lemma_side_einsum(
    op: EinSumView,
    m: Model,
    id: int,
    own: usize,
    exclude: Seq<char>,
    p: Patch,
) -> (j: int)
    requires
        inject_side(op, m, id, own, exclude) == Ok::<Patch, Error>(p),
    ensures
        p.node == id,
        puts_einsum(p, j),
{
    let e = op.axes;
    let node = m.nodes[id];
    let quasi = quasi_sides(e, input_shapes(m, node), own as int, exclude);
    if quasi.len() == 0 {
        assert(p == both_patch(op, node, id, own, e.free_label()->0));
        1
    } else if e.count_in(own as int, quasi[0]) == 1 {
        assert(p == output_patch(op, node, id, quasi[0]));
        0
    } else {
        assert(p == input_patch(op, node, id, own, quasi[0]));
        1
    }
}

/// After a patch on the way to a matrix product of an einsum that an output needs, an
/// output needs the einsum of the patch.
pub proof fn lemma_needed_einsum(m: Model, id: int, p: Patch, j: int)
    requires
        m.wf(),
        p.aims_at(m),
        p.fault(m) is None,
        p.node == id,
        needed(m, id),
        puts_einsum(p, j),
    ensures
        needed(p.applied(m), id + j),
{
    let a = p.applied(m);
    lemma_needed_after(m, p, id);
    if p.by != Ref::Wire(j as usize, 0) {
        let next = a.nodes[id + j + 1];
        assert(next == p.wire_nodes(m)[j + 1]);
        assert(next.inputs[0] == p.resolve(p.wires[j + 1].inputs[0]));
        assert(takes(next, id + j));
    }
}

/// An einsum stays only where an output needs it, and is then among those that stay.
pub proof fn lemma_staying_einsum(m: Model, i: int)
    requires
        m.wf(),
        0 <= i < m.nodes.len(),
        is_einsum(m.nodes[i]),
        needed(m, i),
    ensures
        next_einsum(m.compacted(), 0) is Some,
{
    lemma_placed_node(m, i);
    lemma_next_einsum(m.compacted(), 0);
    assert(is_einsum(m.compacted().nodes[m.place(i)]));
}

/// The first einsum of a compacted model is one that an output needs.
pub proof fn lemma_first_needed(m: Model)
    requires
        m.wf(),
        next_einsum(m.compacted(), 0) is Some,
    ensures
        needed(m.compacted(), next_einsum(m.compacted(), 0)->0),
{
    let c = m.compacted();
    lemma_compacted(m);
    lemma_next_einsum(c, 0);
    let q = next_einsum(c, 0)->0;
    let i = lemma_origin(m, m.nodes.len() as int, q);
    lemma_still_needed(m, i);
}

/// Whether a model still has an einsum after the next patch of its first einsum, if
/// there is such a patch: that is lost where no output needs any einsum.
pub open spec fn stays_einsum(m: Model) -> bool {
    let id = next_einsum(m, 0)->0;
    mkn_step(m.nodes[id].op->EinSum_0, m, id) matches Ok(Step::Patch(p)) ==> next_einsum(
        p.applied(m).compacted(),
        0,
    ) is Some
}

/// A model whose first einsum an output needs does not lose it.
pub proof fn lemma_stays_einsum(m: Model, id: int)
    requires
        m.wf(),
        next_einsum(m, 0) == Some(id),
        needed(m, id),
    ensures
        stays_einsum(m),
{
    let op = m.nodes[id].op->EinSum_0;
    lemma_next_einsum(m, 0);
    match mkn_step(op, m, id) {
        Ok(Step::Patch(p)) => {
            let a = p.applied(m);
            let j = lemma_step_einsum(op, m, id, p);
            lemma_step_aims(m, id, p);
            lemma_applied(m, p);
            lemma_needed_einsum(m, id, p, j);
            assert(a.nodes[id + j] == p.wire_nodes(m)[j]);
            lemma_staying_einsum(a, id + j);
        },
        _ => {},
    }
}

/// Gives the first einsum of a model the axes of a matrix product, and finds the
/// labels of the rows, the sums and the columns.
fn normalize(model: &mut TypedModel, fuel: usize) -> (r: Result<(char, char, char), Error>)
    requires
        old(model).wf(),
        next_einsum(old(model)@, 0) is Some,
        stays_einsum(old(model)@),
    ensures
        final(model).wf(),
        normalized(old(model)@, fuel as nat) == (final(model)@, r),
    decreases fuel,
{
    let id = match find_einsum(model, 0) {
        Some(id) => id,
        None => {
            return Err(Error::UnknownLabel);
        },
    };
    proof {
        lemma_einsum_node(model, id as int);
    }
    let node = &model.nodes[id];
    let op = match &node.op {
        Op::EinSum(op) => op,
        _ => {
            return Err(Error::UnknownLabel);
        },
    };
    let step = ensure_mkn_axes(op, model, node);
    let patch = match step {
        Err(e) => {
            return Err(e);
        },
        Ok(AxesOrPatch::NotAMatMul(_)) => {
            return Err(Error::NotAMatMul);
        },
        Ok(AxesOrPatch::Annotated(annotated)) => {
            return Ok((annotated.m_axis.repr, annotated.k_axis.repr, annotated.n_axis.repr));
        },
        Ok(AxesOrPatch::Patch(patch)) => patch,
    };
    if fuel == 0 {
        return Err(Error::NoProgress);
    }
    patch.apply(model);
    let ghost a = model@;
    model.compact();
    proof {
        lemma_first_needed(a);
        lemma_stays_einsum(model@, next_einsum(model@, 0)->0);
    }
    normalize(model, fuel - 1)
}

/// The matrix product for the labels of the rows, the sums and the columns, if they
/// occur where a matrix product has them.
fn find_product(axes: &AxesMapping, rows: char, k: char, columns: char) -> (r: Result<
    BasicMatMul,
    Error,
>)
    requires
        axes@.inputs.len() >= 2,
        axes@.outputs.len() == 1,
    ensures
        match r {
            Ok(op) => has_roles(axes@, rows, k, columns) && op == product_for(
                axes@,
                rows,
                k,
                columns,
            ),
            Err(e) => e == Error::UnknownLabel && !has_roles(axes@, rows, k, columns),
        },
{
    let ghost e = axes@;
    proof {
        lemma_occurrence(e, rows);
        lemma_occurrence(e, k);
        lemma_occurrence(e, columns);
    }
    let (m_axis, k_axis, n_axis) = match (axes.axis(rows), axes.axis(k), axes.axis(columns)) {
        (Ok(m_axis), Ok(k_axis), Ok(n_axis)) => (m_axis, k_axis, n_axis),
        _ => {
            return Err(Error::UnknownLabel);
        },
    };
    proof {
        lemma_axis(e, m_axis);
        lemma_axis(e, k_axis);
        lemma_axis(e, n_axis);
        assert(m_axis.inputs@[0]@.len() == e.count_in(0, rows));
        assert(k_axis.inputs@[0]@.len() == e.count_in(0, k));
        assert(k_axis.inputs@[1]@.len() == e.count_in(1, k));
        assert(n_axis.inputs@[1]@.len() == e.count_in(1, columns));
        assert(m_axis.outputs@[0]@.len() == e.count_out(0, rows));
        assert(n_axis.outputs@[0]@.len() == e.count_out(0, columns));
    }
    if m_axis.inputs[0].len() == 0 || k_axis.inputs[0].len() == 0 || k_axis.inputs[1].len() == 0
        || n_axis.inputs[1].len() == 0 || m_axis.outputs[0].len() == 0 || n_axis.outputs[0].len()
        == 0 {
        return Err(Error::UnknownLabel);
    }
    match find_end_product(axes, k) {
        Some(op) => {
            return Ok(op);
        },
        None => {},
    }
    Ok(
        BasicMatMul {
            transpose_a: m_axis.inputs[0][0] > k_axis.inputs[0][0],
            transpose_b: k_axis.inputs[1][0] > n_axis.inputs[1][0],
            transpose_c: m_axis.outputs[0][0] > n_axis.outputs[0][0],
        },
    )
}

/// A label that occurs in one of the first two inputs, or in the output, is a
/// label of the einsum.
proof fn lemma_occurrence(e: Expr, c: char)
    requires
        e.inputs.len() >= 2,
        e.outputs.len() == 1,
    ensures
        e.count_in(0, c) > 0 || e.count_in(1, c) > 0 || e.count_out(0, c) > 0 ==> e.has(c),
{
    lemma_has(e, c);
    lemma_positions(e.inputs[0], c);
    lemma_positions(e.inputs[1], c);
    lemma_positions(e.outputs[0], c);
}

/// How the axes at the end of the slots are transposed, if they are those of a
/// matrix product.
fn find_end_product(axes: &AxesMapping, k: char) -> (r: Option<BasicMatMul>)
    requires
        axes@.inputs.len() >= 2,
        axes@.outputs.len() == 1,
    ensures
        r is Some <==> ends_in_product(axes@, k),
        r matches Some(op) ==> op == end_product(axes@, k),
{
    let a = axes.input_labels(0);
    let b = axes.input_labels(1);
    let c = axes.output_labels(0);
    if a.len() < 2 || b.len() < 2 || c.len() < 2 {
        return None;
    }
    let (a0, a1) = (a[a.len() - 2], a[a.len() - 1]);
    let (b0, b1) = (b[b.len() - 2], b[b.len() - 1]);
    let (c0, c1) = (c[c.len() - 2], c[c.len() - 1]);
    if (a0 != k && a1 != k) || (b0 != k && b1 != k) {
        return None;
    }
    let rows = if a0 == k {
        a1
    } else {
        a0
    };
    let columns = if b1 == k {
        b0
    } else {
        b1
    };
    if (c0 == rows && c1 == columns) || (c0 == columns && c1 == rows) {
        Some(BasicMatMul { transpose_a: a0 == k, transpose_b: b1 == k, transpose_c: c0 == columns })
    } else {
        None
    }
}

/// Finds what puts a matrix product in the place of an einsum.
fn plan_product(model: &TypedModel, id: usize, rows: char, k: char, columns: char) -> (r: Result<
    TypedModelPatch,
    Error,
>)
    requires
        model.wf(),
        id < model.nodes@.len(),
        model.nodes@[id as int].op is EinSum,
    ensures
        is_patch(r, model@, replacement(model@, id as int, rows, k, columns)),
{
    let node = &model.nodes[id];
    proof {
        lemma_einsum_node(model, id as int);
        assert(node_wf(model@.nodes, id as int));
    }
    let op = match &node.op {
        Op::EinSum(op) => op,
        _ => {
            return Err(Error::NotAMatMul);
        },
    };
    let rank = op.axes.input_labels(0).len();
    if rank != op.axes.input_labels(1).len() || rank != op.axes.output_labels(0).len() {
        return Err(Error::RankMismatch);
    }
    let product = match find_product(&op.axes, rows, k, columns) {
        Ok(product) => product,
        Err(e) => {
            return Err(e);
        },
    };
    let mut wires: Vec<Wire> = Vec::new();
    wires.push(
        Wire {
            name: node.name.clone(),
            op: Op::Simple(SimpleOp::BasicMatMul(product)),
            inputs: all_taps(node.inputs.len()),
        },
    );
    let ghost want = product_patch(product, node@, id as int);
    proof {
        assert(wires_view(wires@) =~= want.wires);
        assert(want.wires[0].op.wf());
        assert(want.aims_at(model@));
    }
    TypedModelPatch::new(
        "".to_owned(),
        model,
        id,
        copy_outlets(&node.inputs),
        wires,
        Ref::Wire(0, 0),
    )
}

/// Replaces every einsum of a model by a matrix product.
fn replace_einsums(model: &mut TypedModel, rows: char, k: char, columns: char) -> (r: Result<
    (),
    Error,
>)
    requires
        old(model).wf(),
    ensures
        final(model).wf(),
        replaced(old(model)@, rows, k, columns) == (final(model)@, r),
        r is Ok ==> forall|i: int|
            0 <= i < final(model)@.nodes.len() ==> !is_einsum(#[trigger] final(model)@.nodes[i]),
{
    let ghost start = model@;
    loop
        invariant
            start == old(model)@,
            model.wf(),
            replaced(start, rows, k, columns) == replaced(model@, rows, k, columns),
        decreases einsums(model@.nodes, model@.nodes.len() as int),
    {
        let id = match find_einsum(model, 0) {
            Some(id) => id,
            None => {
                proof {
                    lemma_next_einsum(model@, 0);
                }
                return Ok(());
            },
        };
        let patch = match plan_product(model, id, rows, k, columns) {
            Ok(patch) => patch,
            Err(e) => {
                return Err(e);
            },
        };
        proof {
            lemma_fewer(model@, id as int, rows, k, columns, patch@);
        }
        patch.apply(model);
        model.compact();
    }
}

/// Turns the einsums of a model into matrix products. What the first lacks for
/// that is added; the others must have the same axes for the rows, the sums and
/// the columns. Einsums that no output needs go with the first patch.
pub fn decompose_one_in_place(model: &mut TypedModel) -> (r: Result<(), Error>)
    requires
        old(model).wf(),
        next_einsum(old(model)@, 0) is Some,
        stays_einsum(old(model)@),
    ensures
        final(model).wf(),
        decomposed(old(model)@) == (final(model)@, r),
        r is Ok ==> forall|i: int|
            0 <= i < final(model)@.nodes.len() ==> !is_einsum(#[trigger] final(model)@.nodes[i]),
{
    match normalize(model, 4) {
        Ok((rows, k, columns)) => replace_einsums(model, rows, k, columns),
        Err(e) => Err(e),
    }
}

/// The name of the input of a decomposed einsum.
pub open spec fn source_name(ix: int) -> Seq<char> {
    "adhoc_source_"@ + decimal(ix)
}

/// The inputs of a decomposed einsum.
pub open spec fn source_nodes(facts: Seq<Fact>) -> Seq<Node> {
    Seq::new(
        facts.len(),
        |i: int|
            Node {
                name: source_name(i),
                inputs: Seq::empty(),
                op: OpView::Source,
                outputs: seq![facts[i]],
            },
    )
}

/// The outlets of the first nodes.
pub open spec fn first_outlets(n: nat) -> Seq<Outlet> {
    Seq::new(n, |i: int| Outlet { node: i, slot: 0 })
}

/// The model of an einsum alone, on inputs with the given facts.
pub open spec fn einsum_alone(op: EinSumView, name: Seq<char>, facts: Seq<Fact>) -> Model {
    Model {
        nodes: source_nodes(facts).push(
            Node {
                name,
                inputs: first_outlets(facts.len()),
                op: OpView::EinSum(op),
                outputs: seq![op.output_fact(facts)],
            },
        ),
        outputs: seq![Outlet { node: facts.len() as int, slot: 0 }],
    }
}

/// What the decomposition of an einsum comes to.
pub open spec fn decomposition(op: EinSumView, m: Model, node: Node) -> Result<Model, Error> {
    let facts = facts_of(m.nodes, node.inputs);
    if !has_outlets(m.nodes, node.inputs, m.nodes.len() as int) {
        Err(Error::UnknownOutlet)
    } else if !ranks_suit(op.axes, facts) {
        Err(Error::BadFacts)
    } else {
        match decomposed(einsum_alone(op, node.name, facts)) {
            (d, Ok(_)) => Ok(d),
            (_, Err(e)) => Err(e),
        }
    }
}

/// Decomposes an einsum into a model of its own, in which matrix products take
/// its place, on inputs with the facts of the inputs of the node.
pub fn decompose(op: &EinSum, model: &TypedModel, node: &TypedNode) -> (r: Result<
    TypedModel,
    Error,
>)
    requires
        op@.wf(),
    ensures
        match r {
            Ok(d) => d.wf() && decomposition(op@, model@, node@) == Ok::<Model, Error>(d@),
            Err(e) => decomposition(op@, model@, node@) == Err::<Model, Error>(e),
        },
        r matches Ok(d) ==> forall|i: int|
            0 <= i < d@.nodes.len() ==> !is_einsum(#[trigger] d@.nodes[i]),
{
    let input_facts = match model.outlet_facts(&node.inputs) {
        Ok(facts) => facts,
        Err(e) => {
            return Err(e);
        },
    };
    let ghost facts = facts_of(model@.nodes, node@.inputs);
    let ghost sources = source_nodes(facts);
    let n = input_facts.len();
    let prefix = "adhoc_source_".to_owned();
    let mut substitute = TypedModel::new();
    let mut inputs: Vec<OutletId> = Vec::new();
    assert(substitute@.nodes =~= sources.take(0));
    for i in 0..n
        invariant
            n == input_facts@.len(),
            fact_refs(input_facts@) == facts,
            sources == source_nodes(facts),
            prefix@ == "adhoc_source_"@,
            substitute.wf(),
            substitute@.nodes == sources.take(i as int),
            substitute@.outputs.len() == 0,
            inputs@.len() == i,
            forall|j: int|
                0 <= j < i ==> (#[trigger] inputs@[j])@ == (Outlet { node: j, slot: 0 }),
    {
        assert(fact_refs(input_facts@)[i as int] == input_facts@[i as int]@);
        let source = substitute.add_source(numbered(&prefix, i), input_facts[i].clone());
        inputs.push(source);
        assert(substitute@.nodes =~= sources.take(i + 1));
    }
    assert(sources.take(n as int) =~= sources);
    assert(outlets_view(inputs@) =~= first_outlets(n as nat));
    assert(facts_of(sources, first_outlets(n as nat)) =~= facts);
    assert(has_outlets(sources, first_outlets(n as nat), n as int));
    let output = match substitute.wire_node(node.name.clone(), Op::EinSum(op.clone()), &inputs) {
        Ok(output) => output,
        Err(e) => {
            return Err(e);
        },
    };
    let ghost alone = einsum_alone(op@, node@.name, facts);
    assert(substitute@.nodes =~= alone.nodes);
    let mut outputs: Vec<OutletId> = Vec::new();
    outputs.push(output);
    assert(outlets_view(outputs@) =~= alone.outputs);
    match substitute.set_output_outlets(&outputs) {
        Ok(_) => {},
        Err(e) => {
            proof {
                assert(has_outlet(alone.nodes, alone.outputs[0], alone.nodes.len() as int));
                assert(false);
            }
            return Err(e);
        },
    }
    assert(substitute@ =~= alone);
    proof {
        lemma_next_einsum(alone, 0);
        assert(is_einsum(alone.nodes[n as int]));
        assert forall|i: int| 0 <= i < n implies !is_einsum(#[trigger] alone.nodes[i]) by {
            assert(alone.nodes[i] == sources[i]);
        }
        assert(alone.outputs[0].node == n);
        assert(is_output(alone, n as int));
        lemma_stays_einsum(alone, n as int);
    }
    match decompose_one_in_place(&mut substitute) {
        Ok(_) => Ok(substitute),
        Err(e) => Err(e),
    }
}

} // verus!
