//! When the operands of an einsum are exchanged, and what a kernel is told of the einsum
//! that it takes the place of: in terms of the nodes of the rewritten model.

use vstd::prelude::*;

use crate::dim::TDim;
use crate::error::Error;
use crate::kernels::{
    axis_pairs, is_stacked, kernel_patch, lemma_all_pairs, lemma_axis_pairs, packed_axis,
    swap_patch,
};
use crate::labels::{Expr, lemma_has, lemma_single};
use crate::model::{Model, Outlet, facts_of, node_wf};
use crate::ops::{Fact, OpView, SimpleOp, fact_shapes, ranks_suit, without_two};
use crate::optimize::{Step, input_shapes, mkn_step, optimization};
use crate::patch::{Patch, WireView, has_refs, lemma_wire_facts, ref_facts};
use crate::product::{lemma_extent_two, lemma_row_extent_found, output_dims, row_extent};
use crate::roles::{is_k, is_side, one};
use crate::search::{leads, lemma_chosen, lemma_leads, lemma_node_fits, lemma_said, once};
use crate::vectors::lemma_wire_push;

verus! {

/// Whether pairs of axes are those of the output and of a packed operand with the same
/// label: all of them, where the dimension in the operand is not one.
pub open spec fn pairs_axes(
    pairs: Seq<(usize, usize)>,
    output: Seq<char>,
    labels: Seq<char>,
    shape: Seq<TDim>,
    mn: int,
    k: int,
) -> bool {
    let left = without_two(labels, mn, k);
    let dims = without_two(shape, mn, k);
    &&& forall|i: int|
        #![trigger pairs[i]]
        0 <= i < pairs.len() ==> {
            &&& pairs[i].0 < output.len()
            &&& pairs[i].1 < left.len()
            &&& output[pairs[i].0 as int] == left[pairs[i].1 as int]
            &&& dims[pairs[i].1 as int] != TDim::Val(1)
        }
    &&& forall|q: int|
        #![trigger left[q]]
        0 <= q < left.len() && dims[q] != TDim::Val(1) && once(labels, left[q]) && once(
            output,
            left[q],
        ) ==> exists|i: int| 0 <= i < pairs.len() && (#[trigger] pairs[i]).1 == q
}

/// Whether a patch puts, in the place of an einsum of two inputs, a product by a kernel on
/// both of them, each packed along two of its axes.
///
/// The axes of the sums have one label, which the output does not have, and one dimension
/// in both operands: that many terms the kernel is told to sum up. It is told the axes of
/// the output that have the labels of the other two axes, and which others run along each
/// other; what the output is; and it is the kernel that was given.
pub open spec fn takes_place(
    m: Model,
    id: int,
    p: Patch,
    packers: (u64, u64),
    kernel: (u64, u64),
) -> bool {
    let node = m.nodes[id];
    let e = (node.op->EinSum_0).axes;
    let facts = facts_of(m.nodes, node.inputs);
    let a = p.applied(m);
    let by = p.resolve(p.by);
    let new = a.nodes[by.node];
    let (x, y) = (a.nodes[new.inputs[0].node], a.nodes[new.inputs[1].node]);
    &&& p.context == "Einsum to OptMatMul"@
    &&& a.nodes.len() == m.nodes.len() + 2
    &&& by.slot == 0
    &&& new.name == node.name
    &&& new.inputs.len() == 2
    &&& new.inputs[0].slot == 0
    &&& new.inputs[1].slot == 0
    &&& x.name == node.name + ".pack_a"@
    &&& x.inputs == seq![node.inputs[0]]
    &&& y.name == node.name + ".pack_b"@
    &&& y.inputs == seq![node.inputs[1]]
    &&& x.op matches OpView::Simple(SimpleOp::Pack(am, ak, pa))
    &&& y.op matches OpView::Simple(SimpleOp::Pack(bn, bk, pb))
    &&& new.op matches OpView::OptMatMul(o)
    &&& (pa, pb) == packers
    &&& (o.kernel, o.packing) == kernel
    &&& am < e.inputs[0].len() && ak < e.inputs[0].len()
    &&& bn < e.inputs[1].len() && bk < e.inputs[1].len()
    &&& o.c_m_axis < e.outputs[0].len() && o.c_n_axis < e.outputs[0].len()
    &&& e.inputs[0][ak as int] == e.inputs[1][bk as int]
    &&& !e.outputs[0].contains(e.inputs[0][ak as int])
    &&& o.k == facts[0].shape[ak as int]
    &&& o.k == facts[1].shape[bk as int]
    &&& e.inputs[0][am as int] == e.outputs[0][o.c_m_axis as int]
    &&& e.inputs[1][bn as int] == e.outputs[0][o.c_n_axis as int]
    &&& o.c_fact == node.outputs[0]
    &&& pairs_axes(
        o.c_to_a_axis_mapping,
        e.outputs[0],
        e.inputs[0],
        facts[0].shape,
        am as int,
        ak as int,
    )
    &&& pairs_axes(
        o.c_to_b_axis_mapping,
        e.outputs[0],
        e.inputs[1],
        facts[1].shape,
        bn as int,
        bk as int,
    )
}

/// Whether a patch puts, in the place of an einsum of two inputs, the same with its inputs
/// exchanged.
pub open spec fn exchanges(m: Model, id: int, p: Patch) -> bool {
    let node = m.nodes[id];
    let op = node.op->EinSum_0;
    let a = p.applied(m);
    let new = a.nodes[id];
    &&& a.nodes.len() == m.nodes.len()
    &&& p.resolve(p.by) == Outlet { node: id, slot: 0 }
    &&& new.name == node.name
    &&& new.inputs == seq![node.inputs[1], node.inputs[0]]
    &&& new.outputs == node.outputs
    &&& new.op matches OpView::EinSum(f)
    &&& f.axes.inputs == seq![op.axes.inputs[1], op.axes.inputs[0]]
    &&& f.axes.outputs == op.axes.outputs
    &&& f.operating_dt == op.operating_dt
    &&& f.q_params == op.q_params
}

/// Whether two inputs have the same dimension, other than one, along the axes with the
/// same label.
pub open spec fn dims_agree(e: Expr, shapes: Seq<Seq<TDim>>) -> bool {
    forall|p: int, q: int|
        0 <= p < e.inputs[0].len() && 0 <= q < e.inputs[1].len() && #[trigger] e.inputs[0][p]
            == #[trigger] e.inputs[1][q] && shapes[0][p] != TDim::Val(1) && shapes[1][q]
            != TDim::Val(1) ==> shapes[0][p] == shapes[1][q]
}

/// What is left of a sequence without two of its elements is one of the others.
proof fn lemma_left<T>(s: Seq<T>, x: int, y: int, q: int) -> (i: int)
    requires
        0 <= x < s.len(),
        0 <= y < s.len(),
        x != y,
        0 <= q < s.len() - 2,
    ensures
        0 <= i < s.len(),
        i != x && i != y,
        packed_axis(i, x, y) == q,
        without_two(s, x, y)[q] == s[i],
{
    let (low, high) = if x < y {
        (x, y)
    } else {
        (y, x)
    };
    if q < low {
        q
    } else if q + 1 < high {
        q + 1
    } else {
        q + 2
    }
}

/// The pairs of axes that a kernel is told.
proof fn lemma_pairs(
    e: Expr,
    shapes: Seq<Seq<TDim>>,
    t: int,
    side: char,
    k: char,
    other: char,
    parts: Seq<char>,
)
    requires
        t == 0 || t == 1,
        e.inputs.len() == 2,
        e.outputs.len() == 1,
        shapes.len() == 2,
        shapes[t].len() == e.inputs[t].len(),
        is_side(e, shapes, t, side),
        is_side(e, shapes, 1 - t, other),
        is_k(e, shapes, k),
        forall|c: char| #[trigger] parts.contains(c) <==> c == side || c == k || c == other,
        e.inputs[t].len() <= usize::MAX,
        e.outputs[0].len() <= usize::MAX,
    ensures
        pairs_axes(
            axis_pairs(e, shapes, t, side, k, parts, e.labels()),
            e.outputs[0],
            e.inputs[t],
            shapes[t],
            e.first_in(t, side),
            e.first_in(t, k),
        ),
{
    let (x, y) = (e.first_in(t, side), e.first_in(t, k));
    let labels = e.inputs[t];
    let shape = shapes[t];
    let left = without_two(labels, x, y);
    let dims = without_two(shape, x, y);
    let pairs = axis_pairs(e, shapes, t, side, k, parts, e.labels());
    lemma_single(labels, side);
    lemma_single(labels, k);
    assert(side != k);
    assert forall|i: int|
        #![trigger pairs[i]]
        0 <= i < pairs.len() implies pairs[i].0 < e.outputs[0].len() && pairs[i].1 < left.len()
        && e.outputs[0][pairs[i].0 as int] == left[pairs[i].1 as int] && dims[pairs[i].1 as int]
        != TDim::Val(1) by {
        assert(parts.contains(side) && parts.contains(k));
        lemma_axis_pairs(e, shapes, t, side, k, parts, e.labels(), i);
        let q = pairs[i].1 as int;
        let c = e.outputs[0][pairs[i].0 as int];
        let at = lemma_left(labels, x, y, q);
        let also = lemma_left(shape, x, y, q);
        assert(at == also);
        lemma_single(labels, c);
        assert(labels[at] == c);
    }
    assert forall|q: int|
        #![trigger left[q]]
        0 <= q < left.len() && dims[q] != TDim::Val(1) && once(labels, left[q]) && once(
            e.outputs[0],
            left[q],
        ) implies exists|i: int| 0 <= i < pairs.len() && (#[trigger] pairs[i]).1 == q by {
        let c = left[q];
        let at = lemma_left(labels, x, y, q);
        let also = lemma_left(shape, x, y, q);
        assert(at == also);
        lemma_leads(labels, c);
        lemma_leads(e.outputs[0], c);
        lemma_single(labels, c);
        assert(labels[at] == c);
        assert(is_stacked(e, shapes, t, parts, c));
        lemma_has(e, c);
        lemma_all_pairs(e, shapes, t, side, k, parts, e.labels(), c);
        let pair = (e.first_out(0, c) as usize, q as usize);
        let i = choose|i: int| 0 <= i < pairs.len() && pairs[i] == pair;
        assert(pairs[i].1 == q);
    }
}

/// The product by a kernel has no fault: its fact is that of the einsum.
proof fn lemma_kernel_fault(
    m: Model,
    id: int,
    rows: char,
    k: char,
    columns: char,
    packers: (u64, u64),
    kernel: (u64, u64),
)
    requires
        m.wf(),
        0 <= id < m.nodes.len(),
        m.nodes[id].op is EinSum,
        m.nodes[id].inputs.len() == 2,
        ({
            let e = (m.nodes[id].op->EinSum_0).axes;
            let shapes = input_shapes(m, m.nodes[id]);
            &&& is_side(e, shapes, 0, rows)
            &&& is_k(e, shapes, k)
            &&& is_side(e, shapes, 1, columns)
            &&& e.inputs[0].len() <= usize::MAX
            &&& e.inputs[1].len() <= usize::MAX
        }),
    ensures
        kernel_patch(
            m.nodes[id].op->EinSum_0,
            m,
            id,
            rows,
            k,
            columns,
            packers,
            kernel,
        ).fault(m) is None,
{
    let node = m.nodes[id];
    let op = node.op->EinSum_0;
    let e = op.axes;
    let facts = facts_of(m.nodes, node.inputs);
    let p = kernel_patch(op, m, id, rows, k, columns, packers, kernel);
    assert(node_wf(m.nodes, id));
    lemma_single(e.inputs[0], rows);
    lemma_single(e.inputs[0], k);
    lemma_single(e.inputs[1], columns);
    lemma_single(e.inputs[1], k);
    assert(facts[0].shape.len() == e.inputs[0].len());
    assert(facts[1].shape.len() == e.inputs[1].len());
    let w0 = Seq::<WireView>::empty();
    let w1 = w0.push(p.wires[0]);
    let w2 = w1.push(p.wires[1]);
    let f0 = Seq::<Seq<Fact>>::empty();
    assert(ref_facts(facts, f0, p.wires[0].inputs) =~= seq![facts[0]]);
    let a = p.wires[0].op.facts(seq![facts[0]])->0;
    lemma_wire_push(facts, w0, p.wires[0], f0, a);
    let f1 = f0.push(a);
    assert(ref_facts(facts, f1, p.wires[1].inputs) =~= seq![facts[1]]);
    let b = p.wires[1].op.facts(seq![facts[1]])->0;
    lemma_wire_push(facts, w1, p.wires[1], f1, b);
    let f2 = f1.push(b);
    let c = seq![op.output_fact(facts)];
    assert(ref_facts(facts, f2, p.wires[2].inputs).len() == 2);
    assert(has_refs(facts, f2, p.wires[2].inputs));
    lemma_wire_push(facts, w2, p.wires[2], f2, c);
    assert(w2.push(p.wires[2]) =~= p.wires);
}

/// The product by a kernel takes the place of an einsum of two inputs, and the kernel is
/// told its geometry.
pub proof fn lemma_kernel_told(
    m: Model,
    id: int,
    packers: (u64, u64),
    kernel: (u64, u64),
    rows: char,
    k: char,
    columns: char,
)
    requires
        m.wf(),
        0 <= id < m.nodes.len(),
        m.nodes[id].op is EinSum,
        m.nodes[id].inputs.len() == 2,
        ({
            let e = (m.nodes[id].op->EinSum_0).axes;
            let shapes = input_shapes(m, m.nodes[id]);
            &&& e.inputs[0].len() <= usize::MAX
            &&& e.inputs[1].len() <= usize::MAX
            &&& e.outputs[0].len() <= usize::MAX
            &&& is_side(e, shapes, 0, rows)
            &&& is_k(e, shapes, k)
            &&& is_side(e, shapes, 1, columns)
        }),
    ensures
        ({
            let op = m.nodes[id].op->EinSum_0;
            let p = kernel_patch(op, m, id, rows, k, columns, packers, kernel);
            p.fault(m) is None && takes_place(m, id, p, packers, kernel)
        }),
{
    let node = m.nodes[id];
    let op = node.op->EinSum_0;
    let e = op.axes;
    let shapes = input_shapes(m, node);
    let facts = facts_of(m.nodes, node.inputs);
    let p = kernel_patch(op, m, id, rows, k, columns, packers, kernel);
    let parts = seq![rows, k, columns];
    let a = p.applied(m);
    assert(node_wf(m.nodes, id));
    assert(ranks_suit(e, facts));
    assert(facts[0].shape.len() == e.inputs[0].len());
    assert(facts[1].shape.len() == e.inputs[1].len());
    assert(shapes[0] == facts[0].shape && shapes[1] == facts[1].shape);
    lemma_kernel_fault(m, id, rows, k, columns, packers, kernel);
    lemma_wire_facts(facts, p.wires, 3);
    lemma_single(e.inputs[0], rows);
    lemma_single(e.inputs[0], k);
    lemma_single(e.inputs[1], columns);
    lemma_single(e.inputs[1], k);
    lemma_single(e.outputs[0], rows);
    lemma_single(e.outputs[0], columns);
    lemma_leads(e.outputs[0], k);
    assert forall|c: char| #[trigger] parts.contains(c) <==> c == rows || c == k || c
        == columns by {
        assert(parts[0] == rows && parts[1] == k && parts[2] == columns);
    }
    lemma_pairs(e, shapes, 0, rows, k, columns, parts);
    lemma_pairs(e, shapes, 1, columns, k, rows, parts);
    assert(a.nodes[id] == p.wire_nodes(m)[0]);
    assert(a.nodes[id + 1] == p.wire_nodes(m)[1]);
    assert(a.nodes[id + 2] == p.wire_nodes(m)[2]);
    assert(a.nodes[id].inputs =~= seq![node.inputs[0]]);
    assert(a.nodes[id + 1].inputs =~= seq![node.inputs[1]]);
    assert(fact_shapes(facts) =~= shapes);
}

/// Where the operands are not exchanged, an einsum of two inputs without quantization
/// whose rows, sums and columns are found is replaced by the product by the kernel, which
/// is told the axes of the einsum and how many terms its sums have.
///
/// They are not exchanged where there are as many rows as columns, or more; where the
/// number of columns is not known; and where only that of the rows is not, and there are
/// less than eight columns.
pub proof fn lemma_geometry(
    m: Model,
    id: int,
    packers: (u64, u64),
    kernel: (u64, u64),
    rows: char,
    k: char,
    columns: char,
    i: int,
    j: int,
)
    requires
        m.wf(),
        0 <= id < m.nodes.len(),
        m.nodes[id].op is EinSum,
        m.nodes[id].inputs.len() == 2,
        ({
            let op = m.nodes[id].op->EinSum_0;
            let e = op.axes;
            let shapes = input_shapes(m, m.nodes[id]);
            &&& op.q_params is None
            &&& e.inputs[0].len() <= usize::MAX
            &&& e.inputs[1].len() <= usize::MAX
            &&& e.outputs[0].len() <= usize::MAX
            &&& mkn_step(op, m, id) == Ok::<Step, Error>(Step::Annotated(rows, k, columns))
            &&& leads(e.inputs[0], i, rows)
            &&& leads(e.inputs[1], j, columns)
            &&& match (shapes[0][i], shapes[1][j]) {
                (TDim::Val(x), TDim::Val(y)) => x >= y,
                (TDim::Sym(_), TDim::Val(y)) => y < 8,
                (_, TDim::Sym(_)) => true,
            }
        }),
    ensures
        optimization(m.nodes[id].op->EinSum_0, m, id, packers, kernel) matches Ok(Some(p))
            && takes_place(m, id, p, packers, kernel),
{
    let op = m.nodes[id].op->EinSum_0;
    let e = op.axes;
    let shapes = input_shapes(m, m.nodes[id]);
    lemma_node_fits(op, m, id);
    lemma_chosen(op, m, id, rows, k, columns);
    lemma_said(e, shapes, rows);
    lemma_said(e, shapes, k);
    lemma_said(e, shapes, columns);
    lemma_leads(e.inputs[0], rows);
    lemma_leads(e.inputs[1], columns);
    lemma_kernel_told(m, id, packers, kernel, rows, k, columns);
}

/// Extents do not depend on the order of inputs whose dimensions agree.
proof fn lemma_exchanged_dims(e: Expr, shapes: Seq<Seq<TDim>>)
    requires
        e.inputs.len() == 2,
        shapes.len() == 2,
        shapes[0].len() == e.inputs[0].len(),
        shapes[1].len() == e.inputs[1].len(),
        dims_agree(e, shapes),
    ensures
        output_dims(e.swapped(), seq![shapes[1], shapes[0]], one()) == output_dims(
            e,
            shapes,
            one(),
        ),
{
    let f = e.swapped();
    let s = seq![shapes[1], shapes[0]];
    let left = output_dims(f, s, one());
    let right = output_dims(e, shapes, one());
    assert(f.inputs =~= seq![e.inputs[1], e.inputs[0]]);
    assert forall|p: int| 0 <= p < right.len() implies #[trigger] left[p] == right[p] by {
        let c = e.outputs[0][p];
        lemma_extent_two(e.inputs, shapes, c, one());
        lemma_extent_two(f.inputs, s, c, one());
        if row_extent(e.inputs[0], shapes[0], c, one()) != one() && row_extent(
            e.inputs[1],
            shapes[1],
            c,
            one(),
        ) != one() {
            let i = lemma_row_extent_found(e.inputs[0], shapes[0], c, one());
            let j = lemma_row_extent_found(e.inputs[1], shapes[1], c, one());
            assert(e.inputs[0][i] == e.inputs[1][j]);
        }
    }
    assert(left =~= right);
}

/// What exchanging the operands of an einsum of two inputs comes to.
pub proof fn lemma_swap_told(m: Model, id: int)
    requires
        m.wf(),
        0 <= id < m.nodes.len(),
        m.nodes[id].op is EinSum,
        m.nodes[id].inputs.len() == 2,
    ensures
        ({
            let op = m.nodes[id].op->EinSum_0;
            let p = swap_patch(op, m.nodes[id], id);
            match p.fault(m) {
                None => exchanges(m, id, p),
                Some(err) => err == Error::FactMismatch && !dims_agree(
                    op.axes,
                    input_shapes(m, m.nodes[id]),
                ),
            }
        }),
{
    let node = m.nodes[id];
    let op = node.op->EinSum_0;
    let e = op.axes;
    let shapes = input_shapes(m, node);
    let facts = facts_of(m.nodes, node.inputs);
    let p = swap_patch(op, node, id);
    let a = p.applied(m);
    assert(node_wf(m.nodes, id));
    assert(ranks_suit(e, facts));
    assert(facts[0].shape.len() == e.inputs[0].len());
    assert(facts[1].shape.len() == e.inputs[1].len());
    assert(shapes[0] == facts[0].shape && shapes[1] == facts[1].shape);
    let taps = facts_of(m.nodes, p.taps);
    let f = op.over(e.swapped());
    assert(e.swapped().inputs =~= seq![e.inputs[1], e.inputs[0]]);
    assert(taps =~= seq![facts[1], facts[0]]);
    let w0 = Seq::<WireView>::empty();
    let f0 = Seq::<Seq<Fact>>::empty();
    assert(ref_facts(taps, f0, p.wires[0].inputs) =~= taps);
    assert(ranks_suit(e.swapped(), taps));
    lemma_wire_push(taps, w0, p.wires[0], f0, seq![f.output_fact(taps)]);
    assert(w0.push(p.wires[0]) =~= p.wires);
    assert(fact_shapes(taps) =~= seq![shapes[1], shapes[0]]);
    if dims_agree(e, shapes) {
        lemma_exchanged_dims(e, shapes);
    }
    if p.fault(m) is None {
        assert(a.nodes[id] == p.wire_nodes(m)[0]);
        assert(a.nodes[id].inputs =~= seq![node.inputs[1], node.inputs[0]]);
        assert(a.nodes[id].outputs =~= node.outputs);
    }
}

/// The operands of an einsum of two inputs without quantization whose rows, sums and
/// columns are found are exchanged where there are fewer rows than columns, or only the
/// number of rows is not known and there are at least eight columns. That cannot fail
/// where the dimensions under the same label agree; otherwise what the output is could
/// change, and the exchange is refused.
pub proof fn lemma_exchange(
    m: Model,
    id: int,
    packers: (u64, u64),
    kernel: (u64, u64),
    rows: char,
    k: char,
    columns: char,
    i: int,
    j: int,
)
    requires
        m.wf(),
        0 <= id < m.nodes.len(),
        m.nodes[id].op is EinSum,
        m.nodes[id].inputs.len() == 2,
        ({
            let op = m.nodes[id].op->EinSum_0;
            let e = op.axes;
            let shapes = input_shapes(m, m.nodes[id]);
            &&& op.q_params is None
            &&& mkn_step(op, m, id) == Ok::<Step, Error>(Step::Annotated(rows, k, columns))
            &&& leads(e.inputs[0], i, rows)
            &&& leads(e.inputs[1], j, columns)
            &&& match (shapes[0][i], shapes[1][j]) {
                (TDim::Val(x), TDim::Val(y)) => x < y,
                (TDim::Sym(_), TDim::Val(y)) => y >= 8,
                (_, TDim::Sym(_)) => false,
            }
        }),
    ensures
        ({
            let op = m.nodes[id].op->EinSum_0;
            match optimization(op, m, id, packers, kernel) {
                Ok(Some(p)) => exchanges(m, id, p),
                Ok(None) => false,
                Err(err) => err == Error::FactMismatch && !dims_agree(
                    op.axes,
                    input_shapes(m, m.nodes[id]),
                ),
            }
        }),
{
    let e = (m.nodes[id].op->EinSum_0).axes;
    lemma_leads(e.inputs[0], rows);
    lemma_leads(e.inputs[1], columns);
    lemma_swap_told(m, id);
}

} // verus!
