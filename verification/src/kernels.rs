//! The rewrite of an einsum into a matrix product by a kernel on packed operands.

use vstd::prelude::*;

use crate::axes::{AxesMapping, Axis, axes_of, lemma_labels_fit};
use crate::dim::{DimLike, TDim};
use crate::error::Error;
use crate::geometry::{dims_agree, exchanges, lemma_kernel_told, lemma_swap_told, takes_place};
use crate::labels::{Expr, lemma_single};
use crate::model::{
    Model, Node, OutletId, TypedModel, TypedNode, copy_outlets, facts_of, has_outlet, node_wf,
    outlets_view,
};
use crate::names::suffixed;
use crate::ops::{
    EinSum, EinSumView, Fact, Op, OpView, OptMatMul, OptMatMulView, SimpleOp, TypedFact, fact_refs,
    fact_shapes, facts_view, ranks_suit, without_two,
};
use crate::optimize::{
    EinSumAnnotatedAsMatMul, all_taps, belongs, input_shapes, is_patch, node_facts, tap_refs,
};
use crate::patch::{Patch, Ref, TypedModelPatch, Wire, WireView, wires_view};
use crate::roles::{dim_in, lemma_axis, one};

verus! {

/// What a machine offers for a matrix product: the packers of the two operands,
/// and the kernels, each with its way of packing, the best first.
#[derive(Debug)]
pub struct KernelSelection {
    pub a_packer: u64,
    pub b_packer: u64,
    pub kernels: Vec<(u64, u64)>,
}

/// Whether the operands are better exchanged: there are fewer rows than columns;
/// or the rows are of unknown number, and there are at least eight columns.
pub open spec fn must_transpose(m: TDim, n: TDim) -> bool {
    match (m.known(), n.known()) {
        (Some(m), Some(n)) => m < n,
        (None, Some(n)) => n >= 8,
        _ => false,
    }
}

/// Operands that were exchanged are not exchanged again.
pub proof fn lemma_transposed_once(m: TDim, n: TDim)
    requires
        must_transpose(m, n),
    ensures
        !must_transpose(n, m),
{
}

/// The patch that exchanges the operands of an einsum.
pub open spec fn swap_patch(op: EinSumView, node: Node, id: int) -> Patch {
    Patch {
        context: ""@,
        taps: seq![node.inputs[1], node.inputs[0]],
        wires: seq![
            WireView {
                name: node.name,
                op: OpView::EinSum(op.over(op.axes.swapped())),
                inputs: tap_refs(2),
            },
        ],
        node: id,
        by: Ref::Wire(0, 0),
    }
}

/// The axis of a packed operand that an axis of the operand becomes: packing
/// takes two axes away.
pub open spec fn packed_axis(p: int, x: int, y: int) -> int {
    p - (if p > x {
        1int
    } else {
        0
    }) - (if p > y {
        1int
    } else {
        0
    })
}

/// Whether an axis of the output runs along one of an operand: the label is none
/// of those given, is once in each, and has a dimension other than one in the
/// operand.
pub open spec fn is_stacked(
    e: Expr,
    shapes: Seq<Seq<TDim>>,
    slot: int,
    parts: Seq<char>,
    c: char,
) -> bool {
    &&& !parts.contains(c)
    &&& e.count_out(0, c) == 1
    &&& e.count_in(slot, c) == 1
    &&& dim_in(e, shapes, slot, c) != one()
}

/// Which axes of a packed operand the axes of the output run along, for some
/// labels.
pub open spec fn axis_pairs(
    e: Expr,
    shapes: Seq<Seq<TDim>>,
    slot: int,
    side: char,
    k: char,
    parts: Seq<char>,
    labels: Seq<char>,
) -> Seq<(usize, usize)>
    decreases labels.len(),
{
    if labels.len() == 0 {
        Seq::empty()
    } else {
        let before = axis_pairs(e, shapes, slot, side, k, parts, labels.drop_last());
        let c = labels.last();
        if is_stacked(e, shapes, slot, parts, c) {
            before.push(
                (
                    e.first_out(0, c) as usize,
                    packed_axis(
                        e.first_in(slot, c),
                        e.first_in(slot, side),
                        e.first_in(slot, k),
                    ) as usize,
                ),
            )
        } else {
            before
        }
    }
}

/// The matrix product by a kernel.
pub open spec fn opt_mat_mul(
    op: EinSumView,
    facts: Seq<Fact>,
    m: char,
    k: char,
    n: char,
    kernel: (u64, u64),
) -> OptMatMulView {
    let e = op.axes;
    let shapes = fact_shapes(facts);
    OptMatMulView {
        kernel: kernel.0,
        packing: kernel.1,
        c_fact: op.output_fact(facts),
        c_m_axis: e.first_out(0, m) as usize,
        c_n_axis: e.first_out(0, n) as usize,
        k: dim_in(e, shapes, 0, k),
        c_to_a_axis_mapping: axis_pairs(e, shapes, 0, m, k, seq![m, k, n], e.labels()),
        c_to_b_axis_mapping: axis_pairs(e, shapes, 1, n, k, seq![m, k, n], e.labels()),
    }
}

/// An operator that packs an operand.
pub open spec fn packing(name: Seq<char>, tap: usize, mn: int, k: int, packer: u64) -> WireView {
    WireView {
        name,
        op: OpView::Simple(SimpleOp::Pack(mn as usize, k as usize, packer)),
        inputs: seq![Ref::Tap(tap)],
    }
}

/// The patch that packs the operands and multiplies them by the best kernel.
pub open spec fn kernel_patch(
    op: EinSumView,
    m: Model,
    id: int,
    rows: char,
    k: char,
    columns: char,
    packers: (u64, u64),
    kernel: (u64, u64),
) -> Patch {
    let node = m.nodes[id];
    let e = op.axes;
    let facts = facts_of(m.nodes, node.inputs);
    Patch {
        context: "Einsum to OptMatMul"@,
        taps: node.inputs,
        wires: seq![
            packing(
                node.name + ".pack_a"@,
                0,
                e.first_in(0, rows),
                e.first_in(0, k),
                packers.0,
            ),
            packing(
                node.name + ".pack_b"@,
                1,
                e.first_in(1, columns),
                e.first_in(1, k),
                packers.1,
            ),
            WireView {
                name: node.name,
                op: OpView::OptMatMul(opt_mat_mul(op, facts, rows, k, columns, kernel)),
                inputs: seq![Ref::Wire(0, 0), Ref::Wire(1, 0)],
            },
        ],
        node: id,
        by: Ref::Wire(2, 0),
    }
}

/// What the matrix product by a kernel comes to: first the operands are exchanged
/// if that is better.
pub open spec fn kernel_step(
    op: EinSumView,
    m: Model,
    id: int,
    rows: char,
    k: char,
    columns: char,
    packers: (u64, u64),
    kernel: (u64, u64),
) -> Result<Patch, Error> {
    let e = op.axes;
    let node = m.nodes[id];
    let shapes = input_shapes(m, node);
    if must_transpose(dim_in(e, shapes, 0, rows), dim_in(e, shapes, 1, columns)) {
        swap_patch(op, node, id).checked(m)
    } else {
        kernel_patch(op, m, id, rows, k, columns, packers, kernel).checked(m)
    }
}

/// A pair tells an axis of the output and one of the packed operand with the same
/// label, neither that of the matrices nor of dimension one.
pub proof fn lemma_axis_pairs(
    e: Expr,
    shapes: Seq<Seq<TDim>>,
    slot: int,
    side: char,
    k: char,
    parts: Seq<char>,
    labels: Seq<char>,
    i: int,
)
    requires
        e.count_in(slot, side) == 1,
        e.count_in(slot, k) == 1,
        side != k,
        parts.contains(side),
        parts.contains(k),
        e.outputs[0].len() <= usize::MAX,
        e.inputs[slot].len() <= usize::MAX,
        0 <= i < axis_pairs(e, shapes, slot, side, k, parts, labels).len(),
    ensures
        ({
            let (c, p) = axis_pairs(e, shapes, slot, side, k, parts, labels)[i];
            let left = without_two(
                e.inputs[slot],
                e.first_in(slot, side),
                e.first_in(slot, k),
            );
            &&& c < e.outputs[0].len()
            &&& p < left.len()
            &&& left[p as int] == e.outputs[0][c as int]
            &&& is_stacked(e, shapes, slot, parts, e.outputs[0][c as int])
        }),
    decreases labels.len(),
{
    let before = axis_pairs(e, shapes, slot, side, k, parts, labels.drop_last());
    if i < before.len() {
        lemma_axis_pairs(e, shapes, slot, side, k, parts, labels.drop_last(), i);
    } else {
        let c = labels.last();
        lemma_single(e.outputs[0], c);
        lemma_single(e.inputs[slot], c);
        lemma_single(e.inputs[slot], side);
        lemma_single(e.inputs[slot], k);
        assert(c != side && c != k);
    }
}

/// Every axis of the output that runs along one of the operand has its pair.
pub proof fn lemma_all_pairs(
    e: Expr,
    shapes: Seq<Seq<TDim>>,
    slot: int,
    side: char,
    k: char,
    parts: Seq<char>,
    labels: Seq<char>,
    c: char,
)
    requires
        labels.contains(c),
        is_stacked(e, shapes, slot, parts, c),
    ensures
        axis_pairs(e, shapes, slot, side, k, parts, labels).contains(
            (
                e.first_out(0, c) as usize,
                packed_axis(
                    e.first_in(slot, c),
                    e.first_in(slot, side),
                    e.first_in(slot, k),
                ) as usize,
            ),
        ),
    decreases labels.len(),
{
    let all = axis_pairs(e, shapes, slot, side, k, parts, labels);
    let before = axis_pairs(e, shapes, slot, side, k, parts, labels.drop_last());
    if labels.last() == c {
        assert(all[all.len() - 1] == (
            e.first_out(0, c) as usize,
            packed_axis(
                e.first_in(slot, c),
                e.first_in(slot, side),
                e.first_in(slot, k),
            ) as usize,
        ));
    } else {
        let p = choose|p: int| 0 <= p < labels.len() && labels[p] == c;
        assert(labels.drop_last()[p] == c);
        lemma_all_pairs(e, shapes, slot, side, k, parts, labels.drop_last(), c);
        let pair = (
            e.first_out(0, c) as usize,
            packed_axis(
                e.first_in(slot, c),
                e.first_in(slot, side),
                e.first_in(slot, k),
            ) as usize,
        );
        let i = choose|i: int| 0 <= i < before.len() && before[i] == pair;
        assert(all[i] == pair);
    }
}

/// Finds which axes of a packed operand the axes of the output run along.
fn find_pairs(
    axes: &AxesMapping,
    facts: &Vec<&TypedFact>,
    slot: usize,
    side: &Axis,
    k: &Axis,
    other: &Axis,
    Ghost(parts): Ghost<Seq<char>>,
) -> (r: Vec<(usize, usize)>)
    requires
        slot < 2,
        axes@.inputs.len() >= 2,
        axes@.outputs.len() == 1,
        ranks_suit(axes@, fact_refs(facts@)),
        side.is_of(axes@, side.repr),
        k.is_of(axes@, k.repr),
        axes@.count_in(slot as int, side.repr) == 1,
        axes@.count_in(slot as int, k.repr) == 1,
        side.repr != k.repr,
        forall|c: char| #[trigger]
            parts.contains(c) <==> c == side.repr || c == k.repr || c == other.repr,
    ensures
        r@ == axis_pairs(
            axes@,
            fact_shapes(fact_refs(facts@)),
            slot as int,
            side.repr,
            k.repr,
            parts,
            axes@.labels(),
        ),
{
    let ghost e = axes@;
    let ghost shapes = fact_shapes(fact_refs(facts@));
    let ghost labels = e.labels();
    let all = axes.iter_all_axes();
    proof {
        lemma_axis(e, side);
        lemma_axis(e, k);
        assert(side.inputs@[slot as int]@.len() == 1);
        assert(k.inputs@[slot as int]@.len() == 1);
        lemma_single(e.inputs[slot as int], side.repr);
        lemma_single(e.inputs[slot as int], k.repr);
    }
    let x = side.inputs[slot][0];
    let y = k.inputs[slot][0];
    let mut pairs: Vec<(usize, usize)> = Vec::new();
    for i in 0..all.len()
        invariant
            slot < 2,
            e == axes@,
            e.inputs.len() >= 2,
            e.outputs.len() == 1,
            ranks_suit(e, fact_refs(facts@)),
            shapes == fact_shapes(fact_refs(facts@)),
            labels == e.labels(),
            axes_of(all@, e),
            x == e.first_in(slot as int, side.repr),
            y == e.first_in(slot as int, k.repr),
            x != y,
            e.inputs[slot as int][x as int] == side.repr,
            e.inputs[slot as int][y as int] == k.repr,
            forall|c: char| #[trigger]
                parts.contains(c) <==> c == side.repr || c == k.repr || c == other.repr,
            pairs@ == axis_pairs(
                e,
                shapes,
                slot as int,
                side.repr,
                k.repr,
                parts,
                labels.take(i as int),
            ),
    {
        let axis = &all[i];
        let ghost c = axis.repr;
        proof {
            assert(axis.is_of(e, labels[i as int]));
            assert(labels.take(i + 1).drop_last() =~= labels.take(i as int));
            assert(labels.take(i + 1).last() == c);
            lemma_axis(e, axis);
            assert(axis.inputs@[slot as int]@.len() == e.count_in(slot as int, c));
            assert(axis.outputs@[0]@.len() == e.count_out(0, c));
            assert(fact_refs(facts@)[slot as int].shape.len() == e.inputs[slot as int].len());
            assert(parts.contains(c) <==> c == side.repr || c == k.repr || c == other.repr);
        }
        if axis.repr != side.repr && axis.repr != k.repr && axis.repr != other.repr
            && axis.outputs[0].len() == 1 && axis.inputs[slot].len() == 1 {
            let a = axis.inputs[slot][0];
            if !facts[slot].shape[a].is_one() {
                proof {
                    lemma_single(e.inputs[slot as int], c);
                    assert(a != x && a != y);
                }
                let after_side: usize = if a > x {
                    1
                } else {
                    0
                };
                let after_k: usize = if a > y {
                    1
                } else {
                    0
                };
                pairs.push((axis.outputs[0][0], a - after_side - after_k));
            }
        }
    }
    assert(labels.take(all@.len() as int) =~= labels);
    pairs
}

fn pack_wire(name: String, tap: usize, mn: usize, k: usize, packer: u64) -> (r: Wire)
    ensures
        r@ == packing(name@, tap, mn as int, k as int, packer),
{
    let mut inputs: Vec<Ref> = Vec::new();
    inputs.push(Ref::Tap(tap));
    let r = Wire { name, op: Op::Simple(SimpleOp::Pack(mn, k, packer)), inputs };
    assert(r@ =~= packing(name@, tap, mn as int, k as int, packer));
    r
}

/// Exchanges the operands of an einsum.
fn swap_operands(model: &TypedModel, node: &TypedNode, op: &EinSum) -> (r: Result<
    TypedModelPatch,
    Error,
>)
    requires
        belongs(model, node),
        op@.wf(),
        node.inputs@.len() == 2,
    ensures
        is_patch(r, model@, swap_patch(op@, node@, node.id as int).checked(model@)),
{
    let mut taps: Vec<OutletId> = Vec::new();
    taps.push(node.inputs[1]);
    taps.push(node.inputs[0]);
    let mut wires: Vec<Wire> = Vec::new();
    wires.push(
        Wire {
            name: node.name.clone(),
            op: Op::EinSum(op.over(op.axes.swapping_inputs())),
            inputs: all_taps(2),
        },
    );
    let ghost want = swap_patch(op@, node@, node.id as int);
    proof {
        assert(outlets_view(taps@) =~= want.taps);
        assert(wires_view(wires@) =~= want.wires);
        assert(node_wf(model@.nodes, node.id as int));
        assert(want.wires[0].op.wf());
        assert forall|i: int| 0 <= i < want.taps.len() implies has_outlet(
            model@.nodes,
            #[trigger] want.taps[i],
            node.id as int,
        ) by {
            assert(has_outlet(model@.nodes, node@.inputs[1 - i], node.id as int));
        }
    }
    TypedModelPatch::new("".to_owned(), model, node.id, taps, wires, Ref::Wire(0, 0))
}

/// Replaces an einsum by a matrix product by a kernel on packed operands; or, if
/// that is better, exchanges its operands first. The contract says what the kernel is
/// told; that this describes the einsum is `packed::lemma_kernel_product`.
pub fn optimized_mat_mul(
    model: &TypedModel,
    node: &TypedNode,
    op: &EinSumAnnotatedAsMatMul,
    selection: &KernelSelection,
) -> (r: Result<TypedModelPatch, Error>)
    requires
        belongs(model, node),
        node@.op == OpView::EinSum(op.op@),
        node.inputs@.len() == 2,
        op.annotates(
            op.op@,
            input_shapes(model@, node@),
            op.m_axis.repr,
            op.k_axis.repr,
            op.n_axis.repr,
        ),
        must_transpose(op.m, op.n) || selection.kernels@.len() > 0,
    ensures
        is_patch(
            r,
            model@,
            kernel_step(
                op.op@,
                model@,
                node.id as int,
                op.m_axis.repr,
                op.k_axis.repr,
                op.n_axis.repr,
                (selection.a_packer, selection.b_packer),
                selection.kernels@[0],
            ),
        ),
        ({
            let fewer = match (op.m, op.n) {
                (TDim::Val(m), TDim::Val(n)) => m < n,
                (TDim::Sym(_), TDim::Val(n)) => n >= 8,
                (_, TDim::Sym(_)) => false,
            };
            match r {
                Ok(p) => if fewer {
                    exchanges(model@, node.id as int, p@)
                } else {
                    takes_place(
                        model@,
                        node.id as int,
                        p@,
                        (selection.a_packer, selection.b_packer),
                        selection.kernels@[0],
                    )
                },
                Err(err) => fewer && err == Error::FactMismatch && !dims_agree(
                    op.op@.axes,
                    input_shapes(model@, node@),
                ),
            }
        }),
{
    let ghost e = op.op@.axes;
    let ghost (m, k, n) = (op.m_axis.repr, op.k_axis.repr, op.n_axis.repr);
    let ghost parts = seq![m, k, n];
    proof {
        assert(node_wf(model@.nodes, node.id as int));
        lemma_axis(e, op.m_axis);
        lemma_axis(e, op.k_axis);
        lemma_axis(e, op.n_axis);
        assert(op.m_axis.inputs@[0]@.len() == 1 && op.m_axis.outputs@[0]@.len() == 1);
        assert(op.k_axis.inputs@[0]@.len() == 1 && op.k_axis.inputs@[1]@.len() == 1);
        assert(op.n_axis.inputs@[1]@.len() == 1 && op.n_axis.outputs@[0]@.len() == 1);
        assert(m != k && n != k);
        assert forall|c: char| #[trigger] parts.contains(c) <==> c == m || c == k || c == n by {
            assert(parts[0] == m && parts[1] == k && parts[2] == n);
        }
    }
    let must_transpose = match (op.m.as_i64(), op.n.as_i64()) {
        (Some(m), Some(n)) => m < n,
        (None, Some(n)) => n >= 8,
        _ => false,
    };
    if must_transpose {
        proof {
            lemma_swap_told(model@, node.id as int);
        }
        return swap_operands(model, node, op.op);
    }
    let facts = node_facts(model, node);
    let axes = &op.op.axes;
    let a_pairs = find_pairs(axes, &facts, 0, op.m_axis, op.k_axis, op.n_axis, Ghost(parts));
    let b_pairs = find_pairs(axes, &facts, 1, op.n_axis, op.k_axis, op.m_axis, Ghost(parts));
    let mut c_facts = match op.op.output_facts(&facts) {
        Ok(c_facts) => c_facts,
        Err(err) => {
            assert(false);
            return Err(err);
        },
    };
    let ghost computed = facts_of(model@.nodes, node@.inputs);
    proof {
        assert(c_facts@.len() == 1) by {
            assert(facts_view(c_facts@).len() == c_facts@.len());
        }
        assert(c_facts@[0]@ == facts_view(c_facts@)[0]);
    }
    let c_fact = c_facts.remove(0);
    let (kernel, packing) = selection.kernels[0];
    let product = OptMatMul {
        kernel,
        packing,
        c_fact,
        c_m_axis: op.c_m(),
        c_n_axis: op.c_n(),
        k: op.k,
        c_to_a_axis_mapping: a_pairs,
        c_to_b_axis_mapping: b_pairs,
    };
    assert(product@ =~= opt_mat_mul(op.op@, computed, m, k, n, selection.kernels@[0]));
    let mut wires: Vec<Wire> = Vec::new();
    wires.push(
        pack_wire(suffixed(&node.name, ".pack_a"), 0, op.a_m(), op.a_k(), selection.a_packer),
    );
    wires.push(
        pack_wire(suffixed(&node.name, ".pack_b"), 1, op.b_n(), op.b_k(), selection.b_packer),
    );
    let mut packed: Vec<Ref> = Vec::new();
    packed.push(Ref::Wire(0, 0));
    packed.push(Ref::Wire(1, 0));
    assert(packed@ =~= seq![Ref::Wire(0, 0), Ref::Wire(1, 0)]);
    wires.push(Wire { name: node.name.clone(), op: Op::OptMatMul(product), inputs: packed });
    let ghost want = kernel_patch(
        op.op@,
        model@,
        node.id as int,
        m,
        k,
        n,
        (selection.a_packer, selection.b_packer),
        selection.kernels@[0],
    );
    proof {
        assert(wires_view(wires@) =~= want.wires);
        assert(want.aims_at(model@));
        lemma_labels_fit(axes);
        lemma_kernel_told(
            model@,
            node.id as int,
            (selection.a_packer, selection.b_packer),
            selection.kernels@[0],
            m,
            k,
            n,
        );
    }
    TypedModelPatch::new(
        "Einsum to OptMatMul".to_owned(),
        model,
        node.id,
        copy_outlets(&node.inputs),
        wires,
        Ref::Wire(2, 0),
    )
}

} // verus!
