//! The rewrite of an einsum towards a matrix product.

use vstd::prelude::*;

use crate::axes::{AxesMapping, Axis, InOut, axes_of, relabel, same};
use crate::dequant::{dequant, dequantized};
use crate::dequantizable::is_dequantizable;
use crate::dim::TDim;
use crate::error::Error;
use crate::kernels::{KernelSelection, kernel_step, must_transpose, optimized_mat_mul};
use crate::labels::{Expr, lemma_has, lemma_single_at, positions};
use crate::model::{Model, Node, TypedModel, TypedNode, copy_outlets, facts_of, has_outlet, node_wf};
use crate::names::suffixed;
use crate::ops::{
    AxisOp, EinSum, EinSumView, Op, OpView, SimpleOp, TypedFact, check_ranks, fact_refs,
    fact_shapes, output_shape, ranks_suit,
};
use crate::patch::{Patch, Ref, TypedModelPatch, Wire, WireView, wires_view};
use crate::quantized::requantizes;
use crate::rewrites::{lemma_gives_side, lemma_only_sums};
use crate::roles::{
    Roles, all_of, check_void, dim_in, find_blocking, find_k_axes, find_side_axis, is_k, is_side,
    is_void, k_label, k_labels, keep_wide, lemma_axis, lemma_filter_prefix, lemma_filtered,
    lemma_filtered_none, one, reprs, roles, side_labels, wide_k_labels,
};
use crate::search::{
    has_obstacle, has_spans, has_sums, is_read_off, lemma_left_alone, lemma_read_off, lemma_search,
    sums_compete,
};

verus! {

/// An einsum whose axes have found their parts in a matrix product: the rows,
/// the sums and the columns, with their dimensions.
pub struct EinSumAnnotatedAsMatMul<'a> {
    pub op: &'a EinSum,
    pub m_axis: &'a Axis,
    pub k_axis: &'a Axis,
    pub n_axis: &'a Axis,
    pub m: TDim,
    pub k: TDim,
    pub n: TDim,
}

/// What an einsum is, or what would bring it closer to a matrix product.
pub enum AxesOrPatch<'a> {
    Annotated(EinSumAnnotatedAsMatMul<'a>),
    Patch(TypedModelPatch),
    NotAMatMul(&'a Axis),
}

/// Whether an axis occurs in a slot.
pub open spec fn occurs(places: Seq<Vec<usize>>, slot: int) -> bool {
    slot < places.len() && places[slot]@.len() > 0
}

impl<'a> EinSumAnnotatedAsMatMul<'a> {
    /// Where the rows are in the first input.
    pub fn a_m(&self) -> (r: usize)
        requires
            occurs(self.m_axis.inputs@, 0),
        ensures
            r == self.m_axis.inputs@[0]@[0],
    {
        self.m_axis.inputs[0][0]
    }

    /// Where the sums are in the first input.
    pub fn a_k(&self) -> (r: usize)
        requires
            occurs(self.k_axis.inputs@, 0),
        ensures
            r == self.k_axis.inputs@[0]@[0],
    {
        self.k_axis.inputs[0][0]
    }

    /// Where the sums are in the second input.
    pub fn b_k(&self) -> (r: usize)
        requires
            occurs(self.k_axis.inputs@, 1),
        ensures
            r == self.k_axis.inputs@[1]@[0],
    {
        self.k_axis.inputs[1][0]
    }

    /// Where the columns are in the second input.
    pub fn b_n(&self) -> (r: usize)
        requires
            occurs(self.n_axis.inputs@, 1),
        ensures
            r == self.n_axis.inputs@[1]@[0],
    {
        self.n_axis.inputs[1][0]
    }

    /// Where the rows are in the output.
    pub fn c_m(&self) -> (r: usize)
        requires
            occurs(self.m_axis.outputs@, 0),
        ensures
            r == self.m_axis.outputs@[0]@[0],
    {
        self.m_axis.outputs[0][0]
    }

    /// Where the columns are in the output.
    pub fn c_n(&self) -> (r: usize)
        requires
            occurs(self.n_axis.outputs@, 0),
        ensures
            r == self.n_axis.outputs@[0]@[0],
    {
        self.n_axis.outputs[0][0]
    }

    /// Whether these are the parts of the axes of the einsum, given the shapes
    /// of its inputs.
    pub open spec fn annotates(
        &self,
        op: EinSumView,
        shapes: Seq<Seq<TDim>>,
        m: char,
        k: char,
        n: char,
    ) -> bool {
        &&& self.op@ == op
        &&& self.m_axis.is_of(op.axes, m)
        &&& self.k_axis.is_of(op.axes, k)
        &&& self.n_axis.is_of(op.axes, n)
        &&& is_side(op.axes, shapes, 0, m)
        &&& is_k(op.axes, shapes, k)
        &&& is_side(op.axes, shapes, 1, n)
        &&& self.m == dim_in(op.axes, shapes, 0, m)
        &&& self.k == dim_in(op.axes, shapes, 0, k)
        &&& self.n == dim_in(op.axes, shapes, 1, n)
    }
}

/// Whether the node is one of the model, with one output.
pub open spec fn belongs(model: &TypedModel, node: &TypedNode) -> bool {
    &&& model.wf()
    &&& node.id < model.nodes@.len()
    &&& node@ == model@.nodes[node.id as int]
    &&& node@.outputs.len() == 1
    &&& !(node.op is Source)
}

/// The shapes of the inputs of a node.
pub open spec fn input_shapes(m: Model, node: Node) -> Seq<Seq<TDim>> {
    fact_shapes(facts_of(m.nodes, node.inputs))
}

/// An operator that adds a leading axis.
pub open spec fn adding(name: Seq<char>, input: Ref) -> WireView {
    WireView {
        name,
        op: OpView::Simple(SimpleOp::AxisOp(AxisOp::Add(0))),
        inputs: seq![input],
    }
}

/// An operator that removes the leading axis.
pub open spec fn removing(name: Seq<char>, input: Ref) -> WireView {
    WireView {
        name,
        op: OpView::Simple(SimpleOp::AxisOp(AxisOp::Rm(0))),
        inputs: seq![input],
    }
}

/// An einsum as an operator.
pub open spec fn summing(name: Seq<char>, op: EinSumView, inputs: Seq<Ref>) -> WireView {
    WireView { name, op: OpView::EinSum(op), inputs }
}

/// The taps, in order.
pub open spec fn tap_refs(n: nat) -> Seq<Ref> {
    Seq::new(n, |i: int| Ref::Tap(i as usize))
}

/// The patch that gives an einsum an axis to sum over, of dimension one, under
/// the label `c`.
pub open spec fn k_patch(op: EinSumView, node: Node, id: int, c: char) -> Patch {
    Patch {
        context: "inject k axis"@,
        taps: node.inputs,
        wires: seq![
            adding(node.name + ".add_k.0"@, Ref::Tap(0)),
            adding(node.name + ".add_k.1"@, Ref::Tap(1)),
            summing(
                node.name,
                op.over(op.axes.with(InOut::In(0), 0, c).with(InOut::In(1), 0, c)),
                tap_refs(node.inputs.len()).update(0, Ref::Wire(0, 0)).update(1, Ref::Wire(1, 0)),
            ),
        ],
        node: id,
        by: Ref::Wire(2, 0),
    }
}

/// What giving an einsum an axis to sum over comes to.
pub open spec fn inject_k(op: EinSumView, m: Model, id: int) -> Result<Patch, Error> {
    match op.axes.free_label() {
        Some(c) => k_patch(op, m.nodes[id], id, c).checked(m),
        None => Err(Error::NoLabelLeft),
    }
}

/// Whether a label is the only one that an einsum can sum over, and has the
/// dimension one.
pub open spec fn sums_only_over(m: Model, id: int, c: char) -> bool {
    let e = (m.nodes[id].op->EinSum_0).axes;
    let shapes = input_shapes(m, m.nodes[id]);
    &&& forall|l: char| (#[trigger] is_k(e, shapes, l) <==> l == c)
    &&& dim_in(e, shapes, 0, c) == one()
}

/// Whether a label lacks only one occurrence to be that of the rows, or of the
/// columns: it is void in the other input, and either once in its own input or
/// once in the output.
pub open spec fn is_quasi_side(e: Expr, shapes: Seq<Seq<TDim>>, own: int, c: char) -> bool {
    &&& is_void(e, shapes, 1 - own, c)
    &&& e.count_in(own, c) == 1 || e.count_out(0, c) == 1
}

/// Those labels, without some.
pub open spec fn quasi_sides(
    e: Expr,
    shapes: Seq<Seq<TDim>>,
    own: int,
    exclude: Seq<char>,
) -> Seq<char> {
    e.labels().filter(|c: char| !exclude.contains(c) && is_quasi_side(e, shapes, own, c))
}

/// The suffix of the operator that adds rows or columns.
pub open spec fn add_suffix(own: int) -> Seq<char> {
    if own == 1 {
        ".add_n"@
    } else {
        ".add_m"@
    }
}

/// The patch that lets the output of an einsum have the label `c`, of extent
/// one, and takes the axis away again.
pub open spec fn output_patch(op: EinSumView, node: Node, id: int, c: char) -> Patch {
    Patch {
        context: "Injecting m or n axis"@,
        taps: node.inputs,
        wires: seq![
            summing(
                node.name + ".einsum"@,
                op.over(op.axes.with(InOut::Out(0), 0, c)),
                tap_refs(node.inputs.len()),
            ),
            removing(node.name, Ref::Wire(0, 0)),
        ],
        node: id,
        by: Ref::Wire(1, 0),
    }
}

/// The patch that lets an input of an einsum have the label `c`, on a new axis.
pub open spec fn input_patch(op: EinSumView, node: Node, id: int, own: usize, c: char) -> Patch {
    Patch {
        context: "Injecting m or n axis"@,
        taps: node.inputs,
        wires: seq![
            adding(node.name + add_suffix(own as int), Ref::Tap(own)),
            summing(
                node.name,
                op.over(op.axes.with(InOut::In(own), 0, c)),
                tap_refs(node.inputs.len()).update(own as int, Ref::Wire(0, 0)),
            ),
        ],
        node: id,
        by: Ref::Wire(1, 0),
    }
}

/// The patch that lets both an input and the output of an einsum have the new
/// label `c`, and takes the axis of the output away again.
pub open spec fn both_patch(op: EinSumView, node: Node, id: int, own: usize, c: char) -> Patch {
    Patch {
        context: "Injecting m or n axis"@,
        taps: node.inputs,
        wires: seq![
            adding(node.name + add_suffix(own as int), Ref::Tap(own)),
            summing(
                node.name + ".einsum"@,
                op.over(op.axes.with(InOut::In(own), 0, c).with(InOut::Out(0), 0, c)),
                tap_refs(node.inputs.len()).update(own as int, Ref::Wire(0, 0)),
            ),
            removing(node.name, Ref::Wire(1, 0)),
        ],
        node: id,
        by: Ref::Wire(2, 0),
    }
}

/// What giving an einsum rows or columns comes to: a label that lacks one
/// occurrence gets it, and if there is none, a new label gets both.
pub open spec fn inject_side(
    op: EinSumView,
    m: Model,
    id: int,
    own: usize,
    exclude: Seq<char>,
) -> Result<Patch, Error> {
    let e = op.axes;
    let node = m.nodes[id];
    let quasi = quasi_sides(e, input_shapes(m, node), own as int, exclude);
    if !ranks_suit(e, facts_of(m.nodes, node.inputs)) {
        Err(Error::BadFacts)
    } else if quasi.len() == 0 && e.free_label() is None {
        Err(Error::NoLabelLeft)
    } else if e.has('$') {
        Err(Error::DuplicateLabel)
    } else if quasi.len() == 0 {
        both_patch(op, node, id, own, e.free_label()->0).checked(m)
    } else if e.count_in(own as int, quasi[0]) == 1 {
        output_patch(op, node, id, quasi[0]).checked(m)
    } else {
        input_patch(op, node, id, own, quasi[0]).checked(m)
    }
}

/// Whether a node is the einsum over other axes, among them some for the rows, or for
/// the columns.
pub open spec fn has_side(op: EinSumView, m: Model, i: int, own: int) -> bool {
    let node = m.nodes[i];
    let e = (node.op->EinSum_0).axes;
    &&& node.op == OpView::EinSum(op.over(e))
    &&& side_labels(e, input_shapes(m, node), own).len() > 0
}

/// Whether a patch puts an einsum into a model that has rows, or columns.
pub open spec fn gives_side(op: EinSumView, m: Model, p: Patch, own: int) -> bool {
    exists|i: int|
        p.node <= i < p.node + p.wires.len() && #[trigger] has_side(op, p.applied(m), i, own)
}

/// Whether a result is the expected patch, or the expected error.
pub open spec fn is_patch(
    r: Result<TypedModelPatch, Error>,
    m: Model,
    want: Result<Patch, Error>,
) -> bool {
    match r {
        Ok(p) => want == Ok::<Patch, Error>(p@) && p.wf(m),
        Err(e) => want == Err::<Patch, Error>(e),
    }
}

/// An added axis has its label.
pub proof fn lemma_with(e: Expr, io: InOut, pos: int, c: char, d: char)
    requires
        e.fits(io, pos),
    ensures
        e.with(io, pos, c).has(d) <==> e.has(d) || d == c,
{
    let f = e.with(io, pos, c);
    lemma_has(e, d);
    lemma_has(f, d);
    let (old_row, row, slot) = match io {
        InOut::In(s) => (e.inputs[s as int], f.inputs[s as int], s as int),
        InOut::Out(s) => (e.outputs[s as int], f.outputs[s as int], s as int),
    };
    assert(row == old_row.insert(pos, c));
    if old_row.contains(d) {
        let p = choose|p: int| 0 <= p < old_row.len() && old_row[p] == d;
        assert(row[if p < pos {
            p
        } else {
            p + 1
        }] == d);
    }
    assert(row[pos] == c);
    if row.contains(d) && d != c {
        let p = choose|p: int| 0 <= p < row.len() && row[p] == d;
        assert(old_row[if p < pos {
            p
        } else {
            p - 1
        }] == d);
    }
    assert(row.contains(d) <==> old_row.contains(d) || d == c);
    assert forall|i: int| 0 <= i < f.inputs.len() implies (#[trigger] f.inputs[i]).contains(d)
        || f.inputs[i] == e.inputs[i] || !e.inputs[i].contains(d) by {}
    if e.has(d) {
        if exists|i: int| 0 <= i < e.outputs.len() && (#[trigger] e.outputs[i]).contains(d) {
            let i = choose|i: int| 0 <= i < e.outputs.len() && (#[trigger] e.outputs[i]).contains(d);
            assert(f.outputs[i].contains(d));
        } else {
            let i = choose|i: int| 0 <= i < e.inputs.len() && (#[trigger] e.inputs[i]).contains(d);
            assert(f.inputs[i].contains(d));
        }
    }
    if d == c {
        match io {
            InOut::In(s) => assert(f.inputs[s as int].contains(d)),
            InOut::Out(s) => assert(f.outputs[s as int].contains(d)),
        }
    }
    if f.has(d) && d != c {
        if exists|i: int| 0 <= i < f.outputs.len() && (#[trigger] f.outputs[i]).contains(d) {
            let i = choose|i: int| 0 <= i < f.outputs.len() && (#[trigger] f.outputs[i]).contains(d);
            assert(e.outputs[i].contains(d));
        } else {
            let i = choose|i: int| 0 <= i < f.inputs.len() && (#[trigger] f.inputs[i]).contains(d);
            assert(e.inputs[i].contains(d));
        }
    }
}

proof fn lemma_relabel_absent(labels: Seq<char>, from: char, to: char)
    requires
        !labels.contains(from),
    ensures
        relabel(labels, from, to) == labels,
{
    assert forall|p: int| 0 <= p < labels.len() implies labels[p] != from by {
        if labels[p] == from {
            assert(labels.contains(from));
        }
    }
    assert(relabel(labels, from, to) =~= labels);
}

/// Adding an axis under a new label, and linking that to another, adds an axis
/// under the other.
pub proof fn lemma_with_linked(e: Expr, io: InOut, pos: int, new: char, c: char)
    requires
        e.fits(io, pos),
        !e.has(new),
    ensures
        e.with(io, pos, new).linked(c, new) == e.with(io, pos, c),
{
    lemma_has(e, new);
    let left = e.with(io, pos, new).linked(c, new);
    let right = e.with(io, pos, c);
    assert forall|s: int| 0 <= s < e.inputs.len() implies #[trigger] left.inputs[s]
        == right.inputs[s] by {
        assert(!e.inputs[s].contains(new));
        lemma_relabel_absent(e.inputs[s], new, c);
        if io matches InOut::In(t) && t == s {
            assert(left.inputs[s] =~= right.inputs[s]) by {
                assert forall|p: int| 0 <= p < right.inputs[s].len() implies #[trigger] left.inputs[s][p]
                    == right.inputs[s][p] by {
                    if p != pos {
                        let q = if p < pos {
                            p
                        } else {
                            p - 1
                        };
                        assert(relabel(e.inputs[s], new, c)[q] == e.inputs[s][q]);
                    }
                }
            }
        }
    }
    assert forall|s: int| 0 <= s < e.outputs.len() implies #[trigger] left.outputs[s]
        == right.outputs[s] by {
        assert(!e.outputs[s].contains(new));
        lemma_relabel_absent(e.outputs[s], new, c);
        if io matches InOut::Out(t) && t == s {
            assert(left.outputs[s] =~= right.outputs[s]) by {
                assert forall|p: int| 0 <= p < right.outputs[s].len() implies #[trigger] left.outputs[s][p]
                    == right.outputs[s][p] by {
                    if p != pos {
                        let q = if p < pos {
                            p
                        } else {
                            p - 1
                        };
                        assert(relabel(e.outputs[s], new, c)[q] == e.outputs[s][q]);
                    }
                }
            }
        }
    }
    assert(left.inputs =~= right.inputs);
    assert(left.outputs =~= right.outputs);
}

fn add_wire(name: String, input: Ref) -> (r: Wire)
    ensures
        r@ == adding(name@, input),
{
    let mut inputs: Vec<Ref> = Vec::new();
    inputs.push(input);
    let r = Wire { name, op: Op::Simple(SimpleOp::AxisOp(AxisOp::Add(0))), inputs };
    assert(r@ =~= adding(name@, input));
    r
}

fn rm_wire(name: String, input: Ref) -> (r: Wire)
    ensures
        r@ == removing(name@, input),
{
    let mut inputs: Vec<Ref> = Vec::new();
    inputs.push(input);
    let r = Wire { name, op: Op::Simple(SimpleOp::AxisOp(AxisOp::Rm(0))), inputs };
    assert(r@ =~= removing(name@, input));
    r
}

fn einsum_wire(name: String, op: EinSum, inputs: Vec<Ref>) -> (r: Wire)
    ensures
        r@ == summing(name@, op@, inputs@),
{
    Wire { name, op: Op::EinSum(op), inputs }
}

pub(crate) fn all_taps(n: usize) -> (r: Vec<Ref>)
    ensures
        r@ == tap_refs(n as nat),
{
    let mut refs: Vec<Ref> = Vec::new();
    for i in 0..n
        invariant
            refs@ == tap_refs(n as nat).take(i as int),
    {
        refs.push(Ref::Tap(i));
        assert(refs@ =~= tap_refs(n as nat).take(i + 1));
    }
    assert(refs@ =~= tap_refs(n as nat));
    refs
}

/// Gives an einsum an axis to sum over.
pub fn inject_k_axis(op: &EinSum, model: &TypedModel, node: &TypedNode) -> (r: Result<
    TypedModelPatch,
    Error,
>)
    requires
        belongs(model, node),
        op@.wf(),
        node.inputs@.len() >= 2,
    ensures
        is_patch(r, model@, inject_k(op@, model@, node.id as int)),
        r matches Ok(p) ==> k_labels(op@.axes, input_shapes(model@, node@)).len() == 0
            ==> sums_only_over(
            p@.applied(model@),
            node.id + 2,
            op@.axes.free_label()->0,
        ),
{
    let ghost e = op@.axes;
    let repr = match op.axes.available_label() {
        Ok(c) => c,
        Err(err) => {
            return Err(err);
        },
    };
    let axes = match op.axes.with_extra_axis(repr, InOut::In(0), 0) {
        Ok(axes) => axes,
        Err(err) => {
            assert(false);
            return Err(err);
        },
    };
    proof {
        lemma_with(e, InOut::In(0), 0, repr, repr);
    }
    let axes = match axes.with_extra_axis_occurency(repr, InOut::In(1), 0) {
        Ok(axes) => axes,
        Err(err) => {
            assert(false);
            return Err(err);
        },
    };
    let mut inputs = all_taps(node.inputs.len());
    inputs[0] = Ref::Wire(0, 0);
    inputs[1] = Ref::Wire(1, 0);
    let mut wires: Vec<Wire> = Vec::new();
    wires.push(add_wire(suffixed(&node.name, ".add_k.0"), Ref::Tap(0)));
    wires.push(add_wire(suffixed(&node.name, ".add_k.1"), Ref::Tap(1)));
    wires.push(einsum_wire(node.name.clone(), op.over(axes), inputs));
    let ghost want = k_patch(op@, node@, node.id as int, repr);
    assert(wires_view(wires@) =~= want.wires);
    proof {
        assert(node_wf(model@.nodes, node.id as int));
        assert(want.wires[2].op.wf());
        assert(want.aims_at(model@));
    }
    let patch = TypedModelPatch::new(
        "inject k axis".to_owned(),
        model,
        node.id,
        copy_outlets(&node.inputs),
        wires,
        Ref::Wire(2, 0),
    );
    proof {
        if patch is Ok && k_labels(e, input_shapes(model@, node@)).len() == 0 {
            lemma_only_sums(op@, model@, node.id as int, want);
        }
    }
    patch
}

/// The facts of the inputs of a node.
pub(crate) fn node_facts<'a>(model: &'a TypedModel, node: &TypedNode) -> (r: Vec<&'a TypedFact>)
    requires
        belongs(model, node),
    ensures
        fact_refs(r@) == facts_of(model@.nodes, node@.inputs),
{
    match model.outlet_facts(&node.inputs) {
        Ok(facts) => facts,
        Err(_) => {
            proof {
                let n = model@.nodes.len() as int;
                assert(node_wf(model@.nodes, node.id as int));
                assert forall|i: int| 0 <= i < node@.inputs.len() implies has_outlet(
                    model@.nodes,
                    #[trigger] node@.inputs[i],
                    n,
                ) by {
                    assert(has_outlet(model@.nodes, node@.inputs[i], node.id as int));
                }
                assert(false);
            }
            Vec::new()
        },
    }
}

/// The labels of those axes that are axes of the expression.
pub open spec fn excluded(axes: Seq<&Axis>, e: Expr) -> Seq<char>
    decreases axes.len(),
{
    if axes.len() == 0 {
        Seq::empty()
    } else {
        let before = excluded(axes.drop_last(), e);
        if axes.last().is_of(e, axes.last().repr) {
            before.push(axes.last().repr)
        } else {
            before
        }
    }
}

/// The label of an axis is excluded if that very axis is.
proof fn lemma_excluded(axes: Seq<&Axis>, e: Expr, c: char)
    ensures
        excluded(axes, e).contains(c) <==> exists|i: int|
            0 <= i < axes.len() && (#[trigger] axes[i]).is_of(e, c),
    decreases axes.len(),
{
    if axes.len() > 0 {
        let short = axes.drop_last();
        let before = excluded(short, e);
        let all = excluded(axes, e);
        lemma_excluded(short, e, c);
        if before.contains(c) {
            let i = choose|i: int| 0 <= i < short.len() && (#[trigger] short[i]).is_of(e, c);
            assert(axes[i].is_of(e, c));
            let j = choose|j: int| 0 <= j < before.len() && before[j] == c;
            assert(all[j] == c);
        }
        if exists|i: int| 0 <= i < axes.len() && (#[trigger] axes[i]).is_of(e, c) {
            let i = choose|i: int| 0 <= i < axes.len() && (#[trigger] axes[i]).is_of(e, c);
            if i < short.len() {
                assert(short[i].is_of(e, c));
            } else {
                assert(all[all.len() - 1] == c);
            }
        }
        if all.contains(c) && !before.contains(c) {
            let j = choose|j: int| 0 <= j < all.len() && all[j] == c;
            if j < before.len() {
                assert(before[j] == c);
            }
            assert(axes[axes.len() - 1].is_of(e, c));
        }
    }
}

/// Of axes of the expression, all labels are excluded.
proof fn lemma_all_excluded(axes: Seq<&Axis>, e: Expr)
    requires
        all_of(axes, e),
    ensures
        excluded(axes, e) == reprs(axes),
    decreases axes.len(),
{
    if axes.len() > 0 {
        let short = axes.drop_last();
        assert forall|i: int| 0 <= i < short.len() implies (#[trigger] short[i]).is_of(
            e,
            short[i].repr,
        ) by {
            assert(axes[i].is_of(e, axes[i].repr));
        }
        lemma_all_excluded(short, e);
        assert(axes[axes.len() - 1].is_of(e, axes.last().repr));
        assert(reprs(axes) =~= reprs(short).push(axes.last().repr));
    } else {
        assert(reprs(axes) =~= Seq::empty());
    }
}

fn same_rows(a: &Vec<Vec<usize>>, b: &Vec<Vec<usize>>) -> (r: bool)
    ensures
        r <==> a@.len() == b@.len() && forall|s: int|
            0 <= s < a@.len() ==> (#[trigger] a@[s])@ == b@[s]@,
{
    if a.len() != b.len() {
        return false;
    }
    for s in 0..a.len()
        invariant
            a@.len() == b@.len(),
            forall|t: int| 0 <= t < s ==> (#[trigger] a@[t])@ == b@[t]@,
    {
        let (x, y) = (&a[s], &b[s]);
        if x.len() != y.len() {
            assert(a@[s as int]@ != b@[s as int]@);
            return false;
        }
        for i in 0..x.len()
            invariant
                x@.len() == y@.len(),
                x == a@[s as int],
                y == b@[s as int],
                s < a@.len(),
                a@.len() == b@.len(),
                forall|j: int| 0 <= j < i ==> x@[j] == y@[j],
        {
            if x[i] != y[i] {
                assert(a@[s as int]@ != b@[s as int]@);
                return false;
            }
        }
        assert(x@ =~= y@);
    }
    true
}

/// An axis with the positions of an axis of an expression is that axis, and the other
/// way round.
proof fn lemma_same_axis(e: Expr, axis: &Axis, other: &Axis)
    requires
        axis.is_of(e, axis.repr),
    ensures
        other.is_of(e, axis.repr) <==> other.repr == axis.repr && other.inputs@.len()
            == axis.inputs@.len() && (forall|s: int|
            0 <= s < other.inputs@.len() ==> (#[trigger] other.inputs@[s])@ == axis.inputs@[s]@)
            && other.outputs@.len() == axis.outputs@.len() && (forall|s: int|
            0 <= s < other.outputs@.len() ==> (#[trigger] other.outputs@[s])@
                == axis.outputs@[s]@),
{
    let c = axis.repr;
    if other.is_of(e, c) {
        assert forall|s: int| 0 <= s < other.inputs@.len() implies (#[trigger] other.inputs@[s])@
            == axis.inputs@[s]@ by {
            assert(same(axis.inputs@[s]@, positions(e.inputs[s], c)));
            assert(other.inputs@[s]@ =~= axis.inputs@[s]@);
        }
        assert forall|s: int| 0 <= s < other.outputs@.len() implies (#[trigger] other.outputs@[s])@
            == axis.outputs@[s]@ by {
            assert(same(axis.outputs@[s]@, positions(e.outputs[s], c)));
            assert(other.outputs@[s]@ =~= axis.outputs@[s]@);
        }
    }
}

fn is_excluded(axis: &Axis, exclude: &Vec<&Axis>, Ghost(e): Ghost<Expr>) -> (r: bool)
    requires
        axis.is_of(e, axis.repr),
    ensures
        r == excluded(exclude@, e).contains(axis.repr),
{
    proof {
        lemma_excluded(exclude@, e, axis.repr);
    }
    for i in 0..exclude.len()
        invariant
            axis.is_of(e, axis.repr),
            excluded(exclude@, e).contains(axis.repr) <==> exists|j: int|
                0 <= j < exclude@.len() && (#[trigger] exclude@[j]).is_of(e, axis.repr),
            forall|j: int| 0 <= j < i ==> !(#[trigger] exclude@[j]).is_of(e, axis.repr),
    {
        let other = exclude[i];
        proof {
            lemma_same_axis(e, axis, other);
        }
        if other.repr == axis.repr && same_rows(&other.inputs, &axis.inputs) && same_rows(
            &other.outputs,
            &axis.outputs,
        ) {
            assert(exclude@[i as int].is_of(e, axis.repr));
            return true;
        }
    }
    false
}

/// The first label that lacks one occurrence to be that of the rows, or of the
/// columns.
fn find_quasi_side<'a>(
    axes: &'a AxesMapping,
    facts: &Vec<&TypedFact>,
    own: usize,
    exclude: &Vec<&Axis>,
) -> (r: Option<&'a Axis>)
    requires
        own < 2,
        axes@.inputs.len() >= 2,
        axes@.outputs.len() == 1,
        ranks_suit(axes@, fact_refs(facts@)),
    ensures
        ({
            let quasi = quasi_sides(
                axes@,
                fact_shapes(fact_refs(facts@)),
                own as int,
                excluded(exclude@, axes@),
            );
            match r {
                Some(axis) => quasi.len() > 0 && axis.repr == quasi[0] && axis.is_of(
                    axes@,
                    axis.repr,
                ),
                None => quasi.len() == 0,
            }
        }),
{
    let ghost e = axes@;
    let ghost labels = e.labels();
    let ghost shapes = fact_shapes(fact_refs(facts@));
    let ghost out = excluded(exclude@, e);
    let ghost pred = |c: char| !out.contains(c) && is_quasi_side(e, shapes, own as int, c);
    let all = axes.iter_all_axes();
    assert(labels.take(0).filter(pred) =~= Seq::empty()) by {
        reveal(Seq::filter);
    }
    for i in 0..all.len()
        invariant
            own < 2,
            e == axes@,
            axes_of(all@, e),
            e.inputs.len() >= 2,
            e.outputs.len() == 1,
            ranks_suit(e, fact_refs(facts@)),
            shapes == fact_shapes(fact_refs(facts@)),
            out == excluded(exclude@, e),
            labels == e.labels(),
            pred == (|c: char| !out.contains(c) && is_quasi_side(e, shapes, own as int, c)),
            labels.take(i as int).filter(pred).len() == 0,
    {
        let axis = &all[i];
        assert(axis.is_of(e, labels[i as int]));
        let ghost next = labels.take(i + 1).filter(pred);
        proof {
            assert(labels.take(i + 1).drop_last() =~= labels.take(i as int));
            assert(labels.take(i + 1).last() == axis.repr);
            reveal(Seq::filter);
            lemma_axis(e, axis);
            assert(axis.inputs@[own as int]@.len() == e.count_in(own as int, axis.repr));
            assert(axis.outputs@[0]@.len() == e.count_out(0, axis.repr));
        }
        if !is_excluded(axis, exclude, Ghost(e)) && check_void(axis, facts, 1 - own, Ghost(e)) && (
        axis.inputs[own].len() == 1 || axis.outputs[0].len() == 1) {
            proof {
                assert(next[0] == axis.repr);
                lemma_filter_prefix(labels, pred, i + 1);
            }
            return Some(axis);
        }
    }
    assert(labels.take(all@.len() as int) =~= labels);
    None
}

/// The output labels stay distinct under one more, if that is new to them.
pub proof fn lemma_distinct_front(labels: Seq<char>, c: char)
    requires
        labels.no_duplicates(),
        !labels.contains(c),
    ensures
        labels.insert(0, c).no_duplicates(),
{
    let all = labels.insert(0, c);
    assert forall|i: int, j: int| 0 <= i < all.len() && 0 <= j < all.len() && i != j implies all[i]
        != all[j] by {
        if i > 0 && j > 0 {
            assert(labels[i - 1] != labels[j - 1]);
        } else if i > 0 {
            assert(labels.contains(labels[i - 1]));
        } else {
            assert(labels.contains(labels[j - 1]));
        }
    }
}

/// A new label is no label of the output.
pub proof fn lemma_new_label(e: Expr, c: char)
    requires
        !e.has(c),
        e.outputs.len() == 1,
    ensures
        !e.outputs[0].contains(c),
{
    lemma_has(e, c);
}

fn add_side_name(name: &String, own: usize) -> (r: String)
    requires
        own < 2,
    ensures
        r@ == name@ + add_suffix(own as int),
{
    if own == 1 {
        suffixed(name, ".add_n")
    } else {
        suffixed(name, ".add_m")
    }
}

/// A patch, unless the label that stands for an axis on its way in is in use.
pub open spec fn unless_taken(e: Expr, patch: Result<Patch, Error>) -> Result<Patch, Error> {
    if e.has('$') {
        Err(Error::DuplicateLabel)
    } else {
        patch
    }
}

/// Lets the output of an einsum have a label.
fn grow_output(op: &EinSum, model: &TypedModel, node: &TypedNode, c: char) -> (r: Result<
    TypedModelPatch,
    Error,
>)
    requires
        belongs(model, node),
        op@.wf(),
        op@.axes.has(c),
        !op@.axes.outputs[0].contains(c),
    ensures
        is_patch(
            r,
            model@,
            unless_taken(
                op@.axes,
                output_patch(op@, node@, node.id as int, c).checked(model@),
            ),
        ),
{
    let ghost e = op@.axes;
    let axes = match op.axes.with_extra_axis('$', InOut::Out(0), 0) {
        Ok(axes) => axes,
        Err(err) => {
            return Err(err);
        },
    };
    proof {
        lemma_with(e, InOut::Out(0), 0, '$', '$');
        lemma_with(e, InOut::Out(0), 0, '$', c);
        lemma_with_linked(e, InOut::Out(0), 0, '$', c);
    }
    let axes = match axes.linking(c, '$') {
        Ok(axes) => axes,
        Err(err) => {
            assert(false);
            return Err(err);
        },
    };
    let ghost want = output_patch(op@, node@, node.id as int, c);
    let mut wires: Vec<Wire> = Vec::new();
    wires.push(
        einsum_wire(
            suffixed(&node.name, ".einsum"),
            op.over(axes),
            all_taps(node.inputs.len()),
        ),
    );
    wires.push(rm_wire(node.name.clone(), Ref::Wire(0, 0)));
    proof {
        assert(wires_view(wires@) =~= want.wires);
        lemma_distinct_front(e.outputs[0], c);
        assert(node_wf(model@.nodes, node.id as int));
        assert(want.wires[0].op.wf());
        assert(want.aims_at(model@));
    }
    TypedModelPatch::new(
        "Injecting m or n axis".to_owned(),
        model,
        node.id,
        copy_outlets(&node.inputs),
        wires,
        Ref::Wire(1, 0),
    )
}

/// Lets an input of an einsum have a label, on a new axis.
fn grow_input(op: &EinSum, model: &TypedModel, node: &TypedNode, own: usize, c: char) -> (r: Result<
    TypedModelPatch,
    Error,
>)
    requires
        belongs(model, node),
        op@.wf(),
        own < 2,
        node.inputs@.len() >= 2,
        op@.axes.has(c),
    ensures
        is_patch(
            r,
            model@,
            unless_taken(
                op@.axes,
                input_patch(op@, node@, node.id as int, own, c).checked(model@),
            ),
        ),
{
    let ghost e = op@.axes;
    let axes = match op.axes.with_extra_axis('$', InOut::In(own), 0) {
        Ok(axes) => axes,
        Err(err) => {
            return Err(err);
        },
    };
    proof {
        lemma_with(e, InOut::In(own), 0, '$', '$');
        lemma_with(e, InOut::In(own), 0, '$', c);
        lemma_with_linked(e, InOut::In(own), 0, '$', c);
    }
    let axes = match axes.linking(c, '$') {
        Ok(axes) => axes,
        Err(err) => {
            assert(false);
            return Err(err);
        },
    };
    let ghost want = input_patch(op@, node@, node.id as int, own, c);
    let mut inputs = all_taps(node.inputs.len());
    inputs[own] = Ref::Wire(0, 0);
    let mut wires: Vec<Wire> = Vec::new();
    wires.push(add_wire(add_side_name(&node.name, own), Ref::Tap(own)));
    wires.push(einsum_wire(node.name.clone(), op.over(axes), inputs));
    proof {
        assert(wires_view(wires@) =~= want.wires);
        assert(node_wf(model@.nodes, node.id as int));
        assert(want.wires[1].op.wf());
        assert(want.aims_at(model@));
    }
    TypedModelPatch::new(
        "Injecting m or n axis".to_owned(),
        model,
        node.id,
        copy_outlets(&node.inputs),
        wires,
        Ref::Wire(1, 0),
    )
}

/// Lets both an input and the output of an einsum have a new label.
fn grow_both(op: &EinSum, model: &TypedModel, node: &TypedNode, own: usize) -> (r: Result<
    TypedModelPatch,
    Error,
>)
    requires
        belongs(model, node),
        op@.wf(),
        own < 2,
        node.inputs@.len() >= 2,
    ensures
        is_patch(
            r,
            model@,
            match op@.axes.free_label() {
                Some(c) => unless_taken(
                    op@.axes,
                    both_patch(op@, node@, node.id as int, own, c).checked(model@),
                ),
                None => Err(Error::NoLabelLeft),
            },
        ),
{
    let ghost e = op@.axes;
    let repr = match op.axes.available_label() {
        Ok(c) => c,
        Err(err) => {
            return Err(err);
        },
    };
    let axes = match op.axes.with_extra_axis(repr, InOut::In(own), 0) {
        Ok(axes) => axes,
        Err(err) => {
            assert(false);
            return Err(err);
        },
    };
    let ghost e1 = axes@;
    proof {
        lemma_with(e, InOut::In(own), 0, repr, '$');
        lemma_with(e, InOut::In(own), 0, repr, repr);
        assert(repr != '$');
    }
    let axes = match axes.with_extra_axis('$', InOut::Out(0), 0) {
        Ok(axes) => axes,
        Err(err) => {
            return Err(err);
        },
    };
    proof {
        lemma_with(e1, InOut::Out(0), 0, '$', '$');
        lemma_with(e1, InOut::Out(0), 0, '$', repr);
        lemma_with_linked(e1, InOut::Out(0), 0, '$', repr);
    }
    let axes = match axes.linking(repr, '$') {
        Ok(axes) => axes,
        Err(err) => {
            assert(false);
            return Err(err);
        },
    };
    let ghost want = both_patch(op@, node@, node.id as int, own, repr);
    let mut inputs = all_taps(node.inputs.len());
    inputs[own] = Ref::Wire(0, 0);
    let mut wires: Vec<Wire> = Vec::new();
    wires.push(add_wire(add_side_name(&node.name, own), Ref::Tap(own)));
    wires.push(einsum_wire(suffixed(&node.name, ".einsum"), op.over(axes), inputs));
    wires.push(rm_wire(node.name.clone(), Ref::Wire(1, 0)));
    proof {
        assert(wires_view(wires@) =~= want.wires);
        lemma_new_label(e, repr);
        lemma_distinct_front(e.outputs[0], repr);
        assert(node_wf(model@.nodes, node.id as int));
        assert(want.wires[1].op.wf());
        assert(want.aims_at(model@));
    }
    TypedModelPatch::new(
        "Injecting m or n axis".to_owned(),
        model,
        node.id,
        copy_outlets(&node.inputs),
        wires,
        Ref::Wire(2, 0),
    )
}

/// Gives an einsum that has no rows, or no columns, a leading axis for them. Axes of
/// the einsum that are excluded do not get what they lack.
pub fn inject_m_or_n_axis(
    op: &EinSum,
    model: &TypedModel,
    node: &TypedNode,
    is_n: bool,
    exclude: &Vec<&Axis>,
) -> (r: Result<TypedModelPatch, Error>)
    requires
        belongs(model, node),
        op@.wf(),
        side_labels(
            op@.axes,
            input_shapes(model@, node@),
            if is_n {
                1
            } else {
                0
            },
        ).len() == 0,
    ensures
        is_patch(
            r,
            model@,
            inject_side(
                op@,
                model@,
                node.id as int,
                if is_n {
                    1
                } else {
                    0
                },
                excluded(exclude@, op@.axes),
            ),
        ),
        r matches Ok(p) ==> op@.axes.inputs[0].no_duplicates()
            && op@.axes.inputs[1].no_duplicates() ==> gives_side(
            op@,
            model@,
            p@,
            if is_n {
                1
            } else {
                0
            },
        ),
{
    let own: usize = if is_n {
        1
    } else {
        0
    };
    let facts = node_facts(model, node);
    if !check_ranks(&op.axes, &facts) {
        return Err(Error::BadFacts);
    }
    assert(node@.inputs.len() == node.inputs@.len());
    let patch = match find_quasi_side(&op.axes, &facts, own, exclude) {
        Some(axis) => {
            proof {
                let e = op@.axes;
                lemma_quasi_side(
                    e,
                    input_shapes(model@, node@),
                    own as int,
                    excluded(exclude@, e),
                );
                lemma_axis(e, axis);
                assert(axis.inputs@[own as int]@.len() == e.count_in(own as int, axis.repr));
            }
            if axis.inputs[own].len() == 1 {
                grow_output(op, model, node, axis.repr)
            } else {
                grow_input(op, model, node, own, axis.repr)
            }
        },
        None => grow_both(op, model, node, own),
    };
    proof {
        assert(node_wf(model@.nodes, node.id as int));
        if patch is Ok && op@.axes.inputs[0].no_duplicates()
            && op@.axes.inputs[1].no_duplicates() {
            lemma_gives_side(
                op@,
                model@,
                node.id as int,
                own,
                excluded(exclude@, op@.axes),
                (patch->Ok_0)@,
            );
        }
    }
    patch
}

/// The first label that lacks one occurrence is a label; and if it is once in
/// its input, it is not in the output.
pub proof fn lemma_quasi_side(e: Expr, shapes: Seq<Seq<TDim>>, own: int, exclude: Seq<char>)
    requires
        e.outputs.len() == 1,
        e.outputs[0].no_duplicates(),
        side_labels(e, shapes, own).len() == 0,
        quasi_sides(e, shapes, own, exclude).len() > 0,
    ensures
        e.has(quasi_sides(e, shapes, own, exclude)[0]),
        is_quasi_side(e, shapes, own, quasi_sides(e, shapes, own, exclude)[0]),
        e.count_in(own, quasi_sides(e, shapes, own, exclude)[0]) == 1
            ==> !e.outputs[0].contains(quasi_sides(e, shapes, own, exclude)[0]),
        e.count_in(own, quasi_sides(e, shapes, own, exclude)[0]) != 1 ==> e.count_out(
            0,
            quasi_sides(e, shapes, own, exclude)[0],
        ) == 1,
{
    let pred = |c: char| !exclude.contains(c) && is_quasi_side(e, shapes, own, c);
    lemma_filtered(e.labels(), pred, 0);
    let c = e.labels().filter(pred)[0];
    if e.count_in(own, c) == 1 && e.outputs[0].contains(c) {
        let p = choose|p: int| 0 <= p < e.outputs[0].len() && e.outputs[0][p] == c;
        lemma_single_at(e.outputs[0], c, p);
        assert(is_side(e, shapes, own, c));
        lemma_filtered_none(e.labels(), |d: char| is_side(e, shapes, own, d), c);
    }
}

/// What the search for the axes of a matrix product comes to.
pub enum Step {
    /// The rows, the sums and the columns.
    Annotated(char, char, char),
    /// A patch that brings the einsum closer to a matrix product.
    Patch(Patch),
    /// A label that keeps it from being one.
    NotAMatMul(char),
}

/// A patch as a step.
pub open spec fn patch_step(p: Result<Patch, Error>) -> Result<Step, Error> {
    match p {
        Ok(p) => Ok(Step::Patch(p)),
        Err(e) => Err(e),
    }
}

/// What the search for the axes of a matrix product comes to.
#[verifier::opaque]
pub open spec fn mkn_step(op: EinSumView, m: Model, id: int) -> Result<Step, Error> {
    let node = m.nodes[id];
    if !ranks_suit(op.axes, facts_of(m.nodes, node.inputs)) {
        Err(Error::BadFacts)
    } else {
        match roles(op.axes, input_shapes(m, node)) {
            Roles::MultipleK => Err(Error::MultipleK),
            Roles::NoK => patch_step(inject_k(op, m, id)),
            Roles::NoM(k) => patch_step(inject_side(op, m, id, 0, seq![k])),
            Roles::NoN(k, rows) => patch_step(inject_side(op, m, id, 1, seq![k, rows])),
            Roles::Blocked(c) => Ok(Step::NotAMatMul(c)),
            Roles::Found(rows, k, columns) => Ok(Step::Annotated(rows, k, columns)),
        }
    }
}

/// Whether a result is the expected step.
pub open spec fn is_step(
    r: Result<AxesOrPatch<'_>, Error>,
    op: EinSumView,
    m: Model,
    id: int,
) -> bool {
    match r {
        Ok(AxesOrPatch::Annotated(annotated)) => mkn_step(op, m, id) == Ok::<Step, Error>(
            Step::Annotated(
                annotated.m_axis.repr,
                annotated.k_axis.repr,
                annotated.n_axis.repr,
            ),
        ) && annotated.annotates(
            op,
            input_shapes(m, m.nodes[id]),
            annotated.m_axis.repr,
            annotated.k_axis.repr,
            annotated.n_axis.repr,
        ),
        Ok(AxesOrPatch::Patch(patch)) => mkn_step(op, m, id) == Ok::<Step, Error>(
            Step::Patch(patch@),
        ) && patch.wf(m),
        Ok(AxesOrPatch::NotAMatMul(axis)) => mkn_step(op, m, id) == Ok::<Step, Error>(
            Step::NotAMatMul(axis.repr),
        ) && axis.is_of(op.axes, axis.repr),
        Err(e) => mkn_step(op, m, id) == Err::<Step, Error>(e),
    }
}

/// Searches an einsum for the axes of a matrix product: the rows, the sums and
/// the columns. Where one is missing, gives a patch that adds it; where some
/// other axis cannot be part of a matrix product, gives that axis.
pub fn ensure_mkn_axes<'a>(op: &'a EinSum, model: &TypedModel, node: &TypedNode) -> (r: Result<
    AxesOrPatch<'a>,
    Error,
>)
    requires
        belongs(model, node),
        op@.wf(),
    ensures
        is_step(r, op@, model@, node.id as int),
        node@.op == OpView::EinSum(op@) ==> ((r matches Err(err) && err == Error::MultipleK)
            <==> sums_compete(op@.axes, input_shapes(model@, node@))),
        r matches Ok(AxesOrPatch::Annotated(annotated)) ==> is_read_off(
            annotated,
            op@.axes,
            input_shapes(model@, node@),
        ),
{
    proof {
        reveal(mkn_step);
        if node@.op == OpView::EinSum(op@) {
            lemma_search(op@, model@, node.id as int);
        }
    }
    let ghost e = op@.axes;
    let facts = node_facts(model, node);
    if !check_ranks(&op.axes, &facts) {
        return Err(Error::BadFacts);
    }
    let ghost shapes = input_shapes(model@, node@);
    let output = output_shape(&op.axes, &facts);
    let candidates = find_k_axes(&op.axes, &facts);
    let wide = keep_wide(&op.axes, &facts, &candidates);
    if wide.len() > 1 {
        return Err(Error::MultipleK);
    }
    let k_axis = if wide.len() == 1 {
        wide[0]
    } else if candidates.len() > 0 {
        candidates[0]
    } else {
        proof {
            if wide_k_labels(e, shapes).len() > 0 {
                lemma_filtered(
                    k_labels(e, shapes),
                    |c: char| dim_in(e, shapes, 0, c) != one(),
                    0,
                );
            }
        }
        return match inject_k_axis(op, model, node) {
            Ok(p) => Ok(AxesOrPatch::Patch(p)),
            Err(err) => Err(err),
        };
    };
    proof {
        if wide@.len() == 1 {
            assert(reprs(wide@)[0] == k_axis.repr);
            lemma_filtered(k_labels(e, shapes), |c: char| dim_in(e, shapes, 0, c) != one(), 0);
            let i = choose|i: int|
                0 <= i < k_labels(e, shapes).len() && k_labels(e, shapes)[i] == k_axis.repr;
            lemma_filtered(e.labels(), |c: char| is_k(e, shapes, c), i);
        } else {
            assert(reprs(candidates@)[0] == k_axis.repr);
            lemma_filtered(e.labels(), |c: char| is_k(e, shapes, c), 0);
        }
        assert(k_axis.repr == k_label(e, shapes));
        assert(is_k(e, shapes, k_axis.repr));
    }
    let m_axis = match find_side_axis(&op.axes, &facts, &output, 0) {
        Some(axis) => axis,
        None => {
            let mut exclude: Vec<&Axis> = Vec::new();
            exclude.push(k_axis);
            assert(reprs(exclude@) =~= seq![k_axis.repr]);
            proof {
                lemma_all_excluded(exclude@, op@.axes);
            }
            return match inject_m_or_n_axis(op, model, node, false, &exclude) {
                Ok(p) => Ok(AxesOrPatch::Patch(p)),
                Err(err) => Err(err),
            };
        },
    };
    let n_axis = match find_side_axis(&op.axes, &facts, &output, 1) {
        Some(axis) => axis,
        None => {
            let mut exclude: Vec<&Axis> = Vec::new();
            exclude.push(k_axis);
            exclude.push(m_axis);
            assert(reprs(exclude@) =~= seq![k_axis.repr, m_axis.repr]);
            proof {
                lemma_all_excluded(exclude@, op@.axes);
            }
            return match inject_m_or_n_axis(op, model, node, true, &exclude) {
                Ok(p) => Ok(AxesOrPatch::Patch(p)),
                Err(err) => Err(err),
            };
        },
    };
    match find_blocking(&op.axes, &facts, &output) {
        Some(axis) => {
            return Ok(AxesOrPatch::NotAMatMul(axis));
        },
        None => {},
    }
    proof {
        lemma_axis(e, m_axis);
        lemma_axis(e, k_axis);
        lemma_axis(e, n_axis);
        assert(m_axis.inputs@[0]@.len() == e.count_in(0, m_axis.repr));
        assert(k_axis.inputs@[0]@.len() == e.count_in(0, k_axis.repr));
        assert(n_axis.inputs@[1]@.len() == e.count_in(1, n_axis.repr));
        assert(fact_refs(facts@)[0].shape.len() == e.inputs[0].len());
        assert(fact_refs(facts@)[1].shape.len() == e.inputs[1].len());
    }
    let m = facts[0].shape[m_axis.inputs[0][0]];
    let k = facts[0].shape[k_axis.inputs[0][0]];
    let n = facts[1].shape[n_axis.inputs[1][0]];
    let annotated = EinSumAnnotatedAsMatMul { op, m_axis, k_axis, n_axis, m, k, n };
    proof {
        lemma_read_off(annotated, op@, shapes);
    }
    Ok(AxesOrPatch::Annotated(annotated))
}

/// A patch as a rewrite.
pub open spec fn rewriting(p: Result<Patch, Error>) -> Result<Option<Patch>, Error> {
    match p {
        Ok(p) => Ok(Some(p)),
        Err(e) => Err(e),
    }
}

/// What the optimization of an einsum comes to, given the packers and the kernel
/// for it. An einsum of other than two inputs, or nine if it is quantized, and one
/// that is no matrix product, stay as they are; one that lacks an axis gets it.
pub open spec fn optimization(
    op: EinSumView,
    m: Model,
    id: int,
    packers: (u64, u64),
    kernel: (u64, u64),
) -> Result<Option<Patch>, Error> {
    let wanted: nat = if op.q_params is None {
        2
    } else {
        9
    };
    if m.nodes[id].inputs.len() != wanted {
        Ok(None)
    } else {
        match mkn_step(op, m, id) {
            Err(e) => Err(e),
            Ok(Step::NotAMatMul(_)) => Ok(None),
            Ok(Step::Patch(p)) => Ok(Some(p)),
            Ok(Step::Annotated(rows, k, columns)) => if op.q_params is None {
                rewriting(kernel_step(op, m, id, rows, k, columns, packers, kernel))
            } else {
                rewriting(dequantized(op, m, id, k))
            },
        }
    }
}

/// Whether the next rewrite of an einsum is its product by a kernel.
pub open spec fn takes_kernel(op: EinSumView, m: Model, id: int) -> bool {
    let shapes = input_shapes(m, m.nodes[id]);
    &&& op.q_params is None
    &&& m.nodes[id].inputs.len() == 2
    &&& mkn_step(op, m, id) matches Ok(Step::Annotated(rows, _, columns))
    &&& !must_transpose(dim_in(op.axes, shapes, 0, rows), dim_in(op.axes, shapes, 1, columns))
}

/// Whether a result is the expected rewrite.
pub open spec fn is_rewrite(
    r: Result<Option<TypedModelPatch>, Error>,
    m: Model,
    want: Result<Option<Patch>, Error>,
) -> bool {
    match r {
        Ok(Some(p)) => want == Ok::<Option<Patch>, Error>(Some(p@)) && p.wf(m),
        Ok(None) => want == Ok::<Option<Patch>, Error>(None),
        Err(e) => want == Err::<Option<Patch>, Error>(e),
    }
}

/// The next rewrite of an einsum on its way to a matrix product by a kernel, if
/// there is one. What the machine offers for the product is for the caller to
/// find; there must be a kernel where the next rewrite is the product by one.
pub fn optimize(
    op: &EinSum,
    model: &TypedModel,
    node: &TypedNode,
    selection: &KernelSelection,
) -> (r: Result<Option<TypedModelPatch>, Error>)
    requires
        belongs(model, node),
        node@.op == OpView::EinSum(op@),
        takes_kernel(op@, model@, node.id as int) ==> selection.kernels@.len() > 0,
    ensures
        is_rewrite(
            r,
            model@,
            optimization(
                op@,
                model@,
                node.id as int,
                (selection.a_packer, selection.b_packer),
                selection.kernels@[0],
            ),
        ),
        ({
            let e = op@.axes;
            let n = node@.inputs.len();
            let shapes = input_shapes(model@, node@);
            (r matches Ok(None)) <==> (op@.q_params is None && n != 2) || (op@.q_params is Some && n
                != 9) || (!sums_compete(e, shapes) && has_sums(e, shapes) && has_spans(e, shapes, 0)
                && has_spans(e, shapes, 1) && has_obstacle(e, shapes))
        }),
        op@.q_params is Some ==> (mkn_step(op@, model@, node.id as int) matches Ok(
            Step::Annotated(_, k, _),
        ) ==> {
            &&& r matches Ok(Some(p)) ==> requantizes(model@, node.id as int, p@)
            &&& is_dequantizable(model@, node.id as int, k) ==> r matches Ok(Some(_))
        }),
{
    proof {
        lemma_left_alone(
            op@,
            model@,
            node.id as int,
            (selection.a_packer, selection.b_packer),
            selection.kernels@[0],
        );
    }
    let quantized = match op.q_params {
        Some(_) => true,
        None => false,
    };
    assert(node@.inputs.len() == node.inputs@.len());
    assert(node_wf(model@.nodes, node.id as int));
    if (!quantized && node.inputs.len() != 2) || (quantized && node.inputs.len() != 9) {
        return Ok(None);
    }
    let annotated = match ensure_mkn_axes(op, model, node) {
        Err(e) => {
            return Err(e);
        },
        Ok(AxesOrPatch::Annotated(annotated)) => annotated,
        Ok(AxesOrPatch::Patch(p)) => {
            return Ok(Some(p));
        },
        Ok(AxesOrPatch::NotAMatMul(_)) => {
            return Ok(None);
        },
    };
    let patch = if quantized {
        dequant(model, node, &annotated)
    } else {
        optimized_mat_mul(model, node, &annotated, selection)
    };
    match patch {
        Ok(p) => Ok(Some(p)),
        Err(e) => Err(e),
    }
}

impl<'a> std::ops::Deref for EinSumAnnotatedAsMatMul<'a> {
    type Target = EinSum;

    fn deref(&self) -> (r: &EinSum)
        ensures
            r == self.op,
    {
        self.op
    }
}

} // verus!
