//! What the rewrite of an einsum leaves unchanged: the values that the model
//! computes.

use vstd::prelude::*;

use crate::as_matmul::{
    additions, decomposed, decomposition, einsum_alone, einsums, first_outlets, is_einsum,
    lemma_fewer, lemma_first_needed, lemma_next_einsum, lemma_stays_einsum, next_einsum, normalized,
    product_for, product_patch, replaced, replacement, source_name, source_nodes, stays_einsum,
};
use crate::axes::InOut;
use crate::compact::{
    is_output, lemma_compacted, lemma_compacted_same, lemma_origin, lemma_placed_node,
    lemma_placed_value,
};
use crate::dim::TDim;
use crate::error::Error;
use crate::kernels::swap_patch;
use crate::labels::{Expr, lemma_has};
use crate::matmul::{BasicMatMul, lays_out, lemma_laid_out};
use crate::meaning::{
    einsum_by, is_sum, lemma_extent_one, lemma_front, lemma_front_broadcasts, lemma_of_two,
};
use crate::model::{Model, Node, facts_of, has_outlet, node_wf};
use crate::ops::{AxisOp, EinSumView, Fact, OpView, SimpleOp, fact_shapes, ranks_suit};
use crate::optimize::{
    Step, both_patch, inject_k, inject_side, input_patch, input_shapes, k_patch,
    lemma_distinct_front, lemma_new_label, lemma_quasi_side, mkn_step, output_patch, quasi_sides,
};
use crate::patch::{Patch, Ref, WireView, lemma_moved, lemma_resolve, lemma_wire_facts, ref_facts};
use crate::product::{
    broadcasts, einsum, extent, grows, is_binary, lemma_row_extent_one, lemma_row_extent_trivial,
    lemma_swap, row_extent, shapes_of, suits, value_front, values_front, with_front,
};
use crate::roles::{Roles, one, roles, side_labels};
use crate::run::{
    Run, keeps, lemma_kept, lemma_patched, lemma_tap_value, lemma_values, lemma_wire_values, read,
};
use crate::tensor::Value;

verus! {

/// The dimension that values of the symbols give.
pub open spec fn dim_value(symbols: spec_fn(u64) -> int, d: TDim) -> int {
    match d {
        TDim::Val(v) => v as int,
        TDim::Sym(s) => symbols(s),
    }
}

/// The shape that values of the symbols give.
pub open spec fn shape_value(symbols: spec_fn(u64) -> int, shape: Seq<TDim>) -> Seq<int> {
    Seq::new(shape.len(), |i: int| dim_value(symbols, shape[i]))
}

/// Whether a tensor is as its fact says.
pub open spec fn obeys(symbols: spec_fn(u64) -> int, fact: Fact, x: Value) -> bool {
    &&& x.valid()
    &&& x.shape == shape_value(symbols, fact.shape)
}

/// The values of the inputs of a node.
pub open spec fn inputs_of(run: Run, m: Model, id: int) -> Seq<Value> {
    read(run.values(m), m.nodes[id].inputs)
}

/// Whether a node is an einsum, and its inputs are as their facts say and broadcast.
pub open spec fn is_sound(run: Run, symbols: spec_fn(u64) -> int, m: Model, id: int) -> bool {
    let node = m.nodes[id];
    let op = node.op->EinSum_0;
    &&& 0 <= id < m.nodes.len()
    &&& node.op is EinSum
    &&& node.inputs.len() <= usize::MAX
    &&& forall|t: int|
        0 <= t < node.inputs.len() ==> obeys(
            symbols,
            facts_of(m.nodes, node.inputs)[t],
            #[trigger] inputs_of(run, m, id)[t],
        )
    &&& broadcasts(op.axes, shapes_of(inputs_of(run, m, id)))
}

/// Whether a node is an einsum of two tensors, without quantization, and these
/// are as their facts say and broadcast.
pub open spec fn is_plain(run: Run, symbols: spec_fn(u64) -> int, m: Model, id: int) -> bool {
    let op = m.nodes[id].op->EinSum_0;
    &&& is_sound(run, symbols, m, id)
    &&& op.q_params is None
    &&& op.axes.inputs.len() == 2
}

/// A new label is not in use.
pub proof fn lemma_free_label(e: Expr)
    requires
        e.free_label() is Some,
    ensures
        !e.has(e.free_label()->0),
{
    let c = choose|c: char| #[trigger] e.first_free(c);
    assert(e.first_free(c));
}

/// A step towards a matrix product is a patch of the model.
pub proof fn lemma_step_aims(m: Model, id: int, p: Patch)
    requires
        m.wf(),
        0 <= id < m.nodes.len(),
        m.nodes[id].op is EinSum,
        mkn_step(m.nodes[id].op->EinSum_0, m, id) == Ok::<Step, Error>(Step::Patch(p)),
    ensures
        p.aims_at(m),
        p.fault(m) is None,
{
    reveal(mkn_step);
    let node = m.nodes[id];
    let op = node.op->EinSum_0;
    let e = op.axes;
    let shapes = input_shapes(m, node);
    assert(node_wf(m.nodes, id));
    match roles(e, shapes) {
        Roles::NoK => {
            assert(p.wires[2].op.wf());
        },
        Roles::NoM(k) => {
            lemma_side_aims(m, id, 0, seq![k], p);
        },
        Roles::NoN(k, rows) => {
            lemma_side_aims(m, id, 1, seq![k, rows], p);
        },
        _ => {},
    }
}

pub proof fn lemma_side_aims(m: Model, id: int, own: usize, exclude: Seq<char>, p: Patch)
    requires
        m.wf(),
        own < 2,
        0 <= id < m.nodes.len(),
        m.nodes[id].op is EinSum,
        side_labels(
            (m.nodes[id].op->EinSum_0).axes,
            input_shapes(m, m.nodes[id]),
            own as int,
        ).len() == 0,
        inject_side(m.nodes[id].op->EinSum_0, m, id, own, exclude) == Ok::<Patch, Error>(p),
    ensures
        p.aims_at(m),
        p.fault(m) is None,
{
    let node = m.nodes[id];
    let op = node.op->EinSum_0;
    let e = op.axes;
    let shapes = input_shapes(m, node);
    let quasi = quasi_sides(e, shapes, own as int, exclude);
    assert(node_wf(m.nodes, id));
    if quasi.len() == 0 {
        let c = e.free_label()->0;
        lemma_free_label(e);
        lemma_new_label(e, c);
        lemma_distinct_front(e.outputs[0], c);
        assert(p.wires[1].op.wf());
    } else {
        lemma_quasi_side(e, shapes, own as int, exclude);
        if e.count_in(own as int, quasi[0]) == 1 {
            lemma_distinct_front(e.outputs[0], quasi[0]);
            assert(p.wires[0].op.wf());
        } else {
            assert(p.wires[1].op.wf());
        }
    }
}

/// What an einsum of a patch takes as an input: a tap, or this with a leading
/// axis added.
pub open spec fn front_ref(add: bool, w: usize, t: usize) -> Ref {
    if add {
        Ref::Wire(w, 0)
    } else {
        Ref::Tap(t)
    }
}

/// Whether an operator adds a leading axis to a tap.
pub open spec fn adds_front(wire: WireView, t: usize) -> bool {
    &&& wire.op == OpView::Simple(SimpleOp::AxisOp(AxisOp::Add(0)))
    &&& wire.inputs == seq![Ref::Tap(t)]
}

/// What an einsum of a patch takes: the taps, the first two with leading axes added as
/// far as said.
pub open spec fn front_refs(n: nat, i0: bool, w0: usize, i1: bool, w1: usize) -> Seq<Ref> {
    Seq::new(
        n,
        |t: int|
            front_ref(
                grows(t, i0, i1),
                if t == 0 {
                    w0
                } else {
                    w1
                },
                t as usize,
            ),
    )
}

/// Where the operators are of a patch that gives an einsum leading axes.
pub struct Layout {
    /// Those that add the axes of the two inputs.
    pub w0: usize,
    pub w1: usize,
    /// The einsum.
    pub j: usize,
}

/// Whether a patch gives an einsum leading axes under the label `c`, in the first
/// input, in the second, and in the output, as far as said, and takes the last
/// away again.
pub open spec fn adds_fronts(
    m: Model,
    p: Patch,
    c: char,
    i0: bool,
    i1: bool,
    o: bool,
    at: Layout,
) -> bool {
    let node = m.nodes[p.node];
    let op = node.op->EinSum_0;
    &&& p.taps == node.inputs
    &&& at.j < p.wires.len()
    &&& p.wires[at.j as int].op == OpView::EinSum(op.over(with_front(op.axes, c, i0, i1, o)))
    &&& p.wires[at.j as int].inputs == front_refs(node.inputs.len(), i0, at.w0, i1, at.w1)
    &&& i0 ==> at.w0 < at.j && adds_front(p.wires[at.w0 as int], 0)
    &&& i1 ==> at.w1 < at.j && adds_front(p.wires[at.w1 as int], 1)
    &&& if o {
        &&& at.j < usize::MAX
        &&& p.wires.len() == at.j + 2
        &&& p.wires[at.j + 1].op == OpView::Simple(SimpleOp::AxisOp(AxisOp::Rm(0)))
        &&& p.wires[at.j + 1].inputs == seq![Ref::Wire(at.j, 0)]
        &&& p.by == Ref::Wire((at.j + 1) as usize, 0)
    } else {
        &&& p.wires.len() == at.j + 1
        &&& p.by == Ref::Wire(at.j, 0)
    }
}

/// The inputs of an einsum suit it, and its value is made of them.
pub proof fn lemma_sound(run: Run, symbols: spec_fn(u64) -> int, m: Model, id: int)
    requires
        m.wf(),
        is_sound(run, symbols, m, id),
    ensures
        is_sum((m.nodes[id].op->EinSum_0).axes),
        suits((m.nodes[id].op->EinSum_0).axes, inputs_of(run, m, id)),
        ranks_suit(
            (m.nodes[id].op->EinSum_0).axes,
            facts_of(m.nodes, m.nodes[id].inputs),
        ),
        m.nodes[id].inputs.len() == (m.nodes[id].op->EinSum_0).axes.inputs.len(),
        m.nodes[id].outputs.len() == 1,
        run.values(m)[id] == seq![
            einsum_by(
                (m.nodes[id].op->EinSum_0).axes,
                inputs_of(run, m, id),
                run.meaning((m.nodes[id].op->EinSum_0).q_params),
            ),
        ],
{
    let node = m.nodes[id];
    let e = (node.op->EinSum_0).axes;
    let xs = inputs_of(run, m, id);
    let facts = facts_of(m.nodes, node.inputs);
    assert(node_wf(m.nodes, id));
    lemma_values(run, m, id);
    assert forall|t: int| 0 <= t < xs.len() implies (#[trigger] xs[t]).valid()
        && xs[t].shape.len() == e.inputs[t].len() by {
        assert(obeys(symbols, facts[t], inputs_of(run, m, id)[t]));
        assert(facts[t].shape.len() == e.inputs[t].len());
    }
}

/// The inputs of a plain einsum suit it, and its value is their einsum.
pub proof fn lemma_plain(run: Run, symbols: spec_fn(u64) -> int, m: Model, id: int)
    requires
        m.wf(),
        is_plain(run, symbols, m, id),
    ensures
        is_binary((m.nodes[id].op->EinSum_0).axes),
        suits((m.nodes[id].op->EinSum_0).axes, inputs_of(run, m, id)),
        ranks_suit(
            (m.nodes[id].op->EinSum_0).axes,
            facts_of(m.nodes, m.nodes[id].inputs),
        ),
        m.nodes[id].inputs.len() == 2,
        m.nodes[id].outputs.len() == 1,
        run.values(m)[id] == seq![
            einsum((m.nodes[id].op->EinSum_0).axes, inputs_of(run, m, id)),
        ],
{
    lemma_sound(run, symbols, m, id);
    lemma_of_two((m.nodes[id].op->EinSum_0).axes, inputs_of(run, m, id));
}

/// What an einsum of a patch takes as an input is the input of the einsum that
/// it replaces, with a leading axis if one was added.
proof fn lemma_front_ref(
    run: Run,
    symbols: spec_fn(u64) -> int,
    m: Model,
    p: Patch,
    add: bool,
    w: usize,
    t: usize,
)
    requires
        m.wf(),
        is_sound(run, symbols, m, p.node),
        p.aims_at(m),
        p.fault(m) is None,
        p.taps == m.nodes[p.node].inputs,
        t < p.taps.len(),
        add ==> w < p.wires.len() && adds_front(p.wires[w as int], t),
    ensures
        run.value(p.applied(m), p.resolve(front_ref(add, w, t))) == value_front(
            inputs_of(run, m, p.node)[t as int],
            add,
        ),
        ({
            let o = p.resolve(front_ref(add, w, t));
            let fact = p.applied(m).nodes[o.node].outputs[o.slot];
            &&& fact.shape.len() == facts_of(m.nodes, p.taps)[t as int].shape.len() + if add {
                1int
            } else {
                0
            }
            &&& value_front(inputs_of(run, m, p.node)[t as int], add).shape == shape_value(
                symbols,
                fact.shape,
            )
        }),
{
    let a = p.applied(m);
    let taps = facts_of(m.nodes, p.taps);
    let facts = p.facts(m)->0;
    let x = inputs_of(run, m, p.node)[t as int];
    let r = front_ref(add, w, t);
    lemma_tap_value(run, m, p, t);
    lemma_wire_facts(taps, p.wires, p.wires.len() as int);
    assert(obeys(symbols, taps[t as int], x));
    assert(facts.take(p.wires.len() as int) =~= facts);
    if add {
        lemma_wire_values(run, m, p, w as int);
        lemma_wire_facts(taps, p.wires, w as int);
        let refs = p.wires[w as int].inputs;
        let known = ref_facts(taps, facts.take(w as int), refs);
        assert(known[0] == taps[t as int]);
        assert(facts[w as int] == seq![
            Fact { shape: taps[t as int].shape.insert(0, TDim::Val(1)), ..taps[t as int] },
        ]);
        let shape = facts[w as int][0].shape;
        assert(x.shape.insert(0, 1) =~= shape_value(symbols, shape));
        let values = Seq::new(refs.len(), |k: int| run.value(a, p.resolve(refs[k])));
        assert(values[0] == x);
    }
    lemma_resolve(m, p, r, p.wires.len() as int);
}

/// Leading axes of dimension one leave unchanged what the model computes, and
/// leave in it an einsum on inputs that are as their facts say.
pub proof fn lemma_fronts(
    run: Run,
    symbols: spec_fn(u64) -> int,
    m: Model,
    p: Patch,
    c: char,
    i0: bool,
    i1: bool,
    o: bool,
    at: Layout,
)
    requires
        m.wf(),
        is_sound(run, symbols, m, p.node),
        p.aims_at(m),
        p.fault(m) is None,
        adds_fronts(m, p, c, i0, i1, o, at),
        o ==> !(m.nodes[p.node].op->EinSum_0).axes.outputs[0].contains(c) && extent(
            (m.nodes[p.node].op->EinSum_0).axes.inputs,
            shapes_of(inputs_of(run, m, p.node)),
            c,
            1,
        ) == 1,
    ensures
        keeps(run, m, p),
        is_sound(run, symbols, p.applied(m), p.node + at.j),
        is_plain(run, symbols, m, p.node) ==> is_plain(
            run,
            symbols,
            p.applied(m),
            p.node + at.j,
        ),
{
    let a = p.applied(m);
    let op = m.nodes[p.node].op->EinSum_0;
    let e = op.axes;
    let f = with_front(e, c, i0, i1, o);
    let by = run.meaning(op.q_params);
    let xs = inputs_of(run, m, p.node);
    let ys = values_front(xs, i0, i1);
    let j = at.j as int;
    let id = p.node + j;
    let taps = facts_of(m.nodes, p.taps);
    lemma_sound(run, symbols, m, p.node);
    lemma_front_broadcasts(e, xs, c, i0, i1, o);
    lemma_front(e, xs, by, c, i0, i1, o);
    lemma_wire_facts(taps, p.wires, p.wires.len() as int);
    lemma_wire_values(run, m, p, j);
    let refs = p.wires[j].inputs;
    assert forall|t: int| 0 <= t < refs.len() implies run.value(
        a,
        p.resolve(#[trigger] refs[t]),
    ) == ys[t] && ys[t].shape == shape_value(
        symbols,
        a.nodes[p.resolve(refs[t]).node].outputs[p.resolve(refs[t]).slot].shape,
    ) by {
        let w = if t == 0 {
            at.w0
        } else {
            at.w1
        };
        lemma_front_ref(run, symbols, m, p, grows(t, i0, i1), w, t as usize);
    }
    assert(Seq::new(refs.len(), |k: int| run.value(a, p.resolve(refs[k]))) =~= ys);
    assert(run.values(a)[id] == seq![einsum_by(f, ys, by)]);
    if o {
        lemma_wire_values(run, m, p, j + 1);
        let last = p.wires[j + 1].inputs;
        assert(Seq::new(last.len(), |k: int| run.value(a, p.resolve(last[k])))[0] == einsum_by(
            f,
            ys,
            by,
        ));
        let x = einsum_by(e, xs, by);
        assert(x.shape.insert(0, 1).remove(0) =~= x.shape);
        assert(run.values(a)[id + 1] == seq![x]);
    }
    lemma_kept(run, m, p);
    let node = a.nodes[id];
    assert(node == p.wire_nodes(m)[j]);
    assert(inputs_of(run, a, id) =~= ys);
    assert forall|t: int| 0 <= t < node.inputs.len() implies obeys(
        symbols,
        facts_of(a.nodes, node.inputs)[t],
        #[trigger] inputs_of(run, a, id)[t],
    ) by {
        assert(node.inputs[t] == p.resolve(refs[t]));
        assert(ys[t].valid());
    }
}

/// A label whose dimensions are all known to be one has the extent one.
proof fn lemma_unit_extent(
    e: Expr,
    facts: Seq<Fact>,
    xs: Seq<Value>,
    symbols: spec_fn(u64) -> int,
    c: char,
)
    requires
        ranks_suit(e, facts),
        suits(e, xs),
        forall|t: int| 0 <= t < xs.len() ==> obeys(symbols, facts[t], #[trigger] xs[t]),
        extent(e.inputs, fact_shapes(facts), c, one()) == one(),
    ensures
        extent(e.inputs, shapes_of(xs), c, 1) == 1,
{
    let shapes = fact_shapes(facts);
    lemma_extent_one(e.inputs, shapes, c, one());
    lemma_extent_one(e.inputs, shapes_of(xs), c, 1int);
    assert forall|t: int| 0 <= t < e.inputs.len() implies row_extent(
        #[trigger] e.inputs[t],
        shapes_of(xs)[t],
        c,
        1,
    ) == 1 by {
        assert(obeys(symbols, facts[t], xs[t]));
        assert(facts[t].shape.len() == e.inputs[t].len());
        lemma_row_extent_one(e.inputs[t], shapes[t], c, one());
        assert forall|p: int| 0 <= p < e.inputs[t].len() && #[trigger] e.inputs[t][p]
            == c implies xs[t].shape[p] == 1 by {
            assert(shapes[t][p] == one());
        }
        lemma_row_extent_trivial(e.inputs[t], xs[t].shape, c, 1int);
    }
}

/// A label that is not in use has the extent one.
proof fn lemma_new_extent(e: Expr, xs: Seq<Value>, c: char)
    requires
        suits(e, xs),
        !e.has(c),
    ensures
        extent(e.inputs, shapes_of(xs), c, 1) == 1,
{
    lemma_has(e, c);
    lemma_extent_one(e.inputs, shapes_of(xs), c, 1int);
    assert forall|t: int| 0 <= t < e.inputs.len() implies row_extent(
        #[trigger] e.inputs[t],
        shapes_of(xs)[t],
        c,
        1,
    ) == 1 by {
        assert(!e.inputs[t].contains(c));
        assert(xs[t].valid());
        lemma_row_extent_trivial(e.inputs[t], xs[t].shape, c, 1int);
    }
}

/// Whether a node is an einsum with two inputs.
pub open spec fn is_pair(m: Model, id: int) -> bool {
    &&& m.nodes[id].op is EinSum
    &&& m.nodes[id].inputs.len() == 2
    &&& is_binary((m.nodes[id].op->EinSum_0).axes)
}

/// Whether a node is an einsum, with a tensor for each of its inputs, and one output.
pub open spec fn is_wired(m: Model, id: int) -> bool {
    let e = (m.nodes[id].op->EinSum_0).axes;
    &&& m.nodes[id].op is EinSum
    &&& m.nodes[id].inputs.len() == e.inputs.len()
    &&& 2 <= e.inputs.len() <= usize::MAX
    &&& e.outputs.len() == 1
}

pub proof fn lemma_k_layout(m: Model, id: int, c: char)
    requires
        is_wired(m, id),
    ensures
        adds_fronts(
            m,
            k_patch(m.nodes[id].op->EinSum_0, m.nodes[id], id, c),
            c,
            true,
            true,
            false,
            Layout { w0: 0, w1: 1, j: 2 },
        ),
{
    let e = (m.nodes[id].op->EinSum_0).axes;
    let p = k_patch(m.nodes[id].op->EinSum_0, m.nodes[id], id, c);
    let f = e.with(InOut::In(0), 0, c).with(InOut::In(1), 0, c);
    let g = with_front(e, c, true, true, false);
    assert(f.inputs =~= g.inputs);
    assert(f.outputs =~= g.outputs);
    assert(p.wires[2].inputs =~= front_refs(m.nodes[id].inputs.len(), true, 0, true, 1));
}

pub proof fn lemma_both_layout(m: Model, id: int, own: usize, c: char)
    requires
        is_wired(m, id),
        own < 2,
    ensures
        adds_fronts(
            m,
            both_patch(m.nodes[id].op->EinSum_0, m.nodes[id], id, own, c),
            c,
            own == 0,
            own == 1,
            true,
            Layout { w0: 0, w1: 0, j: 1 },
        ),
{
    let e = (m.nodes[id].op->EinSum_0).axes;
    let p = both_patch(m.nodes[id].op->EinSum_0, m.nodes[id], id, own, c);
    let f = e.with(InOut::In(own), 0, c).with(InOut::Out(0), 0, c);
    let g = with_front(e, c, own == 0, own == 1, true);
    assert(f.inputs =~= g.inputs);
    assert(f.outputs =~= g.outputs);
    assert(p.wires[1].inputs =~= front_refs(
        m.nodes[id].inputs.len(),
        own == 0,
        0,
        own == 1,
        0,
    ));
}

pub proof fn lemma_input_layout(m: Model, id: int, own: usize, c: char)
    requires
        is_wired(m, id),
        own < 2,
    ensures
        adds_fronts(
            m,
            input_patch(m.nodes[id].op->EinSum_0, m.nodes[id], id, own, c),
            c,
            own == 0,
            own == 1,
            false,
            Layout { w0: 0, w1: 0, j: 1 },
        ),
{
    let e = (m.nodes[id].op->EinSum_0).axes;
    let p = input_patch(m.nodes[id].op->EinSum_0, m.nodes[id], id, own, c);
    let f = e.with(InOut::In(own), 0, c);
    let g = with_front(e, c, own == 0, own == 1, false);
    assert(f.inputs =~= g.inputs);
    assert(f.outputs =~= g.outputs);
    assert(p.wires[1].inputs =~= front_refs(
        m.nodes[id].inputs.len(),
        own == 0,
        0,
        own == 1,
        0,
    ));
}

pub proof fn lemma_output_layout(m: Model, id: int, c: char)
    requires
        is_wired(m, id),
    ensures
        adds_fronts(
            m,
            output_patch(m.nodes[id].op->EinSum_0, m.nodes[id], id, c),
            c,
            false,
            false,
            true,
            Layout { w0: 0, w1: 0, j: 0 },
        ),
        output_patch(m.nodes[id].op->EinSum_0, m.nodes[id], id, c).fault(m) is None ==> extent(
            (m.nodes[id].op->EinSum_0).axes.inputs,
            fact_shapes(facts_of(m.nodes, m.nodes[id].inputs)),
            c,
            one(),
        ) == one(),
{
    let op = m.nodes[id].op->EinSum_0;
    let e = op.axes;
    let facts = facts_of(m.nodes, m.nodes[id].inputs);
    let p = output_patch(op, m.nodes[id], id, c);
    let f = e.with(InOut::Out(0), 0, c);
    let g = with_front(e, c, false, false, true);
    assert(f.inputs =~= g.inputs);
    assert(f.outputs =~= g.outputs);
    assert(p.wires[0].inputs =~= front_refs(m.nodes[id].inputs.len(), false, 0, false, 0));
    if p.fault(m) is None {
        let all = p.facts(m)->0;
        lemma_wire_facts(facts, p.wires, 0);
        lemma_wire_facts(facts, p.wires, 1);
        let first = ref_facts(facts, all.take(0), p.wires[0].inputs);
        assert(first =~= facts);
        let second = ref_facts(facts, all.take(1), p.wires[1].inputs);
        assert(second[0] == all[0][0]);
        assert(all[0] == seq![op.over(f).output_fact(facts)]);
        assert(all[0][0].shape[0] == one());
    }
}

/// What a step towards a matrix product leaves: what the model takes and computes,
/// and one einsum in the place of another, on inputs that are as their facts say.
pub open spec fn steps_to(
    run: Run,
    symbols: spec_fn(u64) -> int,
    m: Model,
    id: int,
    p: Patch,
    j: int,
) -> bool {
    &&& p.node == id
    &&& keeps(run, m, p)
    &&& 0 <= j < p.wires.len()
    &&& is_sound(run, symbols, p.applied(m), id + j)
    &&& is_plain(run, symbols, m, id) ==> is_plain(run, symbols, p.applied(m), id + j)
    &&& forall|i: int| 0 <= i < p.wires.len() && i != j ==> !((#[trigger] p.wires[i]).op is EinSum)
}

/// The patch for the rows or the columns keeps what the model takes and computes,
/// whichever labels are excluded from getting what they lack.
pub proof fn lemma_side_step(
    run: Run,
    symbols: spec_fn(u64) -> int,
    m: Model,
    id: int,
    own: usize,
    exclude: Seq<char>,
    p: Patch,
) -> (j: int)
    requires
        m.wf(),
        own < 2,
        is_sound(run, symbols, m, id),
        side_labels(
            (m.nodes[id].op->EinSum_0).axes,
            input_shapes(m, m.nodes[id]),
            own as int,
        ).len() == 0,
        inject_side(m.nodes[id].op->EinSum_0, m, id, own, exclude) == Ok::<Patch, Error>(p),
    ensures
        steps_to(run, symbols, m, id, p, j),
{
    let node = m.nodes[id];
    let op = node.op->EinSum_0;
    let e = op.axes;
    let shapes = input_shapes(m, node);
    let xs = inputs_of(run, m, id);
    let facts = facts_of(m.nodes, node.inputs);
    let quasi = quasi_sides(e, shapes, own as int, exclude);
    lemma_side_aims(m, id, own, exclude, p);
    lemma_sound(run, symbols, m, id);
    if quasi.len() == 0 {
        let c = e.free_label()->0;
        lemma_free_label(e);
        lemma_new_label(e, c);
        lemma_new_extent(e, xs, c);
        lemma_both_layout(m, id, own, c);
        let at = Layout { w0: 0, w1: 0, j: 1 };
        lemma_fronts(run, symbols, m, p, c, own == 0, own == 1, true, at);
        1
    } else {
        let c = quasi[0];
        lemma_quasi_side(e, shapes, own as int, exclude);
        if e.count_in(own as int, c) == 1 {
            lemma_output_layout(m, id, c);
            assert forall|t: int| 0 <= t < xs.len() implies obeys(
                symbols,
                facts[t],
                #[trigger] xs[t],
            ) by {
                assert(obeys(symbols, facts[t], inputs_of(run, m, id)[t]));
            }
            lemma_unit_extent(e, facts, xs, symbols, c);
            let at = Layout { w0: 0, w1: 0, j: 0 };
            lemma_fronts(run, symbols, m, p, c, false, false, true, at);
            0
        } else {
            lemma_input_layout(m, id, own, c);
            let at = Layout { w0: 0, w1: 0, j: 1 };
            lemma_fronts(run, symbols, m, p, c, own == 0, own == 1, false, at);
            1
        }
    }
}

/// The patch for the sums keeps what the model takes and computes.
pub proof fn lemma_k_step(run: Run, symbols: spec_fn(u64) -> int, m: Model, id: int, p: Patch)
    requires
        m.wf(),
        is_sound(run, symbols, m, id),
        inject_k(m.nodes[id].op->EinSum_0, m, id) == Ok::<Patch, Error>(p),
    ensures
        steps_to(run, symbols, m, id, p, 2),
{
    let c = (m.nodes[id].op->EinSum_0).axes.free_label()->0;
    assert(node_wf(m.nodes, id));
    assert(p.wires[2].op.wf());
    assert(p.aims_at(m));
    lemma_sound(run, symbols, m, id);
    lemma_k_layout(m, id, c);
    let at = Layout { w0: 0, w1: 1, j: 2 };
    lemma_fronts(run, symbols, m, p, c, true, true, false, at);
}

/// A step towards a matrix product leaves unchanged what the model computes, and
/// leaves one einsum in the place of another, whatever their number of inputs, and
/// whether they are quantized or not.
pub proof fn lemma_step(run: Run, symbols: spec_fn(u64) -> int, m: Model, id: int, p: Patch) -> (j:
    int)
    requires
        m.wf(),
        is_sound(run, symbols, m, id),
        mkn_step(m.nodes[id].op->EinSum_0, m, id) == Ok::<Step, Error>(Step::Patch(p)),
    ensures
        steps_to(run, symbols, m, id, p, j),
{
    reveal(mkn_step);
    let node = m.nodes[id];
    let op = node.op->EinSum_0;
    match roles(op.axes, input_shapes(m, node)) {
        Roles::NoM(k) => lemma_side_step(run, symbols, m, id, 0, seq![k], p),
        Roles::NoN(k, rows) => lemma_side_step(run, symbols, m, id, 1, seq![k, rows], p),
        _ => {
            lemma_k_step(run, symbols, m, id, p);
            2
        },
    }
}

/// Whether no node after one is an einsum.
pub open spec fn is_last_einsum(m: Model, id: int) -> bool {
    forall|i: int| id < i < m.nodes.len() ==> !is_einsum(#[trigger] m.nodes[i])
}

/// After a patch of the first einsum with one einsum among its operators, that is
/// the first einsum; and it is the last if the one before was.
pub proof fn lemma_step_next(m: Model, id: int, p: Patch, j: int)
    requires
        0 <= id < m.nodes.len(),
        next_einsum(m, 0) == Some(id),
        p.node == id,
        0 <= j < p.wires.len(),
        p.wires[j].op is EinSum,
        forall|i: int| 0 <= i < p.wires.len() && i != j ==> !((#[trigger] p.wires[i]).op is EinSum),
    ensures
        next_einsum(p.applied(m), 0) == Some(id + j),
        is_last_einsum(m, id) ==> is_last_einsum(p.applied(m), id + j),
{
    let a = p.applied(m);
    let w = p.wires.len() as int;
    lemma_next_einsum(m, 0);
    lemma_next_einsum(a, 0);
    assert(a.nodes[id + j] == p.wire_nodes(m)[j]);
    assert(is_einsum(a.nodes[id + j]));
    assert forall|i: int| 0 <= i < id + w && i != id + j implies !is_einsum(
        #[trigger] a.nodes[i],
    ) by {
        if i < id {
            assert(a.nodes[i] == m.nodes[i]);
        } else {
            assert(a.nodes[i] == p.wire_nodes(m)[i - id]);
            assert(!(p.wires[i - id].op is EinSum));
        }
    }
    if is_last_einsum(m, id) {
        assert forall|i: int| id + j < i < a.nodes.len() implies !is_einsum(
            #[trigger] a.nodes[i],
        ) by {
            if i >= id + w {
                assert(a.nodes[i] == p.later_nodes(m)[i - id - w]);
                assert(!is_einsum(m.nodes[i - w + 1]));
            }
        }
    }
}

/// Whether all einsums of a model are plain.
pub open spec fn are_plain(run: Run, symbols: spec_fn(u64) -> int, m: Model) -> bool {
    forall|q: int|
        0 <= q < m.nodes.len() && is_einsum(#[trigger] m.nodes[q]) ==> is_plain(
            run,
            symbols,
            m,
            q,
        )
}

/// An einsum after the node that a patch replaces stays plain, if the patch keeps what
/// the model computes.
pub proof fn lemma_later_plain(
    run: Run,
    symbols: spec_fn(u64) -> int,
    m: Model,
    p: Patch,
    q: int,
)
    requires
        m.wf(),
        keeps(run, m, p),
        p.node < q < m.nodes.len(),
        is_plain(run, symbols, m, q),
    ensures
        is_plain(run, symbols, p.applied(m), q + p.wires.len() - 1),
        actual_shapes(symbols, p.applied(m), q + p.wires.len() - 1) == actual_shapes(
            symbols,
            m,
            q,
        ),
        p.applied(m).nodes[q + p.wires.len() - 1].op == m.nodes[q].op,
        facts_of(
            p.applied(m).nodes,
            p.applied(m).nodes[q + p.wires.len() - 1].inputs,
        ) == facts_of(m.nodes, m.nodes[q].inputs),
{
    let a = p.applied(m);
    let to = q + p.wires.len() - 1;
    let inputs = m.nodes[q].inputs;
    lemma_wire_facts(facts_of(m.nodes, p.taps), p.wires, p.wires.len() as int);
    lemma_patched(run, m, p);
    assert(a.nodes[to] == p.later_nodes(m)[q - p.node - 1]);
    assert(node_wf(m.nodes, q));
    assert forall|t: int| 0 <= t < inputs.len() implies #[trigger] facts_of(
        a.nodes,
        a.nodes[to].inputs,
    )[t] == facts_of(m.nodes, inputs)[t] && inputs_of(run, a, to)[t] == inputs_of(run, m, q)[t] by {
        assert(has_outlet(m.nodes, inputs[t], q));
        assert(has_outlet(m.nodes, inputs[t], m.nodes.len() as int));
        lemma_moved(m, p, inputs[t], q);
        assert(a.nodes[to].inputs[t] == p.moved(inputs[t]));
    }
    assert(facts_of(a.nodes, a.nodes[to].inputs) =~= facts_of(m.nodes, inputs));
    assert(inputs_of(run, a, to) =~= inputs_of(run, m, q));
    assert forall|t: int| 0 <= t < inputs.len() implies obeys(
        symbols,
        facts_of(a.nodes, a.nodes[to].inputs)[t],
        #[trigger] inputs_of(run, a, to)[t],
    ) by {
        assert(obeys(symbols, facts_of(m.nodes, inputs)[t], inputs_of(run, m, q)[t]));
    }
}

/// An einsum that stays is plain as before.
pub proof fn lemma_placed_plain(run: Run, symbols: spec_fn(u64) -> int, m: Model, i: int)
    requires
        m.wf(),
        0 <= i < m.nodes.len(),
        m.stays(i),
        is_plain(run, symbols, m, i),
    ensures
        is_plain(run, symbols, m.compacted(), m.place(i)),
        actual_shapes(symbols, m.compacted(), m.place(i)) == actual_shapes(symbols, m, i),
{
    let c = m.compacted();
    lemma_placed_node(m, i);
    lemma_placed_value(run, m, i);
    let inputs = m.placed_node(i).inputs;
    assert forall|t: int| 0 <= t < inputs.len() implies obeys(
        symbols,
        facts_of(c.nodes, inputs)[t],
        #[trigger] inputs_of(run, c, m.place(i))[t],
    ) by {
        assert(obeys(
            symbols,
            facts_of(m.nodes, m.nodes[i].inputs)[t],
            inputs_of(run, m, i)[t],
        ));
    }
}

/// The einsums that stay are plain as before.
pub proof fn lemma_compacted_plain(run: Run, symbols: spec_fn(u64) -> int, m: Model)
    requires
        m.wf(),
        are_plain(run, symbols, m),
    ensures
        are_plain(run, symbols, m.compacted()),
{
    let c = m.compacted();
    lemma_compacted(m);
    assert forall|q: int| 0 <= q < c.nodes.len() && is_einsum(#[trigger] c.nodes[q]) implies is_plain(
        run,
        symbols,
        c,
        q,
    ) by {
        let i = lemma_origin(m, m.nodes.len() as int, q);
        lemma_placed_plain(run, symbols, m, i);
    }
}

/// Where the one einsum of a model stays.
pub proof fn lemma_compacted_only(m: Model, id: int)
    requires
        m.wf(),
        next_einsum(m, 0) == Some(id),
        is_last_einsum(m, id),
        next_einsum(m.compacted(), 0) is Some,
    ensures
        m.stays(id),
        next_einsum(m.compacted(), 0) == Some(m.place(id)),
        is_last_einsum(m.compacted(), m.place(id)),
{
    let c = m.compacted();
    lemma_compacted(m);
    lemma_next_einsum(m, 0);
    lemma_next_einsum(c, 0);
    assert forall|q: int| 0 <= q < c.nodes.len() && is_einsum(#[trigger] c.nodes[q]) implies q
        == m.place(id) && m.stays(id) by {
        let i = lemma_origin(m, m.nodes.len() as int, q);
        assert(is_einsum(m.nodes[i]));
        assert(i == id);
    }
}

/// Giving an einsum the axes of a matrix product leaves unchanged what the model
/// computes, and leaves plain einsums.
pub proof fn lemma_normalized(run: Run, symbols: spec_fn(u64) -> int, m: Model, fuel: nat)
    requires
        m.wf(),
        next_einsum(m, 0) is Some,
        stays_einsum(m),
        are_plain(run, symbols, m),
    ensures
        normalized(m, fuel).0.wf(),
        run.outputs(normalized(m, fuel).0) == run.outputs(m),
        next_einsum(normalized(m, fuel).0, 0) is Some,
        are_plain(run, symbols, normalized(m, fuel).0),
        is_last_einsum(m, next_einsum(m, 0)->0) ==> is_last_einsum(
            normalized(m, fuel).0,
            next_einsum(normalized(m, fuel).0, 0)->0,
        ),
    decreases fuel,
{
    let id = next_einsum(m, 0)->0;
    let op = m.nodes[id].op->EinSum_0;
    lemma_next_einsum(m, 0);
    match mkn_step(op, m, id) {
        Ok(Step::Patch(p)) => {
            if fuel > 0 {
                let a = p.applied(m);
                let j = lemma_step(run, symbols, m, id, p);
                let w = p.wires.len() as int;
                assert(a.nodes[id + j] == p.wire_nodes(m)[j]);
                lemma_step_next(m, id, p, j);
                assert(are_plain(run, symbols, a)) by {
                    assert forall|q: int|
                        0 <= q < a.nodes.len() && is_einsum(#[trigger] a.nodes[q]) implies is_plain(
                        run,
                        symbols,
                        a,
                        q,
                    ) by {
                        if q >= id + w {
                            assert(a.nodes[q] == p.later_nodes(m)[q - id - w]);
                            assert(is_einsum(m.nodes[q - w + 1]));
                            lemma_later_plain(run, symbols, m, p, q - w + 1);
                        } else if q < id {
                            assert(a.nodes[q] == m.nodes[q]);
                        } else {
                            assert(a.nodes[q] == p.wire_nodes(m)[q - id]);
                            assert(q == id + j);
                        }
                    }
                }
                let c = a.compacted();
                lemma_compacted(a);
                lemma_compacted_same(run, a);
                lemma_compacted_plain(run, symbols, a);
                lemma_first_needed(a);
                lemma_stays_einsum(c, next_einsum(c, 0)->0);
                if is_last_einsum(m, id) {
                    lemma_compacted_only(a, id + j);
                }
                lemma_normalized(run, symbols, c, (fuel - 1) as nat);
            }
        },
        _ => {},
    }
}

/// The shapes of the inputs of a node under values of the symbols.
pub open spec fn actual_shapes(symbols: spec_fn(u64) -> int, m: Model, id: int) -> Seq<Seq<int>> {
    let facts = facts_of(m.nodes, m.nodes[id].inputs);
    Seq::new(facts.len(), |t: int| shape_value(symbols, facts[t].shape))
}

/// Whether the matrix product for the labels of the rows, the sums and the
/// columns has the axes of the einsum, but for those of dimension one.
pub open spec fn is_product(
    symbols: spec_fn(u64) -> int,
    m: Model,
    id: int,
    rows: char,
    k: char,
    columns: char,
) -> bool {
    let e = (m.nodes[id].op->EinSum_0).axes;
    lays_out(e, actual_shapes(symbols, m, id), product_for(e, rows, k, columns))
}

/// Putting a matrix product in the place of an einsum is a patch of the model.
proof fn lemma_product_aims(m: Model, id: int, op: BasicMatMul)
    requires
        m.wf(),
        0 <= id < m.nodes.len(),
        m.nodes[id].op is EinSum,
    ensures
        product_patch(op, m.nodes[id], id).aims_at(m),
{
    let p = product_patch(op, m.nodes[id], id);
    assert(node_wf(m.nodes, id));
    assert(p.wires[0].op.wf());
}

/// A matrix product in the place of an einsum whose axes it has leaves unchanged
/// what the model computes.
proof fn lemma_product_step(
    run: Run,
    symbols: spec_fn(u64) -> int,
    m: Model,
    id: int,
    rows: char,
    k: char,
    columns: char,
    p: Patch,
)
    requires
        m.wf(),
        is_plain(run, symbols, m, id),
        is_product(symbols, m, id, rows, k, columns),
        replacement(m, id, rows, k, columns) == Ok::<Patch, Error>(p),
    ensures
        keeps(run, m, p),
{
    let node = m.nodes[id];
    let e = (node.op->EinSum_0).axes;
    let op = product_for(e, rows, k, columns);
    let a = p.applied(m);
    let xs = inputs_of(run, m, id);
    let facts = facts_of(m.nodes, node.inputs);
    lemma_plain(run, symbols, m, id);
    lemma_product_aims(m, id, op);
    assert forall|t: int| 0 <= t < 2 implies xs[t].shape == shape_value(
        symbols,
        #[trigger] facts[t].shape,
    ) by {
        assert(obeys(symbols, facts[t], inputs_of(run, m, id)[t]));
    }
    assert(shapes_of(xs) =~= actual_shapes(symbols, m, id)) by {
        assert forall|t: int| 0 <= t < 2 implies #[trigger] shapes_of(xs)[t] == actual_shapes(
            symbols,
            m,
            id,
        )[t] by {
            assert(xs[t].shape == shape_value(symbols, facts[t].shape));
        }
    }
    lemma_wire_facts(facts, p.wires, 0);
    let refs = p.wires[0].inputs;
    let first = ref_facts(facts, (p.facts(m)->0).take(0), refs);
    assert(first =~= facts);
    assert(SimpleOp::BasicMatMul(op).facts(facts) is Some);
    assert(xs[0].shape == shape_value(symbols, facts[0].shape));
    assert(xs[1].shape == shape_value(symbols, facts[1].shape));
    lemma_laid_out(e, xs, op);
    lemma_wire_values(run, m, p, 0);
    lemma_tap_value(run, m, p, 0);
    lemma_tap_value(run, m, p, 1);
    let values = Seq::new(refs.len(), |t: int| run.value(a, p.resolve(refs[t])));
    assert(values =~= xs);
    assert(run.values(a)[id] == seq![einsum(e, xs)]);
    lemma_kept(run, m, p);
}

/// Whether the einsums of a model are plain, and the matrix products for the labels
/// have their axes.
pub open spec fn are_products(
    run: Run,
    symbols: spec_fn(u64) -> int,
    m: Model,
    rows: char,
    k: char,
    columns: char,
) -> bool {
    forall|q: int|
        0 <= q < m.nodes.len() && is_einsum(#[trigger] m.nodes[q]) ==> is_plain(
            run,
            symbols,
            m,
            q,
        ) && is_product(symbols, m, q, rows, k, columns)
}

/// Matrix products in the places of einsums whose axes they have leave unchanged
/// what the model computes.
pub proof fn lemma_replaced(
    run: Run,
    symbols: spec_fn(u64) -> int,
    m: Model,
    rows: char,
    k: char,
    columns: char,
)
    requires
        m.wf(),
        are_products(run, symbols, m, rows, k, columns),
    ensures
        run.outputs(replaced(m, rows, k, columns).0) == run.outputs(m),
    decreases einsums(m.nodes, m.nodes.len() as int),
{
    lemma_next_einsum(m, 0);
    match next_einsum(m, 0) {
        None => {},
        Some(id) => match replacement(m, id, rows, k, columns) {
            Err(_) => {},
            Ok(p) => {
                let a = p.applied(m);
                let c = a.compacted();
                assert(is_einsum(m.nodes[id]));
                lemma_product_step(run, symbols, m, id, rows, k, columns, p);
                lemma_fewer(m, id, rows, k, columns, p);
                lemma_compacted(a);
                lemma_compacted_same(run, a);
                assert forall|q: int|
                    0 <= q < c.nodes.len() && is_einsum(#[trigger] c.nodes[q]) implies is_plain(
                    run,
                    symbols,
                    c,
                    q,
                ) && is_product(symbols, c, q, rows, k, columns) by {
                    let i = lemma_origin(a, a.nodes.len() as int, q);
                    if i < id {
                        assert(a.nodes[i] == m.nodes[i]);
                    } else if i == id {
                        assert(a.nodes[i] == p.wire_nodes(m)[0]);
                    } else {
                        assert(a.nodes[i] == p.later_nodes(m)[i - id - 1]);
                        assert(is_einsum(m.nodes[i]));
                        lemma_later_plain(run, symbols, m, p, i);
                        lemma_placed_plain(run, symbols, a, i);
                        lemma_placed_node(a, i);
                    }
                }
                lemma_replaced(run, symbols, c, rows, k, columns);
            },
        },
    }
}

/// Decomposing the einsums of a model leaves unchanged what it computes, as long
/// as the matrix products have the axes of the einsums they take the places of.
pub proof fn lemma_decomposed(run: Run, symbols: spec_fn(u64) -> int, m: Model)
    requires
        m.wf(),
        next_einsum(m, 0) is Some,
        stays_einsum(m),
        are_plain(run, symbols, m),
        normalized(m, additions()).1 matches Ok((rows, k, columns)) ==> are_products(
            run,
            symbols,
            normalized(m, additions()).0,
            rows,
            k,
            columns,
        ),
    ensures
        run.outputs(decomposed(m).0) == run.outputs(m),
{
    lemma_normalized(run, symbols, m, additions());
    match normalized(m, additions()) {
        (m1, Ok((rows, k, columns))) => {
            lemma_replaced(run, symbols, m1, rows, k, columns);
        },
        _ => {},
    }
}

/// Whether the matrix product that the einsum of a model is decomposed into has the
/// axes of the einsum, once that has got those it lacked.
pub open spec fn becomes_product(symbols: spec_fn(u64) -> int, m: Model) -> bool {
    match normalized(m, additions()) {
        (m1, Ok((rows, k, columns))) => is_product(
            symbols,
            m1,
            next_einsum(m1, 0)->0,
            rows,
            k,
            columns,
        ),
        _ => false,
    }
}

/// Decomposing the one einsum of a model leaves unchanged what the model computes,
/// as long as the matrix product has the axes of the einsum.
pub proof fn lemma_only_decomposed(run: Run, symbols: spec_fn(u64) -> int, m: Model, id: int)
    requires
        m.wf(),
        next_einsum(m, 0) == Some(id),
        is_last_einsum(m, id),
        stays_einsum(m),
        is_plain(run, symbols, m, id),
        becomes_product(symbols, m),
    ensures
        run.outputs(decomposed(m).0) == run.outputs(m),
{
    lemma_next_einsum(m, 0);
    assert(are_plain(run, symbols, m)) by {
        assert forall|q: int| 0 <= q < m.nodes.len() && is_einsum(#[trigger] m.nodes[q]) implies is_plain(
            run,
            symbols,
            m,
            q,
        ) by {
            assert(q == id);
        }
    }
    lemma_normalized(run, symbols, m, additions());
    match normalized(m, additions()) {
        (m1, Ok((rows, k, columns))) => {
            let id1 = next_einsum(m1, 0)->0;
            lemma_next_einsum(m1, 0);
            assert(are_products(run, symbols, m1, rows, k, columns)) by {
                assert forall|q: int|
                    0 <= q < m1.nodes.len() && is_einsum(#[trigger] m1.nodes[q]) implies is_plain(
                    run,
                    symbols,
                    m1,
                    q,
                ) && is_product(symbols, m1, q, rows, k, columns) by {
                    assert(q == id1);
                }
            }
            lemma_decomposed(run, symbols, m);
        },
        _ => {},
    }
}

/// Whether the tensors are as the facts of an einsum say, and broadcast, and a run
/// starts from them.
pub open spec fn starts_from(
    run: Run,
    symbols: spec_fn(u64) -> int,
    e: Expr,
    facts: Seq<Fact>,
    xs: Seq<Value>,
) -> bool {
    &&& xs.len() == 2
    &&& forall|t: int|
        0 <= t < 2 ==> obeys(symbols, facts[t], #[trigger] xs[t]) && (run.sources)(source_name(t))
            == xs[t]
    &&& broadcasts(e, shapes_of(xs))
}

/// The einsum of a model of an einsum alone is plain, and what the model computes
/// is the einsum.
pub proof fn lemma_alone_plain(
    run: Run,
    symbols: spec_fn(u64) -> int,
    op: EinSumView,
    name: Seq<char>,
    facts: Seq<Fact>,
    xs: Seq<Value>,
)
    requires
        op.wf(),
        op.q_params is None,
        op.axes.inputs.len() == 2,
        ranks_suit(op.axes, facts),
        starts_from(run, symbols, op.axes, facts, xs),
    ensures
        einsum_alone(op, name, facts).wf(),
        next_einsum(einsum_alone(op, name, facts), 0) == Some(2int),
        is_last_einsum(einsum_alone(op, name, facts), 2),
        stays_einsum(einsum_alone(op, name, facts)),
        is_plain(run, symbols, einsum_alone(op, name, facts), 2),
        run.outputs(einsum_alone(op, name, facts)) == seq![einsum(op.axes, xs)],
{
    let alone = einsum_alone(op, name, facts);
    lemma_alone_wf(op, name, facts);
    lemma_next_einsum(alone, 0);
    assert(is_einsum(alone.nodes[2]));
    assert(!is_einsum(alone.nodes[0]) && !is_einsum(alone.nodes[1]));
    lemma_values(run, alone, 0);
    lemma_values(run, alone, 1);
    lemma_values(run, alone, 2);
    lemma_of_two(op.axes, xs);
    assert(xs[0].valid() && xs[1].valid());
    assert(inputs_of(run, alone, 2) =~= xs);
    assert(is_plain(run, symbols, alone, 2)) by {
        let inputs = alone.nodes[2].inputs;
        assert forall|t: int| 0 <= t < inputs.len() implies obeys(
            symbols,
            facts_of(alone.nodes, inputs)[t],
            #[trigger] inputs_of(run, alone, 2)[t],
        ) by {
            assert(facts_of(alone.nodes, inputs)[t] == facts[t]);
            assert(inputs_of(run, alone, 2)[t] == xs[t]);
        }
    }
    assert(run.outputs(alone) =~= seq![einsum(op.axes, xs)]);
    assert(alone.outputs[0].node == 2);
    assert(is_output(alone, 2));
    lemma_stays_einsum(alone, 2);
}

/// What an einsum is decomposed into computes the einsum of its inputs, as long as
/// the matrix product has the axes of the einsum.
pub proof fn lemma_decomposition(
    run: Run,
    symbols: spec_fn(u64) -> int,
    op: EinSumView,
    m: Model,
    node: Node,
    xs: Seq<Value>,
    d: Model,
)
    requires
        op.wf(),
        op.q_params is None,
        op.axes.inputs.len() == 2,
        decomposition(op, m, node) == Ok::<Model, Error>(d),
        starts_from(run, symbols, op.axes, facts_of(m.nodes, node.inputs), xs),
        becomes_product(
            symbols,
            einsum_alone(op, node.name, facts_of(m.nodes, node.inputs)),
        ),
    ensures
        run.outputs(d) == seq![einsum(op.axes, xs)],
{
    let facts = facts_of(m.nodes, node.inputs);
    lemma_alone_plain(run, symbols, op, node.name, facts, xs);
    lemma_only_decomposed(run, symbols, einsum_alone(op, node.name, facts), 2);
}

/// The model of an einsum alone is well-formed, if the facts are those of its
/// inputs.
pub proof fn lemma_alone_wf(op: EinSumView, name: Seq<char>, facts: Seq<Fact>)
    requires
        op.wf(),
        ranks_suit(op.axes, facts),
    ensures
        einsum_alone(op, name, facts).wf(),
        facts_of(einsum_alone(op, name, facts).nodes, first_outlets(facts.len())) == facts,
{
    let m = einsum_alone(op, name, facts);
    let n = facts.len() as int;
    assert(facts_of(m.nodes, first_outlets(facts.len())) =~= facts);
    assert forall|i: int| 0 <= i < m.nodes.len() implies #[trigger] node_wf(m.nodes, i) by {
        if i < n {
            assert(m.nodes[i] == source_nodes(facts)[i]);
        } else {
            assert forall|j: int| 0 <= j < n implies has_outlet(
                m.nodes,
                #[trigger] first_outlets(facts.len())[j],
                n,
            ) by {
                assert(m.nodes[j] == source_nodes(facts)[j]);
            }
        }
    }
    assert(has_outlet(m.nodes, m.outputs[0], m.nodes.len() as int));
}

/// Exchanging the operands of an einsum keeps what the model takes and computes.
pub proof fn lemma_swapped(run: Run, symbols: spec_fn(u64) -> int, m: Model, id: int)
    requires
        m.wf(),
        is_plain(run, symbols, m, id),
        swap_patch(m.nodes[id].op->EinSum_0, m.nodes[id], id).fault(m) is None,
    ensures
        keeps(run, m, swap_patch(m.nodes[id].op->EinSum_0, m.nodes[id], id)),
{
    let node = m.nodes[id];
    let op = node.op->EinSum_0;
    let e = op.axes;
    let p = swap_patch(op, node, id);
    let a = p.applied(m);
    let xs = inputs_of(run, m, id);
    lemma_plain(run, symbols, m, id);
    assert(node_wf(m.nodes, id));
    assert forall|i: int| 0 <= i < p.taps.len() implies has_outlet(
        m.nodes,
        #[trigger] p.taps[i],
        id,
    ) by {
        assert(has_outlet(m.nodes, node.inputs[1 - i], id));
    }
    assert(p.wires[0].op.wf());
    lemma_swap(e, xs);
    lemma_wire_values(run, m, p, 0);
    lemma_tap_value(run, m, p, 0);
    lemma_tap_value(run, m, p, 1);
    let refs = p.wires[0].inputs;
    let values = Seq::new(refs.len(), |t: int| run.value(a, p.resolve(refs[t])));
    assert(values =~= seq![xs[1], xs[0]]);
    lemma_of_two(e.swapped(), seq![xs[1], xs[0]]);
    assert(run.values(a)[id] == seq![einsum(e, xs)]);
    lemma_kept(run, m, p);
}

} // verus!
