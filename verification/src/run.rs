//! What models compute, and what patches leave unchanged.

use vstd::prelude::*;

use crate::meaning::{Meaning, einsum_by, plainly};
use crate::model::{Model, Node, Outlet, facts_of, has_outlet, node_wf};
use crate::ops::{AxisOp, DatumType, OpView, SimpleOp};
use crate::patch::{Patch, Ref, lemma_applied, lemma_moved, lemma_wire_facts};
use crate::tensor::Value;

verus! {

/// The values that a run of a model starts from: those of its inputs, by name; what
/// quantized einsums make of elements, by the type of their output; and what the
/// operators compute whose meaning plays no part here.
pub struct Run {
    pub sources: spec_fn(Seq<char>) -> Value,
    pub quantized: spec_fn(DatumType) -> Meaning,
    pub others: spec_fn(OpView, Seq<Value>) -> Seq<Value>,
}

/// The values of some outlets.
pub open spec fn read(values: Seq<Seq<Value>>, outlets: Seq<Outlet>) -> Seq<Value> {
    Seq::new(outlets.len(), |j: int| values[outlets[j].node][outlets[j].slot])
}

impl Run {
    /// What an einsum makes of elements.
    pub open spec fn meaning(self, q_params: Option<DatumType>) -> Meaning {
        match q_params {
            None => plainly(),
            Some(dt) => (self.quantized)(dt),
        }
    }

    /// What an operator computes.
    pub open spec fn compute(self, op: OpView, xs: Seq<Value>) -> Seq<Value> {
        match op {
            OpView::EinSum(sums) => seq![einsum_by(sums.axes, xs, self.meaning(sums.q_params))],
            OpView::Simple(SimpleOp::AxisOp(AxisOp::Add(i))) => seq![xs[0].with_axis(i as int)],
            OpView::Simple(SimpleOp::AxisOp(AxisOp::Rm(i))) => seq![xs[0].without_axis(i as int)],
            OpView::Simple(SimpleOp::AxisOp(AxisOp::Move(i, j))) => seq![
                xs[0].with_moved(i as int, j as int),
            ],
            OpView::Simple(SimpleOp::BasicMatMul(product)) => seq![product.product(xs[0], xs[1])],
            _ => (self.others)(op, xs),
        }
    }

    /// The values of a node, given those of the nodes before it.
    pub open spec fn node(self, node: Node, before: Seq<Seq<Value>>) -> Seq<Value> {
        if node.op is Source {
            seq![(self.sources)(node.name)]
        } else {
            self.compute(node.op, read(before, node.inputs))
        }
    }

    /// The values of the first nodes.
    pub open spec fn first(self, nodes: Seq<Node>, n: int) -> Seq<Seq<Value>>
        decreases n,
    {
        if n <= 0 {
            Seq::empty()
        } else {
            let before = self.first(nodes, n - 1);
            before.push(self.node(nodes[n - 1], before))
        }
    }

    /// The values of all nodes of a model.
    pub open spec fn values(self, m: Model) -> Seq<Seq<Value>> {
        self.first(m.nodes, m.nodes.len() as int)
    }

    /// The value of an outlet.
    pub open spec fn value(self, m: Model, o: Outlet) -> Value {
        self.values(m)[o.node][o.slot]
    }

    /// What a model computes.
    pub open spec fn outputs(self, m: Model) -> Seq<Value> {
        read(self.values(m), m.outputs)
    }
}

proof fn lemma_first(run: Run, nodes: Seq<Node>, n: int, i: int)
    requires
        0 <= i <= n,
    ensures
        run.first(nodes, n).len() == n,
        run.first(nodes, n).take(i) == run.first(nodes, i),
        i < n ==> run.first(nodes, n)[i] == run.node(nodes[i], run.first(nodes, i)),
    decreases n,
{
    let all = run.first(nodes, n);
    if n > 0 {
        let before = run.first(nodes, n - 1);
        if i < n {
            lemma_first(run, nodes, n - 1, i);
            assert(all.take(i) =~= before.take(i));
        } else {
            lemma_first(run, nodes, n - 1, n - 1);
            assert(all.take(i) =~= all);
        }
    } else {
        assert(all.take(i) =~= run.first(nodes, i));
    }
}

/// The values of a node are what its operator computes from the values of its
/// inputs.
pub proof fn lemma_values(run: Run, m: Model, i: int)
    requires
        m.wf(),
        0 <= i < m.nodes.len(),
    ensures
        run.values(m).len() == m.nodes.len(),
        run.values(m)[i] == run.node(m.nodes[i], run.values(m)),
{
    let n = m.nodes.len() as int;
    let all = run.values(m);
    let before = run.first(m.nodes, i);
    let inputs = m.nodes[i].inputs;
    lemma_first(run, m.nodes, n, i);
    assert(node_wf(m.nodes, i));
    assert(read(before, inputs) =~= read(all, inputs)) by {
        assert forall|j: int| 0 <= j < inputs.len() implies #[trigger] read(before, inputs)[j]
            == read(all, inputs)[j] by {
            assert(has_outlet(m.nodes, inputs[j], i));
            assert(all.take(i)[inputs[j].node] == all[inputs[j].node]);
        }
    }
}

/// The values before the node that a patch replaces do not change.
pub proof fn lemma_before(run: Run, m: Model, p: Patch, i: int)
    requires
        m.wf(),
        p.aims_at(m),
        p.fault(m) is None,
        0 <= i < p.node,
    ensures
        run.values(p.applied(m))[i] == run.values(m)[i],
    decreases i,
{
    let a = p.applied(m);
    let facts = facts_of(m.nodes, p.taps);
    lemma_wire_facts(facts, p.wires, p.wires.len() as int);
    lemma_applied(m, p);
    lemma_values(run, m, i);
    lemma_values(run, a, i);
    assert(a.nodes[i] == m.nodes[i]);
    assert(node_wf(m.nodes, i));
    let inputs = m.nodes[i].inputs;
    assert(read(run.values(m), inputs) =~= read(run.values(a), inputs)) by {
        assert forall|j: int| 0 <= j < inputs.len() implies #[trigger] read(
            run.values(m),
            inputs,
        )[j] == read(run.values(a), inputs)[j] by {
            assert(has_outlet(m.nodes, inputs[j], i));
            lemma_before(run, m, p, inputs[j].node);
        }
    }
}

/// The values that the operators of a patch compute, each from those of the
/// taps and of the operators before it.
pub proof fn lemma_wire_values(run: Run, m: Model, p: Patch, i: int)
    requires
        m.wf(),
        p.aims_at(m),
        p.fault(m) is None,
        0 <= i < p.wires.len(),
    ensures
        run.values(p.applied(m))[p.node + i] == run.compute(
            p.wires[i].op,
            Seq::new(
                p.wires[i].inputs.len(),
                |j: int| run.value(p.applied(m), p.resolve(p.wires[i].inputs[j])),
            ),
        ),
{
    let a = p.applied(m);
    lemma_wire_facts(facts_of(m.nodes, p.taps), p.wires, p.wires.len() as int);
    lemma_applied(m, p);
    lemma_values(run, a, p.node + i);
    let node = a.nodes[p.node + i];
    assert(node == p.wire_nodes(m)[i]);
    assert(!(p.wires[i].op is Source));
    assert(read(run.values(a), node.inputs) =~= Seq::new(
        p.wires[i].inputs.len(),
        |j: int| run.value(a, p.resolve(p.wires[i].inputs[j])),
    ));
}

proof fn lemma_moved_value(run: Run, m: Model, p: Patch, o: Outlet)
    requires
        m.wf(),
        p.aims_at(m),
        p.fault(m) is None,
        run.value(p.applied(m), p.resolve(p.by)) == run.values(m)[p.node][0],
        has_outlet(m.nodes, o, m.nodes.len() as int),
    ensures
        run.value(p.applied(m), p.moved(o)) == run.value(m, o),
    decreases o.node,
{
    let a = p.applied(m);
    let w = p.wires.len() as int;
    lemma_wire_facts(facts_of(m.nodes, p.taps), p.wires, w);
    lemma_applied(m, p);
    if o.node < p.node {
        lemma_before(run, m, p, o.node);
    } else if o.node > p.node {
        let k = o.node + w - 1;
        assert(a.nodes[k] == p.later_nodes(m)[o.node - p.node - 1]);
        lemma_values(run, m, o.node);
        lemma_values(run, a, k);
        assert(node_wf(m.nodes, o.node));
        let inputs = m.nodes[o.node].inputs;
        assert(read(run.values(m), inputs) =~= read(run.values(a), a.nodes[k].inputs)) by {
            assert forall|j: int| 0 <= j < inputs.len() implies #[trigger] read(
                run.values(m),
                inputs,
            )[j] == read(run.values(a), a.nodes[k].inputs)[j] by {
                assert(has_outlet(m.nodes, inputs[j], o.node));
                lemma_moved_value(run, m, p, inputs[j]);
                assert(a.nodes[k].inputs[j] == p.moved(inputs[j]));
            }
        }
    }
}

/// A patch that puts the same value in the place of the output of the node
/// leaves what the model computes unchanged.
pub proof fn lemma_patched(run: Run, m: Model, p: Patch)
    requires
        m.wf(),
        p.aims_at(m),
        p.fault(m) is None,
        run.value(p.applied(m), p.resolve(p.by)) == run.values(m)[p.node][0],
    ensures
        p.applied(m).wf(),
        forall|o: Outlet|
            has_outlet(m.nodes, o, m.nodes.len() as int) ==> run.value(
                p.applied(m),
                #[trigger] p.moved(o),
            ) == run.value(m, o),
        run.outputs(p.applied(m)) == run.outputs(m),
{
    let a = p.applied(m);
    lemma_applied(m, p);
    assert forall|o: Outlet| has_outlet(m.nodes, o, m.nodes.len() as int) implies run.value(
        a,
        #[trigger] p.moved(o),
    ) == run.value(m, o) by {
        lemma_moved_value(run, m, p, o);
    }
    assert(run.outputs(a) =~= run.outputs(m)) by {
        assert forall|j: int| 0 <= j < m.outputs.len() implies #[trigger] run.outputs(a)[j]
            == run.outputs(m)[j] by {
            assert(has_outlet(m.nodes, m.outputs[j], m.nodes.len() as int));
            assert(a.outputs[j] == p.moved(m.outputs[j]));
        }
    }
}

/// The value of a tap of a patch does not change.
pub proof fn lemma_tap_value(run: Run, m: Model, p: Patch, t: usize)
    requires
        m.wf(),
        p.aims_at(m),
        p.fault(m) is None,
        t < p.taps.len(),
    ensures
        run.value(p.applied(m), p.resolve(Ref::Tap(t))) == run.value(
            m,
            p.taps[t as int],
        ),
{
    assert(has_outlet(m.nodes, p.taps[t as int], p.node));
    lemma_before(run, m, p, p.taps[t as int].node);
}

/// The inputs of a model, in order.
pub open spec fn inputs(nodes: Seq<Node>) -> Seq<Node> {
    nodes.filter(|n: Node| n.op is Source)
}

/// What a faultless patch keeps of a model, whatever its operators compute: its
/// inputs; the facts of its outputs; and the fact of the node, in its place.
pub open spec fn keeps_form(m: Model, p: Patch) -> bool {
    let a = p.applied(m);
    let by = p.resolve(p.by);
    &&& p.aims_at(m)
    &&& p.fault(m) is None
    &&& a.wf()
    &&& inputs(a.nodes) == inputs(m.nodes)
    &&& facts_of(a.nodes, a.outputs) == facts_of(m.nodes, m.outputs)
    &&& a.nodes[by.node].outputs[by.slot] == m.nodes[p.node].outputs[0]
}

/// What a patch keeps of a model: its form; the values of its outputs; and the value
/// of the node, in its place.
pub open spec fn keeps(run: Run, m: Model, p: Patch) -> bool {
    &&& keeps_form(m, p)
    &&& run.outputs(p.applied(m)) == run.outputs(m)
    &&& run.value(p.applied(m), p.resolve(p.by)) == run.values(m)[p.node][0]
}

/// A filter that passes nothing leaves nothing.
proof fn lemma_no_inputs(nodes: Seq<Node>)
    requires
        forall|i: int| 0 <= i < nodes.len() ==> !((#[trigger] nodes[i]).op is Source),
    ensures
        inputs(nodes) == Seq::<Node>::empty(),
    decreases nodes.len(),
{
    reveal(Seq::filter);
    if nodes.len() > 0 {
        let short = nodes.drop_last();
        assert forall|i: int| 0 <= i < short.len() implies !((#[trigger] short[i]).op
            is Source) by {
            assert(!(nodes[i].op is Source));
        }
        lemma_no_inputs(short);
        assert(!(nodes[nodes.len() - 1].op is Source));
    }
    assert(inputs(nodes) =~= Seq::<Node>::empty());
}

/// Nodes of which the inputs are the same have the same inputs.
proof fn lemma_same_inputs(a: Seq<Node>, b: Seq<Node>)
    requires
        a.len() == b.len(),
        forall|i: int|
            0 <= i < a.len() ==> ((#[trigger] a[i]).op is Source <==> b[i].op is Source) && (
            a[i].op is Source ==> a[i] == b[i]),
    ensures
        inputs(a) == inputs(b),
    decreases a.len(),
{
    reveal(Seq::filter);
    if a.len() > 0 {
        let (x, y) = (a.drop_last(), b.drop_last());
        assert forall|i: int| 0 <= i < x.len() implies ((#[trigger] x[i]).op is Source <==> y[i].op
            is Source) && (x[i].op is Source ==> x[i] == y[i]) by {
            assert(a[i] == x[i]);
        }
        lemma_same_inputs(x, y);
        assert(a[a.len() - 1] == a.last());
    } else {
        assert(a =~= b);
    }
}

/// A patch leaves the inputs of a model.
proof fn lemma_patched_inputs(m: Model, p: Patch)
    requires
        m.wf(),
        p.aims_at(m),
        p.fault(m) is None,
        !(m.nodes[p.node].op is Source),
    ensures
        inputs(p.applied(m).nodes) == inputs(m.nodes),
{
    let pred = |n: Node| n.op is Source;
    let head = m.nodes.take(p.node);
    let made = p.wire_nodes(m);
    let later = p.later_nodes(m);
    let one = seq![m.nodes[p.node]];
    let tail = m.nodes.skip(p.node + 1);
    assert forall|i: int| 0 <= i < made.len() implies !((#[trigger] made[i]).op is Source) by {
        assert(!(p.wires[i].op is Source));
    }
    lemma_no_inputs(made);
    lemma_no_inputs(one);
    assert forall|i: int| 0 <= i < later.len() implies ((#[trigger] later[i]).op is Source
        <==> tail[i].op is Source) && (later[i].op is Source ==> later[i] == tail[i]) by {
        let k = p.node + 1 + i;
        assert(node_wf(m.nodes, k));
        if later[i].op is Source {
            assert(p.moved_all(m.nodes[k].inputs) =~= m.nodes[k].inputs);
        }
    }
    lemma_same_inputs(later, tail);
    Seq::filter_distributes_over_add(head + made, later, pred);
    Seq::filter_distributes_over_add(head, made, pred);
    assert(m.nodes =~= head + one + tail);
    Seq::filter_distributes_over_add(head + one, tail, pred);
    Seq::filter_distributes_over_add(head, one, pred);
}

/// A faultless patch keeps the form of the model.
pub proof fn lemma_kept_form(m: Model, p: Patch)
    requires
        m.wf(),
        p.aims_at(m),
        p.fault(m) is None,
        !(m.nodes[p.node].op is Source),
    ensures
        keeps_form(m, p),
{
    let a = p.applied(m);
    let n = m.nodes.len() as int;
    lemma_wire_facts(facts_of(m.nodes, p.taps), p.wires, p.wires.len() as int);
    lemma_applied(m, p);
    lemma_patched_inputs(m, p);
    let node = Outlet { node: p.node, slot: 0 };
    assert(has_outlet(m.nodes, node, n));
    lemma_moved(m, p, node, n);
    assert(facts_of(a.nodes, a.outputs) =~= facts_of(m.nodes, m.outputs)) by {
        assert forall|j: int| 0 <= j < m.outputs.len() implies #[trigger] facts_of(
            a.nodes,
            a.outputs,
        )[j] == facts_of(m.nodes, m.outputs)[j] by {
            assert(has_outlet(m.nodes, m.outputs[j], n));
            lemma_moved(m, p, m.outputs[j], n);
            assert(a.outputs[j] == p.moved(m.outputs[j]));
        }
    }
}

/// A patch that puts the same value in the place of the output of a node keeps what
/// the model takes and what it computes.
pub proof fn lemma_kept(run: Run, m: Model, p: Patch)
    requires
        m.wf(),
        p.aims_at(m),
        p.fault(m) is None,
        !(m.nodes[p.node].op is Source),
        run.value(p.applied(m), p.resolve(p.by)) == run.values(m)[p.node][0],
    ensures
        keeps(run, m, p),
{
    lemma_patched(run, m, p);
    lemma_kept_form(m, p);
}

} // verus!
