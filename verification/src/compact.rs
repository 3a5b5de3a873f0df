//! Models without the nodes that no output needs.

use vstd::prelude::*;

use crate::model::{
    Model, Node, Outlet, OutletId, TypedModel, TypedNode, facts_of, has_outlet, has_outlets,
    node_wf, nodes_view, outlets_view,
};
use crate::ops::{Op, copy_facts};
use crate::patch::{Patch, lemma_resolve, lemma_wire_facts};
use crate::run::{Run, inputs, lemma_values, read};

verus! {

/// Whether a node takes an output of the node `i`.
pub open spec fn takes(node: Node, i: int) -> bool {
    exists|t: int| 0 <= t < node.inputs.len() && (#[trigger] node.inputs[t]).node == i
}

/// Whether an output of the node `i` is one of the model.
pub open spec fn is_output(m: Model, i: int) -> bool {
    exists|t: int| 0 <= t < m.outputs.len() && (#[trigger] m.outputs[t]).node == i
}

/// Whether an output of the model needs a node: it is the node's, or a node that an
/// output needs takes one of the node's outputs.
pub open spec fn needed(m: Model, i: int) -> bool
    decreases m.nodes.len() - i,
{
    &&& 0 <= i < m.nodes.len()
    &&& is_output(m, i) || exists|j: int|
        i < j < m.nodes.len() && #[trigger] takes(m.nodes[j], i) && needed(m, j)
}

impl Model {
    /// Whether a node stays: an output needs it, or it is an input of the model.
    pub open spec fn stays(self, i: int) -> bool {
        needed(self, i) || self.nodes[i].op is Source
    }

    /// How many of the first nodes stay: the place of the next that does.
    pub open spec fn place(self, i: int) -> int
        decreases i,
    {
        if i <= 0 {
            0
        } else if self.stays(i - 1) {
            self.place(i - 1) + 1
        } else {
            self.place(i - 1)
        }
    }

    /// An outlet, where its node stays.
    pub open spec fn placed(self, o: Outlet) -> Outlet {
        Outlet { node: self.place(o.node), slot: o.slot }
    }

    /// Outlets, where their nodes stay.
    pub open spec fn placed_all(self, outlets: Seq<Outlet>) -> Seq<Outlet> {
        Seq::new(outlets.len(), |t: int| self.placed(outlets[t]))
    }

    /// A node, where those stay that it takes from.
    pub open spec fn placed_node(self, i: int) -> Node {
        Node { inputs: self.placed_all(self.nodes[i].inputs), ..self.nodes[i] }
    }

    /// Those of the first nodes that stay.
    pub open spec fn staying(self, n: int) -> Seq<Node>
        decreases n,
    {
        if n <= 0 {
            Seq::empty()
        } else if self.stays(n - 1) {
            self.staying(n - 1).push(self.placed_node(n - 1))
        } else {
            self.staying(n - 1)
        }
    }

    /// The model without the nodes that no output needs. Its inputs stay.
    pub open spec fn compacted(self) -> Model {
        Model {
            nodes: self.staying(self.nodes.len() as int),
            outputs: self.placed_all(self.outputs),
        }
    }
}

/// Where the nodes are that stay.
pub proof fn lemma_staying(m: Model, n: int, i: int)
    requires
        0 <= i < n,
    ensures
        m.staying(n).len() == m.place(n),
        0 <= m.place(i) <= m.place(n),
        m.stays(i) ==> m.place(i) < m.place(n) && m.staying(n)[m.place(i)] == m.placed_node(i),
    decreases n,
{
    if i < n - 1 {
        lemma_staying(m, n - 1, i);
        if m.stays(n - 1) {
            assert(m.staying(n)[m.place(i)] == m.staying(n - 1)[m.place(i)] || !m.stays(i));
        }
    } else {
        lemma_place_len(m, i);
    }
}

proof fn lemma_place_len(m: Model, n: int)
    ensures
        m.staying(n).len() == m.place(n),
        m.place(n) >= 0,
    decreases n,
{
    if n > 0 {
        lemma_place_len(m, n - 1);
    }
}

/// Where a node that stays was.
pub proof fn lemma_origin(m: Model, n: int, q: int) -> (i: int)
    requires
        0 <= q < m.place(n),
    ensures
        0 <= i < n,
        m.stays(i),
        m.place(i) == q,
        m.staying(n)[q] == m.placed_node(i),
    decreases n,
{
    lemma_place_len(m, n);
    lemma_place_len(m, n - 1);
    if q < m.place(n - 1) {
        lemma_origin(m, n - 1, q)
    } else {
        n - 1
    }
}

/// What a node that stays takes stays.
pub proof fn lemma_inputs_stay(m: Model, i: int, t: int)
    requires
        m.wf(),
        0 <= i < m.nodes.len(),
        m.stays(i),
        0 <= t < m.nodes[i].inputs.len(),
    ensures
        has_outlet(m.nodes, m.nodes[i].inputs[t], i),
        needed(m, m.nodes[i].inputs[t].node),
{
    assert(node_wf(m.nodes, i));
    let o = m.nodes[i].inputs[t];
    assert(has_outlet(m.nodes, o, i));
    assert(takes(m.nodes[i], o.node));
    assert(needed(m, i));
}

/// The node of an output stays.
pub proof fn lemma_outputs_stay(m: Model, t: int)
    requires
        m.wf(),
        0 <= t < m.outputs.len(),
    ensures
        has_outlet(m.nodes, m.outputs[t], m.nodes.len() as int),
        needed(m, m.outputs[t].node),
{
    assert(has_outlet(m.nodes, m.outputs[t], m.nodes.len() as int));
    assert(is_output(m, m.outputs[t].node));
}

/// A node that stays has its operator, its facts, and inputs with the same facts.
pub proof fn lemma_placed_node(m: Model, i: int)
    requires
        m.wf(),
        0 <= i < m.nodes.len(),
        m.stays(i),
    ensures
        0 <= m.place(i) < m.compacted().nodes.len(),
        m.compacted().nodes[m.place(i)] == m.placed_node(i),
        has_outlets(m.compacted().nodes, m.placed_node(i).inputs, m.place(i)),
        facts_of(m.compacted().nodes, m.placed_node(i).inputs) == facts_of(
            m.nodes,
            m.nodes[i].inputs,
        ),
{
    let c = m.compacted();
    let n = m.nodes.len() as int;
    let inputs = m.nodes[i].inputs;
    let moved = m.placed_all(inputs);
    lemma_staying(m, n, i);
    assert forall|t: int| 0 <= t < moved.len() implies has_outlet(
        c.nodes,
        #[trigger] moved[t],
        m.place(i),
    ) && facts_of(c.nodes, moved)[t] == facts_of(m.nodes, inputs)[t] by {
        lemma_inputs_stay(m, i, t);
        lemma_staying(m, n, inputs[t].node);
        lemma_staying(m, i, inputs[t].node);
    }
    assert(facts_of(c.nodes, moved) =~= facts_of(m.nodes, inputs)) by {
        assert forall|t: int| 0 <= t < moved.len() implies #[trigger] facts_of(c.nodes, moved)[t]
            == facts_of(m.nodes, inputs)[t] by {
            let o = moved[t];
        }
    }
}

/// The model without the nodes that no output needs is well-formed, and its outputs
/// have the facts that they had.
pub proof fn lemma_compacted(m: Model)
    requires
        m.wf(),
    ensures
        m.compacted().wf(),
        m.compacted().nodes.len() == m.place(m.nodes.len() as int),
        facts_of(m.compacted().nodes, m.compacted().outputs) == facts_of(m.nodes, m.outputs),
{
    let c = m.compacted();
    let n = m.nodes.len() as int;
    lemma_place_len(m, n);
    assert forall|q: int| 0 <= q < c.nodes.len() implies #[trigger] node_wf(c.nodes, q) by {
        let i = lemma_origin(m, n, q);
        lemma_placed_node(m, i);
        assert(node_wf(m.nodes, i));
    }
    assert forall|t: int| 0 <= t < c.outputs.len() implies has_outlet(
        c.nodes,
        #[trigger] c.outputs[t],
        c.nodes.len() as int,
    ) && facts_of(c.nodes, c.outputs)[t] == facts_of(m.nodes, m.outputs)[t] by {
        lemma_outputs_stay(m, t);
        lemma_staying(m, n, m.outputs[t].node);
    }
    assert(facts_of(c.nodes, c.outputs) =~= facts_of(m.nodes, m.outputs)) by {
        assert forall|t: int| 0 <= t < c.outputs.len() implies #[trigger] facts_of(
            c.nodes,
            c.outputs,
        )[t] == facts_of(m.nodes, m.outputs)[t] by {
            let o = c.outputs[t];
        }
    }
}

/// A node that an output needs is still needed.
pub proof fn lemma_still_needed(m: Model, i: int)
    requires
        m.wf(),
        needed(m, i),
    ensures
        needed(m.compacted(), m.place(i)),
    decreases m.nodes.len() - i,
{
    let c = m.compacted();
    let n = m.nodes.len() as int;
    lemma_placed_node(m, i);
    if is_output(m, i) {
        let t = choose|t: int| 0 <= t < m.outputs.len() && (#[trigger] m.outputs[t]).node == i;
        assert(c.outputs[t].node == m.place(i));
        assert(is_output(c, m.place(i)));
    } else {
        let j = choose|j: int|
            i < j < m.nodes.len() && #[trigger] takes(m.nodes[j], i) && needed(m, j);
        lemma_still_needed(m, j);
        lemma_placed_node(m, j);
        lemma_staying(m, j, i);
        let t = choose|t: int|
            0 <= t < m.nodes[j].inputs.len() && (#[trigger] m.nodes[j].inputs[t]).node == i;
        assert(c.nodes[m.place(j)].inputs[t].node == m.place(i));
        assert(takes(c.nodes[m.place(j)], m.place(i)));
    }
}

/// The nodes that stay have the values that they had.
pub proof fn lemma_placed_value(run: Run, m: Model, i: int)
    requires
        m.wf(),
        0 <= i < m.nodes.len(),
        m.stays(i),
    ensures
        run.values(m.compacted())[m.place(i)] == run.values(m)[i],
        read(run.values(m.compacted()), m.placed_node(i).inputs) == read(
            run.values(m),
            m.nodes[i].inputs,
        ),
    decreases i,
{
    let c = m.compacted();
    let inputs = m.nodes[i].inputs;
    let moved = m.placed_node(i).inputs;
    lemma_compacted(m);
    lemma_placed_node(m, i);
    assert(read(run.values(c), moved) =~= read(run.values(m), inputs)) by {
        assert forall|t: int| 0 <= t < inputs.len() implies #[trigger] read(
            run.values(c),
            moved,
        )[t] == read(run.values(m), inputs)[t] by {
            lemma_inputs_stay(m, i, t);
            lemma_placed_value(run, m, inputs[t].node);
        }
    }
    lemma_values(run, m, i);
    lemma_values(run, c, m.place(i));
}

/// The inputs of the first nodes stay.
proof fn lemma_staying_inputs(m: Model, n: int)
    requires
        m.wf(),
        0 <= n <= m.nodes.len(),
    ensures
        inputs(m.staying(n)) == inputs(m.nodes.take(n)),
    decreases n,
{
    reveal(Seq::filter);
    if n > 0 {
        lemma_staying_inputs(m, n - 1);
        let part = m.nodes.take(n);
        assert(part.drop_last() =~= m.nodes.take(n - 1));
        assert(part.last() == m.nodes[n - 1]);
        if m.stays(n - 1) {
            let all = m.staying(n);
            assert(all.drop_last() =~= m.staying(n - 1));
            assert(all.last() == m.placed_node(n - 1));
            if m.nodes[n - 1].op is Source {
                assert(node_wf(m.nodes, n - 1));
                assert(m.placed_node(n - 1).inputs =~= m.nodes[n - 1].inputs);
            }
        }
    } else {
        assert(m.nodes.take(n) =~= m.staying(n));
    }
}

/// The model without the nodes that no output needs takes and computes the same.
pub proof fn lemma_compacted_same(run: Run, m: Model)
    requires
        m.wf(),
    ensures
        run.outputs(m.compacted()) == run.outputs(m),
{
    let c = m.compacted();
    assert(run.outputs(c) =~= run.outputs(m)) by {
        assert forall|t: int| 0 <= t < m.outputs.len() implies #[trigger] run.outputs(c)[t]
            == run.outputs(m)[t] by {
            lemma_outputs_stay(m, t);
            lemma_placed_value(run, m, m.outputs[t].node);
        }
    }
}

/// The inputs of a model stay.
pub proof fn lemma_compacted_inputs(m: Model)
    requires
        m.wf(),
    ensures
        inputs(m.compacted().nodes) == inputs(m.nodes),
{
    lemma_staying_inputs(m, m.nodes.len() as int);
    assert(m.nodes.take(m.nodes.len() as int) =~= m.nodes);
}

/// Whether a flag says of each node if it is needed by an output, as far as the nodes
/// from `from` on tell.
spec fn flags(m: Model, needs: Seq<bool>, from: int) -> bool {
    &&& needs.len() == m.nodes.len()
    &&& forall|i: int|
        0 <= i < needs.len() ==> (#[trigger] needs[i] <==> is_output(m, i) || exists|j: int|
            from <= j < m.nodes.len() && i < j && #[trigger] takes(m.nodes[j], i) && needed(m, j))
}

/// Marks what a node takes.
fn mark(needs: &mut Vec<bool>, outlets: &Vec<OutletId>)
    requires
        forall|t: int| 0 <= t < outlets@.len() ==> (#[trigger] outlets@[t]).node < old(needs)@.len(),
    ensures
        final(needs)@.len() == old(needs)@.len(),
        forall|i: int|
            0 <= i < old(needs)@.len() ==> (#[trigger] final(needs)@[i] <==> old(needs)@[i] || exists|
                t: int,
            |
                0 <= t < outlets@.len() && (#[trigger] outlets@[t]).node == i),
{
    let ghost before = needs@;
    for s in 0..outlets.len()
        invariant
            forall|t: int|
                0 <= t < outlets@.len() ==> (#[trigger] outlets@[t]).node < before.len(),
            needs@.len() == before.len(),
            forall|i: int|
                0 <= i < before.len() ==> (#[trigger] needs@[i] <==> before[i] || exists|t: int|
                    0 <= t < s && (#[trigger] outlets@[t]).node == i),
    {
        let ghost last = needs@;
        let at = outlets[s].node;
        needs.set(at, true);
        assert forall|i: int| 0 <= i < before.len() implies (#[trigger] needs@[i] <==> before[i]
            || exists|t: int| 0 <= t < s + 1 && (#[trigger] outlets@[t]).node == i) by {
            if i == at {
                assert(outlets@[s as int].node == i);
            } else {
                assert(needs@[i] == last[i]);
            }
        }
    }
}

impl TypedModel {
    /// Which nodes an output needs.
    fn find_needed(&self) -> (r: Vec<bool>)
        requires
            self.wf(),
        ensures
            r@.len() == self@.nodes.len(),
            forall|i: int| 0 <= i < r@.len() ==> #[trigger] r@[i] == needed(self@, i),
    {
        let ghost m = self@;
        let n = self.nodes.len();
        let mut needs: Vec<bool> = Vec::new();
        for i in 0..n
            invariant
                needs@.len() == i,
                forall|j: int| 0 <= j < i ==> !(#[trigger] needs@[j]),
        {
            needs.push(false);
        }
        assert forall|t: int| 0 <= t < self.outputs@.len() implies (
        #[trigger] self.outputs@[t]).node < n by {
            assert(has_outlet(m.nodes, m.outputs[t], n as int));
        }
        mark(&mut needs, &self.outputs);
        assert(flags(m, needs@, n as int)) by {
            assert forall|i: int| 0 <= i < n implies (#[trigger] needs@[i] <==> is_output(m, i)) by {
                if is_output(m, i) {
                    let t = choose|t: int|
                        0 <= t < m.outputs.len() && (#[trigger] m.outputs[t]).node == i;
                    assert(self.outputs@[t].node == i);
                }
                if needs@[i] {
                    let t = choose|t: int|
                        0 <= t < self.outputs@.len() && (#[trigger] self.outputs@[t]).node == i;
                    assert(m.outputs[t].node == i);
                }
            }
        }
        let mut from = n;
        while from > 0
            invariant
                self.wf(),
                m == self@,
                n == m.nodes.len(),
                n == self.nodes@.len(),
                from <= n,
                flags(m, needs@, from as int),
                forall|i: int| from <= i < n ==> #[trigger] needs@[i] == needed(m, i),
            decreases from,
        {
            let ghost before = needs@;
            from = from - 1;
            let ghost j = from as int;
            assert(m.nodes[j] == self.nodes@[j]@);
            assert(before[j] == needed(m, j));
            if needs[from] {
                proof {
                    assert(node_wf(m.nodes, j));
                    assert forall|t: int| 0 <= t < self.nodes@[j].inputs@.len() implies (
                    #[trigger] self.nodes@[j].inputs@[t]).node < j by {
                        assert(has_outlet(m.nodes, m.nodes[j].inputs[t], j));
                    }
                }
                mark(&mut needs, &self.nodes[from].inputs);
            }
            proof {
                lemma_marked(m, before, needs@, &self.nodes@[j], j);
            }
        }
        needs
    }
}

/// The flags after the node `j` has marked what it takes.
proof fn lemma_marked(m: Model, before: Seq<bool>, after: Seq<bool>, node: &TypedNode, j: int)
    requires
        0 <= j < m.nodes.len(),
        m.nodes[j] == node@,
        node_wf(m.nodes, j),
        flags(m, before, j + 1),
        before[j] == needed(m, j),
        after.len() == before.len(),
        forall|i: int| j < i < before.len() ==> #[trigger] before[i] == needed(m, i),
        forall|i: int|
            0 <= i < before.len() ==> (#[trigger] after[i] <==> before[i] || (needed(m, j) && exists|
                t: int,
            |
                0 <= t < node.inputs@.len() && (#[trigger] node.inputs@[t]).node == i)),
    ensures
        flags(m, after, j),
        forall|i: int| j <= i < after.len() ==> #[trigger] after[i] == needed(m, i),
{
    assert forall|i: int| 0 <= i < after.len() implies (#[trigger] after[i] <==> is_output(m, i)
        || exists|q: int|
        j <= q < m.nodes.len() && i < q && #[trigger] takes(m.nodes[q], i) && needed(m, q)) by {
        assert(before[i] <==> is_output(m, i) || exists|q: int|
            j + 1 <= q < m.nodes.len() && i < q && #[trigger] takes(m.nodes[q], i) && needed(m, q));
        if exists|t: int| 0 <= t < node.inputs@.len() && (#[trigger] node.inputs@[t]).node == i {
            let t = choose|t: int|
                0 <= t < node.inputs@.len() && (#[trigger] node.inputs@[t]).node == i;
            assert(m.nodes[j].inputs[t].node == i);
            assert(has_outlet(m.nodes, m.nodes[j].inputs[t], j));
            assert(takes(m.nodes[j], i));
        }
        if takes(m.nodes[j], i) {
            let t = choose|t: int|
                0 <= t < m.nodes[j].inputs.len() && (#[trigger] m.nodes[j].inputs[t]).node == i;
            assert(node.inputs@[t].node == i);
        }
    }
    assert forall|i: int| j <= i < after.len() implies #[trigger] after[i] == needed(m, i) by {
        if exists|t: int| 0 <= t < node.inputs@.len() && (#[trigger] node.inputs@[t]).node == i {
            let t = choose|t: int|
                0 <= t < node.inputs@.len() && (#[trigger] node.inputs@[t]).node == i;
            assert(m.nodes[j].inputs[t].node == i);
            assert(has_outlet(m.nodes, m.nodes[j].inputs[t], j));
        }
    }
}

/// Outlets, where their nodes stay.
fn place_outlets(outlets: &Vec<OutletId>, places: &Vec<usize>, Ghost(m): Ghost<Model>) -> (r: Vec<
    OutletId,
>)
    requires
        forall|t: int| 0 <= t < outlets@.len() ==> (#[trigger] outlets@[t]).node < places@.len(),
        forall|i: int| 0 <= i < places@.len() ==> #[trigger] places@[i] == m.place(i),
    ensures
        outlets_view(r@) == m.placed_all(outlets_view(outlets@)),
{
    let mut moved: Vec<OutletId> = Vec::new();
    for t in 0..outlets.len()
        invariant
            forall|t: int|
                0 <= t < outlets@.len() ==> (#[trigger] outlets@[t]).node < places@.len(),
            forall|i: int| 0 <= i < places@.len() ==> #[trigger] places@[i] == m.place(i),
            moved@.len() == t,
            forall|q: int| 0 <= q < t ==> (#[trigger] moved@[q])@ == m.placed(outlets@[q]@),
    {
        let o = outlets[t];
        moved.push(OutletId { node: places[o.node], slot: o.slot });
    }
    assert(outlets_view(moved@) =~= m.placed_all(outlets_view(outlets@)));
    moved
}

impl TypedModel {
    /// Takes away the nodes that no output needs. The inputs of the model stay.
    pub fn compact(&mut self)
        requires
            old(self).wf(),
        ensures
            final(self).wf(),
            final(self)@ == old(self)@.compacted(),
    {
        let ghost m = self@;
        let n = self.nodes.len();
        let needs = self.find_needed();
        let mut nodes: Vec<TypedNode> = Vec::new();
        let mut places: Vec<usize> = Vec::new();
        assert(nodes_view(nodes@) =~= m.staying(0));
        for i in 0..n
            invariant
                self.wf(),
                m == self@,
                n == m.nodes.len(),
                n == self.nodes@.len(),
                needs@.len() == n,
                forall|j: int| 0 <= j < n ==> #[trigger] needs@[j] == needed(m, j),
                places@.len() == i,
                forall|j: int| 0 <= j < i ==> #[trigger] places@[j] == m.place(j),
                nodes_view(nodes@) == m.staying(i as int),
                nodes@.len() == m.place(i as int),
                forall|j: int| 0 <= j < nodes@.len() ==> (#[trigger] nodes@[j]).id == j,
        {
            let ghost before = nodes@;
            let node = &self.nodes[i];
            assert(m.nodes[i as int] == node@);
            places.push(nodes.len());
            let is_source = match node.op {
                Op::Source => true,
                _ => false,
            };
            if needs[i] || is_source {
                proof {
                    assert(node_wf(m.nodes, i as int));
                    assert forall|t: int| 0 <= t < node.inputs@.len() implies (
                    #[trigger] node.inputs@[t]).node < places@.len() by {
                        assert(has_outlet(m.nodes, m.nodes[i as int].inputs[t], i as int));
                    }
                }
                let id = nodes.len();
                nodes.push(
                    TypedNode {
                        id,
                        name: node.name.clone(),
                        inputs: place_outlets(&node.inputs, &places, Ghost(m)),
                        op: node.op.clone(),
                        outputs: copy_facts(&node.outputs),
                    },
                );
                assert(nodes@[id as int]@ == m.placed_node(i as int));
                assert(nodes_view(nodes@) =~= nodes_view(before).push(m.placed_node(i as int)));
            }
        }
        assert forall|t: int| 0 <= t < self.outputs@.len() implies (
        #[trigger] self.outputs@[t]).node < n by {
            assert(has_outlet(m.nodes, m.outputs[t], n as int));
        }
        let outputs = place_outlets(&self.outputs, &places, Ghost(m));
        self.nodes = nodes;
        self.outputs = outputs;
        proof {
            lemma_compacted(m);
        }
    }
}

/// What takes the place of a node that an output needs is needed, and so is what comes
/// after the node.
pub proof fn lemma_needed_after(m: Model, p: Patch, i: int)
    requires
        m.wf(),
        p.aims_at(m),
        p.fault(m) is None,
        needed(m, i),
        p.node <= i,
    ensures
        needed(p.applied(m), p.moved(Outlet { node: i, slot: 0 }).node),
    decreases m.nodes.len() - i,
{
    let a = p.applied(m);
    let w = p.wires.len() as int;
    let n = m.nodes.len() as int;
    lemma_wire_facts(facts_of(m.nodes, p.taps), p.wires, w);
    lemma_resolve(m, p, p.by, w);
    let at = p.moved(Outlet { node: i, slot: 0 }).node;
    assert(0 <= at < a.nodes.len());
    if is_output(m, i) {
        let t = choose|t: int| 0 <= t < m.outputs.len() && (#[trigger] m.outputs[t]).node == i;
        assert(a.outputs[t] == p.moved(m.outputs[t]));
        assert(a.outputs[t].node == at);
        assert(is_output(a, at));
    } else {
        let j = choose|j: int| i < j < n && #[trigger] takes(m.nodes[j], i) && needed(m, j);
        lemma_needed_after(m, p, j);
        let to = j + w - 1;
        assert(a.nodes[to] == p.later_nodes(m)[j - p.node - 1]);
        let t = choose|t: int|
            0 <= t < m.nodes[j].inputs.len() && (#[trigger] m.nodes[j].inputs[t]).node == i;
        assert(a.nodes[to].inputs[t] == p.moved(m.nodes[j].inputs[t]));
        assert(a.nodes[to].inputs[t].node == at);
        assert(takes(a.nodes[to], at));
    }
}

proof fn lemma_same_place(m: Model, n: int)
    requires
        0 <= n <= m.nodes.len(),
        forall|i: int| 0 <= i < n ==> #[trigger] m.stays(i),
    ensures
        forall|i: int| 0 <= i <= n ==> #[trigger] m.place(i) == i,
    decreases n,
{
    if n > 0 {
        lemma_same_place(m, n - 1);
        assert(m.stays(n - 1));
        assert(m.place(n - 1) == n - 1);
        assert(m.place(n) == n);
    }
}

/// A model of which all nodes stay is as before.
pub proof fn lemma_all_stay(m: Model)
    requires
        m.wf(),
        forall|i: int| 0 <= i < m.nodes.len() ==> #[trigger] m.stays(i),
    ensures
        m.compacted() == m,
{
    let n = m.nodes.len() as int;
    let c = m.compacted();
    lemma_compacted(m);
    lemma_same_place(m, n);
    assert forall|i: int| 0 <= i < n implies c.nodes[i] == #[trigger] m.nodes[i] by {
        assert(m.stays(i));
        lemma_staying(m, n, i);
        let inputs = m.nodes[i].inputs;
        assert(node_wf(m.nodes, i));
        assert(m.placed_all(inputs) =~= inputs) by {
            assert forall|t: int| 0 <= t < inputs.len() implies #[trigger] m.placed_all(inputs)[t]
                == inputs[t] by {
                assert(has_outlet(m.nodes, inputs[t], i));
                assert(m.place(inputs[t].node) == inputs[t].node);
            }
        }
    }
    assert(c.nodes =~= m.nodes);
    assert(c.outputs =~= m.outputs) by {
        assert forall|t: int| 0 <= t < m.outputs.len() implies #[trigger] c.outputs[t]
            == m.outputs[t] by {
            assert(has_outlet(m.nodes, m.outputs[t], n));
            assert(m.place(m.outputs[t].node) == m.outputs[t].node);
        }
    }
}

} // verus!
