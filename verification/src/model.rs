//! Models: operators wired together, and patches that replace a node.

use vstd::prelude::*;

use crate::error::Error;
use crate::ops::{Fact, Op, OpView, TypedFact, fact_refs, facts_view};

verus! {

/// An output of a node.
#[derive(Clone, Copy, Debug, PartialEq, Eq, Structural)]
pub struct OutletId {
    pub node: usize,
    pub slot: usize,
}

/// The model of an output of a node.
pub struct Outlet {
    pub node: int,
    pub slot: int,
}

impl View for OutletId {
    type V = Outlet;

    open spec fn view(&self) -> Outlet {
        Outlet { node: self.node as int, slot: self.slot as int }
    }
}

/// The models of some outlets.
pub open spec fn outlets_view(outlets: Seq<OutletId>) -> Seq<Outlet> {
    Seq::new(outlets.len(), |i: int| outlets[i]@)
}

/// A node: an operator, what it takes, and what is known of what it gives.
#[derive(Debug)]
pub struct TypedNode {
    pub id: usize,
    pub name: String,
    pub inputs: Vec<OutletId>,
    pub op: Op,
    pub outputs: Vec<TypedFact>,
}

/// The model of a node.
pub struct Node {
    pub name: Seq<char>,
    pub inputs: Seq<Outlet>,
    pub op: OpView,
    pub outputs: Seq<Fact>,
}

impl View for TypedNode {
    type V = Node;

    open spec fn view(&self) -> Node {
        Node {
            name: self.name@,
            inputs: outlets_view(self.inputs@),
            op: self.op@,
            outputs: facts_view(self.outputs@),
        }
    }
}

/// A model: nodes, each after those that it takes its inputs from, and the
/// outputs of the model.
#[derive(Debug)]
pub struct TypedModel {
    pub nodes: Vec<TypedNode>,
    pub outputs: Vec<OutletId>,
}

/// The model of a model.
#[verifier::ext_equal]
pub struct Model {
    pub nodes: Seq<Node>,
    pub outputs: Seq<Outlet>,
}

/// The models of some nodes.
pub open spec fn nodes_view(nodes: Seq<TypedNode>) -> Seq<Node> {
    Seq::new(nodes.len(), |i: int| nodes[i]@)
}

impl View for TypedModel {
    type V = Model;

    open spec fn view(&self) -> Model {
        Model { nodes: nodes_view(self.nodes@), outputs: outlets_view(self.outputs@) }
    }
}

/// Whether an outlet is one of the first nodes.
pub open spec fn has_outlet(nodes: Seq<Node>, o: Outlet, limit: int) -> bool {
    &&& 0 <= o.node < limit <= nodes.len()
    &&& 0 <= o.slot < nodes[o.node].outputs.len()
}

/// Whether outlets are all of the first nodes.
pub open spec fn has_outlets(nodes: Seq<Node>, outlets: Seq<Outlet>, limit: int) -> bool {
    forall|i: int| 0 <= i < outlets.len() ==> has_outlet(nodes, #[trigger] outlets[i], limit)
}

/// The facts of some outlets.
pub open spec fn facts_of(nodes: Seq<Node>, outlets: Seq<Outlet>) -> Seq<Fact> {
    Seq::new(outlets.len(), |i: int| nodes[outlets[i].node].outputs[outlets[i].slot])
}

/// Whether a node comes after its inputs, and has the facts that its operator
/// derives.
pub open spec fn node_wf(nodes: Seq<Node>, i: int) -> bool {
    &&& has_outlets(nodes, nodes[i].inputs, i)
    &&& nodes[i].op.wf()
    &&& if nodes[i].op is Source {
        nodes[i].inputs.len() == 0 && nodes[i].outputs.len() == 1
    } else {
        nodes[i].op.facts(facts_of(nodes, nodes[i].inputs)) == Some(nodes[i].outputs)
    }
}

impl Model {
    pub open spec fn wf(self) -> bool {
        &&& forall|i: int| 0 <= i < self.nodes.len() ==> #[trigger] node_wf(self.nodes, i)
        &&& has_outlets(self.nodes, self.outputs, self.nodes.len() as int)
    }

    /// With one more node.
    pub open spec fn with_node(self, node: Node) -> Model {
        Model { nodes: self.nodes.push(node), ..self }
    }
}

/// The facts of some outlets do not change when nodes are added.
pub proof fn lemma_nodes_prefix(nodes: Seq<Node>, longer: Seq<Node>, i: int)
    requires
        nodes.len() <= longer.len(),
        forall|j: int| 0 <= j < nodes.len() ==> #[trigger] nodes[j] == longer[j],
        0 <= i < nodes.len(),
        node_wf(nodes, i),
    ensures
        node_wf(longer, i),
{
    assert(nodes[i] == longer[i]);
    assert forall|j: int| 0 <= j < longer[i].inputs.len() implies has_outlet(
        longer,
        #[trigger] longer[i].inputs[j],
        i,
    ) by {
        assert(has_outlet(nodes, nodes[i].inputs[j], i));
        assert(nodes[nodes[i].inputs[j].node] == longer[nodes[i].inputs[j].node]);
    }
    assert(facts_of(nodes, nodes[i].inputs) =~= facts_of(longer, longer[i].inputs)) by {
        assert forall|j: int| 0 <= j < nodes[i].inputs.len() implies #[trigger] facts_of(
            nodes,
            nodes[i].inputs,
        )[j] == facts_of(longer, longer[i].inputs)[j] by {
            assert(has_outlet(nodes, nodes[i].inputs[j], i));
            assert(nodes[nodes[i].inputs[j].node] == longer[nodes[i].inputs[j].node]);
        }
    }
}

/// A node added to a model leaves it well-formed.
pub proof fn lemma_with_node(m: Model, node: Node)
    requires
        m.wf(),
        node_wf(m.nodes.push(node), m.nodes.len() as int),
    ensures
        m.with_node(node).wf(),
{
    let nodes = m.nodes.push(node);
    assert forall|i: int| 0 <= i < nodes.len() implies #[trigger] node_wf(nodes, i) by {
        if i < m.nodes.len() {
            assert(node_wf(m.nodes, i));
            lemma_nodes_prefix(m.nodes, nodes, i);
        }
    }
    assert forall|i: int| 0 <= i < m.outputs.len() implies has_outlet(
        nodes,
        #[trigger] m.outputs[i],
        nodes.len() as int,
    ) by {
        assert(has_outlet(m.nodes, m.outputs[i], m.nodes.len() as int));
        assert(nodes[m.outputs[i].node] == m.nodes[m.outputs[i].node]);
    }
}

/// A copy of some outlets.
pub fn copy_outlets(outlets: &Vec<OutletId>) -> (r: Vec<OutletId>)
    ensures
        r@ == outlets@,
{
    let mut copy: Vec<OutletId> = Vec::new();
    for i in 0..outlets.len()
        invariant
            copy@ == outlets@.take(i as int),
    {
        copy.push(outlets[i]);
        assert(outlets@.take(i + 1) =~= outlets@.take(i as int).push(outlets@[i as int]));
    }
    assert(outlets@.take(outlets@.len() as int) =~= outlets@);
    copy
}

impl TypedModel {
    pub open spec fn wf(&self) -> bool {
        &&& self@.wf()
        &&& forall|i: int| 0 <= i < self.nodes@.len() ==> (#[trigger] self.nodes@[i]).id == i
    }

    /// The empty model.
    pub fn new() -> (r: TypedModel)
        ensures
            r.wf(),
            r@ == (Model { nodes: Seq::empty(), outputs: Seq::empty() }),
    {
        let r = TypedModel { nodes: Vec::new(), outputs: Vec::new() };
        assert(r@ =~= Model { nodes: Seq::empty(), outputs: Seq::empty() });
        r
    }

    /// The fact of an outlet.
    pub fn outlet_fact(&self, outlet: OutletId) -> (r: Result<&TypedFact, Error>)
        ensures
            match r {
                Ok(fact) => has_outlet(self@.nodes, outlet@, self@.nodes.len() as int) && fact@
                    == self@.nodes[outlet@.node].outputs[outlet@.slot],
                Err(e) => e == Error::UnknownOutlet && !has_outlet(
                    self@.nodes,
                    outlet@,
                    self@.nodes.len() as int,
                ),
            },
    {
        if outlet.node >= self.nodes.len() {
            return Err(Error::UnknownOutlet);
        }
        let node = &self.nodes[outlet.node];
        assert(node@ == self@.nodes[outlet@.node]);
        if outlet.slot >= node.outputs.len() {
            return Err(Error::UnknownOutlet);
        }
        Ok(&node.outputs[outlet.slot])
    }

    /// The facts of some outlets.
    pub fn outlet_facts(&self, outlets: &Vec<OutletId>) -> (r: Result<Vec<&TypedFact>, Error>)
        ensures
            match r {
                Ok(facts) => has_outlets(
                    self@.nodes,
                    outlets_view(outlets@),
                    self@.nodes.len() as int,
                ) && fact_refs(facts@) == facts_of(self@.nodes, outlets_view(outlets@)),
                Err(e) => e == Error::UnknownOutlet && !has_outlets(
                    self@.nodes,
                    outlets_view(outlets@),
                    self@.nodes.len() as int,
                ),
            },
    {
        let ghost n = self@.nodes.len() as int;
        let ghost want = outlets_view(outlets@);
        let mut facts: Vec<&TypedFact> = Vec::new();
        for i in 0..outlets.len()
            invariant
                n == self@.nodes.len(),
                want == outlets_view(outlets@),
                facts@.len() == i,
                forall|j: int| 0 <= j < i ==> has_outlet(self@.nodes, #[trigger] want[j], n),
                forall|j: int|
                    0 <= j < i ==> (#[trigger] facts@[j])@
                        == self@.nodes[want[j].node].outputs[want[j].slot],
        {
            match self.outlet_fact(outlets[i]) {
                Ok(fact) => {
                    facts.push(fact);
                },
                Err(e) => {
                    assert(!has_outlet(self@.nodes, want[i as int], n));
                    return Err(e);
                },
            }
        }
        assert(fact_refs(facts@) =~= facts_of(self@.nodes, want));
        Ok(facts)
    }

    /// Adds an input.
    pub fn add_source(&mut self, name: String, fact: TypedFact) -> (r: OutletId)
        requires
            old(self).wf(),
        ensures
            final(self).wf(),
            r@ == (Outlet { node: old(self)@.nodes.len() as int, slot: 0 }),
            final(self)@ == old(self)@.with_node(
                Node {
                    name: name@,
                    inputs: Seq::empty(),
                    op: OpView::Source,
                    outputs: seq![fact@],
                },
            ),
    {
        let ghost before = self@;
        let id = self.nodes.len();
        let mut outputs: Vec<TypedFact> = Vec::new();
        outputs.push(fact);
        let node = TypedNode { id, name, inputs: Vec::new(), op: Op::Source, outputs };
        assert(facts_view(node.outputs@) =~= seq![fact@]);
        assert(node@.inputs =~= Seq::empty());
        proof {
            lemma_with_node(before, node@);
        }
        self.nodes.push(node);
        assert(self@ =~= before.with_node(node@));
        OutletId { node: id, slot: 0 }
    }

    /// Adds a node, if its inputs exist and suit it.
    pub fn wire_node(&mut self, name: String, op: Op, inputs: &Vec<OutletId>) -> (r: Result<
        OutletId,
        Error,
    >)
        requires
            old(self).wf(),
            op@.wf(),
            !(op is Source),
        ensures
            final(self).wf(),
            match r {
                Ok(o) => ({
                    let wired = outlets_view(inputs@);
                    let nodes = old(self)@.nodes;
                    &&& has_outlets(nodes, wired, nodes.len() as int)
                    &&& op@.facts(facts_of(nodes, wired)) is Some
                    &&& o@ == (Outlet { node: nodes.len() as int, slot: 0 })
                    &&& final(self)@ == old(self)@.with_node(
                        Node {
                            name: name@,
                            inputs: wired,
                            op: op@,
                            outputs: op@.facts(facts_of(nodes, wired))->0,
                        },
                    )
                }),
                Err(e) => ({
                    let wired = outlets_view(inputs@);
                    let nodes = old(self)@.nodes;
                    &&& final(self)@ == old(self)@
                    &&& if has_outlets(nodes, wired, nodes.len() as int) {
                        e == Error::BadFacts && op@.facts(facts_of(nodes, wired)) is None
                    } else {
                        e == Error::UnknownOutlet
                    }
                }),
            },
    {
        let ghost before = self@;
        let outputs = match self.outlet_facts(inputs) {
            Ok(facts) => match op.output_facts(&facts) {
                Ok(outputs) => outputs,
                Err(e) => {
                    return Err(e);
                },
            },
            Err(e) => {
                return Err(e);
            },
        };
        let id = self.nodes.len();
        let node = TypedNode { id, name, inputs: copy_outlets(inputs), op, outputs };
        proof {
            let nodes = before.nodes.push(node@);
            let n = before.nodes.len() as int;
            assert forall|j: int| 0 <= j < node@.inputs.len() implies has_outlet(
                nodes,
                #[trigger] node@.inputs[j],
                n,
            ) by {
                assert(has_outlet(before.nodes, node@.inputs[j], n));
                assert(nodes[node@.inputs[j].node] == before.nodes[node@.inputs[j].node]);
            }
            assert(facts_of(nodes, node@.inputs) =~= facts_of(before.nodes, node@.inputs)) by {
                assert forall|j: int| 0 <= j < node@.inputs.len() implies #[trigger] facts_of(
                    nodes,
                    node@.inputs,
                )[j] == facts_of(before.nodes, node@.inputs)[j] by {
                    assert(has_outlet(before.nodes, node@.inputs[j], n));
                }
            }
            lemma_with_node(before, node@);
        }
        self.nodes.push(node);
        assert(self@ =~= before.with_node(node@));
        Ok(OutletId { node: id, slot: 0 })
    }

    /// Chooses the outputs, if these exist.
    pub fn set_output_outlets(&mut self, outputs: &Vec<OutletId>) -> (r: Result<(), Error>)
        requires
            old(self).wf(),
        ensures
            final(self).wf(),
            match r {
                Ok(_) => has_outlets(
                    old(self)@.nodes,
                    outlets_view(outputs@),
                    old(self)@.nodes.len() as int,
                ) && final(self)@ == (Model {
                    outputs: outlets_view(outputs@),
                    ..old(self)@
                }),
                Err(e) => e == Error::UnknownOutlet && final(self)@ == old(self)@ && !has_outlets(
                    old(self)@.nodes,
                    outlets_view(outputs@),
                    old(self)@.nodes.len() as int,
                ),
            },
    {
        match self.outlet_facts(outputs) {
            Ok(_) => {},
            Err(e) => {
                return Err(e);
            },
        }
        self.outputs = copy_outlets(outputs);
        Ok(())
    }
}

} // verus!
