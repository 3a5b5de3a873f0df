//! Patches: operators that take the place of a node.

use vstd::prelude::*;

use crate::error::Error;
use crate::model::{
    Model, Node, Outlet, OutletId, TypedModel, TypedNode, facts_of, has_outlet, has_outlets,
    node_wf, nodes_view, outlets_view,
};
use crate::ops::{
    Fact, Op, OpView, TypedFact, copy_facts, fact_refs, facts_view, same_fact,
};

verus! {

/// What an operator of a patch takes: an outlet of the model, among those that
/// the patch taps, or an output of an operator of the patch.
#[derive(Clone, Copy, Debug, PartialEq, Eq, Structural)]
pub enum Ref {
    Tap(usize),
    Wire(usize, usize),
}

/// An operator of a patch.
#[derive(Debug)]
pub struct Wire {
    pub name: String,
    pub op: Op,
    pub inputs: Vec<Ref>,
}

/// The model of an operator of a patch.
#[verifier::ext_equal]
pub struct WireView {
    pub name: Seq<char>,
    pub op: OpView,
    pub inputs: Seq<Ref>,
}

impl View for Wire {
    type V = WireView;

    open spec fn view(&self) -> WireView {
        WireView { name: self.name@, op: self.op@, inputs: self.inputs@ }
    }
}

/// The models of the operators of a patch.
pub open spec fn wires_view(wires: Seq<Wire>) -> Seq<WireView> {
    Seq::new(wires.len(), |i: int| wires[i]@)
}

/// A patch of a model: the outlets that it taps, its operators, the node that it
/// replaces, and what takes the place of the output of that node.
#[derive(Debug)]
pub struct TypedModelPatch {
    pub context: String,
    pub taps: Vec<OutletId>,
    pub wires: Vec<Wire>,
    pub facts: Vec<Vec<TypedFact>>,
    pub node: usize,
    pub by: Ref,
}

/// The model of a patch.
#[verifier::ext_equal]
pub struct Patch {
    pub context: Seq<char>,
    pub taps: Seq<Outlet>,
    pub wires: Seq<WireView>,
    pub node: int,
    pub by: Ref,
}

impl View for TypedModelPatch {
    type V = Patch;

    open spec fn view(&self) -> Patch {
        Patch {
            context: self.context@,
            taps: outlets_view(self.taps@),
            wires: wires_view(self.wires@),
            node: self.node as int,
            by: self.by,
        }
    }
}

/// Whether a reference is to a tap, or to an output of an operator before.
pub open spec fn has_ref(taps: Seq<Fact>, facts: Seq<Seq<Fact>>, r: Ref) -> bool {
    match r {
        Ref::Tap(t) => t < taps.len(),
        Ref::Wire(i, s) => i < facts.len() && s < facts[i as int].len(),
    }
}

/// The fact of what a reference is to.
pub open spec fn ref_fact(taps: Seq<Fact>, facts: Seq<Seq<Fact>>, r: Ref) -> Fact {
    match r {
        Ref::Tap(t) => taps[t as int],
        Ref::Wire(i, s) => facts[i as int][s as int],
    }
}

/// The facts of what references are to.
pub open spec fn ref_facts(taps: Seq<Fact>, facts: Seq<Seq<Fact>>, refs: Seq<Ref>) -> Seq<Fact> {
    Seq::new(refs.len(), |i: int| ref_fact(taps, facts, refs[i]))
}

/// Whether references are to taps and to operators before.
pub open spec fn has_refs(taps: Seq<Fact>, facts: Seq<Seq<Fact>>, refs: Seq<Ref>) -> bool {
    forall|i: int| 0 <= i < refs.len() ==> has_ref(taps, facts, #[trigger] refs[i])
}

/// The facts that operators derive one after the other, if each suits its
/// inputs.
pub open spec fn wire_facts(taps: Seq<Fact>, wires: Seq<WireView>) -> Option<Seq<Seq<Fact>>>
    decreases wires.len(),
{
    if wires.len() == 0 {
        Some(Seq::empty())
    } else {
        match wire_facts(taps, wires.drop_last()) {
            Some(facts) => {
                let wire = wires.last();
                if has_refs(taps, facts, wire.inputs) {
                    match wire.op.facts(ref_facts(taps, facts, wire.inputs)) {
                        Some(f) => Some(facts.push(f)),
                        None => None,
                    }
                } else {
                    None
                }
            },
            None => None,
        }
    }
}

impl Patch {
    /// Whether the patch is for a node of the model with one output, and taps
    /// outlets before it.
    pub open spec fn aims_at(self, m: Model) -> bool {
        &&& 0 <= self.node < m.nodes.len()
        &&& m.nodes[self.node].outputs.len() == 1
        &&& has_outlets(m.nodes, self.taps, self.node)
        &&& forall|i: int|
            0 <= i < self.wires.len() ==> (#[trigger] self.wires[i]).op.wf()
                && !(self.wires[i].op is Source)
    }

    /// The facts that the operators of the patch derive.
    pub open spec fn facts(self, m: Model) -> Option<Seq<Seq<Fact>>> {
        wire_facts(facts_of(m.nodes, self.taps), self.wires)
    }

    /// Why the patch cannot replace the node: an operator does not suit its
    /// inputs, or the fact of the output would change.
    pub open spec fn fault(self, m: Model) -> Option<Error> {
        match self.facts(m) {
            None => Some(Error::BadFacts),
            Some(facts) => {
                let taps = facts_of(m.nodes, self.taps);
                if has_ref(taps, facts, self.by) && ref_fact(taps, facts, self.by)
                    == m.nodes[self.node].outputs[0] {
                    None
                } else {
                    Some(Error::FactMismatch)
                }
            },
        }
    }

    /// The patch, unless it has a fault.
    pub open spec fn checked(self, m: Model) -> Result<Patch, Error> {
        match self.fault(m) {
            None => Ok(self),
            Some(e) => Err(e),
        }
    }

    /// The outlet of the patched model that a reference is to.
    pub open spec fn resolve(self, r: Ref) -> Outlet {
        match r {
            Ref::Tap(t) => self.taps[t as int],
            Ref::Wire(i, s) => Outlet { node: self.node + i, slot: s as int },
        }
    }

    /// What takes the place of an outlet in the patched model.
    pub open spec fn moved(self, o: Outlet) -> Outlet {
        if o.node < self.node {
            o
        } else if o.node == self.node {
            self.resolve(self.by)
        } else {
            Outlet { node: o.node + self.wires.len() - 1, slot: o.slot }
        }
    }

    /// What takes the place of outlets in the patched model.
    pub open spec fn moved_all(self, outlets: Seq<Outlet>) -> Seq<Outlet> {
        Seq::new(outlets.len(), |i: int| self.moved(outlets[i]))
    }

    /// The nodes of the operators of the patch.
    pub open spec fn wire_nodes(self, m: Model) -> Seq<Node> {
        Seq::new(
            self.wires.len(),
            |i: int|
                Node {
                    name: self.wires[i].name,
                    inputs: Seq::new(
                        self.wires[i].inputs.len(),
                        |j: int| self.resolve(self.wires[i].inputs[j]),
                    ),
                    op: self.wires[i].op,
                    outputs: (self.facts(m)->0)[i],
                },
        )
    }

    /// The nodes after the one that is replaced.
    pub open spec fn later_nodes(self, m: Model) -> Seq<Node> {
        Seq::new(
            (m.nodes.len() - self.node - 1) as nat,
            |i: int|
                Node {
                    inputs: self.moved_all(m.nodes[self.node + 1 + i].inputs),
                    ..m.nodes[self.node + 1 + i]
                },
        )
    }

    /// The patched model: the operators of the patch in the place of the node,
    /// and what used its output now using what takes its place.
    pub open spec fn applied(self, m: Model) -> Model {
        Model {
            nodes: m.nodes.take(self.node) + self.wire_nodes(m) + self.later_nodes(m),
            outputs: self.moved_all(m.outputs),
        }
    }
}

/// The facts of the first operators are those of all the operators.
pub proof fn lemma_wire_facts(taps: Seq<Fact>, wires: Seq<WireView>, n: int)
    requires
        0 <= n <= wires.len(),
        wire_facts(taps, wires) is Some,
    ensures
        wire_facts(taps, wires)->0.len() == wires.len(),
        wire_facts(taps, wires.take(n)) == Some((wire_facts(taps, wires)->0).take(n)),
        n < wires.len() ==> has_refs(
            taps,
            (wire_facts(taps, wires)->0).take(n),
            wires[n].inputs,
        ) && wires[n].op.facts(
            ref_facts(taps, (wire_facts(taps, wires)->0).take(n), wires[n].inputs),
        ) == Some((wire_facts(taps, wires)->0)[n]),
    decreases wires.len(),
{
    let all = wire_facts(taps, wires)->0;
    if wires.len() == 0 {
        assert(wires.take(n) =~= wires);
        assert(all.take(n) =~= all);
    } else {
        let short = wires.drop_last();
        let before = wire_facts(taps, short)->0;
        if n < wires.len() {
            lemma_wire_facts(taps, short, if n < short.len() { n } else { short.len() as int });
            assert(short.take(n) =~= wires.take(n));
            assert(before.take(n) =~= all.take(n));
            if n == short.len() {
                assert(short.take(n) =~= short);
            } else {
                assert(short[n] == wires[n]);
                assert(before[n] == all[n]);
            }
        } else {
            lemma_wire_facts(taps, short, short.len() as int);
            assert(wires.take(n) =~= wires);
            assert(all.take(n) =~= all);
        }
    }
}

/// If the first operators do not suit, neither do all of them.
pub proof fn lemma_wire_fault(taps: Seq<Fact>, wires: Seq<WireView>, n: int)
    requires
        0 <= n <= wires.len(),
        wire_facts(taps, wires.take(n)) is None,
    ensures
        wire_facts(taps, wires) is None,
{
    if wire_facts(taps, wires) is Some {
        lemma_wire_facts(taps, wires, n);
    }
}

/// An outlet of the patched model has the fact of the outlet whose place it
/// takes.
pub proof fn lemma_moved(m: Model, p: Patch, o: Outlet, limit: int)
    requires
        m.wf(),
        p.aims_at(m),
        p.fault(m) is None,
        has_outlet(m.nodes, o, limit),
    ensures
        has_outlet(
            p.applied(m).nodes,
            p.moved(o),
            if limit <= p.node {
                limit
            } else {
                limit + p.wires.len() - 1
            },
        ),
        p.applied(m).nodes[p.moved(o).node].outputs[p.moved(o).slot]
            == m.nodes[o.node].outputs[o.slot],
{
    let nodes = p.applied(m).nodes;
    let taps = facts_of(m.nodes, p.taps);
    lemma_wire_facts(taps, p.wires, p.wires.len() as int);
    assert(nodes.len() == m.nodes.len() + p.wires.len() - 1);
    assert(forall|i: int| 0 <= i < p.node ==> nodes[i] == m.nodes[i]);
    if o.node == p.node {
        lemma_resolve(m, p, p.by, p.wires.len() as int);
    }
}

/// A reference resolves to an outlet of the patched model with its fact.
pub proof fn lemma_resolve(m: Model, p: Patch, r: Ref, n: int)
    requires
        p.aims_at(m),
        p.facts(m) is Some,
        0 <= n <= p.wires.len(),
        has_ref(facts_of(m.nodes, p.taps), (p.facts(m)->0).take(n), r),
    ensures
        has_outlet(p.applied(m).nodes, p.resolve(r), p.node + n),
        p.applied(m).nodes[p.resolve(r).node].outputs[p.resolve(r).slot] == ref_fact(
            facts_of(m.nodes, p.taps),
            p.facts(m)->0,
            r,
        ),
{
    let nodes = p.applied(m).nodes;
    let taps = facts_of(m.nodes, p.taps);
    lemma_wire_facts(taps, p.wires, p.wires.len() as int);
    match r {
        Ref::Tap(t) => {
            assert(has_outlet(m.nodes, p.taps[t as int], p.node));
            assert(nodes[p.taps[t as int].node] == m.nodes[p.taps[t as int].node]);
        },
        Ref::Wire(i, s) => {
            assert(nodes[p.node + i] == p.wire_nodes(m)[i as int]);
        },
    }
}

/// The patched model is well-formed.
pub proof fn lemma_applied(m: Model, p: Patch)
    requires
        m.wf(),
        p.aims_at(m),
        p.fault(m) is None,
    ensures
        p.applied(m).wf(),
{
    let a = p.applied(m);
    let taps = facts_of(m.nodes, p.taps);
    let facts = p.facts(m)->0;
    let w = p.wires.len() as int;
    lemma_wire_facts(taps, p.wires, w);
    assert forall|i: int| 0 <= i < a.nodes.len() implies #[trigger] node_wf(a.nodes, i) by {
        if i < p.node {
            assert(a.nodes[i] == m.nodes[i]);
            assert(node_wf(m.nodes, i));
            let inputs = a.nodes[i].inputs;
            assert forall|j: int| 0 <= j < inputs.len() implies has_outlet(
                a.nodes,
                #[trigger] inputs[j],
                i,
            ) by {
                assert(has_outlet(m.nodes, inputs[j], i));
                assert(a.nodes[inputs[j].node] == m.nodes[inputs[j].node]);
            }
            assert(facts_of(a.nodes, inputs) =~= facts_of(m.nodes, inputs)) by {
                assert forall|j: int| 0 <= j < inputs.len() implies #[trigger] facts_of(
                    a.nodes,
                    inputs,
                )[j] == facts_of(m.nodes, inputs)[j] by {
                    assert(has_outlet(m.nodes, inputs[j], i));
                    assert(a.nodes[inputs[j].node] == m.nodes[inputs[j].node]);
                }
            }
        } else if i < p.node + w {
            let k = i - p.node;
            assert(a.nodes[i] == p.wire_nodes(m)[k]);
            lemma_wire_facts(taps, p.wires, k);
            let inputs = a.nodes[i].inputs;
            let refs = p.wires[k].inputs;
            assert forall|j: int| 0 <= j < inputs.len() implies has_outlet(
                a.nodes,
                #[trigger] inputs[j],
                i,
            ) && facts_of(a.nodes, inputs)[j] == ref_facts(taps, facts.take(k), refs)[j] by {
                assert(inputs[j] == p.resolve(refs[j]));
                assert(has_ref(taps, facts.take(k), refs[j]));
                lemma_resolve(m, p, refs[j], k);
            }
            assert(facts_of(a.nodes, inputs) =~= ref_facts(taps, facts.take(k), refs)) by {
                assert forall|j: int| 0 <= j < inputs.len() implies #[trigger] facts_of(
                    a.nodes,
                    inputs,
                )[j] == ref_facts(taps, facts.take(k), refs)[j] by {
                    let input = inputs[j];
                }
            }
            assert(p.wires[k].op.wf() && !(p.wires[k].op is Source));
        } else {
            let k = i - w + 1;
            assert(a.nodes[i] == p.later_nodes(m)[k - p.node - 1]);
            assert(node_wf(m.nodes, k));
            let inputs = a.nodes[i].inputs;
            let old_inputs = m.nodes[k].inputs;
            assert forall|j: int| 0 <= j < inputs.len() implies has_outlet(
                a.nodes,
                #[trigger] inputs[j],
                i,
            ) && facts_of(a.nodes, inputs)[j] == facts_of(m.nodes, old_inputs)[j] by {
                assert(inputs[j] == p.moved(old_inputs[j]));
                assert(has_outlet(m.nodes, old_inputs[j], k));
                lemma_moved(m, p, old_inputs[j], k);
            }
            assert(facts_of(a.nodes, inputs) =~= facts_of(m.nodes, old_inputs)) by {
                assert forall|j: int| 0 <= j < inputs.len() implies #[trigger] facts_of(
                    a.nodes,
                    inputs,
                )[j] == facts_of(m.nodes, old_inputs)[j] by {
                    let input = inputs[j];
                }
            }
        }
    }
    assert forall|j: int| 0 <= j < a.outputs.len() implies has_outlet(
        a.nodes,
        #[trigger] a.outputs[j],
        a.nodes.len() as int,
    ) by {
        assert(a.outputs[j] == p.moved(m.outputs[j]));
        assert(has_outlet(m.nodes, m.outputs[j], m.nodes.len() as int));
        lemma_moved(m, p, m.outputs[j], m.nodes.len() as int);
    }
}

/// The models of the facts of operators.
pub open spec fn fact_rows(facts: Seq<Vec<TypedFact>>) -> Seq<Seq<Fact>> {
    Seq::new(facts.len(), |i: int| facts_view(facts[i]@))
}

/// The model of the patch with these parts.
pub open spec fn patch_of(
    context: Seq<char>,
    taps: Seq<OutletId>,
    wires: Seq<Wire>,
    node: usize,
    by: Ref,
) -> Patch {
    Patch {
        context,
        taps: outlets_view(taps),
        wires: wires_view(wires),
        node: node as int,
        by,
    }
}

/// Whether a result is the patch `want` of the model, or its fault.
pub open spec fn checks(r: Result<TypedModelPatch, Error>, m: Model, want: Patch) -> bool {
    match r {
        Ok(p) => want.fault(m) is None && p@ == want && p.wf(m),
        Err(e) => want.fault(m) == Some(e),
    }
}

impl TypedModelPatch {
    /// Whether the patch is a faultless patch of the model.
    pub open spec fn wf(&self, m: Model) -> bool {
        &&& self@.aims_at(m)
        &&& self@.fault(m) is None
        &&& self@.facts(m) == Some(fact_rows(self.facts@))
    }

    /// A patch that puts operators in the place of a node, unless it has a
    /// fault.
    pub fn new(
        context: String,
        model: &TypedModel,
        node: usize,
        taps: Vec<OutletId>,
        wires: Vec<Wire>,
        by: Ref,
    ) -> (r: Result<TypedModelPatch, Error>)
        requires
            model.wf(),
            patch_of(context@, taps@, wires@, node, by).aims_at(model@),
        ensures
            checks(r, model@, patch_of(context@, taps@, wires@, node, by)),
    {
        let ghost patch = patch_of(context@, taps@, wires@, node, by);
        let ghost tap_facts = facts_of(model@.nodes, patch.taps);
        let tapped = match model.outlet_facts(&taps) {
            Ok(facts) => facts,
            Err(e) => {
                assert(has_outlets(model@.nodes, patch.taps, model@.nodes.len() as int)) by {
                    assert forall|i: int| 0 <= i < patch.taps.len() implies has_outlet(
                        model@.nodes,
                        #[trigger] patch.taps[i],
                        model@.nodes.len() as int,
                    ) by {
                        assert(has_outlet(model@.nodes, patch.taps[i], patch.node));
                    }
                }
                return Err(e);
            },
        };
        let mut facts: Vec<Vec<TypedFact>> = Vec::new();
        assert(fact_rows(facts@) =~= Seq::empty());
        assert(patch.wires.take(0) =~= Seq::empty());
        for i in 0..wires.len()
            invariant
                patch.aims_at(model@),
                patch == patch_of(context@, taps@, wires@, node, by),
                tap_facts == facts_of(model@.nodes, patch.taps),
                fact_refs(tapped@) == tap_facts,
                facts@.len() == i,
                wire_facts(tap_facts, patch.wires.take(i as int)) == Some(fact_rows(facts@)),
        {
            let ghost rows = fact_rows(facts@);
            let wire = &wires[i];
            assert(wire@ == patch.wires[i as int]);
            assert(patch.wires[i as int].op.wf());
            proof {
                assert(patch.wires.take(i + 1).drop_last() =~= patch.wires.take(i as int));
                assert(patch.wires.take(i + 1).last() == wire@);
            }
            let inputs = match find_facts(&tapped, &facts, &wire.inputs) {
                Some(inputs) => inputs,
                None => {
                    proof {
                        lemma_wire_fault(tap_facts, patch.wires, i + 1);
                    }
                    return Err(Error::BadFacts);
                },
            };
            match wire.op.output_facts(&inputs) {
                Ok(outputs) => {
                    facts.push(outputs);
                    assert(fact_rows(facts@) =~= rows.push(facts_view(outputs@)));
                },
                Err(e) => {
                    proof {
                        lemma_wire_fault(tap_facts, patch.wires, i + 1);
                    }
                    return Err(e);
                },
            }
        }
        assert(patch.wires.take(wires@.len() as int) =~= patch.wires);
        let fits = match find_fact(&tapped, &facts, by) {
            Some(fact) => same_fact(fact, &model.nodes[node].outputs[0]),
            None => false,
        };
        if !fits {
            return Err(Error::FactMismatch);
        }
        Ok(TypedModelPatch { context, taps, wires, facts, node, by })
    }
}

/// The fact of what a reference is to.
fn find_fact<'a>(taps: &Vec<&'a TypedFact>, facts: &'a Vec<Vec<TypedFact>>, r: Ref) -> (f: Option<
    &'a TypedFact,
>)
    ensures
        f is Some <==> has_ref(fact_refs(taps@), fact_rows(facts@), r),
        f matches Some(fact) ==> fact@ == ref_fact(fact_refs(taps@), fact_rows(facts@), r),
{
    match r {
        Ref::Tap(t) => if t < taps.len() {
            Some(taps[t])
        } else {
            None
        },
        Ref::Wire(i, s) => if i < facts.len() && s < facts[i].len() {
            Some(&facts[i][s])
        } else {
            None
        },
    }
}

/// The facts of what references are to.
fn find_facts<'a>(
    taps: &Vec<&'a TypedFact>,
    facts: &'a Vec<Vec<TypedFact>>,
    refs: &Vec<Ref>,
) -> (f: Option<Vec<&'a TypedFact>>)
    ensures
        f is Some <==> has_refs(fact_refs(taps@), fact_rows(facts@), refs@),
        f matches Some(found) ==> fact_refs(found@) == ref_facts(
            fact_refs(taps@),
            fact_rows(facts@),
            refs@,
        ),
{
    let mut found: Vec<&'a TypedFact> = Vec::new();
    for i in 0..refs.len()
        invariant
            found@.len() == i,
            forall|j: int|
                0 <= j < i ==> has_ref(fact_refs(taps@), fact_rows(facts@), #[trigger] refs@[j]),
            forall|j: int|
                0 <= j < i ==> (#[trigger] found@[j])@ == ref_fact(
                    fact_refs(taps@),
                    fact_rows(facts@),
                    refs@[j],
                ),
    {
        match find_fact(taps, facts, refs[i]) {
            Some(fact) => {
                found.push(fact);
            },
            None => {
                return None;
            },
        }
    }
    assert(fact_refs(found@) =~= ref_facts(fact_refs(taps@), fact_rows(facts@), refs@));
    Some(found)
}

impl TypedModelPatch {
    /// The outlet that a reference is to, when the first operators have got
    /// their nodes.
    fn find_outlet(&self, r: Ref, ids: &Vec<usize>) -> (o: OutletId)
        requires
            match r {
                Ref::Tap(t) => t < self.taps@.len(),
                Ref::Wire(i, _) => i < ids@.len(),
            },
            forall|i: int| 0 <= i < ids@.len() ==> #[trigger] ids@[i] == self.node + i,
        ensures
            o@ == self@.resolve(r),
    {
        match r {
            Ref::Tap(t) => self.taps[t],
            Ref::Wire(i, s) => OutletId { node: ids[i], slot: s },
        }
    }

    /// What takes the place of outlets.
    fn move_outlets(&self, outlets: &Vec<OutletId>, ids: &Vec<usize>, by: OutletId) -> (r: Vec<
        OutletId,
    >)
        requires
            by@ == self@.resolve(self.by),
            forall|i: int| 0 <= i < outlets@.len() ==> (#[trigger] outlets@[i]).node < ids@.len(),
            forall|i: int|
                0 <= i < ids@.len() && i != self.node ==> #[trigger] ids@[i] == if i < self.node {
                    i
                } else {
                    i + self.wires@.len() - 1
                },
        ensures
            outlets_view(r@) == self@.moved_all(outlets_view(outlets@)),
    {
        let mut moved: Vec<OutletId> = Vec::new();
        for i in 0..outlets.len()
            invariant
                by@ == self@.resolve(self.by),
                forall|i: int|
                    0 <= i < outlets@.len() ==> (#[trigger] outlets@[i]).node < ids@.len(),
                forall|i: int|
                    0 <= i < ids@.len() && i != self.node ==> #[trigger] ids@[i] == if i
                        < self.node {
                        i
                    } else {
                        i + self.wires@.len() - 1
                    },
                moved@.len() == i,
                forall|j: int|
                    0 <= j < i ==> (#[trigger] moved@[j])@ == self@.moved(outlets@[j]@),
        {
            let o = outlets[i];
            moved.push(
                if o.node == self.node {
                    by
                } else {
                    OutletId { node: ids[o.node], slot: o.slot }
                },
            );
        }
        assert(outlets_view(moved@) =~= self@.moved_all(outlets_view(outlets@)));
        moved
    }
}

impl TypedModelPatch {
    /// The outlets that references of an operator are to.
    fn find_outlets(&self, refs: &Vec<Ref>, ids: &Vec<usize>) -> (r: Vec<OutletId>)
        requires
            forall|j: int|
                0 <= j < refs@.len() ==> match #[trigger] refs@[j] {
                    Ref::Tap(t) => t < self.taps@.len(),
                    Ref::Wire(i, _) => i < ids@.len(),
                },
            forall|i: int| 0 <= i < ids@.len() ==> #[trigger] ids@[i] == self.node + i,
        ensures
            outlets_view(r@) == Seq::new(refs@.len(), |j: int| self@.resolve(refs@[j])),
    {
        let mut outlets: Vec<OutletId> = Vec::new();
        for j in 0..refs.len()
            invariant
                forall|j: int|
                    0 <= j < refs@.len() ==> match #[trigger] refs@[j] {
                        Ref::Tap(t) => t < self.taps@.len(),
                        Ref::Wire(i, _) => i < ids@.len(),
                    },
                forall|i: int| 0 <= i < ids@.len() ==> #[trigger] ids@[i] == self.node + i,
                outlets@.len() == j,
                forall|k: int|
                    0 <= k < j ==> (#[trigger] outlets@[k])@ == self@.resolve(refs@[k]),
        {
            let r = refs[j];
            let o = self.find_outlet(r, ids);
            outlets.push(o);
        }
        assert(outlets_view(outlets@) =~= Seq::new(
            refs@.len(),
            |j: int| self@.resolve(refs@[j]),
        ));
        outlets
    }

    /// Adds the nodes of the operators of the patch, and gives their numbers.
    fn wire_up(&self, nodes: &mut Vec<TypedNode>, Ghost(m): Ghost<Model>) -> (ids: Vec<usize>)
        requires
            self.wf(m),
            old(nodes)@.len() == self.node,
        ensures
            final(nodes)@.len() == self.node + self.wires@.len(),
            nodes_view(final(nodes)@) == nodes_view(old(nodes)@) + self@.wire_nodes(m),
            forall|i: int|
                0 <= i < final(nodes)@.len() ==> (#[trigger] final(nodes)@[i]).id == if i
                    < self.node {
                    old(nodes)@[i].id as int
                } else {
                    i
                },
            ids@.len() == self.wires@.len(),
            forall|i: int| 0 <= i < ids@.len() ==> #[trigger] ids@[i] == self.node + i,
    {
        let ghost p = self@;
        let ghost taps = facts_of(m.nodes, p.taps);
        let ghost start = nodes@;
        let ghost made = p.wire_nodes(m);
        let mut ids: Vec<usize> = Vec::new();
        proof {
            lemma_wire_facts(taps, p.wires, p.wires.len() as int);
        }
        assert(nodes_view(nodes@) =~= nodes_view(start) + made.take(0));
        for i in 0..self.wires.len()
            invariant
                self.wf(m),
                p == self@,
                taps == facts_of(m.nodes, p.taps),
                made == p.wire_nodes(m),
                self.facts@.len() == self.wires@.len(),
                start.len() == self.node,
                nodes@.len() == self.node + i,
                nodes_view(nodes@) == nodes_view(start) + made.take(i as int),
                forall|j: int|
                    0 <= j < nodes@.len() ==> (#[trigger] nodes@[j]).id == if j < self.node {
                        start[j].id as int
                    } else {
                        j
                    },
                ids@.len() == i,
                forall|j: int| 0 <= j < i ==> #[trigger] ids@[j] == self.node + j,
        {
            let ghost before = nodes@;
            let wire = &self.wires[i];
            assert(wire@ == p.wires[i as int]);
            proof {
                lemma_wire_facts(taps, p.wires, i as int);
                let facts = (p.facts(m)->0).take(i as int);
                assert forall|j: int| 0 <= j < wire.inputs@.len() implies match #[trigger] wire.inputs@[j] {
                    Ref::Tap(t) => t < self.taps@.len(),
                    Ref::Wire(k, _) => k < ids@.len(),
                } by {
                    assert(has_ref(taps, facts, p.wires[i as int].inputs[j]));
                }
            }
            let id = nodes.len();
            let node = TypedNode {
                id,
                name: wire.name.clone(),
                inputs: self.find_outlets(&wire.inputs, &ids),
                op: wire.op.clone(),
                outputs: copy_facts(&self.facts[i]),
            };
            assert(node@ == made[i as int]);
            nodes.push(node);
            ids.push(id);
            assert(nodes_view(nodes@) =~= nodes_view(before).push(node@));
            assert(nodes_view(nodes@) =~= nodes_view(start) + made.take(i + 1));
        }
        assert(made.take(self.wires@.len() as int) =~= made);
        ids
    }

    /// Makes the nodes from `base` on, which come from after the node that is
    /// replaced, take their inputs from what takes the place of these.
    fn rewire(&self, nodes: &mut Vec<TypedNode>, base: usize, ids: &Vec<usize>, by: OutletId)
        requires
            base <= old(nodes)@.len(),
            by@ == self@.resolve(self.by),
            forall|i: int, j: int|
                base <= i < old(nodes)@.len() && 0 <= j < old(nodes)@[i].inputs@.len() ==> (
                #[trigger] old(nodes)@[i].inputs@[j]).node < ids@.len(),
            forall|i: int|
                0 <= i < ids@.len() && i != self.node ==> #[trigger] ids@[i] == if i < self.node {
                    i
                } else {
                    i + self.wires@.len() - 1
                },
        ensures
            final(nodes)@.len() == old(nodes)@.len(),
            forall|i: int| 0 <= i < base ==> #[trigger] final(nodes)@[i] == old(nodes)@[i],
            forall|i: int|
                base <= i < final(nodes)@.len() ==> (#[trigger] final(nodes)@[i])@ == (Node {
                    inputs: self@.moved_all(old(nodes)@[i]@.inputs),
                    ..old(nodes)@[i]@
                }) && final(nodes)@[i].id == i,
    {
        let ghost start = nodes@;
        let n = nodes.len();
        for i in base..n
            invariant
                n == start.len(),
                nodes@.len() == n,
                by@ == self@.resolve(self.by),
                forall|i: int, j: int|
                    base <= i < start.len() && 0 <= j < start[i].inputs@.len() ==> (
                    #[trigger] start[i].inputs@[j]).node < ids@.len(),
                forall|i: int|
                    0 <= i < ids@.len() && i != self.node ==> #[trigger] ids@[i] == if i
                        < self.node {
                        i
                    } else {
                        i + self.wires@.len() - 1
                    },
                forall|j: int| 0 <= j < base ==> #[trigger] nodes@[j] == start[j],
                forall|j: int| i <= j < n ==> #[trigger] nodes@[j] == start[j],
                forall|j: int|
                    base <= j < i ==> (#[trigger] nodes@[j])@ == (Node {
                        inputs: self@.moved_all(start[j]@.inputs),
                        ..start[j]@
                    }) && nodes@[j].id == j,
        {
            assert(nodes@[i as int] == start[i as int]);
            let inputs = self.move_outlets(&nodes[i].inputs, ids, by);
            nodes[i].inputs = inputs;
            nodes[i].id = i;
        }
    }

    /// Puts the operators of the patch in the place of the node.
    pub fn apply(self, model: &mut TypedModel)
        requires
            old(model).wf(),
            self.wf(old(model)@),
        ensures
            final(model).wf(),
            final(model)@ == self@.applied(old(model)@),
    {
        let ghost m = model@;
        let ghost p = self@;
        let ghost taps = facts_of(m.nodes, p.taps);
        let ghost start = model.nodes@;
        let r = self.node;
        proof {
            lemma_wire_facts(taps, p.wires, p.wires.len() as int);
            lemma_applied(m, p);
            assert((p.facts(m)->0).take(p.wires.len() as int) =~= p.facts(m)->0);
        }
        assert(r < model.nodes.len());
        let mut later = model.nodes.split_off(r + 1);
        model.nodes.pop();
        let ghost head = model.nodes@;
        let ids = self.wire_up(&mut model.nodes, Ghost(m));
        let by = self.find_outlet(self.by, &ids);
        let base = model.nodes.len();
        let ghost middle = model.nodes@;
        model.nodes.append(&mut later);
        let ghost joined = model.nodes@;
        let mut all: Vec<usize> = Vec::new();
        for i in 0..r + 1
            invariant
                all@.len() == i,
                forall|j: int| 0 <= j < i ==> #[trigger] all@[j] == j,
                r < usize::MAX,
        {
            all.push(i);
        }
        for i in base..model.nodes.len()
            invariant
                base == r + self.wires@.len(),
                r == self.node,
                base <= joined.len(),
                model.nodes@ == joined,
                all@.len() == r + 1 + (i - base),
                forall|j: int|
                    0 <= j < all@.len() && j != r ==> #[trigger] all@[j] == if j < r {
                        j
                    } else {
                        j + self.wires@.len() - 1
                    },
        {
            all.push(i);
        }
        proof {
            assert(all@.len() == m.nodes.len());
            assert forall|i: int, j: int|
                base <= i < joined.len() && 0 <= j < joined[i].inputs@.len() implies (
            #[trigger] joined[i].inputs@[j]).node < all@.len() by {
                let k = i - base + r + 1;
                assert(joined[i] == start[k]);
                assert(node_wf(m.nodes, k));
                assert(has_outlet(m.nodes, m.nodes[k].inputs[j], k));
            }
            assert forall|j: int| 0 <= j < model.outputs@.len() implies (
            #[trigger] model.outputs@[j]).node < all@.len() by {
                assert(has_outlet(m.nodes, m.outputs[j], m.nodes.len() as int));
            }
        }
        self.rewire(&mut model.nodes, base, &all, by);
        model.outputs = self.move_outlets(&model.outputs, &all, by);
        proof {
            let a = p.applied(m);
            let nodes = nodes_view(model.nodes@);
            assert(nodes.len() == a.nodes.len());
            assert forall|i: int| 0 <= i < nodes.len() implies #[trigger] nodes[i] == a.nodes[i] by {
                if i < r {
                    assert(model.nodes@[i] == joined[i]);
                    assert(nodes_view(middle)[i] == nodes_view(head)[i]);
                    assert(head[i] == start[i]);
                } else if i < base {
                    assert(model.nodes@[i] == joined[i]);
                    assert(nodes_view(middle)[i] == p.wire_nodes(m)[i - r]);
                } else {
                    let k = i - base + r + 1;
                    assert(joined[i] == start[k]);
                    assert(a.nodes[i] == p.later_nodes(m)[i - base]);
                }
            }
            assert(nodes =~= a.nodes);
            assert forall|i: int| 0 <= i < model.nodes@.len() implies (
            #[trigger] model.nodes@[i]).id == i by {
                if i < base {
                    assert(model.nodes@[i] == joined[i]);
                    assert(joined[i] == middle[i]);
                    if i < r {
                        assert(head[i] == start[i]);
                    }
                }
            }
        }
    }
}

} // verus!
