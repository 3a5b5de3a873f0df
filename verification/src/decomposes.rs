//! How the decomposition of einsums goes on, step by step, and which matrix products it
//! puts in their places.

use vstd::prelude::*;

use crate::as_matmul::{
    additions, decomposed, decomposition, einsum_alone, ends_in_product, has_roles, is_einsum,
    lemma_next_einsum, lemma_stays_einsum, next_einsum, normalized, product_for, product_patch,
    replaced, replacement, source_nodes,
};
use crate::compact::{lemma_compacted, lemma_origin, lemma_placed_node, lemma_still_needed, needed};
use crate::error::Error;
use crate::labels::Expr;
use crate::matmul::BasicMatMul;
use crate::model::{Model, Node, Outlet, facts_of, has_outlet, node_wf};
use crate::names::decimal;
use crate::ops::{EinSumView, Fact, OpView, SimpleOp};
use crate::optimize::{Step, mkn_step};
use crate::patch::{Patch, WireView, lemma_applied, lemma_wire_facts, ref_facts};
use crate::progress::{has_distinct, lemma_enough_additions};
use crate::search::{leads, lemma_chosen, lemma_leads, lemma_node_fits};
use crate::vectors::lemma_wire_push;

verus! {

/// Whether a node is the first einsum of a model.
pub open spec fn is_first(m: Model, id: int) -> bool {
    &&& 0 <= id < m.nodes.len()
    &&& m.nodes[id].op is EinSum
    &&& forall|i: int| 0 <= i < id ==> !((#[trigger] m.nodes[i]).op is EinSum)
}

proof fn lemma_first(m: Model, id: int)
    requires
        is_first(m, id),
    ensures
        next_einsum(m, 0) == Some(id),
{
    lemma_next_einsum(m, 0);
    assert(is_einsum(m.nodes[id]));
    let i = next_einsum(m, 0)->0;
    if i < id {
        assert(is_einsum(m.nodes[i]));
    }
}

/// More additions than enough come to the same.
proof fn lemma_more_fuel(m: Model, fuel: nat)
    requires
        normalized(m, fuel).1 != Err::<(char, char, char), Error>(Error::NoProgress),
    ensures
        normalized(m, fuel + 1) == normalized(m, fuel),
    decreases fuel,
{
    let id = next_einsum(m, 0)->0;
    match mkn_step(m.nodes[id].op->EinSum_0, m, id) {
        Ok(Step::Patch(p)) => {
            if fuel > 0 {
                lemma_more_fuel(p.applied(m).compacted(), (fuel - 1) as nat);
            }
        },
        _ => {},
    }
}

/// Where an axis is added to the first einsum of a model, its decomposition is that of the
/// model with the axis, without what no output needs any more.
pub proof fn lemma_decomposed_after(m: Model, id: int, p: Patch)
    requires
        m.wf(),
        is_first(m, id),
        needed(m, id),
        forall|q: int| 0 <= q < m.nodes.len() && is_einsum(#[trigger] m.nodes[q]) ==> has_distinct(
            m,
            q,
        ),
        mkn_step(m.nodes[id].op->EinSum_0, m, id) == Ok::<Step, Error>(Step::Patch(p)),
    ensures
        decomposed(m) == decomposed(p.applied(m).compacted()),
{
    lemma_first(m, id);
    lemma_stays_einsum(m, id);
    lemma_enough_additions(m);
    let c = p.applied(m).compacted();
    assert(additions() == 4);
    assert(normalized(m, 4) == normalized(c, 3));
    lemma_more_fuel(c, 3);
}

/// Where the first einsum of a model cannot be a matrix product, the decomposition fails,
/// and leaves the model as it is.
pub proof fn lemma_decomposed_refused(m: Model, id: int)
    requires
        m.wf(),
        is_first(m, id),
    ensures
        mkn_step(m.nodes[id].op->EinSum_0, m, id) matches Err(err) ==> decomposed(m) == (
            m,
            Err::<(), Error>(err),
        ),
        mkn_step(m.nodes[id].op->EinSum_0, m, id) matches Ok(Step::NotAMatMul(_)) ==> decomposed(m)
            == (m, Err::<(), Error>(Error::NotAMatMul)),
{
    lemma_first(m, id);
}

/// Whether labels end in two, or, transposed, in these exchanged.
pub open spec fn ends_in(labels: Seq<char>, transposed: bool, x: char, y: char) -> bool {
    let n = labels.len();
    &&& n >= 2
    &&& labels[n - 2] == if transposed {
        y
    } else {
        x
    }
    &&& labels[n - 1] == if transposed {
        x
    } else {
        y
    }
}

/// Whether the inputs and the output end in the axes of a matrix product over `k`, as it
/// transposes them.
pub open spec fn ends_as(e: Expr, k: char, x: char, y: char, b: BasicMatMul) -> bool {
    &&& ends_in(e.inputs[0], b.transpose_a, x, k)
    &&& ends_in(e.inputs[1], b.transpose_b, k, y)
    &&& ends_in(e.outputs[0], b.transpose_c, x, y)
}

/// Whether a matrix product transposes as the axes of the rows, the sums and the columns
/// come, each counted from the first.
pub open spec fn comes_as(e: Expr, rows: char, k: char, columns: char, b: BasicMatMul) -> bool {
    &&& forall|i: int, j: int| #[trigger]
        leads(e.inputs[0], i, rows) && #[trigger] leads(e.inputs[0], j, k) ==> b.transpose_a == (i
            > j)
    &&& forall|i: int, j: int| #[trigger]
        leads(e.inputs[1], i, k) && #[trigger] leads(e.inputs[1], j, columns) ==> b.transpose_b == (
        i > j)
    &&& forall|i: int, j: int| #[trigger]
        leads(e.outputs[0], i, rows) && #[trigger] leads(e.outputs[0], j, columns)
            ==> b.transpose_c == (i > j)
}

/// Whether a matrix product is the one for an einsum over the labels: where the inputs and
/// the output end in the axes of one over `k`, it transposes as these come; and otherwise
/// as the rows, the sums and the columns do.
pub open spec fn is_product_of(
    e: Expr,
    rows: char,
    k: char,
    columns: char,
    b: BasicMatMul,
) -> bool {
    if exists|x: char, y: char, c: BasicMatMul| #[trigger] ends_as(e, k, x, y, c) {
        exists|x: char, y: char| #[trigger] ends_as(e, k, x, y, b)
    } else {
        comes_as(e, rows, k, columns, b)
    }
}

/// Whether a patch puts a matrix product in the place of an einsum, and nothing else.
pub open spec fn puts_product(m: Model, id: int, p: Patch, b: BasicMatMul) -> bool {
    let node = m.nodes[id];
    let made = p.applied(m);
    &&& made.nodes.len() == m.nodes.len()
    &&& p.resolve(p.by) == Outlet { node: id, slot: 0 }
    &&& made.nodes[id].name == node.name
    &&& made.nodes[id].inputs == node.inputs
    &&& made.nodes[id].outputs == node.outputs
    &&& made.nodes[id].op == OpView::Simple(SimpleOp::BasicMatMul(b))
}

/// The product that is found for an einsum whose slots have no label twice.
proof fn lemma_product_of(e: Expr, rows: char, k: char, columns: char)
    requires
        e.inputs.len() == 2,
        e.outputs.len() == 1,
        e.inputs[0].no_duplicates(),
        e.inputs[1].no_duplicates(),
        e.outputs[0].no_duplicates(),
    ensures
        is_product_of(e, rows, k, columns, product_for(e, rows, k, columns)),
{
    let b = product_for(e, rows, k, columns);
    let (s, t, u) = (e.inputs[0], e.inputs[1], e.outputs[0]);
    if ends_in_product(e, k) {
        let x = if s[s.len() - 2] == k {
            s[s.len() - 1]
        } else {
            s[s.len() - 2]
        };
        let y = if t[t.len() - 1] == k {
            t[t.len() - 2]
        } else {
            t[t.len() - 1]
        };
        assert(s[s.len() - 2] != s[s.len() - 1]);
        assert(t[t.len() - 2] != t[t.len() - 1]);
        assert(u[u.len() - 2] != u[u.len() - 1]);
        assert(ends_as(e, k, x, y, b));
    } else {
        if exists|x: char, y: char, c: BasicMatMul| #[trigger] ends_as(e, k, x, y, c) {
            let (x, y, c) = choose|x: char, y: char, c: BasicMatMul| #[trigger]
                ends_as(e, k, x, y, c);
            assert(s[s.len() - 2] != s[s.len() - 1]);
            assert(t[t.len() - 2] != t[t.len() - 1]);
            assert(u[u.len() - 2] != u[u.len() - 1]);
            assert(ends_in_product(e, k));
        }
        lemma_leads(s, rows);
        lemma_leads(s, k);
        lemma_leads(t, k);
        lemma_leads(t, columns);
        lemma_leads(u, rows);
        lemma_leads(u, columns);
    }
}

/// Where the rows, the sums and the columns of the only einsum of a model are found, the
/// decomposition puts the matrix product for them in its place. It fails, and leaves the
/// model as it is, if the inputs and the output have different ranks; or if the product
/// would give something else.
pub proof fn lemma_decomposed_found(m: Model, id: int, rows: char, k: char, columns: char)
    requires
        m.wf(),
        is_first(m, id),
        forall|i: int| id < i < m.nodes.len() ==> !((#[trigger] m.nodes[i]).op is EinSum),
        has_distinct(m, id),
        mkn_step(m.nodes[id].op->EinSum_0, m, id) == Ok::<Step, Error>(
            Step::Annotated(rows, k, columns),
        ),
    ensures
        ({
            let node = m.nodes[id];
            let e = (node.op->EinSum_0).axes;
            let facts = facts_of(m.nodes, node.inputs);
            let n = e.inputs[0].len();
            if n != e.inputs[1].len() || n != e.outputs[0].len() {
                decomposed(m) == (m, Err::<(), Error>(Error::RankMismatch))
            } else {
                exists|b: BasicMatMul| #[trigger]
                    is_product_of(e, rows, k, columns, b) && match decomposed(m) {
                        (c, Ok(_)) => exists|p: Patch| #[trigger]
                            puts_product(m, id, p, b) && c == p.applied(m).compacted(),
                        (c, Err(err)) => c == m && (err == Error::BadFacts || err
                            == Error::FactMismatch) && SimpleOp::BasicMatMul(b).facts(facts)
                            != Some(node.outputs),
                    }
            }
        }),
{
    let node = m.nodes[id];
    let op = node.op->EinSum_0;
    let e = op.axes;
    let facts = facts_of(m.nodes, node.inputs);
    let b = product_for(e, rows, k, columns);
    let p = product_patch(b, node, id);
    lemma_first(m, id);
    assert(node_wf(m.nodes, id));
    lemma_node_fits(op, m, id);
    lemma_chosen(op, m, id, rows, k, columns);
    lemma_leads(e.inputs[0], rows);
    lemma_leads(e.inputs[0], k);
    lemma_leads(e.inputs[1], k);
    lemma_leads(e.inputs[1], columns);
    lemma_leads(e.outputs[0], rows);
    lemma_leads(e.outputs[0], columns);
    assert(has_roles(e, rows, k, columns));
    lemma_product_of(e, rows, k, columns);
    assert(normalized(m, additions()) == (m, Ok::<(char, char, char), Error>((rows, k, columns))));
    reveal_with_fuel(replaced, 2);
    if e.inputs[0].len() == e.inputs[1].len() && e.inputs[0].len() == e.outputs[0].len() {
        assert(replacement(m, id, rows, k, columns) == p.checked(m));
        let none = Seq::<WireView>::empty();
        let f0 = Seq::<Seq<Fact>>::empty();
        assert(ref_facts(facts, f0, p.wires[0].inputs) =~= facts);
        assert(none.push(p.wires[0]) =~= p.wires);
        if p.fault(m) is None {
            let a = p.applied(m);
            lemma_wire_facts(facts, p.wires, 0);
            assert(a.nodes[id] == p.wire_nodes(m)[0]);
            assert((p.facts(m)->0).take(0) =~= f0);
            assert(a.nodes[id].inputs =~= node.inputs);
            assert(a.nodes[id].outputs =~= node.outputs);
            assert(puts_product(m, id, p, b));
            assert(p.wires[0].op.wf());
            lemma_applied(m, p);
            lemma_compacted(a);
            let c = a.compacted();
            lemma_next_einsum(c, 0);
            if next_einsum(c, 0) is Some {
                let q = next_einsum(c, 0)->0;
                let i = lemma_origin(a, a.nodes.len() as int, q);
                lemma_placed_node(a, i);
                assert(is_einsum(a.nodes[i]));
                if i < id {
                    assert(a.nodes[i] == m.nodes[i]);
                } else if i > id {
                    assert(a.nodes[i] == p.later_nodes(m)[i - id - 1]);
                    assert(m.nodes[i].op is EinSum);
                }
            }
            assert(decomposed(m) == (c, Ok::<(), Error>(())));
        } else {
            if SimpleOp::BasicMatMul(b).facts(facts) == Some(node.outputs) {
                lemma_wire_push(facts, none, p.wires[0], f0, node.outputs);
            }
        }
    }
}

/// Of a model without the nodes that no output needs, every node is an input, or an output
/// needs it.
pub proof fn lemma_none_idle(m: Model, q: int)
    requires
        m.wf(),
        0 <= q < m.compacted().nodes.len(),
    ensures
        m.compacted().nodes[q].op is Source || needed(m.compacted(), q),
{
    lemma_compacted(m);
    let i = lemma_origin(m, m.nodes.len() as int, q);
    lemma_placed_node(m, i);
    if needed(m, i) {
        lemma_still_needed(m, i);
    }
}

/// Whether a model is that of an einsum alone, on inputs with the given facts: these are
/// numbered, and the output is that of the einsum.
pub open spec fn is_alone(alone: Model, op: EinSumView, name: Seq<char>, facts: Seq<Fact>) -> bool {
    let n = facts.len();
    let last = alone.nodes[n as int];
    &&& alone.nodes.len() == n + 1
    &&& forall|i: int|
        0 <= i < n ==> {
            &&& (#[trigger] alone.nodes[i]).op is Source
            &&& alone.nodes[i].name == "adhoc_source_"@ + decimal(i)
            &&& alone.nodes[i].outputs == seq![facts[i]]
        }
    &&& last.name == name
    &&& last.op == OpView::EinSum(op)
    &&& last.inputs == Seq::new(n, |i: int| Outlet { node: i, slot: 0 })
    &&& last.outputs == seq![op.output_fact(facts)]
    &&& alone.outputs == seq![Outlet { node: n as int, slot: 0 }]
}

/// The decomposition of an einsum is that of the model of it alone, on the facts of the
/// inputs of the node; unless the model does not have these, or they have not the ranks
/// that the einsum says.
pub proof fn lemma_decomposition_alone(op: EinSumView, m: Model, node: Node)
    ensures
        ({
            let facts = facts_of(m.nodes, node.inputs);
            let r = decomposition(op, m, node);
            if exists|i: int|
                0 <= i < node.inputs.len() && !has_outlet(
                    m.nodes,
                    #[trigger] node.inputs[i],
                    m.nodes.len() as int,
                ) {
                r == Err::<Model, Error>(Error::UnknownOutlet)
            } else if facts.len() != op.axes.inputs.len() || exists|i: int|
                0 <= i < facts.len() && (#[trigger] facts[i]).shape.len()
                    != op.axes.inputs[i].len() {
                r == Err::<Model, Error>(Error::BadFacts)
            } else {
                exists|alone: Model| #[trigger]
                    is_alone(alone, op, node.name, facts) && match decomposed(alone) {
                        (d, Ok(_)) => r == Ok::<Model, Error>(d),
                        (_, Err(err)) => r == Err::<Model, Error>(err),
                    }
            }
        }),
{
    let facts = facts_of(m.nodes, node.inputs);
    let alone = einsum_alone(op, node.name, facts);
    assert forall|i: int| 0 <= i < facts.len() implies (#[trigger] alone.nodes[i]).op is Source
        && alone.nodes[i].name == "adhoc_source_"@ + decimal(i) && alone.nodes[i].outputs == seq![
        facts[i],
    ] by {
        assert(alone.nodes[i] == source_nodes(facts)[i]);
    }
    assert(is_alone(alone, op, node.name, facts));
}

} // verus!
