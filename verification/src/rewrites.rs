//! What the rewrites of an einsum give it, and what they keep of the model.

use vstd::prelude::*;

use crate::as_matmul::{
    additions, decomposed, einsums, lemma_fewer, lemma_first_needed, lemma_next_einsum,
    lemma_stays_einsum, lemma_step_einsum, next_einsum, normalized, replaced, replacement,
    stays_einsum,
};
use crate::axes::InOut;
use crate::centered::offsets_given;
use crate::compact::{lemma_compacted, lemma_compacted_inputs};
use crate::dequant::lemma_dequant_aims;
use crate::error::Error;
use crate::labels::{lemma_absent, lemma_has, lemma_positions, positions};
use crate::model::{Model, facts_of, has_outlet, node_wf};
use crate::ops::{EinSumView, OpView, ranks_suit};
use crate::optimize::{
    Step, both_patch, gives_side, has_side, inject_k, inject_side, input_patch, input_shapes,
    is_quasi_side, lemma_quasi_side, mkn_step, optimization, output_patch, quasi_sides,
    sums_only_over, takes_kernel,
};
use crate::packed::{kernel_suits, lemma_kernel_step};
use crate::patch::{Patch, Ref, lemma_applied, lemma_resolve, lemma_wire_facts, ref_facts};
use crate::preserve::{
    adds_front, front_ref, inputs_of, is_sound, lemma_free_label, lemma_sound, lemma_step,
    lemma_step_aims, lemma_swapped,
};
use crate::product::front;
use crate::progress::{
    lemma_at_most_once, lemma_front_fact, lemma_front_slot, lemma_unused, shape_front,
};
use crate::quantized::{
    lemma_dequant_means_kept, lemma_requantizes, quantizing, requantizes, rescales, scales_given,
};
use crate::requantized::{calculates, dequant_suits, lemma_dequant_kept};
use crate::roles::{
    dim_in, is_k, is_side, is_void, k_label, k_labels, lemma_filtered, lemma_filtered_none, one,
    roles, side_labels, wide_k_labels,
};
use crate::run::{Run, inputs, keeps, keeps_form, lemma_kept_form};

verus! {

/// The einsum of the patch that adds sums, and the shapes of its first two inputs.
proof fn lemma_k_shapes(op: EinSumView, m: Model, id: int, p: Patch)
    requires
        m.wf(),
        0 <= id < m.nodes.len(),
        m.nodes[id].inputs.len() >= 2,
        op.wf(),
        inject_k(op, m, id) == Ok::<Patch, Error>(p),
        p.aims_at(m),
    ensures
        ({
            let e = op.axes;
            let c = e.free_label()->0;
            let a = p.applied(m);
            let f = (a.nodes[id + 2].op->EinSum_0).axes;
            let s = input_shapes(a, a.nodes[id + 2]);
            let shapes = input_shapes(m, m.nodes[id]);
            &&& a.nodes[id + 2].op is EinSum
            &&& f.inputs.len() == e.inputs.len()
            &&& f.inputs[0] == e.inputs[0].insert(0, c)
            &&& f.inputs[1] == e.inputs[1].insert(0, c)
            &&& f.outputs == e.outputs
            &&& s.len() >= 2
            &&& s[0] == shape_front(shapes[0], true)
            &&& s[1] == shape_front(shapes[1], true)
            &&& shapes[0].len() == e.inputs[0].len()
            &&& shapes[1].len() == e.inputs[1].len()
        }),
{
    let node = m.nodes[id];
    let a = p.applied(m);
    let taps = facts_of(m.nodes, p.taps);
    lemma_wire_facts(taps, p.wires, 2);
    lemma_front_fact(m, p, true, 0, 0);
    lemma_front_fact(m, p, true, 1, 1);
    let new = a.nodes[id + 2];
    assert(new == p.wire_nodes(m)[2]);
    let refs = p.wires[2].inputs;
    assert(refs[0] == Ref::Wire(0, 0) && refs[1] == Ref::Wire(1, 0));
    assert(new.inputs[0] == p.resolve(refs[0]) && new.inputs[1] == p.resolve(refs[1]));
    let now = facts_of(a.nodes, new.inputs);
    assert(now[0].shape == shape_front(taps[0].shape, true));
    assert(now[1].shape == shape_front(taps[1].shape, true));
    let facts = p.facts(m)->0;
    let given = ref_facts(taps, facts.take(2), refs);
    lemma_resolve(m, p, refs[0], 2);
    lemma_resolve(m, p, refs[1], 2);
    assert(given[0] == now[0] && given[1] == now[1]);
    let f = (new.op->EinSum_0).axes;
    assert(ranks_suit(f, given));
    assert(given[0].shape.len() == f.inputs[0].len());
    assert(given[1].shape.len() == f.inputs[1].len());
}

/// Where an einsum has no label that can be summed over, the new label of the patch
/// for the sums is the only one afterwards, with the dimension one.
pub proof fn lemma_only_sums(op: EinSumView, m: Model, id: int, p: Patch)
    requires
        m.wf(),
        0 <= id < m.nodes.len(),
        m.nodes[id].outputs.len() == 1,
        m.nodes[id].inputs.len() >= 2,
        op.wf(),
        k_labels(op.axes, input_shapes(m, m.nodes[id])).len() == 0,
        inject_k(op, m, id) == Ok::<Patch, Error>(p),
    ensures
        sums_only_over(p.applied(m), id + 2, op.axes.free_label()->0),
{
    let e = op.axes;
    let c = e.free_label()->0;
    let shapes = input_shapes(m, m.nodes[id]);
    assert(node_wf(m.nodes, id));
    assert(p.wires[2].op.wf());
    assert(p.aims_at(m));
    lemma_k_shapes(op, m, id, p);
    let a = p.applied(m);
    let f = (a.nodes[id + 2].op->EinSum_0).axes;
    let s = input_shapes(a, a.nodes[id + 2]);
    lemma_free_label(e);
    lemma_unused(e, c);
    assert forall|l: char| (#[trigger] is_k(f, s, l) <==> l == c) by {
        lemma_front_slot(e.inputs[0], shapes[0], c, true, l);
        lemma_front_slot(e.inputs[1], shapes[1], c, true, l);
        if l != c && is_k(f, s, l) {
            assert(is_k(e, shapes, l));
            lemma_has(e, l);
            lemma_positions(e.inputs[0], l);
            lemma_filtered_none(e.labels(), |d: char| is_k(e, shapes, d), l);
        }
    }
    lemma_front_slot(e.inputs[0], shapes[0], c, true, c);
}

/// An einsum with one label that can be summed over, of dimension one, sums over it;
/// the search for the axes of a matrix product neither adds sums again nor finds
/// too many.
pub proof fn lemma_sums_found(m: Model, id: int, c: char)
    requires
        sums_only_over(m, id, c),
        m.nodes[id].op is EinSum,
        (m.nodes[id].op->EinSum_0).wf(),
    ensures
        ({
            let e = (m.nodes[id].op->EinSum_0).axes;
            let shapes = input_shapes(m, m.nodes[id]);
            &&& k_labels(e, shapes).len() > 0
            &&& wide_k_labels(e, shapes).len() == 0
            &&& k_label(e, shapes) == c
            &&& !(roles(e, shapes) is NoK)
            &&& !(roles(e, shapes) is MultipleK)
        }),
{
    let e = (m.nodes[id].op->EinSum_0).axes;
    let shapes = input_shapes(m, m.nodes[id]);
    let pred = |d: char| is_k(e, shapes, d);
    let ks = k_labels(e, shapes);
    assert(is_k(e, shapes, c));
    lemma_has(e, c);
    lemma_positions(e.inputs[0], c);
    lemma_filtered_none(e.labels(), pred, c);
    lemma_filtered(e.labels(), pred, 0);
    assert(is_k(e, shapes, ks[0]));
    if wide_k_labels(e, shapes).len() > 0 {
        let wide = |d: char| dim_in(e, shapes, 0, d) != one();
        lemma_filtered(ks, wide, 0);
        let d = wide_k_labels(e, shapes)[0];
        let i = choose|i: int| 0 <= i < ks.len() && ks[i] == d;
        lemma_filtered(e.labels(), pred, i);
        assert(is_k(e, shapes, d));
    }
}

/// A label that has got what it lacked to be that of the rows, or of the columns, is
/// that.
proof fn lemma_side_given(
    op: EinSumView,
    m: Model,
    id: int,
    own: usize,
    p: Patch,
    c: char,
    j: usize,
    grows_input: bool,
    grows_output: bool,
)
    requires
        m.wf(),
        0 <= id < m.nodes.len(),
        own < 2,
        op.wf(),
        p.aims_at(m),
        p.fault(m) is None,
        p.node == id,
        p.taps == m.nodes[id].inputs,
        ranks_suit(op.axes, facts_of(m.nodes, m.nodes[id].inputs)),
        j < p.wires.len(),
        p.wires[j as int].op is EinSum,
        grows_input ==> j > 0 && adds_front(p.wires[0], own),
        ({
            let e = op.axes;
            let shapes = input_shapes(m, m.nodes[id]);
            let f = (p.wires[j as int].op->EinSum_0).axes;
            let refs = p.wires[j as int].inputs;
            &&& p.wires[j as int].op == OpView::EinSum(op.over(f))
            &&& f.inputs.len() == e.inputs.len()
            &&& f.outputs.len() == 1
            &&& f.inputs[own as int] == front(e.inputs[own as int], grows_input, c)
            &&& f.inputs[1 - own] == e.inputs[1 - own]
            &&& f.outputs[0] == front(e.outputs[0], grows_output, c)
            &&& refs.len() == p.taps.len()
            &&& refs[own as int] == front_ref(grows_input, 0, own)
            &&& refs[1 - own] == front_ref(false, 0, (1 - own) as usize)
            &&& is_void(e, shapes, 1 - own, c)
            &&& e.count_in(own as int, c) + (if grows_input {
                1nat
            } else {
                0
            }) == 1
            &&& e.count_out(0, c) + (if grows_output {
                1nat
            } else {
                0
            }) == 1
        }),
    ensures
        gives_side(op, m, p, own as int),
{
    let e = op.axes;
    let a = p.applied(m);
    let taps = facts_of(m.nodes, p.taps);
    let shapes = input_shapes(m, m.nodes[id]);
    let new = a.nodes[id + j];
    let f = (new.op->EinSum_0).axes;
    let s = input_shapes(a, new);
    lemma_wire_facts(taps, p.wires, p.wires.len() as int);
    assert(new == p.wire_nodes(m)[j as int]);
    let refs = p.wires[j as int].inputs;
    lemma_front_fact(m, p, grows_input, 0, own);
    lemma_front_fact(m, p, false, 0, (1 - own) as usize);
    assert(new.inputs[own as int] == p.resolve(refs[own as int]));
    assert(new.inputs[1 - own] == p.resolve(refs[1 - own]));
    assert(taps[own as int].shape.len() == e.inputs[own as int].len());
    assert(taps[1 - own].shape.len() == e.inputs[1 - own].len());
    assert(s[own as int] == shape_front(shapes[own as int], grows_input));
    assert(s[1 - own] == shapes[1 - own]);
    lemma_front_slot(e.inputs[own as int], shapes[own as int], c, grows_input, c);
    lemma_front_count(e.outputs[0], grows_output, c);
    assert(is_side(f, s, own as int, c));
    lemma_has(f, c);
    lemma_positions(f.inputs[own as int], c);
    assert(f.inputs[own as int].contains(c));
    lemma_filtered_none(f.labels(), |d: char| is_side(f, s, own as int, d), c);
    assert(has_side(op, a, id + j, own as int));
}

proof fn lemma_front_count(labels: Seq<char>, add: bool, c: char)
    ensures
        positions(front(labels, add, c), c).len() == positions(labels, c).len() + if add {
            1nat
        } else {
            0
        },
{
    let shape = Seq::new(labels.len(), |i: int| one());
    lemma_front_slot(labels, shape, c, add, c);
}

/// Where no input has a label twice, the patch for the rows, or for the columns, puts an
/// einsum in the place of the node that has them, whichever labels are excluded from
/// getting what they lack.
pub proof fn lemma_gives_side(
    op: EinSumView,
    m: Model,
    id: int,
    own: usize,
    exclude: Seq<char>,
    p: Patch,
)
    requires
        m.wf(),
        0 <= id < m.nodes.len(),
        m.nodes[id].outputs.len() == 1,
        own < 2,
        op.wf(),
        op.axes.inputs[0].no_duplicates(),
        op.axes.inputs[1].no_duplicates(),
        side_labels(op.axes, input_shapes(m, m.nodes[id]), own as int).len() == 0,
        inject_side(op, m, id, own, exclude) == Ok::<Patch, Error>(p),
        p.aims_at(m),
    ensures
        gives_side(op, m, p, own as int),
{
    let e = op.axes;
    let node = m.nodes[id];
    let shapes = input_shapes(m, node);
    let quasi = quasi_sides(e, shapes, own as int, exclude);
    assert(facts_of(m.nodes, node.inputs).len() == e.inputs.len());
    if quasi.len() == 0 {
        let c = e.free_label()->0;
        lemma_free_label(e);
        lemma_unused(e, c);
        let f = e.with(InOut::In(own), 0, c).with(InOut::Out(0), 0, c);
        assert(p == both_patch(op, node, id, own, c));
        assert(p.wires[1].op == OpView::EinSum(op.over(f)));
        assert(adds_front(p.wires[0], own));
        lemma_side_given(op, m, id, own, p, c, 1, true, true);
    } else {
        let c = quasi[0];
        let pred = |d: char| !exclude.contains(d) && is_quasi_side(e, shapes, own as int, d);
        lemma_filtered(e.labels(), pred, 0);
        lemma_quasi_side(e, shapes, own as int, exclude);
        lemma_at_most_once(e.inputs[own as int], c);
        if e.count_in(own as int, c) == 1 {
            let f = e.with(InOut::Out(0), 0, c);
            lemma_absent(e.outputs[0], c);
            assert(p == output_patch(op, node, id, c));
            assert(p.wires[0].op == OpView::EinSum(op.over(f)));
            lemma_side_given(op, m, id, own, p, c, 0, false, true);
        } else {
            let f = e.with(InOut::In(own), 0, c);
            assert(p == input_patch(op, node, id, own, c));
            assert(p.wires[1].op == OpView::EinSum(op.over(f)));
            assert(adds_front(p.wires[0], own));
            lemma_side_given(op, m, id, own, p, c, 1, true, false);
        }
    }
}

/// Every rewrite of an einsum, dequantization and the product by a kernel among
/// them, keeps the inputs of the model and the facts of its outputs.
pub proof fn lemma_optimization_form(
    m: Model,
    id: int,
    packers: (u64, u64),
    kernel: (u64, u64),
    p: Patch,
)
    requires
        m.wf(),
        0 <= id < m.nodes.len(),
        m.nodes[id].op is EinSum,
        optimization(m.nodes[id].op->EinSum_0, m, id, packers, kernel) == Ok::<
            Option<Patch>,
            Error,
        >(Some(p)),
    ensures
        keeps_form(m, p),
        p.node == id,
{
    let node = m.nodes[id];
    let op = node.op->EinSum_0;
    assert(node_wf(m.nodes, id));
    match mkn_step(op, m, id) {
        Ok(Step::Patch(q)) => {
            lemma_step_aims(m, id, q);
            reveal(mkn_step);
        },
        Ok(Step::Annotated(_, k, _)) => {
            if op.q_params is Some {
                lemma_dequant_aims(m, id, k, p);
            } else {
                assert(p.wires[0].op.wf());
                assert(has_outlet(m.nodes, node.inputs[0], id));
                assert(has_outlet(m.nodes, node.inputs[1], id));
            }
        },
        _ => {},
    }
    lemma_kept_form(m, p);
}

/// Whether the next rewrite of an einsum is its dequantization.
pub open spec fn takes_dequant(op: EinSumView, m: Model, id: int) -> bool {
    &&& op.q_params is Some
    &&& mkn_step(op, m, id) matches Ok(Step::Annotated(_, _, _))
}

/// The rewrites of an einsum keep what the model takes and computes: its inputs, and the
/// values and facts of its outputs. Adding an axis and exchanging the operands always
/// do; the product by a kernel, and dequantization, do where the kernel, and the
/// operators, suit the einsum.
pub proof fn lemma_optimization(
    run: Run,
    symbols: spec_fn(u64) -> int,
    m: Model,
    id: int,
    packers: (u64, u64),
    kernel: (u64, u64),
    p: Patch,
)
    requires
        m.wf(),
        is_sound(run, symbols, m, id),
        optimization(m.nodes[id].op->EinSum_0, m, id, packers, kernel) == Ok::<
            Option<Patch>,
            Error,
        >(Some(p)),
        p.wires.len() <= usize::MAX,
        takes_kernel(m.nodes[id].op->EinSum_0, m, id) ==> kernel_suits(
            run,
            symbols,
            m,
            id,
            packers,
            kernel,
        ),
        takes_dequant(m.nodes[id].op->EinSum_0, m, id) ==> dequant_suits(run, symbols, m, id),
    ensures
        keeps(run, m, p),
{
    let op = m.nodes[id].op->EinSum_0;
    lemma_sound(run, symbols, m, id);
    match mkn_step(op, m, id) {
        Ok(Step::Patch(q)) => {
            lemma_step(run, symbols, m, id, q);
        },
        Ok(Step::Annotated(rows, k, columns)) => {
            if takes_dequant(op, m, id) {
                lemma_dequant_kept(run, symbols, m, id, rows, k, columns, p);
            } else if takes_kernel(op, m, id) {
                lemma_kernel_step(run, symbols, m, id, rows, k, columns, packers, kernel);
            } else {
                lemma_swapped(run, symbols, m, id);
            }
        },
        _ => {},
    }
}

/// The rewrite of a quantized einsum whose rows, sums and columns are found is its
/// dequantization; and that keeps what the model takes and computes, where the einsum
/// means what the operators make of elements.
pub proof fn lemma_quantized_rewrite(
    run: Run,
    symbols: spec_fn(u64) -> int,
    m: Model,
    id: int,
    packers: (u64, u64),
    kernel: (u64, u64),
    rows: char,
    k: char,
    columns: char,
    p: Patch,
    combine: spec_fn(int, int, int) -> int,
    rescale: spec_fn(int, int, int) -> int,
)
    requires
        m.wf(),
        is_sound(run, symbols, m, id),
        p.wires.len() <= usize::MAX,
        ({
            let op = m.nodes[id].op->EinSum_0;
            let facts = facts_of(m.nodes, m.nodes[id].inputs);
            &&& op.q_params is Some
            &&& mkn_step(op, m, id) == Ok::<Step, Error>(Step::Annotated(rows, k, columns))
            &&& optimization(op, m, id, packers, kernel) == Ok::<Option<Patch>, Error>(Some(p))
            &&& offsets_given(symbols, op.axes, facts, inputs_of(run, m, id), rows, k, columns)
            &&& scales_given(op.axes, facts)
            &&& calculates(run, symbols)
            &&& rescales(run, op.q_params->0, combine, rescale)
            &&& (run.quantized)(op.q_params->0) == quantizing(combine, rescale)
        }),
    ensures
        requantizes(m, id, p),
        keeps(run, m, p),
{
    lemma_sound(run, symbols, m, id);
    lemma_requantizes(m, id, k, p);
    lemma_dequant_means_kept(run, symbols, m, id, rows, k, columns, p, combine, rescale);
}

/// Whether a model takes the same inputs as another, and gives outputs of the same
/// facts.
pub open spec fn same_form(a: Model, m: Model) -> bool {
    &&& a.wf()
    &&& inputs(a.nodes) == inputs(m.nodes)
    &&& facts_of(a.nodes, a.outputs) == facts_of(m.nodes, m.outputs)
}

/// A faultless patch, and taking away what no output needs, leave the form of a model.
proof fn lemma_patched_form(m: Model, p: Patch)
    requires
        m.wf(),
        p.aims_at(m),
        p.fault(m) is None,
        !(m.nodes[p.node].op is Source),
    ensures
        same_form(p.applied(m).compacted(), m),
{
    lemma_kept_form(m, p);
    lemma_compacted(p.applied(m));
    lemma_compacted_inputs(p.applied(m));
}

proof fn lemma_normalized_form(m: Model, fuel: nat)
    requires
        m.wf(),
        next_einsum(m, 0) is Some,
        stays_einsum(m),
    ensures
        same_form(normalized(m, fuel).0, m),
    decreases fuel,
{
    let id = next_einsum(m, 0)->0;
    let op = m.nodes[id].op->EinSum_0;
    lemma_next_einsum(m, 0);
    match mkn_step(op, m, id) {
        Ok(Step::Patch(p)) => {
            if fuel > 0 {
                let c = p.applied(m).compacted();
                lemma_step_aims(m, id, p);
                let j = lemma_step_einsum(op, m, id, p);
                lemma_applied(m, p);
                lemma_patched_form(m, p);
                lemma_first_needed(p.applied(m));
                lemma_stays_einsum(c, next_einsum(c, 0)->0);
                lemma_normalized_form(c, (fuel - 1) as nat);
            }
        },
        _ => {},
    }
}

proof fn lemma_replaced_form(m: Model, rows: char, k: char, columns: char)
    requires
        m.wf(),
    ensures
        same_form(replaced(m, rows, k, columns).0, m),
    decreases einsums(m.nodes, m.nodes.len() as int),
{
    lemma_next_einsum(m, 0);
    match next_einsum(m, 0) {
        None => {},
        Some(id) => match replacement(m, id, rows, k, columns) {
            Err(_) => {},
            Ok(p) => {
                assert(node_wf(m.nodes, id));
                assert(p.wires[0].op.wf());
                assert(p.aims_at(m));
                lemma_fewer(m, id, rows, k, columns, p);
                lemma_patched_form(m, p);
                lemma_replaced_form(p.applied(m).compacted(), rows, k, columns);
            },
        },
    }
}

/// Decomposing the einsums of a model keeps its inputs and the facts of its outputs,
/// also where it stops at an einsum that cannot be decomposed.
pub proof fn lemma_decomposed_form(m: Model)
    requires
        m.wf(),
        next_einsum(m, 0) is Some,
        stays_einsum(m),
    ensures
        same_form(decomposed(m).0, m),
{
    lemma_normalized_form(m, additions());
    match normalized(m, additions()) {
        (m1, Ok((rows, k, columns))) => {
            lemma_replaced_form(m1, rows, k, columns);
        },
        _ => {},
    }
}

} // verus!
