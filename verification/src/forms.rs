//! The expressions whose decomposition succeeds and computes the einsum.

use vstd::prelude::*;

use crate::as_matmul::{decomposed, decomposition, einsum_alone};
use crate::dim::TDim;
use crate::labels::Expr;
use crate::matmul::{BasicMatMul, is_batched, pair_first, pair_second};
use crate::model::{Model, Node, facts_of, has_outlets};
use crate::ops::{EinSumView, fact_shapes, ranks_suit};
use crate::optimize::input_shapes;
use crate::preserve::{
    becomes_product, is_plain, lemma_alone_plain, lemma_alone_wf, lemma_decomposition,
    lemma_only_decomposed, lemma_plain, starts_from,
};
use crate::product::einsum;
use crate::run::Run;
use crate::tensor::Value;
use crate::vectors::{
    is_only, lemma_batched_only, lemma_matrix_vector, lemma_outer_product, lemma_vector_matrix,
    matrix_vector, outer_product, vector_matrix,
};

verus! {

/// Forms of expressions: a batched matrix product, such as `amk,akn->amn`; the
/// product of a vector and a matrix, such as `k,kn->mn`; of a matrix and a vector,
/// such as `mk,k->mn`; and the products of the elements of two vectors, such as
/// `m,n->mn`. Each with its labels for the rows, the sums and the columns, and
/// with what is transposed.
pub enum Form {
    Batched(BasicMatMul, char, char, char),
    VectorMatrix(char, char, char, bool),
    MatrixVector(char, char, char, bool),
    OuterProduct(char, char, bool),
}

/// Whether an expression has a form.
pub open spec fn has_form(e: Expr, form: Form) -> bool {
    match form {
        Form::Batched(product, m, k, n) => is_batched(e, product, m, k, n),
        Form::VectorMatrix(m, k, n, t) => {
            &&& e == vector_matrix(m, k, n, t)
            &&& m != k && k != n && m != n
            &&& m != '$' && k != '$' && n != '$'
        },
        Form::MatrixVector(m, k, n, t) => {
            &&& e == matrix_vector(m, k, n, t)
            &&& m != k && k != n && m != n
            &&& m != '$' && k != '$' && n != '$'
        },
        Form::OuterProduct(m, n, t) => e == outer_product(m, n, t) && m != n,
    }
}

/// Whether the shapes of the two inputs have the same dimension along the sums.
pub open spec fn sums_agree(shapes: Seq<Seq<TDim>>, form: Form) -> bool {
    match form {
        Form::Batched(product, _, _, _) => pair_second(shapes[0], product.transpose_a)
            == pair_first(shapes[1], product.transpose_b),
        Form::VectorMatrix(_, _, _, t) => shapes[0][0] == pair_first(shapes[1], t),
        Form::MatrixVector(_, _, _, t) => shapes[1][0] == pair_second(shapes[0], t),
        Form::OuterProduct(_, _, _) => true,
    }
}

/// The one einsum of a model, if it has one of the forms, is decomposed, and what
/// the model computes does not change.
pub proof fn lemma_form_in_place(
    run: Run,
    symbols: spec_fn(u64) -> int,
    m: Model,
    id: int,
    form: Form,
)
    requires
        is_only(m, id, (m.nodes[id].op->EinSum_0).axes),
        has_form((m.nodes[id].op->EinSum_0).axes, form),
        sums_agree(input_shapes(m, m.nodes[id]), form),
        is_plain(run, symbols, m, id),
    ensures
        decomposed(m).1 is Ok,
        run.outputs(decomposed(m).0) == run.outputs(m),
{
    lemma_form_product(symbols, m, id, form);
    lemma_only_decomposed(run, symbols, m, id);
}

proof fn lemma_form_product(symbols: spec_fn(u64) -> int, m: Model, id: int, form: Form)
    requires
        is_only(m, id, (m.nodes[id].op->EinSum_0).axes),
        has_form((m.nodes[id].op->EinSum_0).axes, form),
        sums_agree(input_shapes(m, m.nodes[id]), form),
    ensures
        decomposed(m).1 is Ok,
        becomes_product(symbols, m),
{
    match form {
        Form::Batched(product, rows, k, columns) => {
            lemma_batched_only(symbols, m, id, product, rows, k, columns);
        },
        Form::VectorMatrix(rows, k, columns, t) => {
            lemma_vector_matrix(symbols, m, id, rows, k, columns, t);
        },
        Form::MatrixVector(rows, k, columns, t) => {
            lemma_matrix_vector(symbols, m, id, rows, k, columns, t);
        },
        Form::OuterProduct(rows, columns, t) => {
            lemma_outer_product(symbols, m, id, rows, columns, t);
        },
    }
}

/// The decomposition of an einsum that has one of the forms succeeds, and computes
/// the einsum of its inputs.
pub proof fn lemma_form(
    run: Run,
    symbols: spec_fn(u64) -> int,
    op: EinSumView,
    m: Model,
    node: Node,
    xs: Seq<Value>,
    form: Form,
)
    requires
        op.wf(),
        op.q_params is None,
        op.axes.inputs.len() == 2,
        has_form(op.axes, form),
        has_outlets(m.nodes, node.inputs, m.nodes.len() as int),
        ranks_suit(op.axes, facts_of(m.nodes, node.inputs)),
        facts_of(m.nodes, node.inputs)[0].datum_type == op.operating_dt,
        sums_agree(fact_shapes(facts_of(m.nodes, node.inputs)), form),
        starts_from(run, symbols, op.axes, facts_of(m.nodes, node.inputs), xs),
    ensures
        decomposition(op, m, node) matches Ok(d) && run.outputs(d) == seq![einsum(op.axes, xs)],
{
    let facts = facts_of(m.nodes, node.inputs);
    let alone = einsum_alone(op, node.name, facts);
    lemma_alone_plain(run, symbols, op, node.name, facts, xs);
    lemma_alone_wf(op, node.name, facts);
    lemma_plain(run, symbols, alone, 2);
    assert(facts_of(alone.nodes, alone.nodes[2].inputs) == facts);
    assert(input_shapes(alone, alone.nodes[2]) == fact_shapes(facts));
    assert(is_only(alone, 2, op.axes));
    lemma_form_product(symbols, alone, 2, form);
    lemma_decomposition(run, symbols, op, m, node, xs, decomposed(alone).0);
}

} // verus!
