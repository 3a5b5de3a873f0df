use einsum_matmul::as_matmul::{decompose, decompose_one_in_place};
use einsum_matmul::axes::AxesMapping;
use einsum_matmul::dim::TDim;
use einsum_matmul::error::Error;
use einsum_matmul::model::{OutletId, TypedModel, TypedNode};
use einsum_matmul::ops::{AxisOp, DatumType, EinSum, Op, SimpleOp, TypedFact};
use einsum_matmul::tensor::Tensor;
use proptest::strategy::{BoxedStrategy, Just, Strategy, Union};
use proptest::test_runner::TestRunner;

fn parse(expr: &str) -> AxesMapping {
    let (inputs, outputs) = expr.split_once("->").unwrap();
    let rows = |part: &str| -> Vec<Vec<char>> {
        part.split(',').map(|row| row.chars().collect()).collect()
    };
    AxesMapping::from_labels(rows(inputs), rows(outputs))
}

fn fact(shape: &[usize]) -> TypedFact {
    TypedFact {
        datum_type: DatumType::F32,
        shape: shape.iter().map(|d| TDim::Val(*d as i64)).collect(),
    }
}

fn tensor(shape: &[usize], data: Vec<i64>) -> Tensor {
    Tensor::new(shape.to_vec(), data).unwrap()
}

fn zero(shape: &[usize]) -> Tensor {
    Tensor::zero(shape.to_vec())
}

fn copy(x: &Tensor) -> Tensor {
    tensor(x.shape(), x.data().clone())
}

/// Calls `f` with every coordinate of a shape.
fn for_each(shape: &[usize], f: &mut dyn FnMut(&[usize])) {
    let count: usize = shape.iter().product();
    for index in 0..count {
        let mut rest = index;
        let mut coords = vec![0; shape.len()];
        for axis in (0..shape.len()).rev() {
            coords[axis] = rest % shape[axis];
            rest /= shape[axis];
        }
        f(&coords);
    }
}

fn at(x: &Tensor, coords: &[usize]) -> i64 {
    let mut position = 0;
    for (axis, c) in coords.iter().enumerate() {
        position = position * x.shape()[axis] + c;
    }
    x.data()[position]
}

/// An einsum, straight from its meaning.
fn einsum(axes: &AxesMapping, inputs: &[&Tensor]) -> Tensor {
    let labels: Vec<char> = axes.iter_all_axes().iter().map(|axis| axis.repr).collect();
    let extents: Vec<usize> = labels
        .iter()
        .map(|label| {
            let mut extent = 1;
            for (slot, input) in inputs.iter().enumerate() {
                for (p, l) in axes.input_labels(slot).iter().enumerate() {
                    if l == label && extent == 1 {
                        extent = input.shape()[p];
                    }
                }
            }
            extent
        })
        .collect();
    let index_of = |label: &char| labels.iter().position(|l| l == label).unwrap();
    let shape: Vec<usize> =
        axes.output_labels(0).iter().map(|label| extents[index_of(label)]).collect();
    let mut data = vec![0i64; shape.iter().product()];
    for_each(&extents, &mut |values| {
        let mut term = 1;
        for (slot, input) in inputs.iter().enumerate() {
            let coords: Vec<usize> = axes
                .input_labels(slot)
                .iter()
                .enumerate()
                .map(|(p, l)| if input.shape()[p] == 1 { 0 } else { values[index_of(l)] })
                .collect();
            term *= at(input, &coords);
        }
        let mut position = 0;
        for (p, label) in axes.output_labels(0).iter().enumerate() {
            position = position * shape[p] + values[index_of(label)];
        }
        data[position] += term;
    });
    tensor(&shape, data)
}

/// Runs a model on the values of its inputs, by name.
fn run(model: &TypedModel, inputs: &[(&str, &Tensor)]) -> Vec<Tensor> {
    let mut values: Vec<Tensor> = Vec::new();
    for node in &model.nodes {
        let given: Vec<&Tensor> = node.inputs.iter().map(|o| &values[o.node]).collect();
        let value = match &node.op {
            Op::Source => {
                copy(inputs.iter().find(|(name, _)| *name == node.name.as_str()).unwrap().1)
            }
            Op::EinSum(op) => einsum(&op.axes, &given),
            Op::Simple(SimpleOp::AxisOp(AxisOp::Add(axis))) => {
                let mut shape = given[0].shape().clone();
                shape.insert(*axis, 1);
                tensor(&shape, given[0].data().clone())
            }
            Op::Simple(SimpleOp::AxisOp(AxisOp::Rm(axis))) => {
                let mut shape = given[0].shape().clone();
                assert_eq!(shape.remove(*axis), 1);
                tensor(&shape, given[0].data().clone())
            }
            Op::Simple(SimpleOp::BasicMatMul(op)) => {
                op.eval(vec![copy(given[0]), copy(given[1])]).unwrap().remove(0)
            }
            other => panic!("cannot run {:?}", other),
        };
        values.push(value);
    }
    model.outputs.iter().map(|o| copy(&values[o.node])).collect()
}

fn has_einsum(model: &TypedModel) -> bool {
    model.nodes.iter().any(|node| matches!(node.op, Op::EinSum(_)))
}

/// A model of one einsum on two inputs.
fn build(expr: &str, a: &TypedFact, b: &TypedFact) -> TypedModel {
    let mut model = TypedModel::new();
    let sa = model.add_source("a".to_string(), a.clone());
    let sb = model.add_source("b".to_string(), b.clone());
    let op = EinSum::new(parse(expr), DatumType::F32);
    let output = model.wire_node("einsum".to_string(), Op::EinSum(op), &vec![sa, sb]).unwrap();
    model.set_output_outlets(&vec![output]).unwrap();
    model
}

#[derive(Debug)]
struct Problem {
    expr: String,
    a: Tensor,
    b: Tensor,
}

impl Problem {
    fn check(&self) {
        let mut model = build(&self.expr, &fact(self.a.shape()), &fact(self.b.shape()));
        let inputs = [("a", &self.a), ("b", &self.b)];
        let reference = run(&model, &inputs).remove(0);
        decompose_one_in_place(&mut model).unwrap();
        assert!(!has_einsum(&model));
        let test = run(&model, &inputs).remove(0);
        assert_eq!(reference.shape(), test.shape());
        assert_eq!(reference.data(), test.data());
    }
}

fn any_tensor(shape: &[usize]) -> BoxedStrategy<Tensor> {
    let shape = shape.to_vec();
    let len = shape.iter().product::<usize>();
    proptest::collection::vec(-10i64..=10i64, len..=len)
        .prop_map(move |data| tensor(&shape, data))
        .boxed()
}

fn full_shapes(expr: &str) -> BoxedStrategy<(Vec<usize>, Vec<usize>)> {
    let axes = parse(expr);
    let labels: Vec<char> = axes
        .iter_all_axes()
        .iter()
        .filter(|axis| axis.inputs[0].len() + axis.inputs[1].len() > 0)
        .map(|axis| axis.repr)
        .collect();
    let dims = vec![2usize..6; labels.len()];
    dims.prop_map(move |dims| {
        let shape = |slot: usize| -> Vec<usize> {
            axes.input_labels(slot)
                .iter()
                .map(|l| dims[labels.iter().position(|b| l == b).unwrap()])
                .collect()
        };
        (shape(0), shape(1))
    })
    .boxed()
}

fn is_k(axes: &AxesMapping, input: usize, position: usize) -> bool {
    let axis = axes.axis(axes.input_labels(input)[position]).unwrap();
    axis.inputs[1 - input].len() == 1 && axis.outputs[0].len() == 0
}

fn trimmed(axes: &AxesMapping, input: usize, shape: &[usize]) -> Vec<BoxedStrategy<usize>> {
    shape
        .iter()
        .enumerate()
        .map(|(ix, d)| {
            if is_k(axes, input, ix) {
                Just(*d).boxed()
            } else {
                Union::new(vec![Just(1usize), Just(*d)]).boxed()
            }
        })
        .collect()
}

fn test_expr(expr: &'static str) {
    let mut runner = TestRunner::default();
    let cases = full_shapes(expr)
        .prop_flat_map(move |(a, b)| {
            let axes = parse(expr);
            (trimmed(&axes, 0, &a), trimmed(&axes, 1, &b))
        })
        .prop_flat_map(|(a, b)| (any_tensor(&a), any_tensor(&b)))
        .prop_map(move |(a, b)| Problem { expr: expr.to_string(), a, b });
    runner
        .run(&cases, |problem| {
            problem.check();
            Ok(())
        })
        .unwrap();
}

#[test]
fn prop_mk_kn_mn() {
    test_expr("mk,kn->mn")
}

#[test]
fn prop_km_kn_mn() {
    test_expr("km,kn->mn")
}

#[test]
fn prop_mk_nk_mn() {
    test_expr("mk,nk->mn")
}

#[test]
fn prop_mk_kn_nm() {
    test_expr("mk,kn->nm")
}

#[test]
fn prop_k_kn_mn() {
    test_expr("k,kn->mn")
}

#[test]
fn prop_mk_k_mn() {
    test_expr("mk,k->mn")
}

#[test]
fn prop_m_n_mn() {
    test_expr("m,n->mn")
}

#[test]
fn prop_amk_akn_amn() {
    test_expr("amk,akn->amn")
}

#[test]
fn k_kn_mn_0() {
    Problem { expr: "k,kn->mn".to_string(), a: zero(&[2]), b: zero(&[2, 2]) }.check()
}

#[test]
fn mk_k_mn_0() {
    Problem { expr: "mk,k->mn".to_string(), a: zero(&[2, 2]), b: zero(&[2]) }.check()
}

#[test]
fn mk_kn_nm_0() {
    Problem { expr: "mk,kn->mn".to_string(), a: zero(&[3, 2]), b: zero(&[2, 2]) }.check()
}

#[test]
fn amk_akn_amn_0() {
    Problem { expr: "amk,akn->amn".to_string(), a: zero(&[1, 1, 2]), b: zero(&[1, 2, 1]) }.check()
}

#[test]
fn amk_akn_amn_1() {
    Problem { expr: "amk,akn->amn".to_string(), a: zero(&[2, 1, 2]), b: zero(&[1, 2, 1]) }.check()
}

#[test]
fn amk_akn_amn_2() {
    Problem { expr: "amk,akn->amn".to_string(), a: zero(&[1, 1, 2]), b: zero(&[2, 2, 2]) }.check()
}

/// A stacked axis that the first operand lacks is no row of its matrices.
#[test]
fn stacked_axis_of_one_operand() {
    Problem {
        expr: "amk,akn->amn".to_string(),
        a: tensor(&[1, 2, 2], vec![1, 2, 3, 4]),
        b: tensor(&[3, 2, 2], vec![1, 0, 0, 1, 2, 0, 0, 2, 0, 1, 1, 0]),
    }
    .check()
}

#[test]
fn vectors_without_rows_or_columns() {
    let v = tensor(&[3], vec![1, 2, 3]);
    let w = tensor(&[3], vec![4, -5, 6]);
    let m = tensor(&[2, 3], vec![1, 2, 3, 4, 5, 6]);
    Problem { expr: "k,k->".to_string(), a: copy(&v), b: copy(&w) }.check();
    Problem { expr: "mk,k->m".to_string(), a: copy(&m), b: copy(&v) }.check();
    Problem { expr: "k,nk->n".to_string(), a: v, b: m }.check();
}

/// Scalars get sums, rows and columns.
#[test]
fn scalars_need_three_additions() {
    let (a, b) = (tensor(&[], vec![6]), tensor(&[], vec![7]));
    let problem = Problem { expr: ",->".to_string(), a, b };
    problem.check();
    let mut model = build(",->", &fact(&[]), &fact(&[]));
    decompose_one_in_place(&mut model).unwrap();
    let c = run(&model, &[("a", &problem.a), ("b", &problem.b)]).remove(0);
    assert_eq!(c.data(), &vec![42]);
    let added = |wanted: &str| model.nodes.iter().filter(|n| n.name.contains(wanted)).count();
    assert_eq!((added(".add_k"), added(".add_m"), added(".add_n")), (2, 1, 1));
}

/// Axes of dimension one may go by any label.
#[test]
fn stacked_axes_of_dimension_one_in_another_order() {
    Problem {
        expr: "bamk,abkn->abmn".to_string(),
        a: tensor(&[1, 1, 2, 2], vec![1, 2, 3, 4]),
        b: tensor(&[1, 1, 2, 2], vec![5, 6, 7, 8]),
    }
    .check()
}

#[test]
fn exact_product() {
    let mut model = build("mk,kn->mn", &fact(&[2, 2]), &fact(&[2, 2]));
    decompose_one_in_place(&mut model).unwrap();
    assert_eq!(model.nodes.len(), 3);
    assert_eq!(model.nodes[2].name, "einsum");
    let a = tensor(&[2, 2], vec![1, 2, 3, 4]);
    let b = tensor(&[2, 2], vec![5, 6, 7, 8]);
    let c = run(&model, &[("a", &a), ("b", &b)]).remove(0);
    assert_eq!(c.shape(), &vec![2, 2]);
    assert_eq!(c.data(), &vec![19, 22, 43, 50]);
}

fn einsum_node(model: &TypedModel) -> &TypedNode {
    model.nodes.iter().find(|node| matches!(node.op, Op::EinSum(_))).unwrap()
}

fn decompose_einsum(model: &TypedModel) -> Result<TypedModel, Error> {
    let node = einsum_node(model);
    match &node.op {
        Op::EinSum(op) => decompose(op, model, node),
        _ => panic!("no einsum"),
    }
}

#[test]
fn decompose_into_a_model_of_its_own() {
    let model = build("km,kn->nm", &fact(&[2, 3]), &fact(&[2, 4]));
    let d = decompose_einsum(&model).unwrap();
    assert!(!has_einsum(&d));
    assert_eq!(d.nodes.len(), 3);
    assert_eq!(d.nodes[0].name, "adhoc_source_0");
    assert_eq!(d.nodes[1].name, "adhoc_source_1");
    assert_eq!(d.nodes[2].name, "einsum");
    match &d.nodes[2].op {
        Op::Simple(SimpleOp::BasicMatMul(op)) => {
            assert_eq!((op.transpose_a, op.transpose_b, op.transpose_c), (true, false, true));
        }
        other => panic!("{:?}", other),
    }
    let a = tensor(&[2, 3], vec![1, 2, 3, 4, 5, 6]);
    let b = tensor(&[2, 4], vec![1, 0, 2, 0, 0, 1, 0, 2]);
    let reference = run(&model, &[("a", &a), ("b", &b)]).remove(0);
    let test = run(&d, &[("adhoc_source_0", &a), ("adhoc_source_1", &b)]).remove(0);
    assert_eq!(reference.shape(), test.shape());
    assert_eq!(reference.data(), test.data());
}

#[test]
fn decompose_on_unknown_outlets() {
    let model = build("mk,kn->mn", &fact(&[2, 2]), &fact(&[2, 2]));
    let node = TypedNode {
        id: 7,
        name: "stray".to_string(),
        inputs: vec![OutletId { node: 0, slot: 0 }, OutletId { node: 9, slot: 0 }],
        op: Op::EinSum(EinSum::new(parse("mk,kn->mn"), DatumType::F32)),
        outputs: vec![],
    };
    let op = EinSum::new(parse("mk,kn->mn"), DatumType::F32);
    assert_eq!(decompose(&op, &model, &node).unwrap_err(), Error::UnknownOutlet);
}

#[test]
fn decompose_on_facts_of_other_ranks() {
    let model = build("mk,kn->mn", &fact(&[2, 2]), &fact(&[2, 2]));
    let op = EinSum::new(parse("amk,akn->amn"), DatumType::F32);
    assert_eq!(decompose(&op, &model, einsum_node(&model)).unwrap_err(), Error::BadFacts);
}

#[test]
fn two_axes_to_sum_over() {
    let model = build("mkl,kln->mn", &fact(&[2, 3, 4]), &fact(&[3, 4, 5]));
    assert_eq!(decompose_einsum(&model).unwrap_err(), Error::MultipleK);
}

#[test]
fn an_axis_that_only_one_operand_sums() {
    let model = build("mkx,kn->mn", &fact(&[2, 3, 4]), &fact(&[3, 5]));
    assert_eq!(decompose_einsum(&model).unwrap_err(), Error::NotAMatMul);
}

#[test]
fn operands_of_different_ranks() {
    let model = build("amk,kn->amn", &fact(&[2, 3, 4]), &fact(&[4, 5]));
    assert_eq!(decompose_einsum(&model).unwrap_err(), Error::RankMismatch);
}

#[test]
fn stacked_axes_in_another_order() {
    let model = build("mak,akn->amn", &fact(&[2, 3, 4]), &fact(&[3, 4, 5]));
    assert_eq!(decompose_einsum(&model).unwrap_err(), Error::FactMismatch);
}

#[test]
fn the_label_that_stands_in_is_taken() {
    let model = build("$k,k->$", &fact(&[2, 3]), &fact(&[3]));
    assert_eq!(decompose_einsum(&model).unwrap_err(), Error::DuplicateLabel);
}

#[test]
fn no_way_to_get_closer() {
    let model = build("mmk,kn->mn", &fact(&[2, 2, 3]), &fact(&[3, 4]));
    assert_eq!(decompose_einsum(&model).unwrap_err(), Error::NoProgress);
}

#[test]
fn symbolic_dimensions() {
    let symbolic = |s: u64, d: i64| TypedFact {
        datum_type: DatumType::F32,
        shape: vec![TDim::Sym(s), TDim::Val(d)],
    };
    let model = build("mk,kn->mn", &symbolic(0, 3), &fact(&[3, 4]));
    let d = decompose_einsum(&model).unwrap();
    assert_eq!(d.nodes[2].outputs[0].shape, vec![TDim::Sym(0), TDim::Val(4)]);
}

/// Every einsum of a model is replaced, each by the product for its own axes.
#[test]
fn two_einsums_in_a_row() {
    let mut model = TypedModel::new();
    let a = model.add_source("a".to_string(), fact(&[2, 2]));
    let b = model.add_source("b".to_string(), fact(&[2, 2]));
    let first = EinSum::new(parse("mk,kn->mn"), DatumType::F32);
    let second = EinSum::new(parse("mk,nk->mn"), DatumType::F32);
    let ab = model.wire_node("ab".to_string(), Op::EinSum(first), &vec![a, b]).unwrap();
    let out = model.wire_node("out".to_string(), Op::EinSum(second), &vec![ab, a]).unwrap();
    model.set_output_outlets(&vec![out]).unwrap();
    let x = tensor(&[2, 2], vec![1, 2, 3, 4]);
    let y = tensor(&[2, 2], vec![0, 1, 1, 1]);
    let inputs = [("a", &x), ("b", &y)];
    let reference = run(&model, &inputs).remove(0);
    decompose_one_in_place(&mut model).unwrap();
    assert!(!has_einsum(&model));
    assert_eq!(run(&model, &inputs).remove(0).data(), reference.data());
}

/// A model of one einsum on two inputs, and of another on its output.
fn build_second() -> (TypedModel, OutletId, OutletId) {
    let mut model = build("mk,kn->mn", &fact(&[2, 2]), &fact(&[2, 2]));
    let a = OutletId { node: 0, slot: 0 };
    let ab = OutletId { node: 2, slot: 0 };
    let op = EinSum::new(parse("xy,yz->xz"), DatumType::F32);
    let other = model.wire_node("other".to_string(), Op::EinSum(op), &vec![ab, a]).unwrap();
    (model, ab, other)
}

#[test]
fn a_second_einsum_with_other_labels() {
    let (mut model, ab, other) = build_second();
    model.set_output_outlets(&vec![ab, other]).unwrap();
    assert_eq!(decompose_one_in_place(&mut model).unwrap_err(), Error::UnknownLabel);
}

fn node_names(model: &TypedModel) -> Vec<&str> {
    model.nodes.iter().map(|node| node.name.as_str()).collect()
}

/// An einsum that no output needs goes with the first patch, whatever its labels.
#[test]
fn a_second_einsum_that_no_output_needs() {
    let (mut model, _, _) = build_second();
    decompose_one_in_place(&mut model).unwrap();
    assert_eq!(node_names(&model), vec!["a", "b", "einsum"]);
    assert!(!has_einsum(&model));
}

#[test]
fn a_first_einsum_that_no_output_needs() {
    let mut model = TypedModel::new();
    let a = model.add_source("a".to_string(), fact(&[2]));
    let b = model.add_source("b".to_string(), fact(&[2, 3]));
    let c = model.add_source("c".to_string(), fact(&[4]));
    let unused = EinSum::new(parse("k,kn->mn"), DatumType::F32);
    model.wire_node("unused".to_string(), Op::EinSum(unused), &vec![a, b]).unwrap();
    let outer = EinSum::new(parse("m,n->mn"), DatumType::F32);
    let out = model.wire_node("out".to_string(), Op::EinSum(outer), &vec![c, a]).unwrap();
    model.set_output_outlets(&vec![out]).unwrap();
    decompose_one_in_place(&mut model).unwrap();
    assert_eq!(node_names(&model), vec!["a", "b", "c", "out.add_k.0", "out.add_k.1", "out"]);
    let (x, y, z) = (tensor(&[2], vec![1, 2]), zero(&[2, 3]), tensor(&[4], vec![3, 4, 5, 6]));
    let result = run(&model, &[("a", &x), ("b", &y), ("c", &z)]).remove(0);
    assert_eq!(result.data(), &vec![3, 6, 4, 8, 5, 10, 6, 12]);
}

#[test]
fn nodes_that_no_output_needs() {
    let mut model = build("mk,kn->mn", &fact(&[2, 2]), &fact(&[2, 2]));
    let a = OutletId { node: 0, slot: 0 };
    let ab = OutletId { node: 2, slot: 0 };
    let add = |axis: usize| Op::Simple(SimpleOp::AxisOp(AxisOp::Add(axis)));
    let unused = model.wire_node("unused".to_string(), add(0), &vec![a]).unwrap();
    model.wire_node("unused_too".to_string(), add(0), &vec![unused]).unwrap();
    let more = model.wire_node("more".to_string(), add(1), &vec![ab]).unwrap();
    model.add_source("idle".to_string(), fact(&[5]));
    model.set_output_outlets(&vec![more, ab]).unwrap();
    model.compact();
    assert_eq!(node_names(&model), vec!["a", "b", "einsum", "more", "idle"]);
    assert_eq!(model.nodes[3].inputs, vec![OutletId { node: 2, slot: 0 }]);
    let outputs = vec![OutletId { node: 3, slot: 0 }, OutletId { node: 2, slot: 0 }];
    assert_eq!(model.outputs, outputs);
    for (id, node) in model.nodes.iter().enumerate() {
        assert_eq!(node.id, id);
    }
}

/// Decomposing keeps the inputs of a model and the facts of its outputs.
#[test]
fn inputs_and_facts_after_decomposing() {
    for (expr, a, b) in [("m,n->mn", vec![2], vec![3]), ("k,kn->mn", vec![2], vec![2, 3])] {
        let mut model = build(expr, &fact(&a), &fact(&b));
        let shape_of = |model: &TypedModel| model.outlet_fact(model.outputs[0]).unwrap().shape.clone();
        let before = shape_of(&model);
        decompose_one_in_place(&mut model).unwrap();
        assert_eq!(shape_of(&model), before);
        assert_eq!(node_names(&model)[..2], ["a", "b"]);
    }
}

/// A model whose einsum is not the last node keeps what comes after it.
#[test]
fn nodes_after_the_einsum() {
    let mut model = build("k,kn->mn", &fact(&[2]), &fact(&[2, 3]));
    let last = OutletId { node: 2, slot: 0 };
    let more = model
        .wire_node("more".to_string(), Op::Simple(SimpleOp::AxisOp(AxisOp::Add(1))), &vec![last])
        .unwrap();
    model.set_output_outlets(&vec![more, last]).unwrap();
    let a = tensor(&[2], vec![1, 2]);
    let b = tensor(&[2, 3], vec![1, 2, 3, 4, 5, 6]);
    let inputs = [("a", &a), ("b", &b)];
    let reference = run(&model, &inputs);
    decompose_one_in_place(&mut model).unwrap();
    let test = run(&model, &inputs);
    assert_eq!(test[0].shape(), &vec![1, 1, 3]);
    assert_eq!(test[0].data(), &vec![9, 12, 15]);
    assert_eq!(test[0].data(), reference[0].data());
    assert_eq!(test[1].data(), reference[1].data());
    for (id, node) in model.nodes.iter().enumerate() {
        assert_eq!(node.id, id);
    }
}
