use einsum_matmul::axes::{AxesMapping, InOut};
use einsum_matmul::dim::{DimLike, TDim};
use einsum_matmul::error::Error;
use einsum_matmul::matmul::BasicMatMul;
use einsum_matmul::model::{OutletId, TypedModel};
use einsum_matmul::names::numbered;
use einsum_matmul::ops::{AxisOp, DatumType, EinSum, Op, SimpleOp, TypedFact};
use einsum_matmul::tensor::Tensor;

fn parse(expr: &str) -> AxesMapping {
    let (inputs, outputs) = expr.split_once("->").unwrap();
    let rows = |part: &str| -> Vec<Vec<char>> {
        part.split(',').map(|row| row.chars().collect()).collect()
    };
    AxesMapping::from_labels(rows(inputs), rows(outputs))
}

fn show(axes: &AxesMapping) -> String {
    let inputs: Vec<String> =
        (0..axes.input_count()).map(|s| axes.input_labels(s).iter().collect()).collect();
    let outputs: Vec<String> =
        (0..axes.output_count()).map(|s| axes.output_labels(s).iter().collect()).collect();
    format!("{}->{}", inputs.join(","), outputs.join(","))
}

fn fact(shape: &[i64]) -> TypedFact {
    TypedFact {
        datum_type: DatumType::I64,
        shape: shape.iter().map(|d| TDim::Val(*d)).collect(),
    }
}

const PLAIN: BasicMatMul =
    BasicMatMul { transpose_a: false, transpose_b: false, transpose_c: false };

#[test]
fn axes_come_in_the_order_of_the_outputs_first() {
    let axes = parse("amk,akn->nam");
    let labels: Vec<char> = axes.iter_all_axes().iter().map(|axis| axis.repr).collect();
    assert_eq!(labels, vec!['n', 'a', 'm', 'k']);
    let k = axes.axis('k').unwrap();
    assert_eq!(k.inputs, vec![vec![2], vec![1]]);
    assert_eq!(k.outputs, vec![Vec::<usize>::new()]);
    assert_eq!(axes.axis('z').unwrap_err(), Error::UnknownLabel);
}

#[test]
fn the_first_free_label() {
    assert_eq!(parse("mk,kn->mn").available_label().unwrap(), 'a');
    assert_eq!(parse("abd,bd->ad").available_label().unwrap(), 'c');
    let all: String = ('a'..='z').collect();
    assert_eq!(parse(&format!("{},z->a", all)).available_label().unwrap(), '{');
}

#[test]
fn extra_axes() {
    let axes = parse("mk,kn->mn");
    assert_eq!(show(&axes.with_extra_axis('a', InOut::In(1), 2).unwrap()), "mk,kna->mn");
    assert_eq!(
        show(&axes.with_extra_axis_occurency('k', InOut::Out(0), 0).unwrap()),
        "mk,kn->kmn"
    );
    assert_eq!(axes.with_extra_axis('m', InOut::In(0), 0).unwrap_err(), Error::DuplicateLabel);
    assert_eq!(axes.with_extra_axis('a', InOut::In(0), 3).unwrap_err(), Error::BadPosition);
    assert_eq!(axes.with_extra_axis('a', InOut::Out(1), 0).unwrap_err(), Error::BadPosition);
    assert_eq!(
        axes.with_extra_axis_occurency('a', InOut::In(0), 0).unwrap_err(),
        Error::UnknownLabel
    );
}

#[test]
fn linked_restricted_and_exchanged() {
    let axes = parse("mk,kn,x->mnx");
    assert_eq!(show(&axes.linking('m', 'x').unwrap()), "mk,kn,m->mnm");
    assert_eq!(axes.linking('m', 'z').unwrap_err(), Error::UnknownLabel);
    assert_eq!(show(&axes.extract_sub_mapping(&vec![2, 0], &vec![0]).unwrap()), "x,mk->mnx");
    assert_eq!(axes.extract_sub_mapping(&vec![3], &vec![0]).unwrap_err(), Error::BadPosition);
    assert_eq!(show(&axes.swapping_inputs()), "kn,mk,x->mnx");
}

#[test]
fn axis_operators_of_a_mapping() {
    assert_eq!(
        parse("mak->nam").translate_to_axis_ops().unwrap(),
        vec![AxisOp::Rm(2), AxisOp::Move(1, 0), AxisOp::Add(0)]
    );
    assert_eq!(
        parse("abc->bca").translate_to_axis_ops().unwrap(),
        vec![AxisOp::Move(1, 0), AxisOp::Move(2, 1)]
    );
    assert_eq!(parse("abc->abc").translate_to_axis_ops().unwrap(), vec![]);
    assert_eq!(
        parse("xay->b").translate_to_axis_ops().unwrap(),
        vec![AxisOp::Rm(2), AxisOp::Rm(1), AxisOp::Rm(0), AxisOp::Add(0)]
    );
    assert_eq!(parse("aa->a").translate_to_axis_ops().unwrap_err(), Error::NotAPermutation);
    assert_eq!(parse("a,b->a").translate_to_axis_ops().unwrap_err(), Error::NotAPermutation);
}

#[test]
fn shapes_of_products() {
    let a = vec![1usize, 4, 2, 3];
    let b = vec![5usize, 1, 3, 7];
    assert_eq!(PLAIN.output_shape(&a, &b), vec![5, 4, 2, 7]);
    let swapped = BasicMatMul { transpose_c: true, ..PLAIN };
    assert_eq!(swapped.output_shape(&a, &b), vec![5, 4, 7, 2]);
    let a = vec![TDim::Sym(3), TDim::Val(2), TDim::Val(3)];
    let b = vec![TDim::Val(1), TDim::Val(7), TDim::Val(3)];
    let op = BasicMatMul { transpose_b: true, ..PLAIN };
    assert_eq!(op.output_shape(&a, &b), vec![TDim::Sym(3), TDim::Val(2), TDim::Val(7)]);
}

#[test]
fn ones() {
    assert!(1usize.is_one());
    assert!(!0usize.is_one());
    assert!(!7usize.is_one());
    assert!(TDim::one().is_one());
    assert!(!TDim::Sym(1).is_one());
    assert_eq!(TDim::Val(4).as_i64(), Some(4));
    assert_eq!(TDim::Sym(4).as_i64(), None);
}

#[test]
fn transposed_products() {
    // a is 2 by 3, b is 3 by 2.
    let a = vec![1, 2, 3, 4, 5, 6];
    let a_t = vec![1, 4, 2, 5, 3, 6];
    let b = vec![1, 0, -1, 2, 3, 1];
    let b_t = vec![1, -1, 3, 0, 2, 1];
    let c = vec![8, 7, 17, 16];
    let c_t = vec![8, 17, 7, 16];
    for flags in 0..8 {
        let op = BasicMatMul {
            transpose_a: flags & 1 != 0,
            transpose_b: flags & 2 != 0,
            transpose_c: flags & 4 != 0,
        };
        let x = if op.transpose_a {
            Tensor::new(vec![3, 2], a_t.clone()).unwrap()
        } else {
            Tensor::new(vec![2, 3], a.clone()).unwrap()
        };
        let y = if op.transpose_b {
            Tensor::new(vec![2, 3], b_t.clone()).unwrap()
        } else {
            Tensor::new(vec![3, 2], b.clone()).unwrap()
        };
        let z = op.eval(vec![x, y]).unwrap().remove(0);
        assert_eq!(z.shape(), &vec![2, 2]);
        assert_eq!(z.data(), if op.transpose_c { &c_t } else { &c });
    }
}

#[test]
fn broadcast_products() {
    let a = Tensor::new(vec![2, 1, 2], vec![1, 2, 3, 4]).unwrap();
    let b = Tensor::new(vec![1, 2, 1], vec![10, 100]).unwrap();
    let c = PLAIN.eval(vec![a, b]).unwrap().remove(0);
    assert_eq!(c.shape(), &vec![2, 1, 1]);
    assert_eq!(c.data(), &vec![210, 430]);
}

#[test]
fn empty_products() {
    let a = Tensor::zero(vec![2, 0]);
    let b = Tensor::zero(vec![0, 3]);
    let c = PLAIN.eval(vec![a, b]).unwrap().remove(0);
    assert_eq!(c.shape(), &vec![2, 3]);
    assert_eq!(c.data(), &vec![0; 6]);
}

#[test]
fn products_of_other_than_two() {
    assert_eq!(PLAIN.eval(vec![Tensor::zero(vec![2, 2])]).unwrap_err(), Error::NotTwoInputs);
    assert_eq!(PLAIN.eval(vec![]).unwrap_err(), Error::NotTwoInputs);
}

#[test]
fn what_the_product_says_of_itself() {
    assert_eq!(PLAIN.name(), "MatMul");
    assert!(PLAIN.is_stateless());
}

#[test]
fn facts_of_products() {
    let (a, b) = (fact(&[2, 3]), fact(&[3, 4]));
    let facts = PLAIN.output_facts(&vec![&a, &b]).unwrap();
    assert_eq!(facts[0].shape, vec![TDim::Val(2), TDim::Val(4)]);
    assert_eq!(facts[0].datum_type, DatumType::I64);
    let (short, long) = (fact(&[3]), fact(&[2, 2, 3]));
    assert_eq!(PLAIN.output_facts(&vec![&a, &a]).unwrap_err(), Error::BadFacts);
    assert_eq!(PLAIN.output_facts(&vec![&short, &short]).unwrap_err(), Error::BadFacts);
    assert_eq!(PLAIN.output_facts(&vec![&long, &b]).unwrap_err(), Error::BadFacts);
    assert_eq!(PLAIN.output_facts(&vec![&a]).unwrap_err(), Error::BadFacts);
}

#[test]
fn products_are_as_their_facts_say() {
    let op = BasicMatMul { transpose_b: true, transpose_c: true, ..PLAIN };
    let facts = op.output_facts(&vec![&fact(&[3, 1, 2]), &fact(&[1, 4, 2])]).unwrap();
    let c = op.eval(vec![Tensor::zero(vec![3, 1, 2]), Tensor::zero(vec![1, 4, 2])]).unwrap();
    let shape: Vec<TDim> = c[0].shape().iter().map(|d| TDim::Val(*d as i64)).collect();
    assert_eq!(facts[0].shape, shape);
    assert_eq!(shape, fact(&[3, 4, 1]).shape);
}

#[test]
fn tensors_have_as_many_elements_as_their_shape_holds() {
    assert!(Tensor::new(vec![2, 3], vec![0; 6]).is_some());
    assert!(Tensor::new(vec![2, 3], vec![0; 5]).is_none());
    assert!(Tensor::new(vec![], vec![7]).is_some());
    assert!(Tensor::new(vec![usize::MAX, 2, 0], vec![]).is_some());
    assert!(Tensor::new(vec![usize::MAX, 2], vec![1]).is_none());
    assert_eq!(Tensor::zero(vec![2, 2]).data(), &vec![0; 4]);
}

#[test]
fn models_refuse_what_does_not_suit() {
    let mut model = TypedModel::new();
    let a = model.add_source("a".to_string(), fact(&[2, 3]));
    let stray = OutletId { node: 4, slot: 0 };
    let rm = Op::Simple(SimpleOp::AxisOp(AxisOp::Rm(0)));
    assert_eq!(
        model.wire_node("rm".to_string(), rm, &vec![a]).unwrap_err(),
        Error::BadFacts
    );
    let add = Op::Simple(SimpleOp::AxisOp(AxisOp::Add(2)));
    assert_eq!(
        model.wire_node("add".to_string(), add.clone(), &vec![stray]).unwrap_err(),
        Error::UnknownOutlet
    );
    let b = model.wire_node("add".to_string(), add, &vec![a]).unwrap();
    assert_eq!(model.outlet_fact(b).unwrap().shape, fact(&[2, 3, 1]).shape);
    assert_eq!(model.outlet_fact(stray).unwrap_err(), Error::UnknownOutlet);
    assert_eq!(model.set_output_outlets(&vec![stray]).unwrap_err(), Error::UnknownOutlet);
}

#[test]
fn facts_of_einsums() {
    let op = EinSum::new(parse("amk,akn->nma"), DatumType::I64);
    let (a, b) = (fact(&[1, 2, 3]), fact(&[5, 3, 4]));
    let facts = op.output_facts(&vec![&a, &b]).unwrap();
    assert_eq!(facts[0].shape, vec![TDim::Val(4), TDim::Val(2), TDim::Val(5)]);
    assert_eq!(op.output_facts(&vec![&a]).unwrap_err(), Error::BadFacts);
}

#[test]
fn numbered_names() {
    assert_eq!(numbered(&"n".to_string(), 0), "n0");
    assert_eq!(numbered(&"n".to_string(), 1090), "n1090");
}
