use einsum_matmul::axes::AxesMapping;
use einsum_matmul::dequant::dequant;
use einsum_matmul::dim::TDim;
use einsum_matmul::error::Error;
use einsum_matmul::kernels::KernelSelection;
use einsum_matmul::model::{TypedModel, TypedNode};
use einsum_matmul::ops::{AxisOp, DatumType, EinSum, Op, SimpleOp, TypedFact};
use einsum_matmul::optimize::{AxesOrPatch, ensure_mkn_axes, inject_m_or_n_axis, optimize};
use einsum_matmul::patch::{Ref, TypedModelPatch};

fn parse(expr: &str) -> AxesMapping {
    let (inputs, outputs) = expr.split_once("->").unwrap();
    let rows = |part: &str| -> Vec<Vec<char>> {
        part.split(',').map(|row| row.chars().collect()).collect()
    };
    AxesMapping::from_labels(rows(inputs), rows(outputs))
}

fn show(axes: &AxesMapping) -> String {
    let inputs: Vec<String> =
        (0..axes.input_count()).map(|s| axes.input_labels(s).iter().collect()).collect();
    let outputs: Vec<String> =
        (0..axes.output_count()).map(|s| axes.output_labels(s).iter().collect()).collect();
    format!("{}->{}", inputs.join(","), outputs.join(","))
}

fn dims(shape: &[i64]) -> Vec<TDim> {
    shape.iter().map(|d| TDim::Val(*d)).collect()
}

fn fact(datum_type: DatumType, shape: Vec<TDim>) -> TypedFact {
    TypedFact { datum_type, shape }
}

fn model_of(op: EinSum, facts: Vec<TypedFact>) -> TypedModel {
    let mut model = TypedModel::new();
    let mut inputs = vec![];
    for (ix, fact) in facts.into_iter().enumerate() {
        inputs.push(model.add_source(format!("input_{}", ix), fact));
    }
    let output = model.wire_node("sum".to_string(), Op::EinSum(op), &inputs).unwrap();
    model.set_output_outlets(&vec![output]).unwrap();
    model
}

fn plain(expr: &str, a: Vec<TDim>, b: Vec<TDim>) -> TypedModel {
    model_of(
        EinSum::new(parse(expr), DatumType::F32),
        vec![fact(DatumType::F32, a), fact(DatumType::F32, b)],
    )
}

fn einsum_of(model: &TypedModel) -> (&EinSum, &TypedNode) {
    for node in &model.nodes {
        if let Op::EinSum(op) = &node.op {
            return (op, node);
        }
    }
    panic!("no einsum");
}

fn selection() -> KernelSelection {
    KernelSelection { a_packer: 11, b_packer: 12, kernels: vec![(21, 22), (31, 32)] }
}

fn step(model: &TypedModel) -> Result<Option<TypedModelPatch>, Error> {
    let (op, node) = einsum_of(model);
    optimize(op, model, node, &selection())
}

fn names(patch: &TypedModelPatch) -> Vec<&str> {
    patch.wires.iter().map(|wire| wire.name.as_str()).collect()
}

#[test]
fn parts_of_a_matrix_product() {
    let model = plain("bkm,bkn->bnm", dims(&[1, 3, 4]), dims(&[2, 3, 5]));
    let (op, node) = einsum_of(&model);
    match ensure_mkn_axes(op, &model, node).unwrap() {
        AxesOrPatch::Annotated(found) => {
            assert_eq!(found.m_axis.repr, 'm');
            assert_eq!(found.k_axis.repr, 'k');
            assert_eq!(found.n_axis.repr, 'n');
            assert_eq!((found.a_m(), found.a_k()), (2, 1));
            assert_eq!((found.b_k(), found.b_n()), (1, 2));
            assert_eq!((found.c_m(), found.c_n()), (2, 1));
            assert_eq!((found.m, found.k, found.n), (TDim::Val(4), TDim::Val(3), TDim::Val(5)));
            // The annotation stands for its einsum.
            assert_eq!(show(&found.axes), "bkm,bkn->bnm");
        }
        _ => panic!("no parts"),
    }
}

#[test]
fn the_widest_rows_are_taken() {
    let model = plain("xymk,kn->xymn", dims(&[7, 2, 7, 3]), dims(&[3, 5]));
    let (op, node) = einsum_of(&model);
    match ensure_mkn_axes(op, &model, node).unwrap() {
        // The last of equals.
        AxesOrPatch::Annotated(found) => assert_eq!(found.m_axis.repr, 'm'),
        _ => panic!("no parts"),
    }
    let symbolic = vec![TDim::Sym(0), TDim::Val(2), TDim::Val(7), TDim::Val(3)];
    let model = plain("xymk,kn->xymn", symbolic, dims(&[3, 5]));
    let (op, node) = einsum_of(&model);
    match ensure_mkn_axes(op, &model, node).unwrap() {
        AxesOrPatch::Annotated(found) => assert_eq!(found.m_axis.repr, 'x'),
        _ => panic!("no parts"),
    }
}

#[test]
fn an_axis_that_keeps_it_from_being_a_product() {
    let model = plain("mkx,kn->mn", dims(&[2, 3, 4]), dims(&[3, 5]));
    let (op, node) = einsum_of(&model);
    match ensure_mkn_axes(op, &model, node).unwrap() {
        AxesOrPatch::NotAMatMul(axis) => assert_eq!(axis.repr, 'x'),
        _ => panic!("no such axis"),
    }
    assert!(step(&model).unwrap().is_none());
}

#[test]
fn missing_sums() {
    let model = plain("m,n->mn", dims(&[2]), dims(&[3]));
    let patch = step(&model).unwrap().unwrap();
    assert_eq!(patch.context, "inject k axis");
    assert_eq!(names(&patch), vec!["sum.add_k.0", "sum.add_k.1", "sum"]);
    match &patch.wires[2].op {
        Op::EinSum(op) => assert_eq!(show(&op.axes), "am,an->mn"),
        other => panic!("{:?}", other),
    }
    assert_eq!(patch.wires[2].inputs, vec![Ref::Wire(0, 0), Ref::Wire(1, 0)]);
}

#[test]
fn missing_rows_and_columns() {
    let model = plain("k,kn->mn", dims(&[2]), dims(&[2, 3]));
    let patch = step(&model).unwrap().unwrap();
    assert_eq!(patch.context, "Injecting m or n axis");
    assert_eq!(names(&patch), vec!["sum.add_m", "sum"]);

    let model = plain("mk,nk->m", dims(&[2, 3]), dims(&[1, 3]));
    let patch = step(&model).unwrap().unwrap();
    assert_eq!(names(&patch), vec!["sum.einsum", "sum"]);
    match &patch.wires[0].op {
        Op::EinSum(op) => assert_eq!(show(&op.axes), "mk,nk->nm"),
        other => panic!("{:?}", other),
    }

    let model = plain("mk,k->m", dims(&[2, 3]), dims(&[3]));
    let patch = step(&model).unwrap().unwrap();
    assert_eq!(names(&patch), vec!["sum.add_n", "sum.einsum", "sum"]);
    match &patch.wires[1].op {
        Op::EinSum(op) => assert_eq!(show(&op.axes), "mk,ak->am"),
        other => panic!("{:?}", other),
    }
}

#[test]
fn a_label_that_would_change_the_output() {
    let model = plain("mk,nk->m", dims(&[2, 3]), dims(&[4, 3]));
    assert_eq!(step(&model).unwrap_err(), Error::BadFacts);
}

#[test]
fn fewer_rows_than_columns() {
    let model = plain("mk,kn->mn", dims(&[2, 3]), dims(&[3, 5]));
    let patch = step(&model).unwrap().unwrap();
    assert_eq!(names(&patch), vec!["sum"]);
    assert_eq!((patch.taps[0].node, patch.taps[1].node), (1, 0));
    match &patch.wires[0].op {
        Op::EinSum(op) => assert_eq!(show(&op.axes), "kn,mk->mn"),
        other => panic!("{:?}", other),
    }
    // Once is enough.
    let mut model = model;
    patch.apply(&mut model);
    let patch = step(&model).unwrap().unwrap();
    assert_eq!(patch.context, "Einsum to OptMatMul");
}

#[test]
fn unknown_rows() {
    let rows = vec![TDim::Sym(0), TDim::Val(3)];
    let model = plain("mk,kn->mn", rows.clone(), dims(&[3, 8]));
    assert_eq!(names(&step(&model).unwrap().unwrap()), vec!["sum"]);
    let model = plain("mk,kn->mn", rows, dims(&[3, 7]));
    assert_eq!(step(&model).unwrap().unwrap().context, "Einsum to OptMatMul");
}

#[test]
fn a_product_by_a_kernel() {
    let model = plain("bmck,bkn->bmcn", dims(&[2, 9, 6, 3]), dims(&[2, 3, 4]));
    let patch = step(&model).unwrap().unwrap();
    assert_eq!(names(&patch), vec!["sum.pack_a", "sum.pack_b", "sum"]);
    assert!(matches!(patch.wires[0].op, Op::Simple(SimpleOp::Pack(1, 3, 11))));
    assert!(matches!(patch.wires[1].op, Op::Simple(SimpleOp::Pack(2, 1, 12))));
    match &patch.wires[2].op {
        Op::OptMatMul(op) => {
            assert_eq!((op.kernel, op.packing), (21, 22));
            assert_eq!((op.c_m_axis, op.c_n_axis), (1, 3));
            assert_eq!(op.k, TDim::Val(3));
            // Packed, the first operand has the axes b and c, the second b.
            assert_eq!(op.c_to_a_axis_mapping, vec![(0, 0), (2, 1)]);
            assert_eq!(op.c_to_b_axis_mapping, vec![(0, 0)]);
            assert_eq!(op.c_fact.shape, dims(&[2, 9, 6, 4]));
        }
        other => panic!("{:?}", other),
    }
}

#[test]
fn a_number_of_inputs_that_is_not_two() {
    let op = EinSum::new(parse("mk,kn,x->mnx"), DatumType::F32);
    let shapes = [vec![2, 3], vec![3, 5], vec![2]];
    let facts = shapes.iter().map(|s| fact(DatumType::F32, dims(s))).collect();
    assert!(step(&model_of(op, facts)).unwrap().is_none());
}

fn quantized(a_scale: &[i64], expr: &str) -> TypedModel {
    let result = DatumType::QI8(7);
    let mut op = EinSum::new(parse(expr), DatumType::I32);
    op.q_params = Some(result);
    let facts = vec![
        fact(DatumType::QU8(5), dims(&[4, 3])),
        fact(DatumType::I8, dims(&[3, 2])),
        fact(DatumType::I32, dims(&[2])),
        fact(DatumType::I32, dims(&[])),
        fact(DatumType::F32, dims(a_scale)),
        fact(DatumType::I32, dims(&[])),
        fact(DatumType::F32, dims(&[])),
        fact(DatumType::I32, dims(&[])),
        fact(DatumType::F32, dims(&[])),
    ];
    model_of(op, facts)
}

#[test]
fn a_quantized_einsum() {
    let model = quantized(&[4], "mk,kn,n,,m,,,,->mn");
    let patch = step(&model).unwrap().unwrap();
    assert_eq!(patch.context, "Dequantizing einsum");
    assert_eq!(
        names(&patch),
        vec![
            "sum.scale_input0_axis_fix_1",
            "sum.ensure_q8_a",
            "sum.ensure_q8_b",
            "sum",
            "sum.a_as_i32",
            "sum.b_as_i32",
            "sum.sum_a",
            "sum.sum_b",
            "sum.fix_sum_a.0)",
            "sum.fix_sum_a.1)",
            "sum.fix_sum_b.0)",
            "sum.fix_sum_b.1)",
            "sum.fix_bias.0)",
            "sum.combine_scales",
            "sum.add_bias",
            "sum.compensate_zero_points",
            "sum.requant",
        ]
    );
    assert!(matches!(patch.wires[0].op, Op::Simple(SimpleOp::AxisOp(AxisOp::Add(1)))));
    match &patch.wires[3].op {
        Op::EinSum(op) => {
            assert_eq!(show(&op.axes), "mk,kn->mn");
            assert!(op.q_params.is_none());
        }
        other => panic!("{:?}", other),
    }
    assert!(matches!(patch.wires[6].op, Op::Simple(SimpleOp::Sum(1))));
    assert!(matches!(patch.wires[7].op, Op::Simple(SimpleOp::Sum(0))));
    // The sums and the bias end up with the axes of the output.
    let last_of = |name: &str| {
        let ix = patch.wires.iter().rposition(|w| w.name.starts_with(name)).unwrap();
        patch.facts[ix][0].shape.clone()
    };
    assert_eq!(last_of("sum.fix_sum_a"), dims(&[4, 1]));
    assert_eq!(last_of("sum.fix_sum_b"), dims(&[1, 2]));
    assert_eq!(last_of("sum.fix_bias"), dims(&[1, 2]));
    assert_eq!(last_of("sum.scale_input0"), dims(&[4, 1]));
    let mut model = model;
    let expected = model.nodes[9].outputs[0].shape.clone();
    patch.apply(&mut model);
    let output = model.outputs[0];
    let fact = model.outlet_fact(output).unwrap();
    assert_eq!(fact.datum_type, DatumType::QI8(7));
    assert_eq!(fact.shape, expected);
}

#[test]
fn a_single_scale_needs_no_axes() {
    let patch = step(&quantized(&[], "mk,kn,n,,,,,,->mn")).unwrap().unwrap();
    assert_eq!(names(&patch)[0], "sum.ensure_q8_a");
    let patch = step(&quantized(&[1], "mk,kn,n,,m,,,,->mn")).unwrap().unwrap();
    assert_eq!(names(&patch)[0], "sum.ensure_q8_a");
}

#[test]
fn a_scale_along_no_axis_of_the_output() {
    assert_eq!(
        step(&quantized(&[3], "mk,kn,n,,k,,,,->mn")).unwrap_err(),
        Error::UnknownLabel
    );
}

#[test]
fn a_quantized_einsum_of_two_inputs() {
    let mut op = EinSum::new(parse("mk,kn->mn"), DatumType::I32);
    op.q_params = Some(DatumType::QI8(0));
    let facts = vec![fact(DatumType::I8, dims(&[2, 3])), fact(DatumType::I8, dims(&[3, 4]))];
    let model = model_of(op, facts);
    assert!(step(&model).unwrap().is_none());
    let (op, node) = einsum_of(&model);
    match ensure_mkn_axes(op, &model, node).unwrap() {
        AxesOrPatch::Annotated(found) => {
            assert_eq!(dequant(&model, node, &found).unwrap_err(), Error::NotNineInputs);
        }
        _ => panic!("no parts"),
    }
}

#[test]
fn added_sums_are_found() {
    let mut model = plain("m,n->mn", dims(&[5]), dims(&[3]));
    step(&model).unwrap().unwrap().apply(&mut model);
    let (op, node) = einsum_of(&model);
    match ensure_mkn_axes(op, &model, node).unwrap() {
        AxesOrPatch::Annotated(found) => {
            assert_eq!(found.k_axis.repr, 'a');
            assert_eq!(found.k, TDim::Val(1));
            assert_eq!((found.m_axis.repr, found.n_axis.repr), ('m', 'n'));
        }
        _ => panic!("no parts"),
    }
}

#[test]
fn only_a_product_needs_a_kernel() {
    let nothing = KernelSelection { a_packer: 0, b_packer: 0, kernels: vec![] };
    let context = |model: &TypedModel| {
        let (op, node) = einsum_of(model);
        optimize(op, model, node, &nothing).unwrap().map(|patch| patch.context)
    };
    let found = |text: &str| Some(text.to_string());
    assert_eq!(context(&plain("m,n->mn", dims(&[2]), dims(&[3]))), found("inject k axis"));
    let model = plain("mk,k->m", dims(&[2, 3]), dims(&[3]));
    assert_eq!(context(&model), found("Injecting m or n axis"));
    let model = plain("mk,kn->mn", dims(&[2, 3]), dims(&[3, 5]));
    assert_eq!(context(&model), found(""));
    let model = quantized(&[], "mk,kn,n,,,,,,->mn");
    assert_eq!(context(&model), found("Dequantizing einsum"));
    let model = plain("mkx,kn->mn", dims(&[2, 3, 4]), dims(&[3, 5]));
    assert_eq!(context(&model), None);
}

#[test]
fn an_excluded_label_stays_as_it_is() {
    let model = plain("k,kn->mn", dims(&[2]), dims(&[2, 3]));
    let (op, node) = einsum_of(&model);
    let patch = inject_m_or_n_axis(op, &model, node, false, &vec![]).unwrap();
    assert_eq!(names(&patch), vec!["sum.add_m", "sum"]);
    match &patch.wires[1].op {
        Op::EinSum(op) => assert_eq!(show(&op.axes), "mk,kn->mn"),
        other => panic!("{:?}", other),
    }
    let rows = op.axes.axis('m').unwrap();
    let patch = inject_m_or_n_axis(op, &model, node, false, &vec![rows]).unwrap();
    assert_eq!(names(&patch), vec!["sum.add_m", "sum.einsum", "sum"]);
    match &patch.wires[1].op {
        Op::EinSum(op) => assert_eq!(show(&op.axes), "ak,kn->amn"),
        other => panic!("{:?}", other),
    }
}

#[test]
fn rewrites_keep_the_inputs_and_the_facts_of_the_outputs() {
    let models = vec![
        plain("m,n->mn", dims(&[2]), dims(&[3])),
        plain("k,kn->mn", dims(&[2]), dims(&[2, 3])),
        plain("mk,nk->m", dims(&[2, 3]), dims(&[1, 3])),
        plain("mk,k->m", dims(&[2, 3]), dims(&[3])),
        plain("mk,kn->mn", dims(&[2, 3]), dims(&[3, 5])),
        plain("mk,kn->mn", dims(&[5, 3]), dims(&[3, 2])),
        quantized(&[4], "mk,kn,n,,m,,,,->mn"),
    ];
    for mut model in models {
        let sources = |model: &TypedModel| -> Vec<String> {
            let nodes = model.nodes.iter().filter(|node| matches!(node.op, Op::Source));
            nodes.map(|node| node.name.clone()).collect()
        };
        let fact_of = |model: &TypedModel| -> (DatumType, Vec<TDim>) {
            let fact = model.outlet_fact(model.outputs[0]).unwrap();
            (fact.datum_type, fact.shape.clone())
        };
        let before = (sources(&model), fact_of(&model));
        step(&model).unwrap().unwrap().apply(&mut model);
        assert_eq!((sources(&model), fact_of(&model)), before);
    }
}

/// All coordinates within a shape, in order.
fn all_coords(shape: &[usize]) -> Vec<Vec<usize>> {
    let mut all = vec![vec![]];
    for dim in shape {
        all = all
            .iter()
            .flat_map(|c| (0..*dim).map(move |i| [c.clone(), vec![i]].concat()))
            .collect();
    }
    all
}

fn element(data: &[i64], shape: &[usize], coords: &[usize]) -> i64 {
    data[shape.iter().zip(coords).fold(0, |at, (dim, c)| at * dim + c)]
}

/// The element of an operand for a row or column, a term of the sums, and a matrix of
/// the stack, by the axes that a kernel is told.
fn operand_coords(
    rank: usize,
    (mn, k): (usize, usize),
    pairs: &[(usize, usize)],
    (at, v): (usize, usize),
    coords: &[usize],
) -> Vec<usize> {
    let mut packed = 0;
    let mut all = vec![];
    for axis in 0..rank {
        if axis == mn {
            all.push(at);
        } else if axis == k {
            all.push(v);
        } else {
            all.push(pairs.iter().find(|pair| pair.1 == packed).map_or(0, |pair| coords[pair.0]));
            packed += 1;
        }
    }
    all
}

fn kernel_gives_the_einsum(expr: &str, a: &[usize], b: &[usize], expected: &[i64]) {
    let tdims = |shape: &[usize]| shape.iter().map(|d| TDim::Val(*d as i64)).collect();
    let patch = step(&plain(expr, tdims(a), tdims(b))).unwrap().unwrap();
    let packed = |wire: usize| match patch.wires[wire].op {
        Op::Simple(SimpleOp::Pack(mn, k, _)) => (mn, k),
        _ => panic!("no packing"),
    };
    let Op::OptMatMul(op) = &patch.wires[2].op else { panic!("no kernel") };
    let data = |shape: &[usize]| -> Vec<i64> {
        (0..shape.iter().product::<usize>() as i64).map(|i| 2 * i + 1).collect()
    };
    let (x, y) = (data(a), data(b));
    let shape: Vec<usize> = op
        .c_fact
        .shape
        .iter()
        .map(|d| match d {
            TDim::Val(d) => *d as usize,
            TDim::Sym(_) => panic!("unknown"),
        })
        .collect();
    let depth = a[packed(0).1];
    let product: Vec<i64> = all_coords(&shape)
        .iter()
        .map(|c| {
            (0..depth)
                .map(|v| {
                    let (at_m, at_n) = (c[op.c_m_axis], c[op.c_n_axis]);
                    let ca = operand_coords(
                        a.len(),
                        packed(0),
                        &op.c_to_a_axis_mapping,
                        (at_m, v),
                        c,
                    );
                    let cb = operand_coords(
                        b.len(),
                        packed(1),
                        &op.c_to_b_axis_mapping,
                        (at_n, v),
                        c,
                    );
                    element(&x, a, &ca) * element(&y, b, &cb)
                })
                .sum()
        })
        .collect();
    assert_eq!(product, expected);
}

#[test]
fn the_axes_that_a_kernel_is_told_give_the_einsum() {
    // x is 1 3 5 7, y is 1 3 5 7.
    kernel_gives_the_einsum("mk,kn->mn", &[2, 2], &[2, 2], &[16, 24, 40, 64]);
    // The output transposed.
    kernel_gives_the_einsum("mk,kn->nm", &[2, 2], &[2, 2], &[16, 40, 24, 64]);
    // A stack of two, along both operands.
    kernel_gives_the_einsum("bmk,bkn->bmn", &[2, 2, 1], &[2, 1, 1], &[1, 3, 15, 21]);
    // A stack along the first operand alone, and a sum of one term beside the sums.
    kernel_gives_the_einsum("xbmk,bkn->mbn", &[1, 2, 3, 1], &[1, 1, 1], &[1, 7, 3, 9, 5, 11]);
}

/// An axis of another mapping, with the same label at other positions, is not excluded.
#[test]
fn an_axis_of_another_mapping_is_not_excluded() {
    let model = plain("k,kn->mn", dims(&[2]), dims(&[2, 3]));
    let (op, node) = einsum_of(&model);
    let other = parse("k,kn->nm");
    let rows = other.axis('m').unwrap();
    let patch = inject_m_or_n_axis(op, &model, node, false, &vec![rows]).unwrap();
    assert_eq!(names(&patch), vec!["sum.add_m", "sum"]);
}

fn quantized_vector() -> TypedModel {
    let mut op = EinSum::new(parse("k,kn,n,,,,,,->mn"), DatumType::I32);
    op.q_params = Some(DatumType::QI8(7));
    let mut facts = vec![
        fact(DatumType::QU8(5), dims(&[3])),
        fact(DatumType::I8, dims(&[3, 2])),
        fact(DatumType::I32, dims(&[2])),
    ];
    for dt in [DatumType::I32, DatumType::F32, DatumType::I32, DatumType::F32] {
        facts.push(fact(dt, dims(&[])));
    }
    facts.push(fact(DatumType::I32, dims(&[])));
    facts.push(fact(DatumType::F32, dims(&[])));
    model_of(op, facts)
}

#[test]
fn a_quantized_einsum_gets_rows() {
    let model = quantized_vector();
    let patch = step(&model).unwrap().unwrap();
    assert_eq!(names(&patch), vec!["sum.add_m", "sum"]);
    match &patch.wires[1].op {
        Op::EinSum(op) => {
            assert_eq!(show(&op.axes), "mk,kn,n,,,,,,->mn");
            assert!(matches!(op.q_params, Some(DatumType::QI8(7))));
        }
        other => panic!("{:?}", other),
    }
    let mut expected = vec![Ref::Wire(0, 0)];
    expected.extend((1..9).map(Ref::Tap));
    assert_eq!(patch.wires[1].inputs, expected);
    // It has rows now.
    let mut model = model;
    patch.apply(&mut model);
    let (op, node) = einsum_of(&model);
    match ensure_mkn_axes(op, &model, node).unwrap() {
        AxesOrPatch::Annotated(found) => assert_eq!(found.m_axis.repr, 'm'),
        _ => panic!("no parts"),
    }
}

/// A tensor of integers.
#[derive(Clone, Debug, PartialEq)]
struct Ints {
    shape: Vec<usize>,
    data: Vec<i64>,
}

impl Ints {
    fn new(shape: &[usize], data: &[i64]) -> Ints {
        assert_eq!(shape.iter().product::<usize>(), data.len());
        Ints { shape: shape.to_vec(), data: data.to_vec() }
    }

    fn tabulate(shape: &[usize], f: impl Fn(&[usize]) -> i64) -> Ints {
        Ints { shape: shape.to_vec(), data: all_coords(shape).iter().map(|c| f(c)).collect() }
    }

    /// The element at coordinates, of which those along axes of dimension one do not
    /// matter.
    fn at(&self, coords: &[usize]) -> i64 {
        let within: Vec<usize> =
            self.shape.iter().zip(coords).map(|(d, c)| if *d == 1 { 0 } else { *c }).collect();
        element(&self.data, &self.shape, &within)
    }
}

fn joint_shape(x: &Ints, y: &Ints) -> Vec<usize> {
    x.shape.iter().zip(&y.shape).map(|(a, b)| if *a != 1 { *a } else { *b }).collect()
}

/// What the operators of a dequantized einsum compute, on integers; the last one but
/// hands its first input on.
fn compute(op: &Op, xs: &[Ints]) -> Vec<Ints> {
    let x = &xs[0];
    let simple = match op {
        Op::EinSum(op) => {
            assert_eq!(show(&op.axes), "mk,kn->mn");
            let (rows, depth, columns) = (x.shape[0], x.shape[1], xs[1].shape[1]);
            return vec![Ints::tabulate(&[rows, columns], |c| {
                (0..depth).map(|k| x.at(&[c[0], k]) * xs[1].at(&[k, c[1]])).sum()
            })];
        }
        Op::Simple(simple) => simple,
        other => panic!("cannot compute {:?}", other),
    };
    vec![match *simple {
        SimpleOp::AxisOp(AxisOp::Add(i)) => {
            let mut shape = x.shape.clone();
            shape.insert(i, 1);
            Ints::new(&shape, &x.data)
        }
        SimpleOp::AxisOp(AxisOp::Rm(i)) => {
            let mut shape = x.shape.clone();
            assert_eq!(shape.remove(i), 1);
            Ints::new(&shape, &x.data)
        }
        SimpleOp::Cast(_) => x.clone(),
        SimpleOp::Sum(axis) => {
            let mut shape = x.shape.clone();
            let depth = std::mem::replace(&mut shape[axis], 1);
            Ints::tabulate(&shape, |c| {
                (0..depth)
                    .map(|v| {
                        let mut coords = c.to_vec();
                        coords[axis] = v;
                        element(&x.data, &x.shape, &coords)
                    })
                    .sum()
            })
        }
        SimpleOp::Add => Ints::tabulate(&joint_shape(x, &xs[1]), |c| x.at(c) + xs[1].at(c)),
        // To bytes with a sign: the element and the zero point move alike.
        SimpleOp::EnsureSigned => {
            let moved = |x: &Ints| {
                Ints::new(&x.shape, &x.data.iter().map(|v| v - 128).collect::<Vec<i64>>())
            };
            return vec![moved(x), moved(&xs[1])];
        }
        SimpleOp::CombineScales => x.clone(),
        SimpleOp::CompensateZeroPoints(TDim::Val(k)) => {
            let (a0, b0) = (xs[1].data[0], xs[2].data[0]);
            Ints::tabulate(&x.shape, |c| {
                x.at(c) - a0 * xs[4].at(c) - b0 * xs[3].at(c) + k * a0 * b0
            })
        }
        SimpleOp::Requant(_) => x.clone(),
        other => panic!("cannot compute {:?}", other),
    }]
}

#[test]
fn a_dequantized_einsum_sums_products_relative_to_the_zero_points() {
    let patch = step(&quantized(&[4], "mk,kn,n,,m,,,,->mn")).unwrap().unwrap();
    let a = Ints::new(&[4, 3], &[1, 2, 3, 4, 5, 6, 7, 8, 9, 10, 11, 12]);
    let b = Ints::new(&[3, 2], &[-1, 2, 0, 3, 4, -5]);
    let bias = Ints::new(&[2], &[100, 1000]);
    let scalar = |v: i64| Ints::new(&[], &[v]);
    let scale = Ints::new(&[4], &[1, 1, 1, 1]);
    let (a0, b0) = (3, -2);
    let taps = vec![
        a.clone(),
        b.clone(),
        bias.clone(),
        scalar(a0),
        scale,
        scalar(b0),
        scalar(1),
        scalar(0),
        scalar(1),
    ];
    let mut made: Vec<Vec<Ints>> = vec![];
    for wire in &patch.wires {
        let given: Vec<Ints> = wire
            .inputs
            .iter()
            .map(|r| match *r {
                Ref::Tap(t) => taps[t].clone(),
                Ref::Wire(i, s) => made[i][s].clone(),
            })
            .collect();
        let values = compute(&wire.op, &given);
        made.push(values);
    }
    let expected = Ints::tabulate(&[4, 2], |c| {
        let terms = (0..3).map(|k| (a.at(&[c[0], k]) - a0) * (b.at(&[k, c[1]]) - b0));
        terms.sum::<i64>() + bias.data[c[1]]
    });
    assert_eq!(expected.data, vec![96, 987, 123, 1005, 150, 1023, 177, 1041]);
    assert_eq!(made[patch.wires.len() - 2][0], expected);
    assert_eq!(made[patch.wires.len() - 1][0], expected);
}
