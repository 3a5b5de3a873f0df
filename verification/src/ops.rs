//! The operators of a model, and the facts that they derive about their
//! outputs.

use vstd::prelude::*;

use crate::axes::AxesMapping;
use crate::dim::{DimLike, TDim};
use crate::error::Error;
use crate::labels::Expr;
use crate::matmul::{BasicMatMul, pair_first, pair_second};
use crate::product::{extent, output_dims, row_extent};

verus! {

/// The type of the elements of a tensor. A quantized type carries the
/// identifier of its parameters.
#[derive(Clone, Copy, Debug, PartialEq, Eq, Structural)]
pub enum DatumType {
    Bool,
    U8,
    U16,
    U32,
    U64,
    I8,
    I16,
    I32,
    I64,
    F16,
    F32,
    F64,
    TDim,
    Opaque,
    QU8(u64),
    QI8(u64),
    QI32(u64),
}

/// What is known of a tensor before it is computed.
#[derive(Debug)]
pub struct TypedFact {
    pub datum_type: DatumType,
    pub shape: Vec<TDim>,
}

/// The model of a fact.
#[verifier::ext_equal]
pub struct Fact {
    pub datum_type: DatumType,
    pub shape: Seq<TDim>,
}

impl View for TypedFact {
    type V = Fact;

    open spec fn view(&self) -> Fact {
        Fact { datum_type: self.datum_type, shape: self.shape@ }
    }
}

/// A copy of a shape.
pub fn copy_dims(dims: &Vec<TDim>) -> (r: Vec<TDim>)
    ensures
        r@ == dims@,
{
    let mut copy: Vec<TDim> = Vec::new();
    for i in 0..dims.len()
        invariant
            copy@ == dims@.take(i as int),
    {
        copy.push(dims[i]);
        assert(dims@.take(i + 1) =~= dims@.take(i as int).push(dims@[i as int]));
    }
    assert(dims@.take(dims@.len() as int) =~= dims@);
    copy
}

impl Clone for TypedFact {
    fn clone(&self) -> (r: TypedFact)
        ensures
            r@ == self@,
    {
        TypedFact { datum_type: self.datum_type, shape: copy_dims(&self.shape) }
    }
}

/// Whether two shapes are the same.
pub fn same_dims(a: &Vec<TDim>, b: &Vec<TDim>) -> (r: bool)
    ensures
        r == (a@ == b@),
{
    if a.len() != b.len() {
        return false;
    }
    for i in 0..a.len()
        invariant
            a@.len() == b@.len(),
            forall|j: int| 0 <= j < i ==> a@[j] == b@[j],
    {
        if a[i] != b[i] {
            return false;
        }
    }
    assert(a@ =~= b@);
    true
}

/// Whether two facts are the same.
pub fn same_fact(a: &TypedFact, b: &TypedFact) -> (r: bool)
    ensures
        r == (a@ == b@),
{
    a.datum_type == b.datum_type && same_dims(&a.shape, &b.shape)
}

/// Changes of the axes of a tensor.
#[derive(Clone, Copy, Debug, PartialEq, Eq, Structural)]
pub enum AxisOp {
    /// Adds an axis of dimension one.
    Add(usize),
    /// Removes an axis of dimension one.
    Rm(usize),
    /// Moves an axis to another position.
    Move(usize, usize),
}

impl AxisOp {
    /// The shape after the change, if the change is possible.
    pub open spec fn change<D>(self, shape: Seq<D>, one: D) -> Option<Seq<D>> {
        match self {
            AxisOp::Add(i) => if i <= shape.len() {
                Some(shape.insert(i as int, one))
            } else {
                None
            },
            AxisOp::Rm(i) => if i < shape.len() && shape[i as int] == one {
                Some(shape.remove(i as int))
            } else {
                None
            },
            AxisOp::Move(from, to) => if from < shape.len() && to < shape.len() {
                Some(shape.remove(from as int).insert(to as int, shape[from as int]))
            } else {
                None
            },
        }
    }

    fn change_shape(&self, shape: &Vec<TDim>) -> (r: Option<Vec<TDim>>)
        ensures
            match r {
                Some(s) => self.change(shape@, TDim::Val(1)) == Some(s@),
                None => self.change(shape@, TDim::Val(1)) is None,
            },
    {
        let mut out = copy_dims(shape);
        match *self {
            AxisOp::Add(i) => {
                if i > out.len() {
                    return None;
                }
                out.insert(i, TDim::Val(1));
            },
            AxisOp::Rm(i) => {
                if i >= out.len() || !out[i].is_one() {
                    return None;
                }
                out.remove(i);
            },
            AxisOp::Move(from, to) => {
                if from >= out.len() || to >= out.len() {
                    return None;
                }
                let d = out.remove(from);
                out.insert(to, d);
            },
        }
        Some(out)
    }
}

/// An einsum, possibly quantized. A quantized einsum has nine inputs: the two
/// operands, the bias, and the zero points and scales of the operands and of
/// the result.
#[derive(Debug)]
pub struct EinSum {
    pub axes: AxesMapping,
    pub operating_dt: DatumType,
    pub q_params: Option<DatumType>,
}

/// The model of an einsum.
#[verifier::ext_equal]
pub struct EinSumView {
    pub axes: Expr,
    pub operating_dt: DatumType,
    pub q_params: Option<DatumType>,
}

impl EinSumView {
    /// Whether there are two inputs at least, and one output with distinct
    /// labels.
    pub open spec fn wf(self) -> bool {
        &&& self.axes.inputs.len() >= 2
        &&& self.axes.outputs.len() == 1
        &&& self.axes.outputs[0].no_duplicates()
    }

    /// The same einsum over other axes.
    pub open spec fn over(self, axes: Expr) -> EinSumView {
        EinSumView { axes, ..self }
    }
}

impl View for EinSum {
    type V = EinSumView;

    open spec fn view(&self) -> EinSumView {
        EinSumView {
            axes: self.axes@,
            operating_dt: self.operating_dt,
            q_params: self.q_params,
        }
    }
}

impl EinSum {
    pub fn new(axes: AxesMapping, operating_dt: DatumType) -> (r: EinSum)
        ensures
            r@ == (EinSumView { axes: axes@, operating_dt, q_params: None }),
    {
        EinSum { axes, operating_dt, q_params: None }
    }

    /// The same einsum over other axes.
    pub fn over(&self, axes: AxesMapping) -> (r: EinSum)
        ensures
            r@ == self@.over(axes@),
    {
        EinSum { axes, operating_dt: self.operating_dt, q_params: self.q_params }
    }
}

impl Clone for EinSum {
    fn clone(&self) -> (r: EinSum)
        ensures
            r@ == self@,
    {
        EinSum {
            axes: self.axes.clone(),
            operating_dt: self.operating_dt,
            q_params: self.q_params,
        }
    }
}

/// A matrix product by a kernel on packed operands.
#[derive(Debug)]
pub struct OptMatMul {
    /// The kernel, and its way of packing.
    pub kernel: u64,
    pub packing: u64,
    /// The fact of the result, and where its rows and its columns are.
    pub c_fact: TypedFact,
    pub c_m_axis: usize,
    pub c_n_axis: usize,
    /// How long the sums are.
    pub k: TDim,
    /// Which axes of the packed operands the other axes of the result go along.
    pub c_to_a_axis_mapping: Vec<(usize, usize)>,
    pub c_to_b_axis_mapping: Vec<(usize, usize)>,
}

/// The model of a matrix product by a kernel.
#[verifier::ext_equal]
pub struct OptMatMulView {
    pub kernel: u64,
    pub packing: u64,
    pub c_fact: Fact,
    pub c_m_axis: usize,
    pub c_n_axis: usize,
    pub k: TDim,
    pub c_to_a_axis_mapping: Seq<(usize, usize)>,
    pub c_to_b_axis_mapping: Seq<(usize, usize)>,
}

impl View for OptMatMul {
    type V = OptMatMulView;

    open spec fn view(&self) -> OptMatMulView {
        OptMatMulView {
            kernel: self.kernel,
            packing: self.packing,
            c_fact: self.c_fact@,
            c_m_axis: self.c_m_axis,
            c_n_axis: self.c_n_axis,
            k: self.k,
            c_to_a_axis_mapping: self.c_to_a_axis_mapping@,
            c_to_b_axis_mapping: self.c_to_b_axis_mapping@,
        }
    }
}

/// The operators that plain values describe.
#[derive(Clone, Copy, Debug, PartialEq, Eq, Structural)]
pub enum SimpleOp {
    AxisOp(AxisOp),
    BasicMatMul(BasicMatMul),
    /// Changes the type of the elements.
    Cast(DatumType),
    /// Adds two tensors, broadcasting.
    Add,
    /// Sums along an axis, and keeps it with the dimension one.
    Sum(usize),
    /// Brings a quantized operand and its zero point to signed bytes.
    EnsureSigned,
    /// The scale of a product, relative to that of the result: `a * b / c`.
    CombineScales,
    /// Takes the zero points of the operands out of a product of raw values:
    /// from the product, the zero points, and the sums of the operands.
    CompensateZeroPoints(TDim),
    /// Scales, shifts by a zero point, and brings to a type.
    Requant(DatumType),
    /// Packs the matrices of an operand: axes of the rows or columns and of the
    /// sums, and the packer.
    Pack(usize, usize, u64),
}

/// An operator.
#[derive(Debug)]
pub enum Op {
    /// An input of the model.
    Source,
    EinSum(EinSum),
    OptMatMul(OptMatMul),
    Simple(SimpleOp),
    /// Some other operator, with the facts of its outputs.
    Other(u64, Vec<TypedFact>),
}

/// The model of an operator.
pub enum OpView {
    Source,
    EinSum(EinSumView),
    OptMatMul(OptMatMulView),
    Simple(SimpleOp),
    Other(u64, Seq<Fact>),
}

/// The models of some facts.
pub open spec fn facts_view(facts: Seq<TypedFact>) -> Seq<Fact> {
    Seq::new(facts.len(), |i: int| facts[i]@)
}

/// The models of the facts that some references point to.
pub open spec fn fact_refs(facts: Seq<&TypedFact>) -> Seq<Fact> {
    Seq::new(facts.len(), |i: int| facts[i]@)
}

impl View for Op {
    type V = OpView;

    open spec fn view(&self) -> OpView {
        match self {
            Op::Source => OpView::Source,
            Op::EinSum(op) => OpView::EinSum(op@),
            Op::OptMatMul(op) => OpView::OptMatMul(op@),
            Op::Simple(op) => OpView::Simple(*op),
            Op::Other(id, facts) => OpView::Other(*id, facts_view(facts@)),
        }
    }
}

/// The shapes in some facts.
pub open spec fn fact_shapes(inputs: Seq<Fact>) -> Seq<Seq<TDim>> {
    Seq::new(inputs.len(), |i: int| inputs[i].shape)
}

/// Whether there is a fact for each input of the einsum, of its rank.
pub open spec fn ranks_suit(e: Expr, inputs: Seq<Fact>) -> bool {
    &&& inputs.len() == e.inputs.len()
    &&& forall|s: int|
        0 <= s < inputs.len() ==> (#[trigger] inputs[s]).shape.len() == e.inputs[s].len()
}

/// The dimension of two dimensions that broadcast.
pub open spec fn broadcast_dim(a: TDim, b: TDim) -> Option<TDim> {
    if a == TDim::Val(1) {
        Some(b)
    } else if b == TDim::Val(1) || a == b {
        Some(a)
    } else {
        None
    }
}

/// The shape of two shapes of one rank that broadcast.
pub open spec fn broadcast_shape(a: Seq<TDim>, b: Seq<TDim>) -> Option<Seq<TDim>> {
    if a.len() == b.len() && forall|i: int|
        0 <= i < a.len() ==> broadcast_dim(#[trigger] a[i], b[i]) is Some {
        Some(Seq::new(a.len(), |i: int| broadcast_dim(a[i], b[i])->0))
    } else {
        None
    }
}

/// A shape with axes of dimension one in front, up to a rank.
pub open spec fn padded(shape: Seq<TDim>, rank: nat) -> Seq<TDim> {
    Seq::new((rank - shape.len()) as nat, |i: int| TDim::Val(1)) + shape
}

/// The shape of two shapes that broadcast from their last axes on.
pub open spec fn rank_broadcast(a: Seq<TDim>, b: Seq<TDim>) -> Option<Seq<TDim>> {
    if a.len() <= b.len() {
        broadcast_shape(padded(a, b.len()), b)
    } else {
        broadcast_shape(a, padded(b, a.len()))
    }
}

/// The signed flavour of a type of bytes.
pub open spec fn signed(dt: DatumType) -> Option<DatumType> {
    match dt {
        DatumType::I8 | DatumType::U8 => Some(DatumType::I8),
        DatumType::QI8(p) | DatumType::QU8(p) => Some(DatumType::QI8(p)),
        _ => None,
    }
}

impl SimpleOp {
    /// The facts of the outputs, if the inputs suit the operator.
    pub open spec fn facts(self, inputs: Seq<Fact>) -> Option<Seq<Fact>> {
        match self {
            SimpleOp::AxisOp(op) => if inputs.len() == 1 {
                match op.change(inputs[0].shape, TDim::Val(1)) {
                    Some(shape) => Some(seq![Fact { shape, ..inputs[0] }]),
                    None => None,
                }
            } else {
                None
            },
            SimpleOp::BasicMatMul(op) => if inputs.len() >= 2 && inputs[0].shape.len()
                == inputs[1].shape.len() && inputs[0].shape.len() >= 2 && pair_second(
                inputs[0].shape,
                op.transpose_a,
            ) == pair_first(inputs[1].shape, op.transpose_b) {
                Some(
                    seq![
                        Fact {
                            datum_type: inputs[0].datum_type,
                            shape: op.dims(inputs[0].shape, inputs[1].shape, TDim::Val(1)),
                        },
                    ],
                )
            } else {
                None
            },
            SimpleOp::Cast(dt) => if inputs.len() == 1 {
                Some(seq![Fact { datum_type: dt, ..inputs[0] }])
            } else {
                None
            },
            SimpleOp::Add => if inputs.len() == 2 && inputs[0].datum_type == inputs[1].datum_type {
                match broadcast_shape(inputs[0].shape, inputs[1].shape) {
                    Some(shape) => Some(seq![Fact { shape, ..inputs[0] }]),
                    None => None,
                }
            } else {
                None
            },
            SimpleOp::Sum(axis) => if inputs.len() == 1 && axis < inputs[0].shape.len() {
                Some(
                    seq![
                        Fact {
                            shape: inputs[0].shape.update(axis as int, TDim::Val(1)),
                            ..inputs[0]
                        },
                    ],
                )
            } else {
                None
            },
            SimpleOp::EnsureSigned => if inputs.len() == 2 {
                match signed(inputs[0].datum_type) {
                    Some(dt) => Some(seq![Fact { datum_type: dt, ..inputs[0] }, inputs[1]]),
                    None => None,
                }
            } else {
                None
            },
            SimpleOp::CombineScales => if inputs.len() == 3 {
                match rank_broadcast(inputs[0].shape, inputs[1].shape) {
                    Some(ab) => match rank_broadcast(ab, inputs[2].shape) {
                        Some(shape) => Some(seq![Fact { shape, ..inputs[0] }]),
                        None => None,
                    },
                    None => None,
                }
            } else {
                None
            },
            SimpleOp::CompensateZeroPoints(_) => if inputs.len() == 5 && inputs[3].shape.len()
                == inputs[0].shape.len() && inputs[4].shape.len() == inputs[0].shape.len() {
                Some(seq![inputs[0]])
            } else {
                None
            },
            SimpleOp::Requant(dt) => if inputs.len() == 3 {
                Some(seq![Fact { datum_type: dt, ..inputs[0] }])
            } else {
                None
            },
            SimpleOp::Pack(mn_axis, k_axis, _) => if inputs.len() == 1 && mn_axis
                < inputs[0].shape.len() && k_axis < inputs[0].shape.len() && mn_axis != k_axis {
                Some(
                    seq![
                        Fact {
                            datum_type: DatumType::Opaque,
                            shape: without_two(inputs[0].shape, mn_axis as int, k_axis as int),
                        },
                    ],
                )
            } else {
                None
            },
        }
    }
}

/// A sequence without two of its elements.
pub open spec fn without_two<T>(s: Seq<T>, i: int, j: int) -> Seq<T> {
    if i < j {
        s.remove(j).remove(i)
    } else {
        s.remove(i).remove(j)
    }
}

impl EinSumView {
    /// The fact of the output of an einsum.
    pub open spec fn output_fact(self, inputs: Seq<Fact>) -> Fact {
        Fact {
            datum_type: match self.q_params {
                Some(dt) => dt,
                None => self.operating_dt,
            },
            shape: output_dims(self.axes, fact_shapes(inputs), TDim::Val(1)),
        }
    }
}

impl OpView {
    pub open spec fn wf(self) -> bool {
        self matches OpView::EinSum(op) ==> op.wf()
    }

    /// The facts of the outputs, if the inputs suit the operator.
    pub open spec fn facts(self, inputs: Seq<Fact>) -> Option<Seq<Fact>> {
        match self {
            OpView::Source => None,
            OpView::EinSum(op) => if ranks_suit(op.axes, inputs) {
                Some(seq![op.output_fact(inputs)])
            } else {
                None
            },
            OpView::OptMatMul(op) => if inputs.len() == 2 {
                Some(seq![op.c_fact])
            } else {
                None
            },
            OpView::Simple(op) => op.facts(inputs),
            OpView::Other(_, facts) => Some(facts),
        }
    }
}

/// The first dimension other than one that a label has along one slot.
fn find_row_extent(labels: &Vec<char>, shape: &Vec<TDim>, c: char) -> (r: TDim)
    requires
        shape@.len() == labels@.len(),
    ensures
        r == row_extent(labels@, shape@, c, TDim::Val(1)),
{
    let mut found = TDim::one();
    for p in 0..labels.len()
        invariant
            shape@.len() == labels@.len(),
            found == row_extent(
                labels@.take(p as int),
                shape@.take(p as int),
                c,
                TDim::Val(1),
            ),
    {
        assert(labels@.take(p + 1).drop_last() =~= labels@.take(p as int));
        assert(shape@.take(p + 1).drop_last() =~= shape@.take(p as int));
        if found.is_one() && labels[p] == c {
            found = shape[p];
        }
    }
    assert(labels@.take(labels@.len() as int) =~= labels@);
    assert(shape@.take(labels@.len() as int) =~= shape@);
    found
}

/// The first dimension other than one that a label has along the inputs.
fn find_extent(axes: &AxesMapping, inputs: &Vec<&TypedFact>, c: char) -> (r: TDim)
    requires
        ranks_suit(axes@, fact_refs(inputs@)),
    ensures
        r == extent(axes@.inputs, fact_shapes(fact_refs(inputs@)), c, TDim::Val(1)),
{
    let ghost labels = axes@.inputs;
    let ghost shapes = fact_shapes(fact_refs(inputs@));
    let mut found = TDim::one();
    for s in 0..inputs.len()
        invariant
            ranks_suit(axes@, fact_refs(inputs@)),
            labels == axes@.inputs,
            shapes == fact_shapes(fact_refs(inputs@)),
            found == extent(
                labels.take(s as int),
                shapes.take(s as int),
                c,
                TDim::Val(1),
            ),
    {
        assert(labels.take(s + 1).drop_last() =~= labels.take(s as int));
        assert(shapes.take(s + 1).drop_last() =~= shapes.take(s as int));
        assert(fact_refs(inputs@)[s as int].shape.len() == labels[s as int].len());
        if found.is_one() {
            found = find_row_extent(axes.input_labels(s), &inputs[s].shape, c);
        }
    }
    assert(labels.take(inputs@.len() as int) =~= labels);
    assert(shapes.take(inputs@.len() as int) =~= shapes);
    found
}

/// The shape of the output of an einsum.
pub fn output_shape(axes: &AxesMapping, inputs: &Vec<&TypedFact>) -> (r: Vec<TDim>)
    requires
        axes@.outputs.len() >= 1,
        ranks_suit(axes@, fact_refs(inputs@)),
    ensures
        r@ == output_dims(axes@, fact_shapes(fact_refs(inputs@)), TDim::Val(1)),
{
    let ghost dims = output_dims(axes@, fact_shapes(fact_refs(inputs@)), TDim::Val(1));
    let labels = axes.output_labels(0);
    let mut shape: Vec<TDim> = Vec::new();
    for p in 0..labels.len()
        invariant
            ranks_suit(axes@, fact_refs(inputs@)),
            labels@ == axes@.outputs[0],
            dims == output_dims(axes@, fact_shapes(fact_refs(inputs@)), TDim::Val(1)),
            shape@ == dims.take(p as int),
    {
        let d = find_extent(axes, inputs, labels[p]);
        shape.push(d);
        assert(shape@ =~= dims.take(p + 1));
    }
    assert(shape@ =~= dims);
    shape
}

/// Whether there is a fact for each input, of its rank.
pub fn check_ranks(axes: &AxesMapping, inputs: &Vec<&TypedFact>) -> (r: bool)
    ensures
        r == ranks_suit(axes@, fact_refs(inputs@)),
{
    if inputs.len() != axes.input_count() {
        return false;
    }
    for s in 0..inputs.len()
        invariant
            inputs@.len() == axes@.inputs.len(),
            forall|t: int|
                0 <= t < s ==> (#[trigger] fact_refs(inputs@)[t]).shape.len()
                    == axes@.inputs[t].len(),
    {
        if inputs[s].shape.len() != axes.input_labels(s).len() {
            assert(fact_refs(inputs@)[s as int].shape.len() != axes@.inputs[s as int].len());
            return false;
        }
    }
    true
}

/// The shape of two shapes that broadcast from their last axes on.
fn broadcast(a: &Vec<TDim>, b: &Vec<TDim>) -> (r: Option<Vec<TDim>>)
    ensures
        match r {
            Some(s) => rank_broadcast(a@, b@) == Some(s@),
            None => rank_broadcast(a@, b@) is None,
        },
{
    let n = if a.len() <= b.len() {
        b.len()
    } else {
        a.len()
    };
    let ghost left = padded(a@, n as nat);
    let ghost right = padded(b@, n as nat);
    assert(a@.len() == n ==> left =~= a@);
    assert(b@.len() == n ==> right =~= b@);
    assert(rank_broadcast(a@, b@) == broadcast_shape(left, right));
    let mut out: Vec<TDim> = Vec::new();
    for i in 0..n
        invariant
            a@.len() <= n,
            b@.len() <= n,
            left == padded(a@, n as nat),
            right == padded(b@, n as nat),
            left.len() == n,
            right.len() == n,
            rank_broadcast(a@, b@) == broadcast_shape(left, right),
            out@.len() == i,
            forall|j: int|
                0 <= j < i ==> broadcast_dim(#[trigger] left[j], right[j]) == Some(out@[j]),
    {
        let x = if i < n - a.len() {
            TDim::one()
        } else {
            a[i - (n - a.len())]
        };
        let y = if i < n - b.len() {
            TDim::one()
        } else {
            b[i - (n - b.len())]
        };
        assert(x == left[i as int] && y == right[i as int]);
        if x.is_one() {
            out.push(y);
        } else if y.is_one() || x == y {
            out.push(x);
        } else {
            assert(broadcast_dim(left[i as int], right[i as int]) is None);
            return None;
        }
    }
    assert(out@ =~= broadcast_shape(left, right)->0);
    Some(out)
}

/// One fact.
fn one_fact(datum_type: DatumType, shape: Vec<TDim>) -> (r: Vec<TypedFact>)
    ensures
        facts_view(r@) == seq![Fact { datum_type, shape: shape@ }],
{
    let mut facts: Vec<TypedFact> = Vec::new();
    facts.push(TypedFact { datum_type, shape });
    assert(facts_view(facts@) =~= seq![Fact { datum_type, shape: shape@ }]);
    facts
}

impl BasicMatMul {
    /// The fact of the product of two stacks of matrices, if they can be
    /// multiplied.
    pub fn output_facts(&self, inputs: &Vec<&TypedFact>) -> (r: Result<Vec<TypedFact>, Error>)
        ensures
            match r {
                Ok(v) => SimpleOp::BasicMatMul(*self).facts(fact_refs(inputs@)) == Some(
                    facts_view(v@),
                ),
                Err(e) => e == Error::BadFacts && SimpleOp::BasicMatMul(*self).facts(
                    fact_refs(inputs@),
                ) is None,
            },
    {
        if inputs.len() < 2 {
            return Err(Error::BadFacts);
        }
        let a = &inputs[0].shape;
        let b = &inputs[1].shape;
        assert(fact_refs(inputs@)[0].shape == a@ && fact_refs(inputs@)[1].shape == b@);
        if a.len() != b.len() || a.len() < 2 {
            return Err(Error::BadFacts);
        }
        let n = a.len();
        let cols = a[if self.transpose_a {
            n - 2
        } else {
            n - 1
        }];
        let rows = b[if self.transpose_b {
            n - 1
        } else {
            n - 2
        }];
        if cols != rows {
            return Err(Error::BadFacts);
        }
        let shape = self.output_shape(a, b);
        Ok(one_fact(inputs[0].datum_type, shape))
    }
}

impl SimpleOp {
    /// The facts of the outputs, if the inputs suit the operator.
    fn output_facts(&self, inputs: &Vec<&TypedFact>) -> (r: Result<Vec<TypedFact>, Error>)
        ensures
            match r {
                Ok(v) => self.facts(fact_refs(inputs@)) == Some(facts_view(v@)),
                Err(e) => e == Error::BadFacts && self.facts(fact_refs(inputs@)) is None,
            },
    {
        let ghost facts = fact_refs(inputs@);
        match *self {
            SimpleOp::AxisOp(op) => {
                if inputs.len() != 1 {
                    return Err(Error::BadFacts);
                }
                assert(facts[0] == inputs@[0]@);
                match op.change_shape(&inputs[0].shape) {
                    Some(shape) => Ok(one_fact(inputs[0].datum_type, shape)),
                    None => Err(Error::BadFacts),
                }
            },
            SimpleOp::BasicMatMul(op) => op.output_facts(inputs),
            SimpleOp::Cast(dt) => {
                if inputs.len() != 1 {
                    return Err(Error::BadFacts);
                }
                assert(facts[0] == inputs@[0]@);
                Ok(one_fact(dt, copy_dims(&inputs[0].shape)))
            },
            SimpleOp::Add => {
                if inputs.len() != 2 {
                    return Err(Error::BadFacts);
                }
                assert(facts[0] == inputs@[0]@ && facts[1] == inputs@[1]@);
                let a = &inputs[0].shape;
                let b = &inputs[1].shape;
                if inputs[0].datum_type != inputs[1].datum_type || a.len() != b.len() {
                    return Err(Error::BadFacts);
                }
                assert(padded(a@, b@.len()) =~= a@);
                match broadcast(a, b) {
                    Some(shape) => Ok(one_fact(inputs[0].datum_type, shape)),
                    None => Err(Error::BadFacts),
                }
            },
            SimpleOp::Sum(axis) => {
                if inputs.len() != 1 || axis >= inputs[0].shape.len() {
                    return Err(Error::BadFacts);
                }
                assert(facts[0] == inputs@[0]@);
                let mut shape = copy_dims(&inputs[0].shape);
                shape[axis] = TDim::one();
                Ok(one_fact(inputs[0].datum_type, shape))
            },
            SimpleOp::EnsureSigned => {
                if inputs.len() != 2 {
                    return Err(Error::BadFacts);
                }
                assert(facts[0] == inputs@[0]@ && facts[1] == inputs@[1]@);
                let dt = match inputs[0].datum_type {
                    DatumType::I8 | DatumType::U8 => DatumType::I8,
                    DatumType::QI8(p) | DatumType::QU8(p) => DatumType::QI8(p),
                    _ => {
                        return Err(Error::BadFacts);
                    },
                };
                let mut out: Vec<TypedFact> = Vec::new();
                out.push(TypedFact { datum_type: dt, shape: copy_dims(&inputs[0].shape) });
                out.push(inputs[1].clone());
                assert(facts_view(out@) =~= seq![
                    Fact { datum_type: dt, ..facts[0] },
                    facts[1],
                ]);
                Ok(out)
            },
            SimpleOp::CombineScales => {
                if inputs.len() != 3 {
                    return Err(Error::BadFacts);
                }
                assert(facts[0] == inputs@[0]@ && facts[1] == inputs@[1]@ && facts[2]
                    == inputs@[2]@);
                match broadcast(&inputs[0].shape, &inputs[1].shape) {
                    Some(ab) => match broadcast(&ab, &inputs[2].shape) {
                        Some(shape) => Ok(one_fact(inputs[0].datum_type, shape)),
                        None => Err(Error::BadFacts),
                    },
                    None => Err(Error::BadFacts),
                }
            },
            SimpleOp::CompensateZeroPoints(_) => {
                if inputs.len() != 5 {
                    return Err(Error::BadFacts);
                }
                assert(facts[0] == inputs@[0]@ && facts[3] == inputs@[3]@ && facts[4]
                    == inputs@[4]@);
                if inputs[3].shape.len() != inputs[0].shape.len() || inputs[4].shape.len()
                    != inputs[0].shape.len() {
                    return Err(Error::BadFacts);
                }
                Ok(one_fact(inputs[0].datum_type, copy_dims(&inputs[0].shape)))
            },
            SimpleOp::Requant(dt) => {
                if inputs.len() != 3 {
                    return Err(Error::BadFacts);
                }
                assert(facts[0] == inputs@[0]@);
                Ok(one_fact(dt, copy_dims(&inputs[0].shape)))
            },
            SimpleOp::Pack(mn_axis, k_axis, _) => {
                if inputs.len() != 1 {
                    return Err(Error::BadFacts);
                }
                assert(facts[0] == inputs@[0]@);
                let n = inputs[0].shape.len();
                if mn_axis >= n || k_axis >= n || mn_axis == k_axis {
                    return Err(Error::BadFacts);
                }
                let mut shape = copy_dims(&inputs[0].shape);
                if mn_axis < k_axis {
                    shape.remove(k_axis);
                    shape.remove(mn_axis);
                } else {
                    shape.remove(mn_axis);
                    shape.remove(k_axis);
                }
                Ok(one_fact(DatumType::Opaque, shape))
            },
        }
    }
}

impl EinSum {
    /// The fact of the output, if there is a fact for each input, of its rank.
    pub fn output_facts(&self, inputs: &Vec<&TypedFact>) -> (r: Result<Vec<TypedFact>, Error>)
        requires
            self@.wf(),
        ensures
            match r {
                Ok(v) => ranks_suit(self@.axes, fact_refs(inputs@)) && facts_view(v@)
                    == seq![self@.output_fact(fact_refs(inputs@))],
                Err(e) => e == Error::BadFacts && !ranks_suit(self@.axes, fact_refs(inputs@)),
            },
    {
        if !check_ranks(&self.axes, inputs) {
            return Err(Error::BadFacts);
        }
        let dt = match self.q_params {
            Some(dt) => dt,
            None => self.operating_dt,
        };
        Ok(one_fact(dt, output_shape(&self.axes, inputs)))
    }
}

/// A copy of some facts.
pub fn copy_facts(facts: &Vec<TypedFact>) -> (r: Vec<TypedFact>)
    ensures
        facts_view(r@) == facts_view(facts@),
{
    let mut copy: Vec<TypedFact> = Vec::new();
    for i in 0..facts.len()
        invariant
            copy@.len() == i,
            forall|j: int| 0 <= j < i ==> (#[trigger] copy@[j])@ == facts@[j]@,
    {
        let fact = facts[i].clone();
        copy.push(fact);
    }
    assert(facts_view(copy@) =~= facts_view(facts@));
    copy
}

impl Op {
    /// The facts of the outputs, if the inputs suit the operator.
    pub fn output_facts(&self, inputs: &Vec<&TypedFact>) -> (r: Result<Vec<TypedFact>, Error>)
        requires
            self@.wf(),
        ensures
            match r {
                Ok(v) => self@.facts(fact_refs(inputs@)) == Some(facts_view(v@)),
                Err(e) => e == Error::BadFacts && self@.facts(fact_refs(inputs@)) is None,
            },
    {
        match self {
            Op::Source => Err(Error::BadFacts),
            Op::EinSum(op) => op.output_facts(inputs),
            Op::OptMatMul(op) => {
                if inputs.len() != 2 {
                    return Err(Error::BadFacts);
                }
                let mut facts: Vec<TypedFact> = Vec::new();
                facts.push(op.c_fact.clone());
                assert(facts_view(facts@) =~= seq![op@.c_fact]);
                Ok(facts)
            },
            Op::Simple(op) => op.output_facts(inputs),
            Op::Other(_, facts) => Ok(copy_facts(facts)),
        }
    }
}

impl Clone for OptMatMul {
    fn clone(&self) -> (r: OptMatMul)
        ensures
            r@ == self@,
    {
        OptMatMul {
            kernel: self.kernel,
            packing: self.packing,
            c_fact: self.c_fact.clone(),
            c_m_axis: self.c_m_axis,
            c_n_axis: self.c_n_axis,
            k: self.k,
            c_to_a_axis_mapping: copy_pairs(&self.c_to_a_axis_mapping),
            c_to_b_axis_mapping: copy_pairs(&self.c_to_b_axis_mapping),
        }
    }
}

fn copy_pairs(pairs: &Vec<(usize, usize)>) -> (r: Vec<(usize, usize)>)
    ensures
        r@ == pairs@,
{
    let mut copy: Vec<(usize, usize)> = Vec::new();
    for i in 0..pairs.len()
        invariant
            copy@ == pairs@.take(i as int),
    {
        copy.push(pairs[i]);
        assert(pairs@.take(i + 1) =~= pairs@.take(i as int).push(pairs@[i as int]));
    }
    assert(pairs@.take(pairs@.len() as int) =~= pairs@);
    copy
}

impl Clone for Op {
    fn clone(&self) -> (r: Op)
        ensures
            r@ == self@,
    {
        match self {
            Op::Source => Op::Source,
            Op::EinSum(op) => Op::EinSum(op.clone()),
            Op::OptMatMul(op) => Op::OptMatMul(op.clone()),
            Op::Simple(op) => Op::Simple(*op),
            Op::Other(id, facts) => Op::Other(*id, copy_facts(facts)),
        }
    }
}

} // verus!
