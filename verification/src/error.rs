//! What can go wrong while an einsum is rewritten.

use vstd::prelude::*;

verus! {

/// Why a rewrite was refused.
#[derive(Clone, Copy, Debug, PartialEq, Eq, Structural)]
pub enum Error {
    /// An axis is added under a label that is already in use.
    DuplicateLabel,
    /// A label that no axis carries.
    UnknownLabel,
    /// A slot or an axis position that does not exist.
    BadPosition,
    /// Every label is in use.
    NoLabelLeft,
    /// An outlet that the model does not have.
    UnknownOutlet,
    /// The facts of the inputs do not suit the operator.
    BadFacts,
    /// A node would be replaced by one with another output fact.
    FactMismatch,
    /// More than one non-trivial axis could serve as the k axis.
    MultipleK,
    /// The expression has an axis that a matrix product cannot express.
    NotAMatMul,
    /// Adding axes does not bring the expression any closer to a matrix product.
    NoProgress,
    /// The operands of the product and its result do not have the same rank.
    RankMismatch,
    /// A product of a number of tensors other than two.
    NotTwoInputs,
    /// A quantized einsum with a number of inputs other than nine.
    NotNineInputs,
    /// A mapping that no sequence of axis operators expresses.
    NotAPermutation,
}

} // verus!
