//! Dimensions of tensors, known or symbolic.

use vstd::prelude::*;

verus! {

/// A dimension of a tensor: a known value, or a symbolic expression that does
/// not reduce to one. Two symbolic dimensions are the same when they carry the
/// same identifier.
#[derive(Clone, Copy, Debug, PartialEq, Eq, Structural)]
pub enum TDim {
    Val(i64),
    Sym(u64),
}

/// What the shape computations ask of a dimension.
pub trait DimLike: Copy {
    /// The dimension one.
    spec fn unit() -> Self;

    /// Whether this is the dimension one.
    fn is_one(&self) -> (r: bool)
        ensures
            r == (*self == Self::unit()),
    ;
}

/// `num_traits::One::is_one` on `usize`: whether the value is the number one.
#[verifier::external_body]
fn usize_is_one(value: &usize) -> (r: bool)
    ensures
        r == (*value == 1),
{
    num_traits::One::is_one(value)
}

impl DimLike for usize {
    open spec fn unit() -> usize {
        1
    }

    fn is_one(&self) -> (r: bool) {
        usize_is_one(self)
    }
}

impl DimLike for TDim {
    open spec fn unit() -> TDim {
        TDim::Val(1)
    }

    fn is_one(&self) -> (r: bool) {
        *self == TDim::Val(1)
    }
}

impl TDim {
    /// The dimension one.
    pub fn one() -> (r: TDim)
        ensures
            r == TDim::Val(1),
    {
        TDim::Val(1)
    }

    /// The value of a known dimension.
    pub open spec fn known(self) -> Option<i64> {
        match self {
            TDim::Val(v) => Some(v),
            TDim::Sym(_) => None,
        }
    }

    /// The value of the dimension, if it is known.
    pub fn as_i64(&self) -> (r: Option<i64>)
        ensures
            r == self.known(),
    {
        match *self {
            TDim::Val(v) => Some(v),
            TDim::Sym(_) => None,
        }
    }
}

} // verus!
