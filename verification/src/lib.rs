//! Einsums as matrix products.
//!
//! An einsum such as `amk,akn->amn` multiplies two tensors and sums over the axes
//! that the output does not have. This crate finds in an einsum the axes of a
//! matrix product, gives it those that it lacks, and rewrites it into a batched
//! matrix product, or into what a kernel on packed operands needs.
//!
//! It is proved on tensors of integers which rewrites keep what the model computes:
//!
//! - adding an axis to an einsum, of any number of inputs, quantized or not;
//! - exchanging the operands of an einsum of two inputs without quantization;
//! - decomposing such einsums, where their axes are those of matrix products
//!   (`preserve::becomes_product`);
//! - the product by a kernel, where no input has a label twice, the dimensions that are
//!   summed over agree, and the kernel computes the product that it is told
//!   (`packed::kernel_suits`);
//! - dequantization, where also the zero points are single ones, and the operators
//!   compute what they are described to (`requantized::dequant_suits`); it computes what
//!   the quantized einsum means, element by element (`quantized::quantizing`).
//!
//! All of them keep the inputs of the model and the facts of its outputs.
//!
//! When each rewrite comes, and what it does, is stated on labels, shapes and nodes:
//!
//! - `search`: which axes the search finds, when there are too many or one is in the way,
//!   and which einsums stay as they are;
//! - `completion`: which axis an einsum gets that lacks one, and where;
//! - `geometry`: when operands are exchanged, and what a kernel is told;
//! - `quantized` and `dequantizable`: which scales, zero points and operands a dequantized
//!   einsum takes, and which einsums can be dequantized;
//! - `decomposes`: how a decomposition goes on, and which products it ends in.

pub mod as_matmul;
pub mod axes;
pub mod axis_ops;
pub mod axis_values;
pub mod centered;
pub mod compact;
pub mod completion;
pub mod decomposes;
pub mod dequant;
pub mod dequantizable;
pub mod dim;
pub mod direct;
pub mod error;
pub mod eval;
pub mod facts;
pub mod forms;
pub mod geometry;
pub mod kernels;
pub mod labels;
pub mod matmul;
pub mod meaning;
pub mod model;
pub mod names;
pub mod ops;
pub mod optimize;
pub mod packed;
pub mod patch;
pub mod preserve;
pub mod product;
pub mod progress;
pub mod quantized;
pub mod requantized;
pub mod rewrites;
pub mod roles;
pub mod run;
pub mod search;
pub mod swaps;
pub mod tensor;
pub mod vectors;
