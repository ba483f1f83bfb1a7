//! Dense matrices and a fully connected feedforward network trained by backpropagation.
//!
//! Both are generic over the element type: the arithmetic on elements (sum, difference, product, dot
//! product, activation and its derivative) is handed in as closures, and the contracts state every result
//! in terms of what those closures may return. The `codec` module writes and reads a network as text.
use vstd::prelude::*;

pub mod matrix;
pub mod network;
pub mod codec;

verus! {

} // verus!
