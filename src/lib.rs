//! A method-resolution engine: given a receiver's type, its borrow depth and a
//! method name, it picks one registered implementation by walking the receiver
//! type's view-as chain, and says how the receiver must be adjusted.
use vstd::prelude::*;

pub mod chain;
pub mod registry;
pub mod emit;
pub mod resolve;

verus! {

} // verus!
