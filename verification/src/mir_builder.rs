//! Records kept while a program is being built.

use vstd::prelude::*;
use crate::dyn_type::DynType;

verus! {

/// A function whose signature is known before its body is built.
pub struct FunctionStub {
    /// The type of the value the function returns.
    pub return_ty: DynType,
}

} // verus!
