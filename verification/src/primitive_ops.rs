//! What a primitive answers.
use vstd::prelude::*;
use crate::interp::Interpreter;

verus! {

/// `Ok` when the primitive succeeded; otherwise why it failed.
pub type PrimResult = Result<(), &'static str>;

pub fn not_implemented(_interp: &mut Interpreter) -> (r: PrimResult)
    ensures
        r == Err::<(), &'static str>("not implemented"),
        *final(_interp) == *old(_interp),
{
    Err("not implemented")
}

} // verus!
