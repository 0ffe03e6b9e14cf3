//! Process primitives.
use vstd::prelude::*;
use crate::interp::Interpreter;
use crate::primitive_ops::PrimResult;

verus! {

pub fn signal(_interp: &mut Interpreter) -> (r: PrimResult)
    ensures
        r == Err::<(), &'static str>("prSignal not implemented"),
        *final(_interp) == *old(_interp),
{
    Err("prSignal not implemented")
}

pub fn wait(_interp: &mut Interpreter) -> (r: PrimResult)
    ensures
        r == Err::<(), &'static str>("prWait not implemented"),
        *final(_interp) == *old(_interp),
{
    Err("prWait not implemented")
}

pub fn resume(_interp: &mut Interpreter) -> (r: PrimResult)
    ensures
        r == Err::<(), &'static str>("prResume not implemented"),
        *final(_interp) == *old(_interp),
{
    Err("prResume not implemented")
}

pub fn suspend(_interp: &mut Interpreter) -> (r: PrimResult)
    ensures
        r == Err::<(), &'static str>("prSuspend not implemented"),
        *final(_interp) == *old(_interp),
{
    Err("prSuspend not implemented")
}

} // verus!
