//! Control primitives: blocks and perform.
use vstd::prelude::*;
use crate::interp::Interpreter;
use crate::primitive_ops::PrimResult;

verus! {

pub fn block_copy(_interp: &mut Interpreter) -> (r: PrimResult)
    ensures
        r == Err::<(), &'static str>("prBlockCopy not implemented"),
        *final(_interp) == *old(_interp),
{
    Err("prBlockCopy not implemented")
}

pub fn value(_interp: &mut Interpreter) -> (r: PrimResult)
    ensures
        r == Err::<(), &'static str>("prValue not implemented"),
        *final(_interp) == *old(_interp),
{
    Err("prValue not implemented")
}

pub fn value_with_args(_interp: &mut Interpreter) -> (r: PrimResult)
    ensures
        r == Err::<(), &'static str>("prValWithArgs not implemented"),
        *final(_interp) == *old(_interp),
{
    Err("prValWithArgs not implemented")
}

pub fn perform(_interp: &mut Interpreter) -> (r: PrimResult)
    ensures
        r == Err::<(), &'static str>("prPerform not implemented"),
        *final(_interp) == *old(_interp),
{
    Err("prPerform not implemented")
}

pub fn perform_with_args(_interp: &mut Interpreter) -> (r: PrimResult)
    ensures
        r == Err::<(), &'static str>("prPerWithArgs not implemented"),
        *final(_interp) == *old(_interp),
{
    Err("prPerWithArgs not implemented")
}

} // verus!
