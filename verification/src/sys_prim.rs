//! System primitives.
use vstd::prelude::*;
use crate::std_ptrs::{FALSE_PTR, TRUE_PTR};
use crate::interp::Interpreter;
use crate::primitive_ops::PrimResult;
use crate::int_prim::bool_obj;

verus! {

/// What comparing the receiver and the argument for identity answers and leaves.
pub open spec fn equived(v: crate::interp::InterpView, c: crate::interp::InterpView, r: PrimResult) -> bool {
    &&& r is Ok
    &&& c == v.popped().popped().pushed(bool_obj(v.stack_at(0) == v.stack_at(1)))
}

/// Whether the receiver and the argument are the same object.
pub fn equiv(interp: &mut Interpreter) -> (r: PrimResult)
    requires
        old(interp)@.prim_stack_ok(),
    ensures
        equived(old(interp)@, final(interp)@, r),
{
    let top = interp.pop();
    let next = interp.pop();
    interp.push(if top == next { TRUE_PTR } else { FALSE_PTR });
    Ok(())
}

pub fn class(_interp: &mut Interpreter) -> (r: PrimResult)
    ensures
        r == Err::<(), &'static str>("prClass not implemented"),
        *final(_interp) == *old(_interp),
{
    Err("prClass not implemented")
}

pub fn core_left(_interp: &mut Interpreter) -> (r: PrimResult)
    ensures
        r == Err::<(), &'static str>("prCoreLeft not implemented"),
        *final(_interp) == *old(_interp),
{
    Err("prCoreLeft not implemented")
}

pub fn quit(_interp: &mut Interpreter) -> (r: PrimResult)
    ensures
        r == Err::<(), &'static str>("prQuit not implemented"),
        *final(_interp) == *old(_interp),
{
    Err("prQuit not implemented")
}

pub fn oops_left(_interp: &mut Interpreter) -> (r: PrimResult)
    ensures
        r == Err::<(), &'static str>("prOopsLeft not implemented"),
        *final(_interp) == *old(_interp),
{
    Err("prOopsLeft not implemented")
}

pub fn signal_at_oops_left(_interp: &mut Interpreter) -> (r: PrimResult)
    ensures
        r == Err::<(), &'static str>("prSAtOopsLeft not implemented"),
        *final(_interp) == *old(_interp),
{
    Err("prSAtOopsLeft not implemented")
}

pub fn snapshot(_interp: &mut Interpreter) -> (r: PrimResult)
    ensures
        r == Err::<(), &'static str>("prSnapshot not implemented"),
        *final(_interp) == *old(_interp),
{
    Err("prSnapshot not implemented")
}

} // verus!
