//! Array and storage management primitives.
use vstd::prelude::*;
use crate::interp::Interpreter;
use crate::primitive_ops::PrimResult;

verus! {

pub fn at(_interp: &mut Interpreter) -> (r: PrimResult)
    ensures
        r == Err::<(), &'static str>("prAt not implemented"),
        *final(_interp) == *old(_interp),
{
    Err("prAt not implemented")
}

pub fn at_put(_interp: &mut Interpreter) -> (r: PrimResult)
    ensures
        r == Err::<(), &'static str>("prAtPut not implemented"),
        *final(_interp) == *old(_interp),
{
    Err("prAtPut not implemented")
}

pub fn size(_interp: &mut Interpreter) -> (r: PrimResult)
    ensures
        r == Err::<(), &'static str>("prAtPut not implemented"),
        *final(_interp) == *old(_interp),
{
    Err("prAtPut not implemented")
}

pub fn string_at(_interp: &mut Interpreter) -> (r: PrimResult)
    ensures
        r == Err::<(), &'static str>("prSAt not implemented"),
        *final(_interp) == *old(_interp),
{
    Err("prSAt not implemented")
}

pub fn string_at_put(_interp: &mut Interpreter) -> (r: PrimResult)
    ensures
        r == Err::<(), &'static str>("prSAtPut not implemented"),
        *final(_interp) == *old(_interp),
{
    Err("prSAtPut not implemented")
}

pub fn object_at(_interp: &mut Interpreter) -> (r: PrimResult)
    ensures
        r == Err::<(), &'static str>("prOAt not implemented"),
        *final(_interp) == *old(_interp),
{
    Err("prOAt not implemented")
}

pub fn object_at_put(_interp: &mut Interpreter) -> (r: PrimResult)
    ensures
        r == Err::<(), &'static str>("prOAtPut not implemented"),
        *final(_interp) == *old(_interp),
{
    Err("prOAtPut not implemented")
}

pub fn new(_interp: &mut Interpreter) -> (r: PrimResult)
    ensures
        r == Err::<(), &'static str>("prNew not implemented"),
        *final(_interp) == *old(_interp),
{
    Err("prNew not implemented")
}

pub fn new_with_arg(_interp: &mut Interpreter) -> (r: PrimResult)
    ensures
        r == Err::<(), &'static str>("prNewWithArg not implemented"),
        *final(_interp) == *old(_interp),
{
    Err("prNewWithArg not implemented")
}

pub fn become_(_interp: &mut Interpreter) -> (r: PrimResult)
    ensures
        r == Err::<(), &'static str>("prBecome not implemented"),
        *final(_interp) == *old(_interp),
{
    Err("prBecome not implemented")
}

pub fn inst_var_at(_interp: &mut Interpreter) -> (r: PrimResult)
    ensures
        r == Err::<(), &'static str>("prIVAt not implemented"),
        *final(_interp) == *old(_interp),
{
    Err("prIVAt not implemented")
}

pub fn inst_var_at_put(_interp: &mut Interpreter) -> (r: PrimResult)
    ensures
        r == Err::<(), &'static str>("prIVAtPut not implemented"),
        *final(_interp) == *old(_interp),
{
    Err("prIVAtPut not implemented")
}

pub fn as_oop(_interp: &mut Interpreter) -> (r: PrimResult)
    ensures
        r == Err::<(), &'static str>("prAsOop not implemented"),
        *final(_interp) == *old(_interp),
{
    Err("prAsOop not implemented")
}

pub fn as_object(_interp: &mut Interpreter) -> (r: PrimResult)
    ensures
        r == Err::<(), &'static str>("prAsObject not implemented"),
        *final(_interp) == *old(_interp),
{
    Err("prAsObject not implemented")
}

pub fn some_instance(_interp: &mut Interpreter) -> (r: PrimResult)
    ensures
        r == Err::<(), &'static str>("prSomeInstance not implemented"),
        *final(_interp) == *old(_interp),
{
    Err("prSomeInstance not implemented")
}

pub fn next_instance(_interp: &mut Interpreter) -> (r: PrimResult)
    ensures
        r == Err::<(), &'static str>("prNextInstance not implemented"),
        *final(_interp) == *old(_interp),
{
    Err("prNextInstance not implemented")
}

pub fn new_method(_interp: &mut Interpreter) -> (r: PrimResult)
    ensures
        r == Err::<(), &'static str>("prNewMethod not implemented"),
        *final(_interp) == *old(_interp),
{
    Err("prNewMethod not implemented")
}

} // verus!
