//! Input and output primitives.
use vstd::prelude::*;
use crate::interp::Interpreter;
use crate::primitive_ops::PrimResult;

verus! {

pub fn boot(_interp: &mut Interpreter) -> (r: PrimResult)
    ensures
        r == Err::<(), &'static str>("prBoot not implemented"),
        *final(_interp) == *old(_interp),
{
    Err("prBoot not implemented")
}

pub fn mouse_pt(_interp: &mut Interpreter) -> (r: PrimResult)
    ensures
        r == Err::<(), &'static str>("prMousePt not implemented"),
        *final(_interp) == *old(_interp),
{
    Err("prMousePt not implemented")
}

pub fn cursor_loc_put(_interp: &mut Interpreter) -> (r: PrimResult)
    ensures
        r == Err::<(), &'static str>("prCuLocPut not implemented"),
        *final(_interp) == *old(_interp),
{
    Err("prCuLocPut not implemented")
}

pub fn cursor_link(_interp: &mut Interpreter) -> (r: PrimResult)
    ensures
        r == Err::<(), &'static str>("prCuLink not implemented"),
        *final(_interp) == *old(_interp),
{
    Err("prCuLink not implemented")
}

pub fn input_semaphore(_interp: &mut Interpreter) -> (r: PrimResult)
    ensures
        r == Err::<(), &'static str>("prInpSema not implemented"),
        *final(_interp) == *old(_interp),
{
    Err("prInpSema not implemented")
}

pub fn sample_interval(_interp: &mut Interpreter) -> (r: PrimResult)
    ensures
        r == Err::<(), &'static str>("prSampleIntvl not implemented"),
        *final(_interp) == *old(_interp),
{
    Err("prSampleIntvl not implemented")
}

pub fn input_word(_interp: &mut Interpreter) -> (r: PrimResult)
    ensures
        r == Err::<(), &'static str>("prInpWord not implemented"),
        *final(_interp) == *old(_interp),
{
    Err("prInpWord not implemented")
}

pub fn copy_bits(_interp: &mut Interpreter) -> (r: PrimResult)
    ensures
        r == Err::<(), &'static str>("prCopyBits not implemented"),
        *final(_interp) == *old(_interp),
{
    Err("prCopyBits not implemented")
}

pub fn time_words_into(_interp: &mut Interpreter) -> (r: PrimResult)
    ensures
        r == Err::<(), &'static str>("prTime not implemented"),
        *final(_interp) == *old(_interp),
{
    Err("prTime not implemented")
}

pub fn tick_words_into(_interp: &mut Interpreter) -> (r: PrimResult)
    ensures
        r == Err::<(), &'static str>("prTick not implemented"),
        *final(_interp) == *old(_interp),
{
    Err("prTick not implemented")
}

pub fn signal_at(_interp: &mut Interpreter) -> (r: PrimResult)
    ensures
        r == Err::<(), &'static str>("prSigAt not implemented"),
        *final(_interp) == *old(_interp),
{
    Err("prSigAt not implemented")
}

pub fn be_cursor(_interp: &mut Interpreter) -> (r: PrimResult)
    ensures
        r == Err::<(), &'static str>("prBeCursor not implemented"),
        *final(_interp) == *old(_interp),
{
    Err("prBeCursor not implemented")
}

pub fn be_display(_interp: &mut Interpreter) -> (r: PrimResult)
    ensures
        r == Err::<(), &'static str>("prBeDisplay not implemented"),
        *final(_interp) == *old(_interp),
{
    Err("prBeDisplay not implemented")
}

} // verus!
