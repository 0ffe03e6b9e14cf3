//! The primitive tables: which primitive each index names.
use vstd::prelude::*;
use crate::interp::{Interpreter, InterpView};
use crate::primitive_ops::{PrimResult, not_implemented};
use crate::int_prim::{compared, divided};
use crate::mcache::flushed;
use crate::sys_prim::equived;
use crate::array_store_prim;
use crate::control_prim;
use crate::int_prim;
use crate::io_prim;
use crate::mcache;
use crate::process_prim;
use crate::sys_prim;

verus! {

/// Why the primitive of index `index` fails, when it always does.
pub open spec fn prim_error(index: u8) -> &'static str {
    match index {
        1 => "not implemented, see prAddSI",
        2 => "not implemented, see prSubSI",
        9 => "not implemented, see prMultSI",
        11 => "not implemented, see prModSI",
        12 => "not implemented, see prDivSI",
        13 => "not implemented, see prQuoSI",
        14 => "not implemented, see prAndSI",
        15 => "not implemented, see prOrSI",
        16 => "not implemented, see prXorSI",
        17 => "not implemented, see prBitShSI",
        18 => "not implemented, see mtPkSI",
        60 => "prAt not implemented",
        61 => "prAtPut not implemented",
        62 => "prAtPut not implemented",
        63 => "prSAt not implemented",
        64 => "prSAtPut not implemented",
        68 => "prOAt not implemented",
        69 => "prOAtPut not implemented",
        70 => "prNew not implemented",
        71 => "prNewWithArg not implemented",
        72 => "prBecome not implemented",
        73 => "prIVAt not implemented",
        74 => "prIVAtPut not implemented",
        75 => "prAsOop not implemented",
        76 => "prAsObject not implemented",
        77 => "prSomeInstance not implemented",
        78 => "prNextInstance not implemented",
        79 => "prNewMethod not implemented",
        80 => "prBlockCopy not implemented",
        81 => "prValue not implemented",
        82 => "prValWithArgs not implemented",
        83 => "prPerform not implemented",
        84 => "prPerWithArgs not implemented",
        85 => "prSignal not implemented",
        86 => "prWait not implemented",
        87 => "prResume not implemented",
        88 => "prSuspend not implemented",
        90 => "prMousePt not implemented",
        91 => "prCuLocPut not implemented",
        92 => "prCuLink not implemented",
        93 => "prInpSema not implemented",
        94 => "prSampleIntvl not implemented",
        95 => "prInpWord not implemented",
        96 => "prCopyBits not implemented",
        97 => "prSnapshot not implemented",
        98 => "prTime not implemented",
        99 => "prTick not implemented",
        100 => "prSigAt not implemented",
        101 => "prBeCursor not implemented",
        102 => "prBeDisplay not implemented",
        111 => "prClass not implemented",
        112 => "prCoreLeft not implemented",
        113 => "prQuit not implemented",
        115 => "prOopsLeft not implemented",
        116 => "prSAtOopsLeft not implemented",
        255 => "prBoot not implemented",
        _ => "not implemented",
    }
}

/// What the primitive of index `index` answers, from `v`, and leaves.
pub open spec fn prim_effect(v: InterpView, index: u8, c: InterpView, r: PrimResult) -> bool {
    match index {
        3 => compared(v, c, r, |a: int, b: int| a < b),
        4 => compared(v, c, r, |a: int, b: int| a > b),
        5 => compared(v, c, r, |a: int, b: int| a <= b),
        6 => compared(v, c, r, |a: int, b: int| a >= b),
        7 => compared(v, c, r, |a: int, b: int| a == b),
        8 => compared(v, c, r, |a: int, b: int| a != b),
        10 => divided(v, c, r),
        89 => flushed(v, c, r),
        110 => equived(v, c, r),
        _ => r == Err::<(), &'static str>(prim_error(index)) && c == v,
    }
}

/// The primitive of index `index` can run from `v`.
pub open spec fn prim_ok(v: InterpView, index: u8) -> bool {
    if (3 <= index <= 8) || index == 10 || index == 110 {
        v.prim_stack_ok()
    } else if index == 89 {
        v.wf()
    } else {
        true
    }
}

/// Runs the primitive of index `index`. The floating-point primitives
/// (40 to 52) and character scanning (103) answer "not implemented".
pub fn primitive_dispatch(index: u8, interp: &mut Interpreter) -> (r: PrimResult)
    requires
        prim_ok(old(interp)@, index),
    ensures
        prim_effect(old(interp)@, index, final(interp)@, r),
{
    match index {
        0 => not_implemented(interp),
        1 => int_prim::add(interp),
        2 => int_prim::sub(interp),
        3 => int_prim::lt(interp),
        4 => int_prim::gt(interp),
        5 => int_prim::le(interp),
        6 => int_prim::ge(interp),
        7 => int_prim::eq(interp),
        8 => int_prim::ne(interp),
        9 => int_prim::mult(interp),
        10 => int_prim::divide(interp),
        11 => int_prim::modulus(interp),
        12 => int_prim::div(interp),
        13 => int_prim::quo(interp),
        14 => int_prim::and(interp),
        15 => int_prim::or(interp),
        16 => int_prim::xor(interp),
        17 => int_prim::bit_shift(interp),
        18 => int_prim::mk_pt(interp),
        19..=59 => not_implemented(interp),
        60 => array_store_prim::at(interp),
        61 => array_store_prim::at_put(interp),
        62 => array_store_prim::size(interp),
        63 => array_store_prim::string_at(interp),
        64 => array_store_prim::string_at_put(interp),
        65..=67 => not_implemented(interp),
        68 => array_store_prim::object_at(interp),
        69 => array_store_prim::object_at_put(interp),
        70 => array_store_prim::new(interp),
        71 => array_store_prim::new_with_arg(interp),
        72 => array_store_prim::become_(interp),
        73 => array_store_prim::inst_var_at(interp),
        74 => array_store_prim::inst_var_at_put(interp),
        75 => array_store_prim::as_oop(interp),
        76 => array_store_prim::as_object(interp),
        77 => array_store_prim::some_instance(interp),
        78 => array_store_prim::next_instance(interp),
        79 => array_store_prim::new_method(interp),
        80 => control_prim::block_copy(interp),
        81 => control_prim::value(interp),
        82 => control_prim::value_with_args(interp),
        83 => control_prim::perform(interp),
        84 => control_prim::perform_with_args(interp),
        85 => process_prim::signal(interp),
        86 => process_prim::wait(interp),
        87 => process_prim::resume(interp),
        88 => process_prim::suspend(interp),
        89 => mcache::flush(interp),
        90 => io_prim::mouse_pt(interp),
        91 => io_prim::cursor_loc_put(interp),
        92 => io_prim::cursor_link(interp),
        93 => io_prim::input_semaphore(interp),
        94 => io_prim::sample_interval(interp),
        95 => io_prim::input_word(interp),
        96 => io_prim::copy_bits(interp),
        97 => sys_prim::snapshot(interp),
        98 => io_prim::time_words_into(interp),
        99 => io_prim::tick_words_into(interp),
        100 => io_prim::signal_at(interp),
        101 => io_prim::be_cursor(interp),
        102 => io_prim::be_display(interp),
        103..=109 => not_implemented(interp),
        110 => sys_prim::equiv(interp),
        111 => sys_prim::class(interp),
        112 => sys_prim::core_left(interp),
        113 => sys_prim::quit(interp),
        114 => not_implemented(interp),
        115 => sys_prim::oops_left(interp),
        116 => sys_prim::signal_at_oops_left(interp),
        117..=254 => not_implemented(interp),
        255 => io_prim::boot(interp),
    }
}

/// The primitive that an arithmetic bytecode tries first, by its index
/// among the sixteen arithmetic selectors.
pub open spec fn int_message_index(sel_idx: u8) -> u8 {
    match sel_idx {
        0 => 1,
        1 => 2,
        2 => 3,
        3 => 4,
        4 => 5,
        5 => 6,
        6 => 7,
        7 => 8,
        8 => 9,
        9 => 10,
        10 => 11,
        11 => 18,
        12 => 17,
        13 => 12,
        14 => 14,
        _ => 15,
    }
}

/// Runs the primitive of the arithmetic selector `sel_idx`.
pub fn int_message(sel_idx: u8, interp: &mut Interpreter) -> (r: PrimResult)
    requires
        sel_idx < 16,
        prim_ok(old(interp)@, int_message_index(sel_idx)),
    ensures
        prim_effect(old(interp)@, int_message_index(sel_idx), final(interp)@, r),
{
    match sel_idx {
        0 => int_prim::add(interp),
        1 => int_prim::sub(interp),
        2 => int_prim::lt(interp),
        3 => int_prim::gt(interp),
        4 => int_prim::le(interp),
        5 => int_prim::ge(interp),
        6 => int_prim::eq(interp),
        7 => int_prim::ne(interp),
        8 => int_prim::mult(interp),
        9 => int_prim::divide(interp),
        10 => int_prim::modulus(interp),
        11 => int_prim::mk_pt(interp),
        12 => int_prim::bit_shift(interp),
        13 => int_prim::div(interp),
        14 => int_prim::and(interp),
        _ => int_prim::or(interp),
    }
}

} // verus!
