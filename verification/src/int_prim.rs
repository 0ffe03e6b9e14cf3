//! Small-integer primitives.
use vstd::prelude::*;
use crate::std_ptrs::{OOP, FALSE_PTR, TRUE_PTR};
use crate::om::{is_int, int_val, is_int_spec, small_int_of, int_obj_spec, MIN_INT, MAX_INT};
use crate::interp::{Interpreter, InterpView};
use crate::primitive_ops::PrimResult;

verus! {

pub fn add(_interp: &mut Interpreter) -> (r: PrimResult)
    ensures
        r == Err::<(), &'static str>("not implemented, see prAddSI"),
        *final(_interp) == *old(_interp),
{
    return Err("not implemented, see prAddSI");
}

pub fn sub(_interp: &mut Interpreter) -> (r: PrimResult)
    ensures
        r == Err::<(), &'static str>("not implemented, see prSubSI"),
        *final(_interp) == *old(_interp),
{
    return Err("not implemented, see prSubSI");
}

/// The boolean object for `b`.
pub open spec fn bool_obj(b: bool) -> OOP {
    if b { TRUE_PTR } else { FALSE_PTR }
}

impl InterpView {
    /// A primitive may pop its receiver and argument and push back up to two words.
    pub open spec fn prim_stack_ok(self) -> bool {
        &&& self.wf()
        &&& 2 <= self.sp < self.om.mem.len()
    }
}

/// Compares the receiver and the argument, small integers, with `op`, and
/// answers the boolean. The receiver is not checked: its low 31 bits are
/// taken as a small integer whatever it is.
fn si_logical_op<F: Fn(i32, i32) -> bool>(interp: &mut Interpreter, op: F) -> (r: PrimResult)
    requires
        old(interp)@.prim_stack_ok(),
        forall|a: i32, b: i32| #[trigger] op.requires((a, b)),
    ensures
        ({
            let v = old(interp)@;
            let right = v.stack_at(0);
            let left = v.stack_at(1);
            if !is_int_spec(right) {
                &&& r == Err::<(), &'static str>("rhs not an int")
                &&& final(interp)@ == v.popped().pushed(right)
            } else {
                &&& r is Ok
                &&& exists|b: bool| #[trigger] op.ensures((small_int_of(left) as i32, small_int_of(right) as i32), b)
                    && final(interp)@ == v.popped().popped().pushed(bool_obj(b))
            }
        }),
{
    let right_ptr = interp.pop();
    if !is_int(right_ptr) {
        interp.push(right_ptr);
        return Err("rhs not an int");
    }
    let left_ptr = interp.pop();
    if !is_int(right_ptr) {
        interp.push(left_ptr);
        interp.push(right_ptr);
        return Err("lhs not an int");
    }
    let li = int_val(left_ptr);
    let ri = int_val(right_ptr);
    let b = op(li, ri);
    proof {
        let v = old(interp)@;
        assert(left_ptr == v.stack_at(1));
        assert(li == small_int_of(left_ptr) as i32);
        assert(ri == small_int_of(right_ptr) as i32);
        assert(op.ensures((small_int_of(v.stack_at(1)) as i32, small_int_of(v.stack_at(0)) as i32), b));
    }
    interp.push(if b { TRUE_PTR } else { FALSE_PTR });
    Ok(())
}

/// What a comparison primitive answers and leaves: `cmp` on the small
/// integers of the receiver and the argument.
pub open spec fn compared(v: InterpView, c: InterpView, r: PrimResult, cmp: spec_fn(int, int) -> bool) -> bool {
    let right = v.stack_at(0);
    let left = v.stack_at(1);
    if !is_int_spec(right) {
        &&& r == Err::<(), &'static str>("rhs not an int")
        &&& c == v.popped().pushed(right)
    } else {
        &&& r is Ok
        &&& c == v.popped().popped().pushed(bool_obj(cmp(small_int_of(left), small_int_of(right))))
    }
}

pub fn lt(interp: &mut Interpreter) -> (r: PrimResult)
    requires
        old(interp)@.prim_stack_ok(),
    ensures
        compared(old(interp)@, final(interp)@, r, |a: int, b: int| a < b),
{
    si_logical_op(interp, |lhs: i32, rhs: i32| -> (b: bool) ensures b == (lhs < rhs) { lhs < rhs })
}

pub fn gt(interp: &mut Interpreter) -> (r: PrimResult)
    requires
        old(interp)@.prim_stack_ok(),
    ensures
        compared(old(interp)@, final(interp)@, r, |a: int, b: int| a > b),
{
    si_logical_op(interp, |lhs: i32, rhs: i32| -> (b: bool) ensures b == (lhs > rhs) { lhs > rhs })
}

pub fn le(interp: &mut Interpreter) -> (r: PrimResult)
    requires
        old(interp)@.prim_stack_ok(),
    ensures
        compared(old(interp)@, final(interp)@, r, |a: int, b: int| a <= b),
{
    si_logical_op(interp, |lhs: i32, rhs: i32| -> (b: bool) ensures b == (lhs <= rhs) { lhs <= rhs })
}

pub fn ge(interp: &mut Interpreter) -> (r: PrimResult)
    requires
        old(interp)@.prim_stack_ok(),
    ensures
        compared(old(interp)@, final(interp)@, r, |a: int, b: int| a >= b),
{
    si_logical_op(interp, |lhs: i32, rhs: i32| -> (b: bool) ensures b == (lhs >= rhs) { lhs >= rhs })
}

pub fn eq(interp: &mut Interpreter) -> (r: PrimResult)
    requires
        old(interp)@.prim_stack_ok(),
    ensures
        compared(old(interp)@, final(interp)@, r, |a: int, b: int| a == b),
{
    si_logical_op(interp, |lhs: i32, rhs: i32| -> (b: bool) ensures b == (lhs == rhs) { lhs == rhs })
}

pub fn ne(interp: &mut Interpreter) -> (r: PrimResult)
    requires
        old(interp)@.prim_stack_ok(),
    ensures
        compared(old(interp)@, final(interp)@, r, |a: int, b: int| a != b),
{
    si_logical_op(interp, |lhs: i32, rhs: i32| -> (b: bool) ensures b == (lhs != rhs) { lhs != rhs })
}

pub fn mult(_interp: &mut Interpreter) -> (r: PrimResult)
    ensures
        r == Err::<(), &'static str>("not implemented, see prMultSI"),
        *final(_interp) == *old(_interp),
{
    return Err("not implemented, see prMultSI");
}

pub fn modulus(_interp: &mut Interpreter) -> (r: PrimResult)
    ensures
        r == Err::<(), &'static str>("not implemented, see prModSI"),
        *final(_interp) == *old(_interp),
{
    return Err("not implemented, see prModSI");
}

pub fn mk_pt(_interp: &mut Interpreter) -> (r: PrimResult)
    ensures
        r == Err::<(), &'static str>("not implemented, see mtPkSI"),
        *final(_interp) == *old(_interp),
{
    return Err("not implemented, see mtPkSI");
}

pub fn bit_shift(_interp: &mut Interpreter) -> (r: PrimResult)
    ensures
        r == Err::<(), &'static str>("not implemented, see prBitShSI"),
        *final(_interp) == *old(_interp),
{
    return Err("not implemented, see prBitShSI");
}

pub fn div(_interp: &mut Interpreter) -> (r: PrimResult)
    ensures
        r == Err::<(), &'static str>("not implemented, see prDivSI"),
        *final(_interp) == *old(_interp),
{
    return Err("not implemented, see prDivSI");
}

pub fn quo(_interp: &mut Interpreter) -> (r: PrimResult)
    ensures
        r == Err::<(), &'static str>("not implemented, see prQuoSI"),
        *final(_interp) == *old(_interp),
{
    return Err("not implemented, see prQuoSI");
}

pub fn and(_interp: &mut Interpreter) -> (r: PrimResult)
    ensures
        r == Err::<(), &'static str>("not implemented, see prAndSI"),
        *final(_interp) == *old(_interp),
{
    return Err("not implemented, see prAndSI");
}

pub fn or(_interp: &mut Interpreter) -> (r: PrimResult)
    ensures
        r == Err::<(), &'static str>("not implemented, see prOrSI"),
        *final(_interp) == *old(_interp),
{
    return Err("not implemented, see prOrSI");
}

pub fn xor(_interp: &mut Interpreter) -> (r: PrimResult)
    ensures
        r == Err::<(), &'static str>("not implemented, see prXorSI"),
        *final(_interp) == *old(_interp),
{
    return Err("not implemented, see prXorSI");
}

/// Rust's division of `a` by `b`, rounding toward zero.
pub open spec fn div_trunc(a: int, b: int) -> int {
    if a == 0 {
        0
    } else if a > 0 && b > 0 {
        a / b
    } else if a < 0 && b < 0 {
        (a * -1) / (b * -1)
    } else if a < 0 {
        ((a * -1) / b) * -1
    } else {
        (a / (b * -1)) * -1
    }
}

/// Rust's remainder of `a` by `b`, with the sign of `a`.
pub open spec fn rem_trunc(a: int, b: int) -> int {
    if a == 0 {
        0
    } else if a > 0 && b > 0 {
        a % b
    } else if a < 0 && b < 0 {
        ((a * -1) % (b * -1)) * -1
    } else if a < 0 {
        ((a * -1) % b) * -1
    } else {
        a % (b * -1)
    }
}

/// What dividing the receiver by the argument answers and leaves: the exact
/// quotient when both are small integers, the divisor is not zero and the
/// quotient is a small integer; otherwise the stack as it was, and an error.
pub open spec fn divided(v: InterpView, c: InterpView, r: PrimResult) -> bool {
    let divisor = v.stack_at(0);
    let dividend = v.stack_at(1);
    let a = small_int_of(dividend);
    let b = small_int_of(divisor);
    if !is_int_spec(divisor) {
        &&& r == Err::<(), &'static str>("divisor not an integer")
        &&& c == v.popped().pushed(divisor)
    } else if b != 0 && is_int_spec(dividend) && rem_trunc(a, b) == 0 && MIN_INT <= div_trunc(a, b) <= MAX_INT {
        &&& r is Ok
        &&& c == v.popped().popped().pushed(int_obj_spec(div_trunc(a, b) as i32))
    } else {
        &&& r == Err::<(), &'static str>("si division failed")
        &&& c == v.popped().popped().pushed(dividend).pushed(divisor)
    }
}

pub fn divide(interp: &mut Interpreter) -> (r: PrimResult)
    requires
        old(interp)@.prim_stack_ok(),
    ensures
        divided(old(interp)@, final(interp)@, r),
{
    let divisor_ptr = interp.pop();
    if is_int(divisor_ptr) {
        let divisor_int = int_val(divisor_ptr);
        let dividend_ptr = interp.pop();
        if divisor_int != 0 && is_int(dividend_ptr) {
            let dividend_int = int_val(dividend_ptr);
            let quotient = dividend_int.checked_div(divisor_int);
            let remainder = dividend_int.checked_rem(divisor_int);
            proof {
                let x = dividend_int as int;
                let d = divisor_int as int;
                lemma_div_trunc_bounded(x, d);
                assert(quotient == Some(div_trunc(x, d) as i32));
                assert(remainder is Some);
            }
            let res_int = quotient.unwrap();
            let rem_int = remainder.unwrap();
            proof {
                let a = small_int_of(dividend_ptr);
                let b = small_int_of(divisor_ptr);
                assert(dividend_int as int == a);
                assert(divisor_int as int == b);
                assert(res_int as int == div_trunc(a, b));
                assert(rem_int as int == rem_trunc(a, b));
            }
            if (rem_int == 0) && interp.om.is_int_val(res_int) {
                let obj = interp.om.int_obj(res_int);
                interp.push(obj);
                return Ok(());
            }
        }
        interp.push(dividend_ptr);
        interp.push(divisor_ptr);
        return Err("si division failed");
    }
    interp.push(divisor_ptr);
    Err("divisor not an integer")
}

/// A quotient is no larger in magnitude than its dividend.
proof fn lemma_div_trunc_bounded(x: int, d: int)
    requires
        d != 0,
    ensures
        -(if x < 0 { -x } else { x }) <= div_trunc(x, d) <= (if x < 0 { -x } else { x }),
{
    if x > 0 && d > 0 {
        assert(0 <= x / d <= x) by (nonlinear_arith)
            requires x > 0, d > 0;
    } else if x < 0 && d < 0 {
        assert(0 <= (x * -1) / (d * -1) <= x * -1) by (nonlinear_arith)
            requires x < 0, d < 0;
    } else if x < 0 {
        assert(0 <= (x * -1) / d <= x * -1) by (nonlinear_arith)
            requires x < 0, d > 0;
    } else if x > 0 {
        assert(0 <= x / (d * -1) <= x) by (nonlinear_arith)
            requires x > 0, d < 0;
    }
}

} // verus!
