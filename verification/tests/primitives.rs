use rusttalk::array_store_prim;
use rusttalk::control_prim;
use rusttalk::int_prim::{add, divide, eq, ge, gt, le, lt, mult, ne, sub};
use rusttalk::interp::Interpreter;
use rusttalk::io_prim;
use rusttalk::om::OM;
use rusttalk::prim_table::{int_message, primitive_dispatch};
use rusttalk::primitive_ops::not_implemented;
use rusttalk::process_prim;
use rusttalk::std_ptrs::{FALSE_PTR, NIL_PTR, TRUE_PTR};
use rusttalk::sys_prim::{self, equiv};

fn tagged(i: i32) -> u32 {
    0x8000_0000 | ((i as u32) & 0x7FFF_FFFF)
}

/// An interpreter whose stack holds `receiver` below `argument`.
fn with_operands(receiver: u32, argument: u32) -> Interpreter {
    let mut om = OM::new();
    om.object_space = vec![0; 32];
    let mut interp = Interpreter::new(om);
    interp.sp = 10;
    interp.push(receiver);
    interp.push(argument);
    interp
}

fn answer(interp: &Interpreter) -> u32 {
    interp.om.object_space[interp.sp]
}

#[test]
fn comparisons_answer_booleans() {
    let cases: [(fn(&mut Interpreter) -> Result<(), &'static str>, i32, i32, u32); 12] = [
        (lt, 3, 5, TRUE_PTR),
        (lt, 5, 3, FALSE_PTR),
        (gt, 5, 3, TRUE_PTR),
        (gt, -5, 3, FALSE_PTR),
        (le, 3, 3, TRUE_PTR),
        (le, 4, 3, FALSE_PTR),
        (ge, 3, 3, TRUE_PTR),
        (ge, -4, 3, FALSE_PTR),
        (eq, 7, 7, TRUE_PTR),
        (eq, 7, -7, FALSE_PTR),
        (ne, 7, -7, TRUE_PTR),
        (ne, 0, 0, FALSE_PTR),
    ];
    for (op, a, b, expected) in cases {
        let mut interp = with_operands(tagged(a), tagged(b));
        assert_eq!(op(&mut interp), Ok(()));
        assert_eq!(interp.sp, 11);
        assert_eq!(answer(&interp), expected);
    }
}

#[test]
fn lt_and_ge_answer_opposite_booleans() {
    for (a, b) in [(1, 2), (2, 1), (3, 3), (-8, 4)] {
        let mut x = with_operands(tagged(a), tagged(b));
        let mut y = with_operands(tagged(a), tagged(b));
        lt(&mut x).unwrap();
        ge(&mut y).unwrap();
        assert_ne!(answer(&x), answer(&y));
    }
}

#[test]
fn comparison_with_a_non_integer_argument_fails() {
    let mut interp = with_operands(tagged(1), NIL_PTR);
    assert_eq!(lt(&mut interp), Err("rhs not an int"));
    assert_eq!(interp.sp, 12);
    assert_eq!(answer(&interp), NIL_PTR);
    assert_eq!(interp.om.object_space[11], tagged(1));
}

#[test]
fn exact_division_answers_the_quotient() {
    let mut interp = with_operands(tagged(42), tagged(6));
    assert_eq!(divide(&mut interp), Ok(()));
    assert_eq!(interp.sp, 11);
    assert_eq!(answer(&interp), 7);
    let mut interp = with_operands(tagged(-42), tagged(6));
    assert_eq!(divide(&mut interp), Ok(()));
    assert_eq!(answer(&interp), 0x7FFF_FFF9);
}

#[test]
fn inexact_or_zero_division_fails_and_keeps_the_operands() {
    for (a, b) in [(7, 2), (7, 0)] {
        let mut interp = with_operands(tagged(a), tagged(b));
        assert_eq!(divide(&mut interp), Err("si division failed"));
        assert_eq!(interp.sp, 12);
        assert_eq!(interp.om.object_space[11], tagged(a));
        assert_eq!(interp.om.object_space[12], tagged(b));
    }
    let mut interp = with_operands(tagged(7), 50);
    assert_eq!(divide(&mut interp), Err("divisor not an integer"));
    assert_eq!(interp.sp, 12);
    assert_eq!(answer(&interp), 50);
}

#[test]
fn identity_comparison_is_symmetric() {
    let mut x = with_operands(40, 41);
    let mut y = with_operands(41, 40);
    assert_eq!(equiv(&mut x), Ok(()));
    assert_eq!(equiv(&mut y), Ok(()));
    assert_eq!(answer(&x), FALSE_PTR);
    assert_eq!(answer(&x), answer(&y));
    let mut z = with_operands(40, 40);
    equiv(&mut z).unwrap();
    assert_eq!(answer(&z), TRUE_PTR);
    assert_eq!(z.sp, 11);
}

#[test]
fn unimplemented_primitives_answer_their_errors() {
    let mut interp = with_operands(tagged(1), tagged(2));
    assert_eq!(add(&mut interp), Err("not implemented, see prAddSI"));
    assert_eq!(sub(&mut interp), Err("not implemented, see prSubSI"));
    assert_eq!(mult(&mut interp), Err("not implemented, see prMultSI"));
    assert_eq!(not_implemented(&mut interp), Err("not implemented"));
    assert_eq!(array_store_prim::at(&mut interp), Err("prAt not implemented"));
    assert_eq!(array_store_prim::become_(&mut interp), Err("prBecome not implemented"));
    assert_eq!(control_prim::value(&mut interp), Err("prValue not implemented"));
    assert_eq!(io_prim::boot(&mut interp), Err("prBoot not implemented"));
    assert_eq!(process_prim::wait(&mut interp), Err("prWait not implemented"));
    assert_eq!(sys_prim::quit(&mut interp), Err("prQuit not implemented"));
    assert_eq!(interp.sp, 12);
}

#[test]
fn dispatch_runs_the_primitive_of_each_index() {
    let mut interp = with_operands(tagged(3), tagged(5));
    assert_eq!(primitive_dispatch(3, &mut interp), Ok(()));
    assert_eq!(answer(&interp), TRUE_PTR);
    let mut interp = with_operands(tagged(30), tagged(5));
    assert_eq!(primitive_dispatch(10, &mut interp), Ok(()));
    assert_eq!(answer(&interp), 6);
    let mut interp = with_operands(tagged(3), tagged(5));
    assert_eq!(primitive_dispatch(1, &mut interp), Err("not implemented, see prAddSI"));
    assert_eq!(primitive_dispatch(45, &mut interp), Err("not implemented"));
    assert_eq!(primitive_dispatch(60, &mut interp), Err("prAt not implemented"));
    assert_eq!(primitive_dispatch(255, &mut interp), Err("prBoot not implemented"));
    assert_eq!(primitive_dispatch(89, &mut interp), Ok(()));
    assert_eq!(primitive_dispatch(110, &mut interp), Ok(()));
    assert_eq!(answer(&interp), FALSE_PTR);
}

#[test]
fn arithmetic_messages_use_their_own_table() {
    let mut interp = with_operands(tagged(3), tagged(5));
    assert_eq!(int_message(2, &mut interp), Ok(()));
    assert_eq!(answer(&interp), TRUE_PTR);
    let mut interp = with_operands(tagged(20), tagged(4));
    assert_eq!(int_message(9, &mut interp), Ok(()));
    assert_eq!(answer(&interp), 5);
    let mut interp = with_operands(tagged(20), tagged(4));
    assert_eq!(int_message(0, &mut interp), Err("not implemented, see prAddSI"));
}
