use rusttalk::interp::Interpreter;
use rusttalk::mcache::{flush, CACHE_SIZE};
use rusttalk::om::{Loc, OM, REST_PTRS};
use rusttalk::std_ptrs::{FALSE_PTR, MINUS_ONE_PTR, NIL_PTR, ONE_PTR, TRUE_PTR, TWO_PTR, ZERO_PTR};

/// An interpreter over an object space of `words` words, with its code at
/// word 0 and its stack pointer at word 40.
fn machine(code: &[u8], words: usize) -> Interpreter {
    let mut om = OM::new();
    om.object_space = vec![0; words];
    for (i, b) in code.iter().enumerate() {
        om.object_space[i / 4] |= (*b as u32) << (8 * (i % 4));
    }
    let mut interp = Interpreter::new(om);
    interp.ip = 0;
    interp.sp = 40;
    interp
}

fn top(interp: &Interpreter) -> u32 {
    interp.om.object_space[interp.sp]
}

#[test]
fn new_interpreter_starts_cleared() {
    let interp = Interpreter::new(OM::new());
    assert_eq!(interp.ip, 0);
    assert_eq!(interp.sp, 0);
    assert_eq!(interp.active_context, NIL_PTR);
    assert_eq!(interp.receiver, NIL_PTR);
    assert_eq!(interp.arg_count, 0);
    assert_eq!(interp.prim_index, 0);
    assert_eq!(interp.mcache.len(), CACHE_SIZE);
    assert_eq!(interp.mcache[5].selector, NIL_PTR);
}

#[test]
fn pop_after_push_gives_the_value_back() {
    let mut interp = machine(&[], 64);
    interp.push(1234);
    assert_eq!(interp.sp, 41);
    assert_eq!(top(&interp), 1234);
    assert_eq!(interp.pop(), 1234);
    assert_eq!(interp.sp, 40);
    interp.pop_n(3);
    assert_eq!(interp.sp, 37);
}

#[test]
fn push_constant_bytecodes() {
    let code = [113, 114, 115, 116, 117, 118, 119, 121, 122, 123];
    let expected = [TRUE_PTR, FALSE_PTR, NIL_PTR, MINUS_ONE_PTR, ZERO_PTR, ONE_PTR, TWO_PTR, TRUE_PTR, FALSE_PTR, NIL_PTR];
    let mut interp = machine(&code, 64);
    for (k, e) in expected.iter().enumerate() {
        interp.step();
        assert_eq!(interp.ip, k + 1);
        assert_eq!(interp.sp, 41 + k);
        assert_eq!(top(&interp), *e);
    }
}

#[test]
fn push_receiver_and_active_context() {
    let mut interp = machine(&[112, 120, 137], 64);
    interp.receiver = 55;
    interp.active_context = 66;
    interp.step();
    assert_eq!(top(&interp), 55);
    interp.step();
    assert_eq!(top(&interp), 55);
    interp.step();
    assert_eq!(top(&interp), 66);
    assert_eq!(interp.sp, 43);
}

#[test]
fn pop_and_dup_bytecodes() {
    let mut interp = machine(&[136, 135, 135], 64);
    interp.om.object_space[40] = 9;
    interp.step();
    assert_eq!(interp.sp, 41);
    assert_eq!(top(&interp), 9);
    interp.step();
    interp.step();
    assert_eq!(interp.sp, 39);
}

#[test]
fn literal_bytecodes_push_zero() {
    let mut interp = machine(&[32, 63], 64);
    interp.om.object_space[41] = 77;
    interp.step();
    assert_eq!(top(&interp), 0);
    interp.step();
    assert_eq!(top(&interp), 0);
}

#[test]
fn push_receiver_and_temporary_variables() {
    let mut interp = machine(&[2, 17], 64);
    interp.om.set_loc(30, Loc::Address { addr: 20 });
    interp.om.set_rest(30, REST_PTRS);
    interp.om.object_space[22] = 222;
    interp.om.object_space[27] = 777;
    interp.receiver = 30;
    interp.home_context = 30;
    interp.step();
    assert_eq!(top(&interp), 222);
    interp.step();
    assert_eq!(top(&interp), 777);
}

#[test]
fn pop_and_store_into_receiver_and_temporary() {
    let mut interp = machine(&[97, 105], 64);
    interp.om.set_loc(30, Loc::Address { addr: 20 });
    interp.om.set_rest(30, REST_PTRS);
    interp.receiver = 30;
    interp.home_context = 30;
    interp.om.object_space[40] = ONE_PTR;
    interp.om.object_space[39] = TWO_PTR;
    interp.step();
    assert_eq!(interp.sp, 39);
    assert_eq!(interp.om.object_space[21], ONE_PTR);
    interp.step();
    assert_eq!(interp.sp, 38);
    assert_eq!(interp.om.object_space[27], TWO_PTR);
}

#[test]
fn extended_push_of_a_temporary() {
    let mut interp = machine(&[128, 0x42], 64);
    interp.om.set_loc(30, Loc::Address { addr: 20 });
    interp.om.set_rest(30, REST_PTRS);
    interp.om.object_space[28] = 4321;
    interp.home_context = 30;
    interp.step();
    assert_eq!(interp.ip, 2);
    assert_eq!(top(&interp), 4321);
}

#[test]
fn extended_store_and_pop_into_receiver() {
    let mut interp = machine(&[130, 0x03], 64);
    interp.om.set_loc(30, Loc::Address { addr: 20 });
    interp.om.set_rest(30, REST_PTRS);
    interp.receiver = 30;
    interp.om.object_space[40] = ONE_PTR;
    interp.step();
    assert_eq!(interp.om.object_space[23], ONE_PTR);
    assert_eq!(interp.sp, 39);
}

#[test]
fn short_jump_moves_the_instruction_pointer() {
    let mut interp = machine(&[146], 64);
    interp.step();
    assert_eq!(interp.ip, 1 + 3);
}

#[test]
fn long_jump_is_relative_to_its_second_byte() {
    let mut interp = machine(&[165, 10], 64);
    interp.step();
    assert_eq!(interp.ip, 2 + 256 + 10);
    let mut back = machine(&[], 128);
    back.om.object_space[100] = 163;
    back.ip = 400;
    back.step();
    assert_eq!(back.ip, 402 - 256);
}

#[test]
fn jump_if_false_jumps_on_false_and_falls_through_on_true() {
    let mut interp = machine(&[153], 64);
    interp.om.object_space[40] = FALSE_PTR;
    interp.step();
    assert_eq!(interp.ip, 1 + 2);
    assert_eq!(interp.sp, 39);

    let mut interp = machine(&[153], 64);
    interp.om.object_space[40] = TRUE_PTR;
    interp.step();
    assert_eq!(interp.ip, 1);
    assert_eq!(interp.sp, 39);
}

#[test]
fn long_jump_on_true() {
    let mut interp = machine(&[169, 5], 64);
    interp.om.object_space[40] = TRUE_PTR;
    interp.step();
    assert_eq!(interp.ip, 2 + 256 + 5);
    assert_eq!(interp.sp, 39);

    let mut interp = machine(&[173, 5], 64);
    interp.om.object_space[40] = TRUE_PTR;
    interp.step();
    assert_eq!(interp.ip, 2);
    assert_eq!(interp.sp, 39);
}

#[test]
fn returns_do_nothing_yet() {
    let mut interp = machine(&[124, 125], 64);
    interp.step();
    interp.step();
    assert_eq!(interp.ip, 2);
    assert_eq!(interp.sp, 40);
}

#[test]
fn illegal_bytecodes_are_reported_before_they_run() {
    for b in [126u8, 127, 133, 134, 138, 143] {
        let interp = machine(&[b], 64);
        assert_eq!(interp.next_bytecode_error(), Some("illegal bytecode"));
    }
    for b in [192u8, 200, 207] {
        let interp = machine(&[b], 64);
        assert_eq!(interp.next_bytecode_error(), Some("special ops not implemented"));
    }
    for b in [0u8, 125, 128, 132, 135, 137, 144, 191, 208, 255] {
        let interp = machine(&[b], 64);
        assert_eq!(interp.next_bytecode_error(), None);
    }
    let mut interp = machine(&[113, 126], 64);
    assert_eq!(interp.next_bytecode_error(), None);
    interp.step();
    assert_eq!(interp.next_bytecode_error(), Some("illegal bytecode"));
    assert_eq!(interp.ip, 1);
}

#[test]
fn run_executes_the_given_number_of_steps() {
    let mut interp = machine(&[113, 136, 114, 113], 64);
    interp.run(3);
    assert_eq!(interp.ip, 3);
    assert_eq!(interp.sp, 43);
    assert_eq!(interp.om.object_space[41], TRUE_PTR);
    assert_eq!(interp.om.object_space[42], TRUE_PTR);
    assert_eq!(interp.om.object_space[43], FALSE_PTR);
}

#[test]
fn run_of_one_step_is_a_step() {
    let mut a = machine(&[116], 64);
    let mut b = machine(&[116], 64);
    a.run(1);
    b.step();
    assert_eq!(a.ip, b.ip);
    assert_eq!(a.sp, b.sp);
    assert_eq!(a.om.object_space, b.om.object_space);
    let mut c = machine(&[116], 64);
    c.run(0);
    assert_eq!(c.ip, 0);
    assert_eq!(c.sp, 40);
}

#[test]
fn flush_clears_every_selector() {
    let mut interp = machine(&[], 64);
    interp.mcache[3].selector = 99;
    interp.mcache[3].method = 77;
    interp.mcache[1000].selector = 98;
    assert_eq!(flush(&mut interp), Ok(()));
    assert_eq!(interp.mcache[3].selector, NIL_PTR);
    assert_eq!(interp.mcache[3].method, 77);
    assert_eq!(interp.mcache[1000].selector, NIL_PTR);
}

#[test]
fn primitive_index_of_methods() {
    let mut interp = machine(&[], 64);
    interp.om.set_loc(30, Loc::Address { addr: 20 });
    interp.om.object_space[20] = 0x7003;
    interp.om.object_space[22] = 0x0117;
    assert_eq!(interp.primitive_index(30), 0x17);
    interp.om.object_space[20] = 0x1003;
    assert_eq!(interp.primitive_index(30), 0);
}

#[test]
fn startup_loads_the_registers_of_the_first_context() {
    let mut om = OM::new();
    om.object_space = vec![0; 200];
    for (oop, addr) in [(4u32, 0usize), (40, 10), (41, 20), (42, 30), (43, 100)] {
        om.set_loc(oop, Loc::Address { addr });
        om.set_rest(oop, REST_PTRS);
    }
    om.object_space[1] = 40;
    om.object_space[11] = 41;
    om.object_space[21] = 42;
    om.object_space[30] = NIL_PTR;
    om.object_space[31] = 0x8000_0005;
    om.object_space[32] = 0x8000_0002;
    om.object_space[33] = 43;
    om.object_space[35] = 50;
    let mut interp = Interpreter::new(om);
    interp.startup();
    assert_eq!(interp.active_context, 42);
    assert_eq!(interp.om.active_context, 42);
    assert_eq!(interp.home_context, 42);
    assert_eq!(interp.receiver, 50);
    assert_eq!(interp.method, 43);
    assert_eq!(interp.ip, 4 * 100 + 5 - 1);
    assert_eq!(interp.sp, 30 + 2 + 5);
}

#[test]
fn a_send_runs_the_primitive_of_the_method_found_and_fills_the_cache() {
    let mut interp = machine(&[224], 300);
    for (oop, addr) in [(6u32, 100usize), (60, 120), (61, 140), (70, 160)] {
        interp.om.set_loc(oop, Loc::Address { addr });
        interp.om.set_rest(oop, REST_PTRS);
    }
    interp.om.set_size(60, 16);
    interp.om.object_space[100] = NIL_PTR;
    interp.om.object_space[101] = 60;
    interp.om.object_space[121] = 61;
    interp.om.object_space[122] = 0;
    interp.om.object_space[140] = 70;
    interp.om.object_space[160] = 0x7003;
    interp.om.object_space[162] = 3;
    interp.sp = 50;
    interp.om.object_space[48] = 0x8000_0003;
    interp.om.object_space[49] = 0x8000_0003;
    interp.om.object_space[50] = 0x8000_0005;
    interp.step();
    assert_eq!(interp.sp, 49);
    assert_eq!(interp.om.object_space[49], TRUE_PTR);
    assert_eq!(interp.msg_selector, 0);
    assert_eq!(interp.arg_count, 1);
    assert_eq!(interp.prim_index, 3);
    assert_eq!(interp.mcache[6].selector, 0);
    assert_eq!(interp.mcache[6].class, 6);
    assert_eq!(interp.mcache[6].prim_index, 3);
}

#[test]
fn runs_compose() {
    let code = [113, 136, 114, 113, 135];
    let mut a = machine(&code, 64);
    let mut b = machine(&code, 64);
    a.run(2);
    a.run(3);
    b.run(5);
    assert_eq!(a.ip, b.ip);
    assert_eq!(a.sp, b.sp);
    assert_eq!(a.om.object_space, b.om.object_space);
    assert_eq!(a.sp, 43);
}
