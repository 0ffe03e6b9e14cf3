//! Properties that relate several operations of the object memory and the
//! interpreter.
use vstd::prelude::*;
use crate::std_ptrs::{OOP, NIL_PTR, FALSE_PTR, TRUE_PTR, CLASS_METH_CTX, MUST_BE_BOOLEAN, SPECIAL_SELECTORS, CLASS_SMALL_INTEGER};
use crate::om::{OMView, OT_SIZE, MIN_INT, MAX_INT, small_int_of, int_obj_spec};
use crate::interp::InterpView;
use crate::int_prim::{compared, bool_obj};
use crate::sys_prim::equived;
use crate::mcache::{flushed, CACHE_SIZE};
use crate::send::cache_slot;
use crate::primitive_ops::PrimResult;
use crate::prim_table::{prim_effect, int_message_index};
use crate::int_prim::{divided, div_trunc, rem_trunc};
use crate::om::is_int_spec;
use crate::snapshot::{manchester_loaded, manchester_ok, tables_loaded, word_at, offset_at, count_at, rest_at, size_at, class_at};
use crate::om::{Loc, REST_FREE, REST_BITMAP, LAST_OOP, has_flag, SUPER_CLASS, MSG_DICT, METH_ARRAY, SEL_START, BIG_SIZE, word_size};

verus! {

/// The integer read back from the object pointer made of a small integer
/// is that integer, for every integer of the small-integer range.
pub proof fn law_small_int_round_trip(i: i32)
    requires
        MIN_INT <= i <= MAX_INT,
    ensures
        small_int_of(int_obj_spec(i)) == i,
{
    assert(i >= 0 ==> (i as u32) as int == i as int) by (bit_vector);
    assert(i < 0 ==> (i as u32) as int == i as int + 0x1_0000_0000) by (bit_vector);
}

/// After a store of `value` into word `i` of `obj`, that word reads back as
/// `value`, every other word of the object space is as it was, and no
/// object has moved.
pub proof fn law_fetch_after_store(v: OMView, obj: OOP, i: int, value: OOP, j: int)
    requires
        v.wf(),
        obj < OT_SIZE,
        v.field_in_bounds(obj, i),
        v.can_inc(value),
        v.inc_ref_spec(value).can_dec(v.field(obj, i)),
    ensures
        v.with_store(obj, i, value).field(obj, i) == value,
        0 <= j < v.mem.len() && j != v.slot(obj, i) ==> v.with_store(obj, i, value).mem[j] == v.mem[j],
        v.with_store(obj, i, value).loc == v.loc,
        v.with_store(obj, i, value).mem.len() == v.mem.len(),
{
}

/// Decrementing the count just incremented gives back the object memory
/// as it was.
pub proof fn law_dec_undoes_inc(v: OMView, oop: OOP)
    requires
        v.wf(),
        v.can_inc(oop),
    ensures
        v.inc_ref_spec(oop).can_dec(oop),
        v.inc_ref_spec(oop).dec_ref_spec(oop) == v,
{
    if crate::om::counted_spec(oop) {
        assert(v.inc_ref_spec(oop).dec_ref_spec(oop).count =~= v.count);
    }
}

/// A pop right after a push of `obj` answers `obj` and puts the stack
/// pointer back; the push wrote only the word above the old top. (The
/// object space is a vector, so its length is a `usize`.)
pub proof fn law_pop_after_push(v: InterpView, obj: OOP, j: int)
    requires
        v.om.mem.len() <= usize::MAX,
        v.can_push(),
    ensures
        v.pushed(obj).can_pop(),
        v.pushed(obj).stack_at(0) == obj,
        v.pushed(obj).popped().sp == v.sp,
        0 <= j < v.om.mem.len() && j != v.sp + 1 ==> v.pushed(obj).popped().om.mem[j] == v.om.mem[j],
        v.pushed(obj).popped() == (InterpView { om: OMView { mem: v.om.mem.update(v.sp + 1, obj), ..v.om }, ..v }),
{
}

/// After a send's cache probe for `sel` sent to an instance of `cls`, the
/// next probe for the same selector and class hits.
pub proof fn law_cache_hit_after_probe(v: InterpView, cls: OOP, sel: OOP, c: InterpView, res: (OOP, u8))
    requires
        v.wf(),
        v.cache_post(c, cls, sel, res),
    ensures
        c.cache_hit(cls, sel),
{
    let x = (sel ^ cls) as usize;
    assert(x & 1023usize < 1024usize) by (bit_vector);
}

/// After the method cache is flushed, no probe for a selector other than
/// nil hits it.
pub proof fn law_flush_empties_cache(v: InterpView, c: InterpView, r: PrimResult, cls: OOP, sel: OOP)
    requires
        v.wf(),
        flushed(v, c, r),
        sel != NIL_PTR,
    ensures
        !c.cache_hit(cls, sel),
{
    let x = (sel ^ cls) as usize;
    assert(x & 1023usize < 1024usize) by (bit_vector);
    assert(0 <= cache_slot(cls, sel) < CACHE_SIZE);
}

/// Of the primitives less-than and greater-or-equal on the same operands,
/// exactly one answers true.
pub proof fn law_lt_ge_opposite(v: InterpView, c1: InterpView, r1: PrimResult, c2: InterpView, r2: PrimResult)
    requires
        v.prim_stack_ok(),
        v.om.mem.len() <= usize::MAX,
        compared(v, c1, r1, |a: int, b: int| a < b),
        compared(v, c2, r2, |a: int, b: int| a >= b),
        r1 is Ok,
    ensures
        r2 is Ok,
        c1.sp == c2.sp,
        c1.stack_at(0) == TRUE_PTR <==> c2.stack_at(0) == FALSE_PTR,
        c1.stack_at(0) == TRUE_PTR || c1.stack_at(0) == FALSE_PTR,
{
}

/// Comparing for identity does not depend on the order of the operands.
pub proof fn law_equiv_symmetric(v1: InterpView, c1: InterpView, r1: PrimResult, v2: InterpView, c2: InterpView, r2: PrimResult)
    requires
        v1.prim_stack_ok(),
        v2.prim_stack_ok(),
        v1.om.mem.len() <= usize::MAX,
        v2.om.mem.len() <= usize::MAX,
        equived(v1, c1, r1),
        equived(v2, c2, r2),
        v1.stack_at(0) == v2.stack_at(1),
        v1.stack_at(1) == v2.stack_at(0),
    ensures
        c1.stack_at(0) == c2.stack_at(0),
{
}

/// Running one step is the same as a step; running none changes nothing.
pub proof fn law_run_one_is_step(v: InterpView, c: InterpView)
    ensures
        v.run_post(c, 1) <==> v.step_post(c),
        v.run_post(c, 0) <==> c == v,
{
    if v.step_post(c) {
        assert(c.run_post(c, 0));
        assert(v.run_post(c, 1));
    }
    if v.run_post(c, 1) {
        let c1 = choose|c1: InterpView| #[trigger] v.step_post(c1) && c1.run_post(c, 0);
        assert(c == c1);
    }
}

/// Running `n` steps, then `m` more, is running `n + m` steps.
pub proof fn law_runs_compose(v: InterpView, c1: InterpView, c: InterpView, n: nat, m: nat)
    requires
        v.run_post(c1, n),
        c1.run_post(c, m),
    ensures
        v.run_post(c, n + m),
    decreases n,
{
    if n == 0 {
        assert(c1 == v);
    } else {
        let c2 = choose|c2: InterpView| #[trigger] v.step_post(c2) && c2.run_post(c1, (n - 1) as nat);
        law_runs_compose(c2, c1, c, (n - 1) as nat, m);
        assert(((n + m) - 1) as nat == (n - 1) as nat + m);
        assert(v.step_post(c2) && c2.run_post(c, ((n + m) - 1) as nat));
    }
}

/// A loaded image reads back as the image: every word of its object
/// space, and every entry of its object table in use, with its count,
/// flags, size, class and place.
pub proof fn law_load_reads_the_image(a: OMView, s: Seq<u8>, osl: int, otl: int, c: OMView, i: int, o: int)
    requires
        manchester_ok(s, a, osl, otl),
        manchester_loaded(a, s, osl, otl, c),
    ensures
        0 <= i < osl ==> c.mem[i] == word_at(s, i),
        0 <= o < otl && !has_flag(rest_at(s, osl, otl, o), REST_FREE) ==> {
            &&& c.count[o] == count_at(s, osl, otl, o) as u16
            &&& c.rest[o] == rest_at(s, osl, otl, o)
            &&& c.size[o] == (size_at(s, osl, otl, o) as usize) as i32
            &&& c.class[o] == class_at(s, osl, otl, o)
            &&& c.loc[o] == if has_flag(rest_at(s, osl, otl, o), REST_BITMAP) {
                Loc::Index { index: offset_at(s, osl, otl, o) as usize }
            } else {
                Loc::Address { addr: offset_at(s, osl, otl, o) as usize }
            }
        },
{
    let tl = tables_loaded(a, s, osl, otl);
    let mid = choose|mid: OMView| #[trigger] tl.free_list_built(mid) && c == mid.with_big_chunk(osl as usize);
    if 0 <= o < otl && !has_flag(rest_at(s, osl, otl, o), REST_FREE) {
        reveal(OMView::free_list_ok);
        assert(!tl.is_free(o as OOP));
        assert(!mid.free_oops.contains(o as OOP));
        if otl < OT_SIZE {
            assert(a.is_free(otl as OOP));
            assert(tl.is_free(otl as OOP));
            assert(mid.free_oops.contains(otl as OOP));
        } else {
            let k = choose|k: int| 0 <= k < otl && has_flag(#[trigger] rest_at(s, osl, otl, k), REST_FREE);
            assert(tl.rest[k] == rest_at(s, osl, otl, k));
            assert(tl.is_free(k as OOP));
            assert(mid.free_oops.contains(k as OOP));
        }
        assert(mid.free_oops.len() > 0);
        assert(mid.free_oops.contains(mid.free_oops[0]));
        assert(mid.free_ptr != o as OOP);
        assert(mid.free_ptr < OT_SIZE);
        let fcp = mid.free_ptr;
        assert(fcp as int != o);
        assert(c.loc == mid.loc.update(fcp as int, Loc::Address { addr: (osl as usize) / 4 }));
        assert(c.loc[o] == mid.loc[o]);
        assert(mid.loc[o] == tl.loc[o]);
    }
}

/// The object pointers in descending order, as `for_every_oop_reverse`
/// lists them, are those in ascending order, as `for_every_oop` lists
/// them, reversed.
pub proof fn law_oop_orders_reverse(up: Seq<OOP>, down: Seq<OOP>)
    requires
        up.len() == OT_SIZE,
        forall|i: int| 0 <= i < OT_SIZE ==> #[trigger] up[i] == i,
        down.len() == OT_SIZE,
        forall|i: int| 0 <= i < OT_SIZE ==> #[trigger] down[i] == LAST_OOP - i,
    ensures
        down == up.reverse(),
{
    assert(down =~= up.reverse());
}

/// The lookup answers the same method whatever fuel lets it finish.
proof fn lemma_lookup_fuel(v: InterpView, cls: OOP, sel: OOP, f1: nat, f2: nat)
    requires
        v.lookup_ok(cls, sel, f1),
        v.lookup_ok(cls, sel, f2),
    ensures
        v.lookup_spec(cls, sel, f1) == v.lookup_spec(cls, sel, f2),
    decreases f1,
{
    if cls != NIL_PTR {
        let dict = v.om.field(cls, MSG_DICT as int);
        if v.probe_result(dict, sel, v.probe_start(dict, sel), false) is None {
            lemma_lookup_fuel(v, v.om.field(cls, SUPER_CLASS as int), sel, (f1 - 1) as nat, (f2 - 1) as nat);
        }
    }
}

/// A selector that the dictionary of a class lacks is inherited: the lookup
/// from the class answers what the lookup from its superclass answers.
/// One that the dictionary has is answered from the class itself, and the
/// lookup from nil finds nothing.
pub proof fn law_lookup_through_superclass(v: InterpView, cls: OOP, sel: OOP)
    requires
        v.can_lookup(cls, sel),
    ensures
        cls == NIL_PTR ==> v.lookup_of(cls, sel) == NIL_PTR,
        ({
            let dict = v.om.field(cls, MSG_DICT as int);
            let sup = v.om.field(cls, SUPER_CLASS as int);
            cls != NIL_PTR ==> match v.probe_result(dict, sel, v.probe_start(dict, sel), false) {
                Some(m) => v.lookup_of(cls, sel) == m,
                None => v.can_lookup(sup, sel) && v.lookup_of(cls, sel) == v.lookup_of(sup, sel),
            }
        }),
{
    let f = v.lookup_fuel(cls, sel);
    assert(v.lookup_ok(cls, sel, f));
    if cls != NIL_PTR {
        let dict = v.om.field(cls, MSG_DICT as int);
        let sup = v.om.field(cls, SUPER_CLASS as int);
        if v.probe_result(dict, sel, v.probe_start(dict, sel), false) is None {
            assert(v.lookup_ok(sup, sel, (f - 1) as nat));
            let g = v.lookup_fuel(sup, sel);
            assert(v.lookup_ok(sup, sel, g));
            lemma_lookup_fuel(v, sup, sel, (f - 1) as nat, g);
        }
    }
}

/// A probe that can run and answers a method found the selector: some slot of the
/// dictionary holds it, and the method is at the same place in the
/// dictionary's method array.
pub proof fn law_probe_hit(v: InterpView, dict: OOP, sel: OOP, index: u8, wrap: bool, m: OOP)
    requires
        v.probe_ok(dict, sel, index, wrap),
        v.probe_result(dict, sel, index, wrap) == Some(m),
    ensures
        exists|i: int| SEL_START <= i < 256 && #[trigger] v.om.field(dict, i) == sel
            && m == v.om.field(v.om.field(dict, METH_ARRAY as int), i - SEL_START),
    decreases (if wrap { 0int } else { 1int }), 256 - index,
{
    let next_sel = v.om.field(dict, index as int);
    if next_sel == NIL_PTR {
    } else if next_sel == sel {
        assert(v.om.field(dict, index as int) == sel);
    } else if index >= 255 {
    } else if (index + 1) as usize == v.dict_length(dict) {
        if !wrap {
            law_probe_hit(v, dict, sel, SEL_START, true, m);
        }
    } else {
        law_probe_hit(v, dict, sel, (index + 1) as u8, wrap, m);
    }
}

/// Activating a method makes a new method context the active one: 38
/// words (152 bytes) when the method's header has the large-context bit
/// 0x40, 18 words (72 bytes) when it has not.
pub proof fn law_activation_context_size(v: InterpView, c: InterpView)
    requires
        v.activate_post(c),
    ensures
        c.om.size[c.active_context as int] == (if v.om.field(v.new_method, 0) & 0x40 != 0 { 152i32 } else { 72i32 }),
        c.om.class[c.active_context as int] == CLASS_METH_CTX,
        c.om.active_context == c.active_context,
{
    let size = InterpView::ctx_size_of(v.header_of(v.new_method));
    let (om1, ctx) = choose|om1: OMView, ctx: OOP| #[trigger] v.om.allocate_post(om1, ctx, 4 * size, true, CLASS_METH_CTX)
        && c == v.activate_tail(om1, ctx);
    assert(c.active_context == ctx);
    assert(c.om.size == om1.size);
    assert(c.om.class == om1.class);
}

/// The low bits of a bytecode are its remainders by powers of two.
proof fn lemma_low_bits(b: u8)
    ensures
        b & 15 == b % 16,
        b & 7 == b % 8,
        b & 3 == b % 4,
        b & 0x3f == b % 64,
        b >> 5 == b / 32,
        (b & 0xc0 == 0) == (b / 64 == 0),
        (b & 0xc0 == 0x40) == (b / 64 == 1),
        (b & 0xc0 == 0x80) == (b / 64 == 2),
        (b & 0xc0 == 0xc0) == (b / 64 == 3),
{
    assert(b & 15 == b % 16) by (bit_vector);
    assert(b & 7 == b % 8) by (bit_vector);
    assert(b & 3 == b % 4) by (bit_vector);
    assert(b & 0x3f == b % 64) by (bit_vector);
    assert(b >> 5 == b / 32) by (bit_vector);
    assert((b & 0xc0 == 0) == (b / 64 == 0)) by (bit_vector);
    assert((b & 0xc0 == 0x40) == (b / 64 == 1)) by (bit_vector);
    assert((b & 0xc0 == 0x80) == (b / 64 == 2)) by (bit_vector);
    assert((b & 0xc0 == 0xc0) == (b / 64 == 3)) by (bit_vector);
}

/// What a step does, by the ranges of the bytecode table: pushes of
/// receiver variables, temporaries (from word 6 of the home context),
/// literals and literal variables; stores with a pop; the constants;
/// stack operations; jumps, short, long and conditional (a non-boolean
/// is sent mustBeBoolean); and sends of a literal selector with
/// `(b - 208) / 16` arguments, whose receiver lies below them.
#[verifier::rlimit(40)]
pub proof fn law_step_by_bytecode(v: InterpView, c: InterpView)
    requires
        v.step_ok(),
        v.step_post(c),
    ensures
        ({
            let b = v.next_byte_spec();
            let f = v.fetched();
            let top = f.stack_at(0);
            &&& b < 16 ==> c == f.pushed(f.om.field(f.receiver, (b % 16) as int))
            &&& 16 <= b < 32 ==> c == f.pushed(f.om.field(f.home_context, 6 + b % 16))
            &&& 32 <= b < 64 ==> c == f.pushed(0)
            &&& 64 <= b < 96 ==> c == f.pushed(f.om.field(0, 1))
            &&& 96 <= b < 104 ==> c == f.popped().stored(f.receiver, (b % 8) as int, top)
            &&& 104 <= b < 112 ==> c == f.popped().stored(f.home_context, 6 + b % 8, top)
            &&& (b == 112 || b == 120) ==> c == f.pushed(f.receiver)
            &&& (b == 113 || b == 121) ==> c == f.pushed(TRUE_PTR)
            &&& (b == 114 || b == 122) ==> c == f.pushed(FALSE_PTR)
            &&& (b == 115 || b == 123) ==> c == f.pushed(NIL_PTR)
            &&& b == 116 ==> c == f.pushed(0xFFFF_FFFF)
            &&& b == 117 ==> c == f.pushed(0x8000_0000)
            &&& b == 118 ==> c == f.pushed(0x8000_0001)
            &&& b == 119 ==> c == f.pushed(0x8000_0002)
            &&& (b == 124 || b == 125) ==> c == f
            &&& b == 135 ==> c == f.popped()
            &&& b == 136 ==> c == f.pushed(top)
            &&& b == 137 ==> c == f.pushed(f.active_context)
            &&& 144 <= b < 152 ==> c == (InterpView { ip: (f.ip + b % 8 + 1) as usize, ..f })
            &&& 152 <= b < 160 ==> {
                &&& top == FALSE_PTR ==> c == (InterpView { ip: (f.ip + b % 8 + 1) as usize, ..f.popped() })
                &&& top == TRUE_PTR ==> c == f.popped()
                &&& top != FALSE_PTR && top != TRUE_PTR ==> f.send_post(c, MUST_BE_BOOLEAN, 0)
            }
            &&& 160 <= b < 168 ==> c == (InterpView { ip: (f.ip + 1 + 256 * (b % 8 - 4) + f.next_byte_spec()) as usize, ..f })
            &&& 168 <= b < 176 ==> {
                let g = f.fetched();
                let jump = if b < 172 { TRUE_PTR } else { FALSE_PTR };
                let other = if b < 172 { FALSE_PTR } else { TRUE_PTR };
                &&& top == jump ==> c == (InterpView { ip: (g.ip + 256 * (b % 4) + f.next_byte_spec()) as usize, ..g.popped() })
                &&& top == other ==> c == g.popped()
                &&& top != jump && top != other ==> g.send_post(c, MUST_BE_BOOLEAN, 0)
            }
            &&& 208 <= b ==> f.send_post(c, 0, ((b - 208) / 16) as u8)
        }),
{
    reveal(InterpView::dispatch_post);
    lemma_low_bits(v.next_byte_spec());
}

/// What the primitive of each of the sixteen arithmetic selectors
/// (+ - < > <= >= = ~= * / \\ @ bitShift: // bitAnd: bitOr:) does when the
/// argument on top of the stack is a small integer: the six comparisons
/// pop both operands and push the boolean of comparing their values,
/// division divides, and the others fail, leaving everything as it was.
pub proof fn law_arithmetic_primitives(v: InterpView, s: u8, c: InterpView, r: PrimResult)
    requires
        s < 16,
        prim_effect(v, int_message_index(s), c, r),
        is_int_spec(v.stack_at(0)),
    ensures
        ({
            let a = small_int_of(v.stack_at(1));
            let b = small_int_of(v.stack_at(0));
            let answer = |x: bool| v.popped().popped().pushed(bool_obj(x));
            &&& s == 2 ==> r is Ok && c == answer(a < b)
            &&& s == 3 ==> r is Ok && c == answer(a > b)
            &&& s == 4 ==> r is Ok && c == answer(a <= b)
            &&& s == 5 ==> r is Ok && c == answer(a >= b)
            &&& s == 6 ==> r is Ok && c == answer(a == b)
            &&& s == 7 ==> r is Ok && c == answer(a != b)
            &&& s == 9 ==> divided(v, c, r)
            &&& s == 0 ==> r == Err::<(), &'static str>("not implemented, see prAddSI") && c == v
            &&& s == 1 ==> r == Err::<(), &'static str>("not implemented, see prSubSI") && c == v
            &&& s == 8 ==> r == Err::<(), &'static str>("not implemented, see prMultSI") && c == v
            &&& s == 10 ==> r == Err::<(), &'static str>("not implemented, see prModSI") && c == v
            &&& s == 11 ==> r == Err::<(), &'static str>("not implemented, see mtPkSI") && c == v
            &&& s == 12 ==> r == Err::<(), &'static str>("not implemented, see prBitShSI") && c == v
            &&& s == 13 ==> r == Err::<(), &'static str>("not implemented, see prDivSI") && c == v
            &&& s == 14 ==> r == Err::<(), &'static str>("not implemented, see prAndSI") && c == v
            &&& s == 15 ==> r == Err::<(), &'static str>("not implemented, see prOrSI") && c == v
        }),
{
}

/// An arithmetic bytecode whose selector is a comparison, on two small
/// integers, pops them and pushes the boolean of comparing their values.
pub proof fn law_step_arithmetic_comparison(v: InterpView, c: InterpView)
    requires
        v.step_ok(),
        v.step_post(c),
        178 <= v.next_byte_spec() <= 183,
        is_int_spec(v.fetched().stack_at(0)),
    ensures
        ({
            let bc = v.next_byte_spec();
            let f = v.fetched();
            let a = small_int_of(f.stack_at(1));
            let b = small_int_of(f.stack_at(0));
            let x = if bc == 178 { a < b } else if bc == 179 { a > b } else if bc == 180 { a <= b }
                else if bc == 181 { a >= b } else if bc == 182 { a == b } else { a != b };
            c == f.popped().popped().pushed(bool_obj(x))
        }),
{
    reveal(InterpView::dispatch_post);
    let bc = v.next_byte_spec();
    let f = v.fetched();
    let sel = (bc - 176) as u8;
    let (c1, r) = choose|c1: InterpView, r: PrimResult| #[trigger] prim_effect(f, int_message_index(sel), c1, r) && {
        &&& r is Ok ==> c == c1
        &&& r is Err ==> c1.send_post(c, c1.arith_selector(sel), c1.arith_argc(sel))
    };
    law_arithmetic_primitives(f, sel, c1, r);
}

/// What a step does on the extended bytecodes, whose next byte describes
/// the operand: its top two bits the kind (receiver variable, temporary,
/// literal, literal variable), its low six bits the index; and on the
/// arithmetic bytecodes whose primitive always fails, which send their
/// special selector with the argument count the special-selector table
/// gives beside it.
#[verifier::rlimit(40)]
pub proof fn law_step_extended(v: InterpView, c: InterpView)
    requires
        v.step_ok(),
        v.step_post(c),
    ensures
        ({
            let b = v.next_byte_spec();
            let f = v.fetched();
            let d = f.next_byte_spec();
            let g = f.fetched();
            let top = g.stack_at(0);
            let k = d / 64;
            let i = (d % 64) as int;
            let s = (b - 176) as u8;
            &&& b == 128 ==> c == g.pushed(
                if k == 0 { g.om.field(g.receiver, i) }
                else if k == 1 { g.om.field(g.home_context, 6 + i) }
                else if k == 2 { 0u32 }
                else { g.om.field(0, 1) })
            &&& b == 129 ==> k != 2 && c == (
                if k == 0 { g.stored(g.receiver, i, top) }
                else if k == 1 { g.stored(g.home_context, 6 + i, top) }
                else { g.stored(0, 1, top) })
            &&& b == 130 ==> k != 2 && c == (
                if k == 0 { g.stored(g.receiver, i, top) }
                else if k == 1 { g.stored(g.home_context, 6 + i, top) }
                else { g.stored(0, 1, top) }).popped()
            &&& b == 131 ==> g.send_post(c, 0, d / 32)
            &&& b == 132 ==> g.fetched().send_post(c, 0, d)
            &&& 176 <= b <= 191 && (s <= 1 || s == 8 || s >= 10) ==> f.send_post(c,
                f.om.field(SPECIAL_SELECTORS, 2 * s),
                (small_int_of(f.om.field(SPECIAL_SELECTORS, 2 * s + 1)) as i32) as u8)
        }),
{
    reveal(InterpView::dispatch_post);
    reveal(InterpView::dispatch_ok);
    let b = v.next_byte_spec();
    let f = v.fetched();
    lemma_low_bits(f.next_byte_spec());
    if 176 <= b <= 191 {
        let s = (b - 176) as u8;
        if s <= 1 || s == 8 || s >= 10 {
            let (c1, r) = choose|c1: InterpView, r: PrimResult| #[trigger] prim_effect(f, int_message_index(s), c1, r) && {
                &&& r is Ok ==> c == c1
                &&& r is Err ==> c1.send_post(c, c1.arith_selector(s), c1.arith_argc(s))
            };
            assert(c1 == f);
        }
    }
}

/// The comparison primitives compare the values of the small integers
/// receiver and argument (3 <, 4 >, 5 <=, 6 >=, 7 =, 8 ~=), 110 compares
/// the two objects for identity, 89 empties the method cache, and an
/// argument that is no small integer makes a comparison fail, the stack
/// as it was.
pub proof fn law_primitive_table(v: InterpView, p: u8, c: InterpView, r: PrimResult)
    requires
        prim_effect(v, p, c, r),
    ensures
        ({
            let a = small_int_of(v.stack_at(1));
            let b = small_int_of(v.stack_at(0));
            let answer = |x: bool| v.popped().popped().pushed(bool_obj(x));
            &&& 3 <= p <= 8 && !is_int_spec(v.stack_at(0)) ==> r is Err && c == v.popped().pushed(v.stack_at(0))
            &&& 3 <= p <= 8 && is_int_spec(v.stack_at(0)) ==> r is Ok
            &&& p == 3 && is_int_spec(v.stack_at(0)) ==> c == answer(a < b)
            &&& p == 4 && is_int_spec(v.stack_at(0)) ==> c == answer(a > b)
            &&& p == 5 && is_int_spec(v.stack_at(0)) ==> c == answer(a <= b)
            &&& p == 6 && is_int_spec(v.stack_at(0)) ==> c == answer(a >= b)
            &&& p == 7 && is_int_spec(v.stack_at(0)) ==> c == answer(a == b)
            &&& p == 8 && is_int_spec(v.stack_at(0)) ==> c == answer(a != b)
            &&& p == 110 ==> r is Ok && c == answer(v.stack_at(0) == v.stack_at(1))
            &&& p == 89 ==> r is Ok && c.mcache.len() == CACHE_SIZE
                && (forall|i: int| 0 <= i < CACHE_SIZE ==> #[trigger] c.mcache[i].selector == NIL_PTR)
            &&& p == 10 ==> divided(v, c, r)
            &&& !(3 <= p <= 8) && p != 10 && p != 89 && p != 110 ==> r is Err && c == v
        }),
{
    if p == 89 {
        assert forall|i: int| 0 <= i < CACHE_SIZE implies #[trigger] c.mcache[i].selector == NIL_PTR by {
        }
    }
}

/// Truncating division and remainder recompose the dividend.
proof fn lemma_div_trunc_recompose(a: int, b: int)
    requires
        b != 0,
    ensures
        a == div_trunc(a, b) * b + rem_trunc(a, b),
{
    if a > 0 && b > 0 {
        vstd::arithmetic::div_mod::lemma_fundamental_div_mod(a, b);
        assert(a == (a / b) * b + a % b) by (nonlinear_arith)
            requires a == b * (a / b) + a % b;
    } else if a < 0 && b < 0 {
        vstd::arithmetic::div_mod::lemma_fundamental_div_mod(-a, -b);
        let q = (a * -1) / (b * -1);
        let r = (a * -1) % (b * -1);
        assert(a == q * b + r * -1) by (nonlinear_arith)
            requires -a == (-b) * q + r;
    } else if a < 0 {
        vstd::arithmetic::div_mod::lemma_fundamental_div_mod(-a, b);
        let q = (a * -1) / b;
        let r = (a * -1) % b;
        assert(a == (q * -1) * b + r * -1) by (nonlinear_arith)
            requires -a == b * q + r;
    } else if a > 0 {
        vstd::arithmetic::div_mod::lemma_fundamental_div_mod(a, -b);
        let q = a / (b * -1);
        let r = a % (b * -1);
        assert(a == (q * -1) * b + r) by (nonlinear_arith)
            requires a == (-b) * q + r;
    }
}

/// When `q * b == a`, truncating division gives `q` exactly.
proof fn lemma_div_trunc_exact(a: int, b: int, q: int)
    requires
        b != 0,
        q * b == a,
    ensures
        div_trunc(a, b) == q,
        rem_trunc(a, b) == 0,
{
    if a == 0 {
        assert(q == 0) by (nonlinear_arith)
            requires q * b == 0, b != 0;
    } else if a > 0 && b > 0 {
        vstd::arithmetic::div_mod::lemma_fundamental_div_mod_converse(a, b, q, 0);
    } else if a < 0 && b < 0 {
        assert(a * -1 == q * (b * -1) + 0) by (nonlinear_arith)
            requires q * b == a;
        vstd::arithmetic::div_mod::lemma_fundamental_div_mod_converse(a * -1, b * -1, q, 0);
    } else if a < 0 {
        assert(a * -1 == (q * -1) * b + 0) by (nonlinear_arith)
            requires q * b == a;
        vstd::arithmetic::div_mod::lemma_fundamental_div_mod_converse(a * -1, b, q * -1, 0);
    } else {
        assert(a == (q * -1) * (b * -1) + 0) by (nonlinear_arith)
            requires q * b == a;
        vstd::arithmetic::div_mod::lemma_fundamental_div_mod_converse(a, b * -1, q * -1, 0);
    }
}

/// Division of small integers answers the exact quotient: when it
/// succeeds the quotient times the divisor is the dividend; when the
/// divisor divides the dividend with a quotient in the small-integer
/// range it succeeds; a zero divisor fails, leaving both operands.
pub proof fn law_divide_exact(v: InterpView, c: InterpView, r: PrimResult)
    requires
        v.prim_stack_ok(),
        v.om.mem.len() <= usize::MAX,
        divided(v, c, r),
        is_int_spec(v.stack_at(0)),
        is_int_spec(v.stack_at(1)),
    ensures
        ({
            let a = small_int_of(v.stack_at(1));
            let b = small_int_of(v.stack_at(0));
            &&& r is Ok ==> b != 0 && small_int_of(c.stack_at(0)) * b == a && c.sp == v.sp - 1
            &&& forall|q: int| #![trigger q * b] b != 0 && q * b == a && MIN_INT <= q <= MAX_INT
                ==> r is Ok && small_int_of(c.stack_at(0)) == q
            &&& b == 0 ==> r is Err && c.sp == v.sp && c.stack_at(0) == v.stack_at(0) && c.stack_at(1) == v.stack_at(1)
        }),
{
    let a = small_int_of(v.stack_at(1));
    let b = small_int_of(v.stack_at(0));
    if b != 0 {
        lemma_div_trunc_recompose(a, b);
        if rem_trunc(a, b) == 0 && MIN_INT <= div_trunc(a, b) <= MAX_INT {
            law_small_int_round_trip(div_trunc(a, b) as i32);
        }
        assert forall|q: int| #![trigger q * b] b != 0 && q * b == a && MIN_INT <= q <= MAX_INT
            implies r is Ok && small_int_of(c.stack_at(0)) == q by {
            lemma_div_trunc_exact(a, b, q);
        }
    }
}

/// A send of `argc` arguments looks the selector up in the class of the
/// word `argc + 1` below the top of the stack (SmallInteger for a small
/// integer), with the selector and the argument count in the registers.
pub proof fn law_send_looks_up_the_receivers_class(v: InterpView, c: InterpView, sel: OOP, argc: u8)
    requires
        v.send_post(c, sel, argc),
    ensures
        ({
            let rcv = v.om.mem[v.sp - argc - 1];
            let cls = if rcv >= 0x8000_0000 { CLASS_SMALL_INTEGER } else { v.om.class[rcv as int] };
            (InterpView { msg_selector: sel, arg_count: argc as usize, ..v }).send_to_class_post(c, cls)
        }),
{
}

/// A probe of the method cache that finds the selector and class in the
/// entry at `(selector ^ class) mod 1024` answers that entry's method and
/// primitive index and changes nothing.
pub proof fn law_cache_hit_answers_the_entry(v: InterpView, c: InterpView, cls: OOP, sel: OOP, res: (OOP, u8))
    requires
        v.cache_post(c, cls, sel, res),
        v.mcache[((sel ^ cls) as usize % 1024) as int].selector == sel,
        v.mcache[((sel ^ cls) as usize % 1024) as int].class == cls,
    ensures
        c == v,
        res.0 == v.mcache[((sel ^ cls) as usize % 1024) as int].method,
        res.1 == v.mcache[((sel ^ cls) as usize % 1024) as int].prim_index,
{
    let x = (sel ^ cls) as usize;
    assert(x & 1023usize == x % 1024) by (bit_vector);
}

/// Serving a request from a big chunk that has more words than asked
/// for: the chunk keeps its place, takes the size asked for and leaves its
/// list; the first free entry becomes a chunk of the words past the
/// body, at the head of the list of its size (the big list from 40
/// words); one free entry is used. (The object space is a vector, so its
/// length is a `usize`.)
pub proof fn law_split_leaves_the_rest_as_a_chunk(a: OMView, k: int, nbytes: int)
    requires
        a.alloc_inv(),
        a.mem.len() <= usize::MAX,
        0 <= nbytes,
        a.first_fit(word_size(nbytes), k),
        a.avail(a.chunks[BIG_SIZE as int][k]) > word_size(nbytes),
        a.free_oops.len() > 0,
    ensures
        ({
            let r = a.chunks[BIG_SIZE as int][k];
            let q = a.free_oops[0];
            let w = word_size(nbytes);
            let e = a.avail(r) - w;
            let c = a.big_alloc(k, nbytes);
            &&& c.addr_of(r) == a.addr_of(r)
            &&& c.size[r as int] == nbytes as i32
            &&& c.addr_of(q) == a.addr_of(r) + w
            &&& c.size[q as int] == (e * 4) as i32
            &&& c.chunks[if e < 40 { e } else { 40 }][0] == q
            &&& c.free_oops == a.free_oops.drop_first()
        }),
{
    let r = a.chunks[BIG_SIZE as int][k];
    let q = a.free_oops[0];
    assert(q != r && q < OT_SIZE && r < OT_SIZE) by {
        reveal(OMView::chunks_ok);
        reveal(OMView::free_list_ok);
        assert(a.chunk_node_ok(r, BIG_SIZE as int));
        assert(a.loc[q as int] is Index);
    }
    assert(a.addr_of(r) + a.avail(r) <= a.mem.len()) by {
        reveal(OMView::chunks_ok);
        assert(a.chunk_node_ok(r, BIG_SIZE as int));
    }
    let w = word_size(nbytes);
    let e = a.avail(r) - w;
    let c = a.big_alloc(k, nbytes);
    assert(c == a.big_split(k, nbytes));
    assert(c.addr_of(r) == a.addr_of(r));
    assert(c.size[r as int] == nbytes as i32);
    assert(c.addr_of(q) == a.addr_of(r) + w);
    assert(c.size[q as int] == (e * 4) as i32);
    assert(c.chunks[if e < 40 { e } else { 40 }][0] == q);
}

} // verus!
