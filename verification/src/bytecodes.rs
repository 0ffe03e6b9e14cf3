//! The bytecodes that read further bytes, jump or send, and the fetch and
//! dispatch of one bytecode.
use vstd::prelude::*;
use crate::std_ptrs::{OOP, FALSE_PTR, TRUE_PTR, NIL_PTR, MINUS_ONE_PTR, ZERO_PTR, ONE_PTR, TWO_PTR, MUST_BE_BOOLEAN, SPECIAL_SELECTORS};
use crate::om::{int_val, small_int_of};
use crate::interp::{Interpreter, InterpView, VALUE};
use crate::prim_table::{prim_ok, prim_effect, int_message, int_message_index};
use crate::primitive_ops::PrimResult;

verus! {

pub proof fn lemma_desc_kinds(d: u8)
    ensures
        d & 0xc0 == 0 || d & 0xc0 == 0x40 || d & 0xc0 == 0x80 || d & 0xc0 == 0xc0,
        d & 0x3f < 64,
        d & 0x1f < 32,
        d & 7 < 8,
        d & 3 < 4,
        d >> 5 < 8,
{
    assert(d & 0xc0 == 0 || d & 0xc0 == 0x40 || d & 0xc0 == 0x80 || d & 0xc0 == 0xc0) by (bit_vector);
    assert(d & 0x3f < 64) by (bit_vector);
    assert(d & 0x1f < 32) by (bit_vector);
    assert(d & 7 < 8) by (bit_vector);
    assert(d & 3 < 4) by (bit_vector);
    assert(d >> 5 < 8) by (bit_vector);
}

impl InterpView {
    /// What an extended push of descriptor `d` pushes: a receiver variable,
    /// a temporary, a literal (always 0) or a literal variable's value.
    pub open spec fn ext_push_value(self, d: u8) -> OOP {
        if d & 0xc0 == 0 {
            self.om.field(self.receiver, (d & 0x3f) as int)
        } else if d & 0xc0 == 0x40 {
            self.temp_spec((d & 0x3f) as int)
        } else if d & 0xc0 == 0x80 {
            0
        } else {
            self.om.field(0, VALUE as int)
        }
    }

    pub open spec fn ext_push_value_ok(self, d: u8) -> bool {
        if d & 0xc0 == 0 {
            self.readable(self.receiver, (d & 0x3f) as int)
        } else if d & 0xc0 == 0x40 {
            self.temp_ok((d & 0x3f) as int)
        } else if d & 0xc0 == 0x80 {
            true
        } else {
            self.readable(0, VALUE as int)
        }
    }

    /// Where an extended store of descriptor `d` stores: an object and a word.
    pub open spec fn ext_store_target(self, d: u8) -> (OOP, int) {
        if d & 0xc0 == 0 {
            (self.receiver, (d & 0x3f) as int)
        } else if d & 0xc0 == 0x40 {
            (self.home_context, (d & 0x3f) + 6)
        } else {
            (0, VALUE as int)
        }
    }

    /// An extended store of descriptor `d` stores the top of the stack;
    /// descriptor kind 0x80 is invalid.
    pub open spec fn ext_store_ok(self, d: u8) -> bool {
        let t = self.ext_store_target(d);
        &&& d & 0xc0 != 0x80
        &&& self.sp < self.om.mem.len()
        &&& self.store_ok(t.0, t.1, self.stack_at(0))
    }

    pub open spec fn ext_stored(self, d: u8) -> InterpView {
        let t = self.ext_store_target(d);
        self.stored(t.0, t.1, self.stack_at(0))
    }

    /// A conditional jump by `offset` on the top of the stack being `cond`,
    /// where `notcond` is the other boolean; anything else is sent mustBeBoolean.
    pub open spec fn jumplf_ok(self, cond: OOP, notcond: OOP, offset: int) -> bool {
        let top = self.stack_at(0);
        &&& self.wf()
        &&& self.sp < self.om.mem.len()
        &&& top == cond ==> self.can_pop() && 0 <= self.ip + offset <= usize::MAX
        &&& top != cond && top != notcond ==> self.send_ok(MUST_BE_BOOLEAN, 0)
        &&& top != cond && top == notcond ==> self.can_pop()
    }

    pub open spec fn jumplf_post(self, c: InterpView, cond: OOP, notcond: OOP, offset: int) -> bool {
        let top = self.stack_at(0);
        if top == cond {
            c == (InterpView { ip: (self.ip + offset) as usize, ..self.popped() })
        } else if top != notcond {
            self.send_post(c, MUST_BE_BOOLEAN, 0)
        } else {
            c == self.popped()
        }
    }

    /// The selector and argument count that an arithmetic bytecode sends
    /// when its primitive fails, from the special selectors.
    pub open spec fn arith_selector(self, sel_idx: u8) -> OOP {
        self.om.field(SPECIAL_SELECTORS, (sel_idx + sel_idx) as int)
    }

    pub open spec fn arith_argc(self, sel_idx: u8) -> u8 {
        (small_int_of(self.om.field(SPECIAL_SELECTORS, (sel_idx + sel_idx) as int + 1)) as i32) as u8
    }

    pub open spec fn arith_ok(self, bytecode: u8) -> bool {
        let sel_idx = (bytecode - 176) as u8;
        let p = int_message_index(sel_idx);
        &&& 176 <= bytecode <= 191
        &&& prim_ok(self, p)
        &&& forall|c: InterpView, r: PrimResult| #[trigger] prim_effect(self, p, c, r) && r is Err ==> {
            &&& c.wf()
            &&& c.readable(SPECIAL_SELECTORS, (sel_idx + sel_idx) as int)
            &&& c.readable(SPECIAL_SELECTORS, (sel_idx + sel_idx) as int + 1)
            &&& c.send_ok(c.arith_selector(sel_idx), c.arith_argc(sel_idx))
        }
    }

    pub open spec fn arith_post(self, c: InterpView, bytecode: u8) -> bool {
        let sel_idx = (bytecode - 176) as u8;
        exists|c1: InterpView, r: PrimResult| #[trigger] prim_effect(self, int_message_index(sel_idx), c1, r) && {
            &&& r is Ok ==> c == c1
            &&& r is Err ==> c1.send_post(c, c1.arith_selector(sel_idx), c1.arith_argc(sel_idx))
        }
    }
}

impl Interpreter {
    pub(crate) fn extended_push(&mut self)
        requires
            old(self)@.wf(),
            old(self)@.can_fetch(),
            old(self)@.fetched().ext_push_value_ok(old(self)@.next_byte_spec()),
            old(self)@.can_push(),
        ensures
            final(self)@ == old(self)@.fetched().pushed(old(self)@.fetched().ext_push_value(old(self)@.next_byte_spec())),
    {
        let desc = self.next_byte();
        proof {
            lemma_desc_kinds(desc);
        }
        let oop = if desc & 0xc0 == 0 {
            self.fetch_ptr(self.receiver, desc & 0x3f)
        } else if desc & 0xc0 == 0x40 {
            self.temp(desc & 0x3f)
        } else if desc & 0xc0 == 0x80 {
            self.literal(desc & 0x3f)
        } else {
            self.fetch_ptr(self.literal(desc & 0x3f), VALUE)
        };
        self.push(oop);
    }

    pub(crate) fn extended_store(&mut self)
        requires
            old(self)@.wf(),
            old(self)@.can_fetch(),
            old(self)@.fetched().ext_store_ok(old(self)@.next_byte_spec()),
        ensures
            final(self)@ == old(self)@.fetched().ext_stored(old(self)@.next_byte_spec()),
    {
        let desc = self.next_byte();
        proof {
            lemma_desc_kinds(desc);
        }
        if desc & 0xc0 == 0 {
            let val = self.stack_top();
            self.store_ptr(self.receiver, desc & 0x3f, val)
        } else if desc & 0xc0 == 0x40 {
            let val = self.stack_top();
            self.store_ptr(self.home_context, (desc & 0x3F) + 6, val)
        } else {
            let val = self.stack_top();
            self.store_ptr(self.literal(desc & 0x3f), VALUE, val)
        }
    }

    pub(crate) fn extended_store_and_pop(&mut self)
        requires
            old(self)@.wf(),
            old(self)@.can_fetch(),
            old(self)@.fetched().ext_store_ok(old(self)@.next_byte_spec()),
            old(self)@.sp >= 1,
        ensures
            final(self)@ == old(self)@.fetched().ext_stored(old(self)@.next_byte_spec()).popped(),
    {
        self.extended_store();
        self.pop();
    }

    pub(crate) fn extended_send_of_literal(&mut self)
        requires
            old(self)@.can_fetch(),
            old(self)@.fetched().send_ok(0, old(self)@.next_byte_spec() >> 5),
        ensures
            old(self)@.fetched().send_post(final(self)@, 0, old(self)@.next_byte_spec() >> 5),
    {
        let desc = self.next_byte();
        let literal = self.literal(desc & 31);
        self.send_selector(literal, desc >> 5);
    }

    pub(crate) fn extended_send_of_extended_literal(&mut self)
        requires
            old(self)@.can_fetch(),
            old(self)@.fetched().can_fetch(),
            old(self)@.fetched().fetched().send_ok(0, old(self)@.next_byte_spec()),
        ensures
            old(self)@.fetched().fetched().send_post(final(self)@, 0, old(self)@.next_byte_spec()),
    {
        let count = self.next_byte();
        let offset = self.next_byte();
        let literal = self.literal(offset);
        self.send_selector(literal, count);
    }

    pub(crate) fn send_literal_with_argc(&mut self, bytecode: u8, argc: u8)
        requires
            old(self)@.send_ok(0, argc),
        ensures
            old(self)@.send_post(final(self)@, 0, argc),
    {
        let literal = self.literal(bytecode & 0x15);
        self.send_selector(literal, argc);
    }

    /// Tries the arithmetic primitive of `bytecode`; when it fails, sends
    /// the special selector instead.
    pub(crate) fn send_arith_msg(&mut self, bytecode: u8)
        requires
            old(self)@.arith_ok(bytecode),
        ensures
            old(self)@.arith_post(final(self)@, bytecode),
    {
        let ghost v = self@;
        let mut sel_idx = bytecode - 176;
        let r = int_message(sel_idx, self);
        let ghost c1 = self@;
        proof {
            assert(prim_effect(v, int_message_index(sel_idx), c1, r));
        }
        if !r.is_ok() {
            sel_idx += sel_idx;
            let sel = self.fetch_ptr(SPECIAL_SELECTORS, sel_idx);
            let argc = int_val(self.fetch_ptr(SPECIAL_SELECTORS, sel_idx + 1));
            self.send_selector(sel, #[verifier::truncate] (argc as u8));
        }
    }

    pub(crate) fn jumplf(&mut self, cond: OOP, notcond: OOP, offset: isize)
        requires
            old(self)@.jumplf_ok(cond, notcond, offset as int),
        ensures
            old(self)@.jumplf_post(final(self)@, cond, notcond, offset as int),
    {
        let bool_val = self.stack_top();
        if bool_val == cond {
            self.pop();
            self.jump(offset);
        } else if bool_val != notcond {
            self.send_selector(MUST_BE_BOOLEAN, 0);
        } else {
            self.pop();
        }
    }

    pub(crate) fn short_unconditional_jump(&mut self, bytecode: u8)
        requires
            old(self)@.ip + ((bytecode & 7) + 1) <= usize::MAX,
        ensures
            final(self)@ == (InterpView { ip: (old(self)@.ip + ((bytecode & 7) + 1)) as usize, ..old(self)@ }),
    {
        proof {
            lemma_desc_kinds(bytecode);
        }
        self.jump(((bytecode & 7) + 1) as isize);
    }

    pub(crate) fn jump_if_false(&mut self, bytecode: u8)
        requires
            old(self)@.jumplf_ok(FALSE_PTR, TRUE_PTR, ((bytecode & 7) + 1) as int),
        ensures
            old(self)@.jumplf_post(final(self)@, FALSE_PTR, TRUE_PTR, ((bytecode & 7) + 1) as int),
    {
        proof {
            lemma_desc_kinds(bytecode);
        }
        self.jumplf(FALSE_PTR, TRUE_PTR, ((bytecode & 7) + 1) as isize);
    }

    pub(crate) fn extended_unconditional_jump(&mut self, bytecode: u8)
        requires
            old(self)@.can_fetch(),
            0 <= old(self)@.ip + 1 + 256 * ((bytecode & 7) - 4) + old(self)@.next_byte_spec() <= usize::MAX,
        ensures
            final(self)@ == (InterpView {
                ip: (old(self)@.ip + 1 + 256 * ((bytecode & 7) - 4) + old(self)@.next_byte_spec()) as usize,
                ..old(self)@
            }),
    {
        proof {
            lemma_desc_kinds(bytecode);
        }
        let next = self.next_byte() as isize;
        let offset = 256 * (((bytecode as isize) & 7) - 4) + next;
        proof {
            assert((bytecode as isize) & 7 == (bytecode & 7) as isize) by (bit_vector);
        }
        self.jump(offset);
    }

    pub(crate) fn extended_jump_on_true(&mut self, bytecode: u8)
        requires
            old(self)@.can_fetch(),
            old(self)@.fetched().jumplf_ok(TRUE_PTR, FALSE_PTR, 256 * (bytecode & 3) + old(self)@.next_byte_spec()),
        ensures
            old(self)@.fetched().jumplf_post(final(self)@, TRUE_PTR, FALSE_PTR, 256 * (bytecode & 3) + old(self)@.next_byte_spec()),
    {
        proof {
            lemma_desc_kinds(bytecode);
        }
        let next = self.next_byte() as isize;
        proof {
            assert((bytecode as isize) & 3 == (bytecode & 3) as isize) by (bit_vector);
        }
        self.jumplf(TRUE_PTR, FALSE_PTR, 256 * ((bytecode as isize) & 3) + next);
    }

    pub(crate) fn extended_jump_on_false(&mut self, bytecode: u8)
        requires
            old(self)@.can_fetch(),
            old(self)@.fetched().jumplf_ok(FALSE_PTR, TRUE_PTR, 256 * (bytecode & 3) + old(self)@.next_byte_spec()),
        ensures
            old(self)@.fetched().jumplf_post(final(self)@, FALSE_PTR, TRUE_PTR, 256 * (bytecode & 3) + old(self)@.next_byte_spec()),
    {
        proof {
            lemma_desc_kinds(bytecode);
        }
        let next = self.next_byte() as isize;
        proof {
            assert((bytecode as isize) & 3 == (bytecode & 3) as isize) by (bit_vector);
        }
        self.jumplf(FALSE_PTR, TRUE_PTR, 256 * ((bytecode as isize) & 3) + next);
    }
}

/// Why bytecode `b` cannot be run, if it cannot: the unused codes and the
/// superclass sends are illegal, the special sends not implemented.
pub open spec fn bytecode_error(b: u8) -> Option<&'static str> {
    if 192 <= b <= 207 {
        Some("special ops not implemented")
    } else if 126 <= b <= 127 || b == 133 || b == 134 || 138 <= b <= 143 {
        Some("illegal bytecode")
    } else {
        None
    }
}

impl InterpView {
    /// Bytecode `b`, already fetched, can be run from `self`.
    #[verifier::opaque]
    pub open spec fn dispatch_ok(self, b: u8) -> bool {
        let nb = self.next_byte_spec();
        if b <= 15 {
            self.readable(self.receiver, (b & 15) as int) && self.can_push()
        } else if b <= 31 {
            self.temp_ok((b & 15) as int) && self.can_push()
        } else if b <= 63 {
            self.can_push()
        } else if b <= 95 {
            self.readable(0, VALUE as int) && self.can_push()
        } else if b <= 103 {
            self.can_pop() && self.popped().store_ok(self.receiver, (b & 7) as int, self.stack_at(0))
        } else if b <= 111 {
            self.can_pop() && self.popped().store_ok(self.home_context, 6 + (b & 7), self.stack_at(0))
        } else if b <= 123 {
            self.can_push()
        } else if b == 128 {
            self.can_fetch() && self.fetched().ext_push_value_ok(nb) && self.can_push()
        } else if b == 129 {
            self.can_fetch() && self.fetched().ext_store_ok(nb)
        } else if b == 130 {
            self.can_fetch() && self.fetched().ext_store_ok(nb) && self.sp >= 1
        } else if b == 131 {
            self.can_fetch() && self.fetched().send_ok(0, nb >> 5)
        } else if b == 132 {
            self.can_fetch() && self.fetched().can_fetch() && self.fetched().fetched().send_ok(0, nb)
        } else if b == 135 {
            self.can_pop()
        } else if b == 136 || b == 137 {
            self.can_push()
        } else if 144 <= b <= 151 {
            self.ip + ((b & 7) + 1) <= usize::MAX
        } else if 152 <= b <= 159 {
            self.jumplf_ok(FALSE_PTR, TRUE_PTR, ((b & 7) + 1) as int)
        } else if 160 <= b <= 167 {
            self.can_fetch() && 0 <= self.ip + 1 + 256 * ((b & 7) - 4) + nb <= usize::MAX
        } else if 168 <= b <= 171 {
            self.can_fetch() && self.fetched().jumplf_ok(TRUE_PTR, FALSE_PTR, 256 * (b & 3) + nb)
        } else if 172 <= b <= 175 {
            self.can_fetch() && self.fetched().jumplf_ok(FALSE_PTR, TRUE_PTR, 256 * (b & 3) + nb)
        } else if 176 <= b <= 191 {
            self.arith_ok(b)
        } else if 208 <= b <= 223 {
            self.send_ok(0, 0)
        } else if 224 <= b <= 239 {
            self.send_ok(0, 1)
        } else if 240 <= b {
            self.send_ok(0, 2)
        } else {
            true
        }
    }

    /// `c` is a state that running bytecode `b`, already fetched, leaves.
    #[verifier::opaque]
    pub open spec fn dispatch_post(self, c: InterpView, b: u8) -> bool {
        let nb = self.next_byte_spec();
        if b <= 15 {
            c == self.pushed(self.om.field(self.receiver, (b & 15) as int))
        } else if b <= 31 {
            c == self.pushed(self.temp_spec((b & 15) as int))
        } else if b <= 63 {
            c == self.pushed(0)
        } else if b <= 95 {
            c == self.pushed(self.om.field(0, VALUE as int))
        } else if b <= 103 {
            c == self.popped().stored(self.receiver, (b & 7) as int, self.stack_at(0))
        } else if b <= 111 {
            c == self.popped().stored(self.home_context, 6 + (b & 7), self.stack_at(0))
        } else if b == 112 || b == 120 {
            c == self.pushed(self.receiver)
        } else if b == 113 || b == 121 {
            c == self.pushed(TRUE_PTR)
        } else if b == 114 || b == 122 {
            c == self.pushed(FALSE_PTR)
        } else if b == 115 || b == 123 {
            c == self.pushed(NIL_PTR)
        } else if b == 116 {
            c == self.pushed(MINUS_ONE_PTR)
        } else if b == 117 {
            c == self.pushed(ZERO_PTR)
        } else if b == 118 {
            c == self.pushed(ONE_PTR)
        } else if b == 119 {
            c == self.pushed(TWO_PTR)
        } else if b == 124 || b == 125 {
            c == self
        } else if b == 128 {
            c == self.fetched().pushed(self.fetched().ext_push_value(nb))
        } else if b == 129 {
            c == self.fetched().ext_stored(nb)
        } else if b == 130 {
            c == self.fetched().ext_stored(nb).popped()
        } else if b == 131 {
            self.fetched().send_post(c, 0, nb >> 5)
        } else if b == 132 {
            self.fetched().fetched().send_post(c, 0, nb)
        } else if b == 135 {
            c == self.popped()
        } else if b == 136 {
            c == self.pushed(self.stack_at(0))
        } else if b == 137 {
            c == self.pushed(self.active_context)
        } else if 144 <= b <= 151 {
            c == (InterpView { ip: (self.ip + ((b & 7) + 1)) as usize, ..self })
        } else if 152 <= b <= 159 {
            self.jumplf_post(c, FALSE_PTR, TRUE_PTR, ((b & 7) + 1) as int)
        } else if 160 <= b <= 167 {
            c == (InterpView { ip: (self.ip + 1 + 256 * ((b & 7) - 4) + nb) as usize, ..self })
        } else if 168 <= b <= 171 {
            self.fetched().jumplf_post(c, TRUE_PTR, FALSE_PTR, 256 * (b & 3) + nb)
        } else if 172 <= b <= 175 {
            self.fetched().jumplf_post(c, FALSE_PTR, TRUE_PTR, 256 * (b & 3) + nb)
        } else if 176 <= b <= 191 {
            self.arith_post(c, b)
        } else if 208 <= b <= 223 {
            self.send_post(c, 0, 0)
        } else if 224 <= b <= 239 {
            self.send_post(c, 0, 1)
        } else if 240 <= b {
            self.send_post(c, 0, 2)
        } else {
            c == self
        }
    }

    /// The next bytecode can be fetched, is legal, and can be run.
    pub open spec fn step_ok(self) -> bool {
        let b = self.next_byte_spec();
        &&& self.wf()
        &&& self.can_fetch()
        &&& bytecode_error(b) is None
        &&& self.fetched().dispatch_ok(b)
    }

    /// `c` is what one step from `self` leaves.
    pub open spec fn step_post(self, c: InterpView) -> bool {
        self.fetched().dispatch_post(c, self.next_byte_spec())
    }
}

impl Interpreter {
    /// Fetches the next bytecode and runs it. The illegal and the
    /// unimplemented bytecodes are left out: `next_bytecode_error` tells them.
    pub fn step(&mut self)
        requires
            old(self)@.step_ok(),
        ensures
            old(self)@.step_post(final(self)@),
    {
        let bytecode = self.next_byte();
        proof {
            lemma_desc_kinds(bytecode);
            reveal(InterpView::dispatch_ok);
            reveal(InterpView::dispatch_post);
        }
        if bytecode <= 15 {
            self.push_receiver_var(bytecode);
        } else if bytecode <= 31 {
            self.push_temp_var(bytecode);
        } else if bytecode <= 63 {
            self.push_literal_const(bytecode);
        } else if bytecode <= 95 {
            self.push_literal_var(bytecode);
        } else if bytecode <= 103 {
            self.pop_and_store_receiver_var(bytecode);
        } else if bytecode <= 111 {
            self.pop_and_store_temp_var(bytecode);
        } else if bytecode == 112 || bytecode == 120 {
            self.push_receiver();
        } else if bytecode == 113 || bytecode == 121 {
            self.push_const(TRUE_PTR);
        } else if bytecode == 114 || bytecode == 122 {
            self.push_const(FALSE_PTR);
        } else if bytecode == 115 || bytecode == 123 {
            self.push_const(NIL_PTR);
        } else if bytecode == 116 {
            self.push_const(MINUS_ONE_PTR);
        } else if bytecode == 117 {
            self.push_const(ZERO_PTR);
        } else if bytecode == 118 {
            self.push_const(ONE_PTR);
        } else if bytecode == 119 {
            self.push_const(TWO_PTR);
        } else if bytecode == 124 {
            self.return_stack_top_from_message();
        } else if bytecode == 125 {
            self.return_stack_top_from_block();
        } else if bytecode == 128 {
            self.extended_push();
        } else if bytecode == 129 {
            self.extended_store();
        } else if bytecode == 130 {
            self.extended_store_and_pop();
        } else if bytecode == 131 {
            self.extended_send_of_literal();
        } else if bytecode == 132 {
            self.extended_send_of_extended_literal();
        } else if bytecode == 135 {
            self.pop_stack_top();
        } else if bytecode == 136 {
            self.dup_stack_top();
        } else if bytecode == 137 {
            self.push_active_context();
        } else if 144 <= bytecode && bytecode <= 151 {
            self.short_unconditional_jump(bytecode);
        } else if 152 <= bytecode && bytecode <= 159 {
            self.jump_if_false(bytecode);
        } else if 160 <= bytecode && bytecode <= 167 {
            self.extended_unconditional_jump(bytecode);
        } else if 168 <= bytecode && bytecode <= 171 {
            self.extended_jump_on_true(bytecode);
        } else if 172 <= bytecode && bytecode <= 175 {
            self.extended_jump_on_false(bytecode);
        } else if 176 <= bytecode && bytecode <= 191 {
            self.send_arith_msg(bytecode);
        } else if 208 <= bytecode && bytecode <= 223 {
            self.send_literal_with_argc(bytecode, 0);
        } else if 224 <= bytecode && bytecode <= 239 {
            self.send_literal_with_argc(bytecode, 1);
        } else {
            self.send_literal_with_argc(bytecode, 2);
        }
    }

    /// Why the next bytecode cannot be run, if it cannot: "illegal bytecode"
    /// or "special ops not implemented".
    pub fn next_bytecode_error(&self) -> (r: Option<&'static str>)
        requires
            self@.can_fetch(),
        ensures
            r == bytecode_error(self@.next_byte_spec()),
    {
        let w = self.om.object_space[self.ip / 4];
        let b = ((w >> (8 * (self.ip % 4)) as u32) & 0xFF) as u8;
        if 192 <= b && b <= 207 {
            Some("special ops not implemented")
        } else if (126 <= b && b <= 127) || b == 133 || b == 134 || (138 <= b && b <= 143) {
            Some("illegal bytecode")
        } else {
            None
        }
    }
}

impl InterpView {
    /// `n` steps can be run from `self`: each next bytecode legal and runnable.
    pub open spec fn run_ok(self, n: nat) -> bool
        decreases n,
    {
        n == 0 || (self.step_ok() && forall|c: InterpView| #[trigger] self.step_post(c) ==> c.run_ok((n - 1) as nat))
    }

    /// `c` is what running `n` steps from `self` leaves.
    pub open spec fn run_post(self, c: InterpView, n: nat) -> bool
        decreases n,
    {
        if n == 0 {
            c == self
        } else {
            exists|c1: InterpView| #[trigger] self.step_post(c1) && c1.run_post(c, (n - 1) as nat)
        }
    }
}

impl Interpreter {
    /// Runs `steps` bytecodes.
    pub fn run(&mut self, steps: u64)
        requires
            old(self)@.run_ok(steps as nat),
        ensures
            old(self)@.run_post(final(self)@, steps as nat),
    {
        let ghost v0 = self@;
        let mut i: u64 = 0;
        while i < steps
            invariant
                i <= steps,
                v0 == old(self)@,
                self@.run_ok((steps - i) as nat),
                forall|c: InterpView| self@.run_post(c, (steps - i) as nat) ==> #[trigger] v0.run_post(c, steps as nat),
            decreases steps - i,
        {
            let ghost cur = self@;
            let ghost k = (steps - i) as nat;
            self.step();
            proof {
                let c1 = self@;
                assert(cur.step_post(c1));
                assert(c1.run_ok((k - 1) as nat));
                assert forall|c: InterpView| c1.run_post(c, (k - 1) as nat) implies #[trigger] v0.run_post(c, steps as nat) by {
                    assert(cur.step_post(c1) && c1.run_post(c, (k - 1) as nat));
                    assert(cur.run_post(c, k));
                }
            }
            i = i + 1;
        }
        proof {
            assert(self@.run_post(self@, 0));
        }
    }
}

} // verus!
