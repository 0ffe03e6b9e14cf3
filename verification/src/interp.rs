//! The bytecode interpreter: its registers, its stack, and the bytecodes.
use vstd::prelude::*;
use crate::std_ptrs::{OOP, NIL_PTR};
use crate::om::{OM, OMView, OT_SIZE, LITERAL_START, SUPER_CLASS, MSG_DICT, METH_ARRAY, SEL_START, small_int_of, hash};
use crate::mcache::{MethodCacheEntry, CACHE_SIZE};

verus! {

/// Field of an association that holds its value.
pub const VALUE: u8 = 1;

pub const HEADER: u8 = 0;

/// The byte at byte address `ip` of the object space, whose words hold
/// their bytes lowest first.
pub open spec fn byte_at(mem: Seq<OOP>, ip: int) -> u8 {
    ((mem[ip / 4] >> (8 * (ip % 4)) as u32) & 0xFFu32) as u8
}

/// The abstract state of the interpreter.
pub ghost struct InterpView {
    pub om: OMView,
    /// Byte address of the next bytecode.
    pub ip: usize,
    /// Word address of the top of the stack.
    pub sp: usize,
    pub active_context: OOP,
    pub home_context: OOP,
    pub receiver: OOP,
    pub method: OOP,
    pub msg_selector: OOP,
    pub arg_count: usize,
    pub new_method: OOP,
    pub prim_index: u8,
    pub mcache: Seq<MethodCacheEntry>,
}

pub struct Interpreter {
    pub om: OM,
    pub ip: usize,
    pub sp: usize,
    pub active_context: OOP,
    pub home_context: OOP,
    pub receiver: OOP,
    pub method: OOP,
    pub msg_selector: OOP,
    pub arg_count: usize,
    pub new_method: OOP,
    pub prim_index: u8,
    pub mcache: Vec<MethodCacheEntry>,
}

impl View for Interpreter {
    type V = InterpView;

    open spec fn view(&self) -> InterpView {
        InterpView {
            om: self.om@,
            ip: self.ip,
            sp: self.sp,
            active_context: self.active_context,
            home_context: self.home_context,
            receiver: self.receiver,
            method: self.method,
            msg_selector: self.msg_selector,
            arg_count: self.arg_count,
            new_method: self.new_method,
            prim_index: self.prim_index,
            mcache: self.mcache@,
        }
    }
}

impl InterpView {
    pub open spec fn wf(self) -> bool {
        &&& self.om.wf()
        &&& self.mcache.len() == CACHE_SIZE
    }

    /// The word `offset` below the top of the stack, counting the top as 0,
    /// is `stack_at(offset + 1)`.
    pub open spec fn stack_at(self, k: int) -> OOP {
        self.om.mem[self.sp - k]
    }

    /// A push has a word above the top of the stack to write.
    pub open spec fn can_push(self) -> bool {
        self.sp + 1 < self.om.mem.len()
    }

    /// A pop has a top of the stack to read and a word below it.
    pub open spec fn can_pop(self) -> bool {
        1 <= self.sp < self.om.mem.len()
    }

    /// `self` after pushing `obj`.
    pub open spec fn pushed(self, obj: OOP) -> InterpView {
        InterpView {
            sp: (self.sp + 1) as usize,
            om: OMView { mem: self.om.mem.update(self.sp + 1, obj), ..self.om },
            ..self
        }
    }

    /// `self` after popping.
    pub open spec fn popped(self) -> InterpView {
        InterpView { sp: (self.sp - 1) as usize, ..self }
    }

    /// The word `i` words into the body of `obj` can be read.
    pub open spec fn readable(self, obj: OOP, i: int) -> bool {
        &&& obj < OT_SIZE
        &&& self.om.field_in_bounds(obj, i)
    }
}

impl Interpreter {
    pub fn new(om: OM) -> (r: Interpreter)
        ensures
            r@ == (InterpView {
                om: om@,
                ip: 0,
                sp: 0,
                active_context: NIL_PTR,
                home_context: NIL_PTR,
                receiver: NIL_PTR,
                method: NIL_PTR,
                msg_selector: NIL_PTR,
                arg_count: 0,
                new_method: NIL_PTR,
                prim_index: 0,
                mcache: Seq::new(CACHE_SIZE as nat, |i: int| MethodCacheEntry { selector: NIL_PTR, class: NIL_PTR, method: NIL_PTR, prim_index: 0 }),
            }),
    {
        let r = Interpreter {
            om,
            ip: 0,
            sp: 0,
            active_context: NIL_PTR,
            home_context: NIL_PTR,
            receiver: NIL_PTR,
            method: NIL_PTR,
            msg_selector: NIL_PTR,
            arg_count: 0,
            new_method: NIL_PTR,
            prim_index: 0,
            mcache: vec![MethodCacheEntry { selector: NIL_PTR, class: NIL_PTR, method: NIL_PTR, prim_index: 0 }; CACHE_SIZE],
        };
        assert(r.mcache@ =~= Seq::new(CACHE_SIZE as nat, |i: int| MethodCacheEntry { selector: NIL_PTR, class: NIL_PTR, method: NIL_PTR, prim_index: 0 }));
        r
    }

    pub fn push(&mut self, obj: OOP)
        requires
            old(self)@.can_push(),
        ensures
            final(self)@ == old(self)@.pushed(obj),
    {
        let _n = self.om.object_space.len();
        self.sp = self.sp + 1;
        self.om.object_space.set(self.sp, obj);
    }

    /// Drops the top `n` words of the stack.
    pub fn pop_n(&mut self, n: isize)
        requires
            0 <= old(self)@.sp - n <= usize::MAX,
        ensures
            final(self)@ == (InterpView { sp: (old(self)@.sp - n) as usize, ..old(self)@ }),
    {
        let v: i128 = self.sp as i128 - n as i128;
        assert(v == self.sp - n);
        self.sp = v as usize;
    }

    pub fn pop(&mut self) -> (r: OOP)
        requires
            old(self)@.can_pop(),
        ensures
            r == old(self)@.stack_at(0),
            final(self)@ == old(self)@.popped(),
    {
        let oop = self.om.object_space[self.sp];
        self.sp = self.sp - 1;
        oop
    }

    pub(crate) fn stack_top(&mut self) -> (r: OOP)
        requires
            old(self)@.sp < old(self)@.om.mem.len(),
        ensures
            r == old(self)@.stack_at(0),
            final(self)@ == old(self)@,
    {
        self.om.object_space[self.sp]
    }

    pub(crate) fn pop_stack_top(&mut self)
        requires
            old(self)@.can_pop(),
        ensures
            final(self)@ == old(self)@.popped(),
    {
        self.pop();
    }

    /// The word `offset + 1` below the top of the stack.
    pub(crate) fn stack_val(&mut self, offset: isize) -> (r: OOP)
        requires
            0 <= old(self)@.sp - offset - 1 < old(self)@.om.mem.len(),
        ensures
            r == old(self)@.stack_at(offset + 1),
            final(self)@ == old(self)@,
    {
        let _n = self.om.object_space.len();
        let idx: i128 = self.sp as i128 - offset as i128 - 1;
        assert(idx == self.sp - offset - 1);
        self.om.object_space[idx as usize]
    }

    pub(crate) fn fetch_ptr(&self, obj: OOP, offset: u8) -> (r: OOP)
        requires
            self@.wf(),
            self@.readable(obj, offset as int),
        ensures
            r == self@.om.field(obj, offset as int),
    {
        self.om.fetch_ptr(obj, offset as isize)
    }

    pub(crate) fn store_ptr(&mut self, obj: OOP, offset: u8, value: OOP)
        requires
            old(self)@.wf(),
            old(self)@.readable(obj, offset as int),
            old(self)@.om.can_inc(value),
            old(self)@.om.inc_ref_spec(value).can_dec(old(self)@.om.field(obj, offset as int)),
        ensures
            final(self)@ == (InterpView {
                om: OMView {
                    mem: old(self)@.om.mem.update(old(self)@.om.slot(obj, offset as int), value),
                    ..old(self)@.om.inc_ref_spec(value).dec_ref_spec(old(self)@.om.field(obj, offset as int))
                },
                ..old(self)@
            }),
    {
        self.om.store_ptr(obj, offset as isize, value)
    }

    pub(crate) fn push_receiver(&mut self)
        requires
            old(self)@.can_push(),
        ensures
            final(self)@ == old(self)@.pushed(old(self)@.receiver),
    {
        let oop = self.receiver;
        self.push(oop);
    }

    pub(crate) fn push_const(&mut self, val: OOP)
        requires
            old(self)@.can_push(),
        ensures
            final(self)@ == old(self)@.pushed(val),
    {
        self.push(val)
    }

    pub(crate) fn dup_stack_top(&mut self)
        requires
            old(self)@.can_push(),
        ensures
            final(self)@ == old(self)@.pushed(old(self)@.stack_at(0)),
    {
        let val = self.stack_top();
        self.push(val);
    }

    pub(crate) fn push_active_context(&mut self)
        requires
            old(self)@.can_push(),
        ensures
            final(self)@ == old(self)@.pushed(old(self)@.active_context),
    {
        let ctx = self.active_context;
        self.push(ctx);
    }
}


pub proof fn lemma_mask_bounds(x: u32)
    ensures
        x & 0x3F <= 0x3F,
        (x & 0x0F80) >> 7 <= 31,
        (x & 0x7000) >> 12 <= 7,
{
    assert(x & 0x3F <= 0x3F) by (bit_vector);
    assert((x & 0x0F80) >> 7 <= 31) by (bit_vector);
    assert((x & 0x7000) >> 12 <= 7) by (bit_vector);
}

pub proof fn lemma_byte_masks(b: u8)
    ensures
        b & 15 < 16,
        b & 7 < 8,
        b & 31 < 32,
        b & 0x3f < 64,
{
    assert(b & 15 < 16) by (bit_vector);
    assert(b & 7 < 8) by (bit_vector);
    assert(b & 31 < 32) by (bit_vector);
    assert(b & 0x3f < 64) by (bit_vector);
}

impl InterpView {
    pub open spec fn header_of(self, m: OOP) -> OOP {
        self.om.field(m, 0)
    }

    /// Where the index of a method's primitive lies: in the literal before
    /// the last, as its low byte.
    pub open spec fn prim_ext_offset(self, m: OOP) -> u8 {
        (((self.header_of(m) & 0x3F) - 2) + LITERAL_START) as u8
    }

    /// A method's header, and its primitive-index literal if the header
    /// says it has one, can be read.
    pub open spec fn prim_index_ok(self, m: OOP) -> bool {
        &&& self.readable(m, 0)
        &&& (self.header_of(m) & 0x7000 == 0x7000) ==> {
            &&& self.header_of(m) & 0x3F >= 2
            &&& self.readable(m, self.prim_ext_offset(m) as int)
        }
    }

    /// The index of the primitive of method `m`, 0 for none.
    pub open spec fn prim_index_of(self, m: OOP) -> u8 {
        if self.header_of(m) & 0x7000 == 0x7000 {
            (self.om.field(m, self.prim_ext_offset(m) as int) as u8) & 0xFF
        } else {
            0
        }
    }

    /// The next bytecode can be read, and the instruction pointer moved past it.
    pub open spec fn can_fetch(self) -> bool {
        &&& self.ip / 4 < self.om.mem.len()
        &&& self.ip < usize::MAX
    }

    pub open spec fn next_byte_spec(self) -> u8 {
        byte_at(self.om.mem, self.ip as int)
    }

    /// `self` after fetching a bytecode.
    pub open spec fn fetched(self) -> InterpView {
        InterpView { ip: (self.ip + 1) as usize, ..self }
    }

    /// The temporary `offset` of the home context.
    pub open spec fn temp_spec(self, offset: int) -> OOP {
        self.om.field(self.home_context, 6 + offset)
    }

    pub open spec fn temp_ok(self, offset: int) -> bool {
        &&& 0 <= offset < 32
        &&& self.readable(self.home_context, 6 + offset)
    }

    /// A store of `value` into word `i` of `obj` keeps the counts in range.
    pub open spec fn store_ok(self, obj: OOP, i: int, value: OOP) -> bool {
        &&& self.readable(obj, i)
        &&& self.om.can_inc(value)
        &&& self.om.inc_ref_spec(value).can_dec(self.om.field(obj, i))
    }

    /// `self` after storing `value` into word `i` of `obj`.
    pub open spec fn stored(self, obj: OOP, i: int, value: OOP) -> InterpView {
        InterpView {
            om: OMView {
                mem: self.om.mem.update(self.om.slot(obj, i), value),
                ..self.om.inc_ref_spec(value).dec_ref_spec(self.om.field(obj, i))
            },
            ..self
        }
    }
}

impl Interpreter {
    pub(crate) fn next_byte(&mut self) -> (r: u8)
        requires
            old(self)@.can_fetch(),
        ensures
            r == old(self)@.next_byte_spec(),
            final(self)@ == old(self)@.fetched(),
    {
        let w = self.om.object_space[self.ip / 4];
        let byte = ((w >> (8 * (self.ip % 4)) as u32) & 0xFF) as u8;
        self.ip = self.ip + 1;
        byte
    }

    pub(crate) fn jump(&mut self, offset: isize)
        requires
            0 <= old(self)@.ip + offset <= usize::MAX,
        ensures
            final(self)@ == (InterpView { ip: (old(self)@.ip + offset) as usize, ..old(self)@ }),
    {
        let v: i128 = self.ip as i128 + offset as i128;
        assert(v == self.ip + offset);
        self.ip = v as usize;
    }

    /// The temporary `offset` of the home context.
    pub(crate) fn temp(&self, offset: u8) -> (r: OOP)
        requires
            self@.wf(),
            self@.temp_ok(offset as int),
        ensures
            r == self@.temp_spec(offset as int),
    {
        self.fetch_ptr(self.home_context, 6 + offset)
    }

    /// Literals are not looked up: every literal reads as 0.
    pub(crate) fn literal(&self, _literal_offset: u8) -> (r: OOP)
        ensures
            r == 0,
    {
        0
    }

    fn superclass(&self, class: OOP) -> (r: OOP)
        requires
            self@.wf(),
            self@.readable(class, SUPER_CLASS as int),
        ensures
            r == self@.om.field(class, SUPER_CLASS as int),
    {
        self.fetch_ptr(class, SUPER_CLASS)
    }

    pub(crate) fn header(&self, obj: OOP) -> (r: OOP)
        requires
            self@.wf(),
            self@.readable(obj, 0),
        ensures
            r == self@.header_of(obj),
    {
        self.fetch_ptr(obj, HEADER)
    }

    fn hdr_ext(&self, obj: OOP) -> (r: OOP)
        requires
            self@.wf(),
            self@.readable(obj, 0),
            self@.header_of(obj) & 0x3F >= 2,
            self@.readable(obj, self@.prim_ext_offset(obj) as int),
        ensures
            r == self@.om.field(obj, self@.prim_ext_offset(obj) as int),
    {
        proof {
            lemma_mask_bounds(self@.header_of(obj));
        }
        self.lit_meth(self.lit_count(obj) - 2, obj)
    }

    pub(crate) fn hdr_large_ctx(&self, hdr: OOP) -> (r: bool)
        ensures
            r == (hdr & 0x40 != 0),
    {
        hdr & 0x40 != 0
    }

    /// The byte offset of a method's first bytecode, one-based.
    pub(crate) fn hdr_init_ip_of_meth(&self, hdr: OOP) -> (r: u32)
        ensures
            r == ((hdr & 0x3F) + LITERAL_START) * 4 + 1,
    {
        proof {
            lemma_mask_bounds(hdr);
        }
        ((self.lit_cnt_hdr(hdr) + LITERAL_START) * 4 + 1)
    }

    pub(crate) fn hdr_temp_count_of(&self, hdr: OOP) -> (r: u32)
        ensures
            r == (hdr & 0x0F80) >> 7,
    {
        ((hdr) & 0x0F80) >> 7
    }

    fn lit_meth(&self, offset: u32, obj: OOP) -> (r: OOP)
        requires
            self@.wf(),
            offset + LITERAL_START <= u32::MAX,
            self@.readable(obj, ((offset + LITERAL_START) as u8) as int),
        ensures
            r == self@.om.field(obj, ((offset + LITERAL_START) as u8) as int),
    {
        self.fetch_ptr(obj, (offset + LITERAL_START) as u8)
    }

    fn lit_count(&self, obj: OOP) -> (r: OOP)
        requires
            self@.wf(),
            self@.readable(obj, 0),
        ensures
            r == self@.header_of(obj) & 0x3F,
    {
        self.lit_cnt_hdr(self.header(obj))
    }

    fn lit_cnt_hdr(&self, header: OOP) -> (r: OOP)
        ensures
            r == header & 0x3F,
    {
        header & 0x3F
    }

    pub(crate) fn flag_value(&self, m: OOP) -> (r: u8)
        requires
            self@.wf(),
            self@.readable(m, 0),
        ensures
            r == ((self@.header_of(m) & 0x7000) >> 12) as u8,
    {
        ((self.header(m) & 0x7000) >> 12) as u8
    }

    pub(crate) fn field_index(&self, m: OOP) -> (r: u8)
        requires
            self@.wf(),
            self@.readable(m, 0),
        ensures
            r == ((self@.header_of(m) & 0x0F80) >> 7) as u8,
    {
        ((self.header(m) & 0x0F80) >> 7) as u8
    }

    /// The index of the primitive of method `m`, 0 for none.
    pub fn primitive_index(&self, m: OOP) -> (r: u8)
        requires
            self@.wf(),
            self@.prim_index_ok(m),
        ensures
            r == self@.prim_index_of(m),
    {
        if self.header(m) & 0x7000 == 0x7000 {
            (self.hdr_ext(m) as u8) & 0xFF
        } else {
            0
        }
    }

    pub(crate) fn push_receiver_var(&mut self, bytecode: u8)
        requires
            old(self)@.wf(),
            old(self)@.readable(old(self)@.receiver, (bytecode & 15) as int),
            old(self)@.can_push(),
        ensures
            final(self)@ == old(self)@.pushed(old(self)@.om.field(old(self)@.receiver, (bytecode & 15) as int)),
    {
        let oop = self.fetch_ptr(self.receiver, bytecode & 15);
        self.push(oop)
    }

    pub(crate) fn push_temp_var(&mut self, bytecode: u8)
        requires
            old(self)@.wf(),
            old(self)@.temp_ok((bytecode & 15) as int),
            old(self)@.can_push(),
        ensures
            final(self)@ == old(self)@.pushed(old(self)@.temp_spec((bytecode & 15) as int)),
    {
        proof {
            lemma_byte_masks(bytecode);
        }
        let oop = self.temp(bytecode & 15);
        self.push(oop);
    }

    pub(crate) fn push_literal_const(&mut self, bytecode: u8)
        requires
            old(self)@.can_push(),
        ensures
            final(self)@ == old(self)@.pushed(0),
    {
        let oop = self.literal(bytecode & 31);
        self.push(oop);
    }

    pub(crate) fn push_literal_var(&mut self, bytecode: u8)
        requires
            old(self)@.wf(),
            old(self)@.readable(0, VALUE as int),
            old(self)@.can_push(),
        ensures
            final(self)@ == old(self)@.pushed(old(self)@.om.field(0, VALUE as int)),
    {
        let oop = self.fetch_ptr(self.literal(bytecode & 31), VALUE);
        self.push(oop);
    }

    pub(crate) fn pop_and_store_receiver_var(&mut self, bytecode: u8)
        requires
            old(self)@.wf(),
            old(self)@.can_pop(),
            old(self)@.popped().store_ok(old(self)@.receiver, (bytecode & 7) as int, old(self)@.stack_at(0)),
        ensures
            final(self)@ == old(self)@.popped().stored(old(self)@.receiver, (bytecode & 7) as int, old(self)@.stack_at(0)),
    {
        let val = self.pop();
        self.store_ptr(self.receiver, bytecode & 7, val);
    }

    pub(crate) fn pop_and_store_temp_var(&mut self, bytecode: u8)
        requires
            old(self)@.wf(),
            old(self)@.can_pop(),
            old(self)@.popped().store_ok(old(self)@.home_context, 6 + (bytecode & 7), old(self)@.stack_at(0)),
        ensures
            final(self)@ == old(self)@.popped().stored(old(self)@.home_context, 6 + (bytecode & 7), old(self)@.stack_at(0)),
    {
        proof {
            lemma_byte_masks(bytecode);
        }
        let val = self.pop();
        self.store_ptr(self.home_context, 6 + (bytecode & 7), val);
    }

    /// Not implemented: leaves everything as it is.
    pub(crate) fn return_stack_top_from_message(&mut self)
        ensures
            final(self)@ == old(self)@,
    {
    }

    /// Not implemented: leaves everything as it is.
    pub(crate) fn return_stack_top_from_block(&mut self)
        ensures
            final(self)@ == old(self)@,
    {
    }
}

impl InterpView {
    /// The words of `dict`, a method dictionary.
    pub open spec fn dict_length(self, dict: OOP) -> usize {
        (self.om.size_of(dict) / 4) as usize
    }

    /// The slot where the search for `sel` in `dict` starts, before it is
    /// cut to a byte.
    pub open spec fn probe_sum(self, dict: OOP, sel: OOP) -> int {
        let length = self.dict_length(dict);
        let len: usize = if length == 0 { usize::MAX } else { (length - 1) as usize };
        (len & (sel as usize)) + SEL_START as usize
    }

    /// The slot where the search for `sel` in `dict` starts.
    pub open spec fn probe_start(self, dict: OOP, sel: OOP) -> u8 {
        self.probe_sum(dict, sel) as u8
    }

    /// The search for `sel` from slot `index` of `dict` reads only what can be
    /// read, and moves its index without overflow.
    pub open spec fn probe_ok(self, dict: OOP, sel: OOP, index: u8, wrap: bool) -> bool
        decreases (if wrap { 0int } else { 1int }), 256 - index,
    {
        &&& self.readable(dict, index as int)
        &&& {
            let next_sel = self.om.field(dict, index as int);
            if next_sel == NIL_PTR {
                true
            } else if next_sel == sel {
                &&& index >= SEL_START
                &&& self.readable(dict, METH_ARRAY as int)
                &&& self.readable(self.om.field(dict, METH_ARRAY as int), (index - SEL_START) as int)
            } else {
                &&& index < 255
                &&& if (index + 1) as usize == self.dict_length(dict) {
                    !wrap ==> self.probe_ok(dict, sel, SEL_START, true)
                } else {
                    self.probe_ok(dict, sel, (index + 1) as u8, wrap)
                }
            }
        }
    }

    /// The method the search for `sel` from slot `index` of `dict` finds.
    pub open spec fn probe_result(self, dict: OOP, sel: OOP, index: u8, wrap: bool) -> Option<OOP>
        decreases (if wrap { 0int } else { 1int }), 256 - index,
    {
        let next_sel = self.om.field(dict, index as int);
        if next_sel == NIL_PTR {
            None
        } else if next_sel == sel {
            Some(self.om.field(self.om.field(dict, METH_ARRAY as int), (index - SEL_START) as int))
        } else if index >= 255 {
            None
        } else if (index + 1) as usize == self.dict_length(dict) {
            if wrap { None } else { self.probe_result(dict, sel, SEL_START, true) }
        } else {
            self.probe_result(dict, sel, (index + 1) as u8, wrap)
        }
    }

    /// The lookup of `sel` from class `cls` up the superclass chain ends
    /// within `fuel` classes, reading only what can be read.
    pub open spec fn lookup_ok(self, cls: OOP, sel: OOP, fuel: nat) -> bool
        decreases fuel,
    {
        if cls == NIL_PTR {
            true
        } else if fuel == 0 {
            false
        } else {
            let dict = self.om.field(cls, MSG_DICT as int);
            &&& self.readable(cls, MSG_DICT as int)
            &&& dict < OT_SIZE
            &&& self.probe_sum(dict, sel) <= usize::MAX
            &&& self.probe_ok(dict, sel, self.probe_start(dict, sel), false)
            &&& self.probe_result(dict, sel, self.probe_start(dict, sel), false) is None ==> {
                &&& self.readable(cls, SUPER_CLASS as int)
                &&& self.lookup_ok(self.om.field(cls, SUPER_CLASS as int), sel, (fuel - 1) as nat)
            }
        }
    }

    /// The method the lookup of `sel` from class `cls` finds; nil when none.
    pub open spec fn lookup_spec(self, cls: OOP, sel: OOP, fuel: nat) -> OOP
        decreases fuel,
    {
        if cls == NIL_PTR || fuel == 0 {
            NIL_PTR
        } else {
            let dict = self.om.field(cls, MSG_DICT as int);
            match self.probe_result(dict, sel, self.probe_start(dict, sel), false) {
                Some(m) => m,
                None => self.lookup_spec(self.om.field(cls, SUPER_CLASS as int), sel, (fuel - 1) as nat),
            }
        }
    }

    pub open spec fn lookup_fuel(self, cls: OOP, sel: OOP) -> nat {
        choose|f: nat| self.lookup_ok(cls, sel, f)
    }

    pub open spec fn can_lookup(self, cls: OOP, sel: OOP) -> bool {
        exists|f: nat| self.lookup_ok(cls, sel, f)
    }

    pub open spec fn lookup_of(self, cls: OOP, sel: OOP) -> OOP {
        self.lookup_spec(cls, sel, self.lookup_fuel(cls, sel))
    }
}

impl Interpreter {
    /// Searches the method dictionaries from class `cls` up the superclass
    /// chain for the method of selector `selector`; nil when none has it.
    pub(crate) fn lookup_method_in_class_(&self, cls: OOP, selector: OOP) -> (r: OOP)
        requires
            self@.wf(),
            self@.can_lookup(cls, selector),
        ensures
            r == self@.lookup_of(cls, selector),
    {
        let ghost v = self@;
        let ghost mut fuel: nat = v.lookup_fuel(cls, selector);
        let mut current: OOP = cls;
        while current != NIL_PTR
            invariant
                self@ == v,
                v.wf(),
                v.lookup_ok(current, selector, fuel),
                v.lookup_of(cls, selector) == v.lookup_spec(current, selector, fuel),
            decreases fuel,
        {
            let dict = self.fetch_ptr(current, MSG_DICT);
            let length = self.om.len(dict);
            let mut wrap = false;
            let len = length.wrapping_sub(SEL_START as usize - 1);
            proof {
                let h = selector as usize;
                assert((len & h) <= h) by (bit_vector);
            }
            let mut index: u8 = #[verifier::truncate] (((len & hash(selector)) + (SEL_START as usize)) as u8);
            proof {
                assert(index == v.probe_start(dict, selector));
            }
            loop
                invariant_except_break
                    v.probe_ok(dict, selector, index, wrap),
                    v.probe_result(dict, selector, v.probe_start(dict, selector), false) == v.probe_result(dict, selector, index, wrap),
                invariant
                    self@ == v,
                    v.wf(),
                    dict < OT_SIZE,
                    current != NIL_PTR,
                    fuel > 0,
                    dict == v.om.field(current, MSG_DICT as int),
                    length == v.dict_length(dict),
                    v.lookup_ok(current, selector, fuel),
                    v.lookup_of(cls, selector) == v.lookup_spec(current, selector, fuel),
                ensures
                    v.probe_result(dict, selector, v.probe_start(dict, selector), false) is None,
                decreases (if wrap { 0int } else { 1int }), 256 - index,
            {
                let next_sel = self.fetch_ptr(dict, index);
                if next_sel == NIL_PTR {
                    break;
                }
                if next_sel == selector {
                    let arr = self.fetch_ptr(dict, METH_ARRAY);
                    return self.fetch_ptr(arr, index - SEL_START);
                }
                index += 1;
                if index as usize == length {
                    if wrap {
                        break;
                    }
                    wrap = true;
                    index = SEL_START;
                }
            }
            current = self.superclass(current);
            proof {
                fuel = (fuel - 1) as nat;
            }
        }
        NIL_PTR
    }
}
} // verus!
