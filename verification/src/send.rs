//! Message sending: method lookup through the cache, activation of new
//! methods, and the registers of the active context.
use vstd::prelude::*;
use crate::std_ptrs::{OOP, NIL_PTR, CLASS_SMALL_INTEGER, CLASS_METH_CTX, CLASS_ARRAY, CLASS_MSG, DOES_NOT_UNDERSTAND, SCHED_ASS_PTR, ACTIVE_PROCESS, SUSPENDED_CTX};
use crate::om::{OMView, OT_SIZE, is_int, int_val, is_int_spec, small_int_of, int_obj_spec, copied_halves, word_size};
use crate::interp::{Interpreter, InterpView, VALUE};
use crate::prim_table::{prim_ok, prim_effect, primitive_dispatch};
use crate::primitive_ops::PrimResult;
use crate::context::{MSG_SELECTOR, MSG_ARGS, MSG_SIZE};
use crate::mcache::{MethodCacheEntry, CACHE_SIZE};

verus! {

impl InterpView {
    /// The context fields that make the registers can be read from the context `ac`.
    pub open spec fn ctx_regs_ok(self, ac: OOP) -> bool {
        let w3 = self.om.field(ac, 3);
        let home = if is_int_spec(w3) { self.om.field(ac, 5) } else { self.active_context };
        let m = self.om.field(home, 3);
        &&& self.wf()
        &&& self.readable(ac, 1)
        &&& self.readable(ac, 2)
        &&& self.readable(ac, 3)
        &&& is_int_spec(w3) ==> self.readable(ac, 5)
        &&& self.readable(home, 3)
        &&& self.readable(home, 5)
        &&& m < OT_SIZE
        &&& self.om.has_addr(m)
        &&& self.active_context < OT_SIZE
        &&& self.om.has_addr(self.active_context)
        &&& 0 <= 4 * self.om.addr_of(m) + small_int_of(self.om.field(ac, 1)) - 1 <= usize::MAX
        &&& 0 <= self.om.addr_of(self.active_context) + small_int_of(self.om.field(ac, 2)) + 5 <= usize::MAX
    }

    /// The registers read from the context `ac`: the home context, its
    /// receiver and method, the instruction and stack pointers.
    pub open spec fn ctx_regs(self, ac: OOP) -> InterpView {
        let w3 = self.om.field(ac, 3);
        let home = if is_int_spec(w3) { self.om.field(ac, 5) } else { self.active_context };
        let m = self.om.field(home, 3);
        InterpView {
            home_context: home,
            receiver: self.om.field(home, 5),
            method: m,
            ip: (4 * self.om.addr_of(m) + small_int_of(self.om.field(ac, 1)) - 1) as usize,
            sp: (self.om.addr_of(self.active_context) + small_int_of(self.om.field(ac, 2)) + 5) as usize,
            ..self
        }
    }

    /// The scheduler's active process's suspended context can be read.
    pub open spec fn first_context_ok(self) -> bool {
        let scheduler = self.om.field(SCHED_ASS_PTR, VALUE as int);
        let process = self.om.field(scheduler, ACTIVE_PROCESS as int);
        &&& self.wf()
        &&& self.readable(SCHED_ASS_PTR, VALUE as int)
        &&& self.readable(scheduler, ACTIVE_PROCESS as int)
        &&& self.readable(process, SUSPENDED_CTX as int)
    }

    pub open spec fn first_context(self) -> OOP {
        let scheduler = self.om.field(SCHED_ASS_PTR, VALUE as int);
        let process = self.om.field(scheduler, ACTIVE_PROCESS as int);
        self.om.field(process, SUSPENDED_CTX as int)
    }

    /// `self` with the active context `ac`, in the interpreter and in the object memory.
    pub open spec fn activated(self, ac: OOP) -> InterpView {
        InterpView { active_context: ac, om: OMView { active_context: ac, ..self.om }, ..self }
    }

    /// The words of a new context: large or small, as the method's header says.
    pub open spec fn ctx_size_of(hdr: OOP) -> int {
        6 + if hdr & 0x40 != 0 { 32int } else { 12int }
    }

    /// The state after activating the new method in a context `ctx` that
    /// the allocation of `om1` handed out.
    pub open spec fn activate_tail(self, om1: OMView, ctx: OOP) -> InterpView {
        let hdr = self.header_of(self.new_method);
        let a = om1.addr_of(ctx) as int;
        let m1 = om1.mem.update(a, self.active_context)
            .update(a + 1, int_obj_spec((((hdr & 0x3F) + 1) * 4 + 1) as i32))
            .update(a + 2, int_obj_spec(((hdr & 0x0F80) >> 7) as i32))
            .update(a + 3, self.new_method);
        let m2 = copied_halves(m1, om1.addr_of(self.active_context) as int, a, self.arg_count + 1);
        let v1 = InterpView {
            om: OMView { mem: m2, ..om1 },
            sp: (self.sp - (self.arg_count + 1)) as usize,
            active_context: ctx,
            ..self
        };
        let v2 = v1.ctx_regs(ctx);
        InterpView { om: OMView { active_context: ctx, ..v2.om }, ..v2 }
    }

    pub open spec fn activate_tail_ok(self, om1: OMView, ctx: OOP) -> bool {
        let hdr = self.header_of(self.new_method);
        let a = om1.addr_of(ctx) as int;
        let m1 = om1.mem.update(a, self.active_context)
            .update(a + 1, int_obj_spec((((hdr & 0x3F) + 1) * 4 + 1) as i32))
            .update(a + 2, int_obj_spec(((hdr & 0x0F80) >> 7) as i32))
            .update(a + 3, self.new_method);
        let m2 = copied_halves(m1, om1.addr_of(self.active_context) as int, a, self.arg_count + 1);
        let v1 = InterpView {
            om: OMView { mem: m2, ..om1 },
            sp: (self.sp - (self.arg_count + 1)) as usize,
            active_context: ctx,
            ..self
        };
        &&& self.arg_count + 1 <= isize::MAX
        &&& self.sp >= self.arg_count + 1
        &&& self.active_context < OT_SIZE
        &&& om1.has_addr(self.active_context)
        &&& om1.addr_of(self.active_context) + (self.arg_count + 2) / 2 <= om1.mem.len()
        &&& a + (self.arg_count + 2) / 2 <= om1.mem.len()
        &&& v1.ctx_regs_ok(ctx)
    }

    /// A new context can be allocated and the new method activated in it.
    pub open spec fn activate_ok(self) -> bool {
        let size = InterpView::ctx_size_of(self.header_of(self.new_method));
        &&& self.wf()
        &&& self.readable(self.new_method, 0)
        &&& self.om.alloc_ok(4 * size)
        &&& forall|om1: OMView, ctx: OOP| #[trigger] self.om.allocate_post(om1, ctx, 4 * size, true, CLASS_METH_CTX)
            ==> self.activate_tail_ok(om1, ctx)
    }

    pub open spec fn activate_post(self, c: InterpView) -> bool {
        let size = InterpView::ctx_size_of(self.header_of(self.new_method));
        exists|om1: OMView, ctx: OOP| #[trigger] self.om.allocate_post(om1, ctx, 4 * size, true, CLASS_METH_CTX)
            && c == self.activate_tail(om1, ctx)
    }
}

impl Interpreter {
    /// Loads the registers from the context `ac`.
    fn fetch_ctx_regs(&mut self, ac: OOP)
        requires
            old(self)@.ctx_regs_ok(ac),
        ensures
            final(self)@ == old(self)@.ctx_regs(ac),
    {
        let w3 = self.fetch_ptr(ac, 3);
        self.home_context = if is_int(w3) { self.fetch_ptr(ac, 5) } else { self.active_context };
        let hc = self.home_context;
        self.receiver = self.fetch_ptr(hc, 5);
        self.method = self.fetch_ptr(hc, 3);
        let absmethod = self.om.addr_of_oop(self.method);
        let instr = int_val(self.fetch_ptr(ac, 1));
        let ip: i128 = 4 * absmethod as i128 + instr as i128 - 1;
        self.ip = ip as usize;
        let base = self.om.addr_of_oop(self.active_context);
        let stack = int_val(self.fetch_ptr(ac, 2));
        let sp: i128 = base as i128 + stack as i128 + 6 - 1;
        self.sp = sp as usize;
    }

    /// The suspended context of the scheduler's active process.
    fn process_first_context(&mut self) -> (r: OOP)
        requires
            old(self)@.first_context_ok(),
        ensures
            r == old(self)@.first_context(),
            final(self)@ == old(self)@,
    {
        let scheduler = self.fetch_ptr(SCHED_ASS_PTR, VALUE);
        let active_process = self.fetch_ptr(scheduler, ACTIVE_PROCESS);
        self.fetch_ptr(active_process, SUSPENDED_CTX)
    }

    /// Makes the first context active and loads the registers from it.
    pub fn startup(&mut self)
        requires
            old(self)@.first_context_ok(),
            old(self)@.activated(old(self)@.first_context()).ctx_regs_ok(old(self)@.first_context()),
        ensures
            final(self)@ == old(self)@.activated(old(self)@.first_context()).ctx_regs(old(self)@.first_context()),
    {
        self.active_context = self.process_first_context();
        self.om.register_active_context(self.active_context);
        let ac = self.active_context;
        self.fetch_ctx_regs(ac);
    }

    /// Allocates a context for the new method, fills in its header fields,
    /// moves the receiver and arguments over and makes it active.
    fn activate_new_method(&mut self)
        requires
            old(self)@.activate_ok(),
        ensures
            old(self)@.activate_post(final(self)@),
    {
        let ghost v = self@;
        let hdr = self.header(self.new_method);
        let ctx_size = if self.hdr_large_ctx(hdr) {
            6 + 32
        } else {
            6 + 12
        };
        proof {
            assert(ctx_size == InterpView::ctx_size_of(hdr));
        }
        let new_ctx = self.om.inst_ptrs(CLASS_METH_CTX, ctx_size);
        let ghost om1 = self@.om;
        proof {
            assert(v.om.allocate_post(om1, new_ctx, 4 * ctx_size, true, CLASS_METH_CTX));
            assert(v.activate_tail_ok(om1, new_ctx));
            assert(word_size(4 * ctx_size) == ctx_size);
        }
        let _len = self.om.object_space.len();
        let a = self.om.addr_of_oop(new_ctx);
        proof {
            crate::interp::lemma_mask_bounds(hdr);
        }
        let ip0 = self.hdr_init_ip_of_meth(hdr);
        let sp0 = self.hdr_temp_count_of(hdr);
        self.om.object_space.set(a, self.active_context);
        let w1 = self.om.int_obj(ip0 as i32);
        self.om.object_space.set(a + 1, w1);
        let w2 = self.om.int_obj(sp0 as i32);
        self.om.object_space.set(a + 2, w2);
        self.om.object_space.set(a + 3, self.new_method);
        let src = self.om.addr_of_oop(self.active_context);
        self.om.copy_halfwords(src, a, self.arg_count + 1);
        let arg_count = self.arg_count;
        self.pop_n((arg_count + 1) as isize);
        self.active_context = new_ctx;
        self.fetch_ctx_regs(new_ctx);
        self.om.register_active_context(new_ctx);
        proof {
            assert(self@ == v.activate_tail(om1, new_ctx));
        }
    }
}


impl InterpView {
    pub open spec fn flag_of(self, m: OOP) -> u8 {
        ((self.header_of(m) & 0x7000) >> 12) as u8
    }

    pub open spec fn field_index_of(self, m: OOP) -> u8 {
        ((self.header_of(m) & 0x0F80) >> 7) as u8
    }

    /// The new method, with its primitive index, can be executed: by its
    /// primitive, by loading an instance variable, or by activation.
    pub open spec fn exec_ok(self) -> bool {
        &&& self.wf()
        &&& self.prim_index == 0 ==> {
            &&& self.readable(self.new_method, 0)
            &&& self.flag_of(self.new_method) == 6 ==> {
                &&& self.can_pop()
                &&& self.readable(self.stack_at(0), self.field_index_of(self.new_method) as int)
            }
            &&& self.flag_of(self.new_method) != 6 ==> self.activate_ok()
        }
        &&& self.prim_index != 0 ==> {
            &&& prim_ok(self, self.prim_index)
            &&& forall|c: InterpView, r: PrimResult| #[trigger] prim_effect(self, self.prim_index, c, r) && r is Err ==> c.activate_ok()
        }
    }

    pub open spec fn exec_post(self, c: InterpView) -> bool {
        if self.prim_index == 0 {
            if self.flag_of(self.new_method) == 6 {
                c == self.popped().pushed(self.om.field(self.stack_at(0), self.field_index_of(self.new_method) as int))
            } else {
                self.activate_post(c)
            }
        } else {
            exists|c1: InterpView, r: PrimResult| #[trigger] prim_effect(self, self.prim_index, c1, r)
                && (r is Ok ==> c == c1) && (r is Err ==> c1.activate_post(c))
        }
    }
}

impl Interpreter {
    /// Runs the new method: its primitive, else a quick load of an instance
    /// variable, else an activation.
    fn execute_new_method(&mut self)
        requires
            old(self)@.exec_ok(),
        ensures
            old(self)@.exec_post(final(self)@),
    {
        let ghost v = self@;
        if self.prim_index == 0 {
            let flag = self.flag_value(self.new_method);
            if flag == 6 {
                let obj = self.pop();
                let result = self.fetch_ptr(obj, self.field_index(self.new_method));
                self.push(result);
            } else {
                self.activate_new_method();
            }
        } else {
            let r = primitive_dispatch(self.prim_index, self);
            let ghost c1 = self@;
            if !r.is_ok() {
                proof {
                    assert(prim_effect(v, v.prim_index, c1, r));
                }
                self.activate_new_method();
            }
            proof {
                assert(prim_effect(v, v.prim_index, c1, r));
            }
        }
    }
}

impl InterpView {
    /// The state after the message of a failed lookup is built in `msg`
    /// with arguments `arr`, from the allocations of `om2`, and pushed in
    /// place of the arguments.
    pub open spec fn dnu_tail(self, om2: OMView, arr: OOP, msg: OOP) -> InterpView {
        let v2 = InterpView { om: om2, ..self };
        let v3 = v2.stored(msg, MSG_SELECTOR as int, self.msg_selector);
        let v4 = v3.stored(msg, MSG_ARGS as int, arr);
        let m5 = copied_halves(v4.om.mem, v4.om.addr_of(self.active_context) as int, v4.om.addr_of(arr) as int, self.arg_count as int);
        let v5 = InterpView { om: OMView { mem: m5, ..v4.om }, ..v4 };
        let v6 = InterpView { sp: (v5.sp - self.arg_count) as usize, ..v5 };
        InterpView { arg_count: 1, ..v6.pushed(msg) }
    }

    pub open spec fn dnu_tail_ok(self, om2: OMView, arr: OOP, msg: OOP, cls: OOP) -> bool {
        let v2 = InterpView { om: om2, ..self };
        let v3 = v2.stored(msg, MSG_SELECTOR as int, self.msg_selector);
        let v4 = v3.stored(msg, MSG_ARGS as int, arr);
        let m5 = copied_halves(v4.om.mem, v4.om.addr_of(self.active_context) as int, v4.om.addr_of(arr) as int, self.arg_count as int);
        let v5 = InterpView { om: OMView { mem: m5, ..v4.om }, ..v4 };
        let v6 = InterpView { sp: (v5.sp - self.arg_count) as usize, ..v5 };
        let v7 = self.dnu_tail(om2, arr, msg);
        &&& v2.store_ok(msg, MSG_SELECTOR as int, self.msg_selector)
        &&& v3.store_ok(msg, MSG_ARGS as int, arr)
        &&& self.active_context < OT_SIZE
        &&& v4.om.has_addr(self.active_context)
        &&& v4.om.addr_of(self.active_context) + (self.arg_count + 1) / 2 <= v4.om.mem.len()
        &&& v4.om.addr_of(arr) + (self.arg_count + 1) / 2 <= v4.om.mem.len()
        &&& self.arg_count <= isize::MAX
        &&& v5.sp >= self.arg_count
        &&& v6.can_push()
        &&& v7.can_lookup(cls, DOES_NOT_UNDERSTAND)
        &&& v7.lookup_of(cls, DOES_NOT_UNDERSTAND) != NIL_PTR
    }

    /// A failed lookup can build its message and find doesNotUnderstand:.
    pub open spec fn dnu_ok(self, cls: OOP) -> bool {
        &&& self.arg_count * 4 + 4 <= usize::MAX
        &&& self.om.alloc_ok(self.arg_count * 4)
        &&& forall|om1: OMView, arr: OOP| #[trigger] self.om.allocate_post(om1, arr, self.arg_count * 4, true, CLASS_ARRAY) ==> {
            &&& om1.alloc_ok(MSG_SIZE * 4)
            &&& forall|om2: OMView, msg: OOP| #[trigger] om1.allocate_post(om2, msg, MSG_SIZE * 4, true, CLASS_MSG) ==>
                self.dnu_tail_ok(om2, arr, msg, cls)
        }
    }

    pub open spec fn lookup_in_class_ok(self, cls: OOP, sel: OOP) -> bool {
        &&& self.wf()
        &&& self.can_lookup(cls, sel)
        &&& self.lookup_of(cls, sel) == NIL_PTR ==> self.dnu_ok(cls)
    }

    pub open spec fn lookup_in_class_post(self, c: InterpView, cls: OOP, sel: OOP, r: OOP) -> bool {
        if self.lookup_of(cls, sel) != NIL_PTR {
            &&& c == self
            &&& r == self.lookup_of(cls, sel)
        } else {
            exists|om1: OMView, arr: OOP, om2: OMView, msg: OOP|
                #[trigger] self.om.allocate_post(om1, arr, self.arg_count * 4, true, CLASS_ARRAY)
                && #[trigger] om1.allocate_post(om2, msg, MSG_SIZE * 4, true, CLASS_MSG)
                && c == self.dnu_tail(om2, arr, msg)
                && r == c.lookup_of(cls, DOES_NOT_UNDERSTAND)
        }
    }
}

impl Interpreter {
    /// Looks up `selector` from class `cls`; when no class has it, builds a
    /// message of the selector and arguments and looks up doesNotUnderstand:.
    fn lookup_method_in_class(&mut self, cls: OOP, selector: OOP) -> (r: OOP)
        requires
            old(self)@.lookup_in_class_ok(cls, selector),
        ensures
            old(self)@.lookup_in_class_post(final(self)@, cls, selector, r),
            final(self)@.wf(),
    {
        let ghost v = self@;
        let mut method = self.lookup_method_in_class_(cls, selector);
        if method == NIL_PTR {
            let arg_count = self.arg_count;
            let arg_array = self.om.inst_ptrs(CLASS_ARRAY, self.arg_count);
            let ghost om1 = self@.om;
            proof {
                assert(v.om.allocate_post(om1, arg_array, v.arg_count * 4, true, CLASS_ARRAY));
            }
            let msg = self.om.inst_ptrs(CLASS_MSG, MSG_SIZE);
            let ghost om2 = self@.om;
            proof {
                assert(om1.allocate_post(om2, msg, MSG_SIZE * 4, true, CLASS_MSG));
                assert(v.dnu_tail_ok(om2, arg_array, msg, cls));
                assert(om1.has_addr(arg_array));
                assert(2u8 & 8u8 == 0u8) by (bit_vector);
                assert(!om1.is_bitmap(arg_array));
                assert(om2.loc[arg_array as int] == om1.loc[arg_array as int]);
            }
            self.store_ptr(msg, MSG_SELECTOR, self.msg_selector);
            self.store_ptr(msg, MSG_ARGS, arg_array);
            let src = self.om.addr_of_oop(self.active_context);
            let dst = self.om.addr_of_oop(arg_array);
            self.om.copy_halfwords(src, dst, self.arg_count);
            self.pop_n(arg_count as isize);
            self.push(msg);
            self.arg_count = 1;
            proof {
                assert(self@ == v.dnu_tail(om2, arg_array, msg));
            }
            method = self.lookup_method_in_class_(cls, DOES_NOT_UNDERSTAND);
        }
        method
    }
}

/// The method-cache entry for `sel` sent to an instance of `cls`.
pub open spec fn cache_slot(cls: OOP, sel: OOP) -> int {
    (((sel ^ cls) as usize) & (CACHE_SIZE - 1) as usize) as int
}

impl InterpView {
    pub open spec fn cache_hit(self, cls: OOP, sel: OOP) -> bool {
        let e = self.mcache[cache_slot(cls, sel)];
        e.selector == sel && e.class == cls
    }

    pub open spec fn cache_ok(self, cls: OOP, sel: OOP) -> bool {
        &&& self.wf()
        &&& !self.cache_hit(cls, sel) ==> {
            &&& self.lookup_in_class_ok(cls, sel)
            &&& forall|c: InterpView, r: OOP| #[trigger] self.lookup_in_class_post(c, cls, sel, r) && c.wf() ==> c.prim_index_ok(r)
        }
    }

    /// What a cache probe answers and leaves: the cached method and
    /// primitive index on a hit; on a miss, after the lookup, the current
    /// method (as cached) and the found method's primitive index.
    pub open spec fn cache_post(self, c: InterpView, cls: OOP, sel: OOP, res: (OOP, u8)) -> bool {
        let h = cache_slot(cls, sel);
        let e = self.mcache[h];
        if self.cache_hit(cls, sel) {
            &&& c == self
            &&& res == (e.method, e.prim_index)
        } else {
            exists|c1: InterpView, m: OOP| #[trigger] self.lookup_in_class_post(c1, cls, sel, m) && c1.wf() && {
                let p = c1.prim_index_of(m);
                &&& c == (InterpView {
                    new_method: m,
                    prim_index: p,
                    mcache: c1.mcache.update(h, MethodCacheEntry { selector: sel, class: cls, method: c1.method, prim_index: p }),
                    ..c1
                })
                &&& res == (c1.method, p)
            }
        }
    }

    /// `self` about to execute `res`, the method and primitive index a cache probe answered.
    pub open spec fn with_new_method(self, res: (OOP, u8)) -> InterpView {
        InterpView { new_method: res.0, prim_index: res.1, ..self }
    }

    pub open spec fn send_to_class_ok(self, cls: OOP) -> bool {
        &&& self.cache_ok(cls, self.msg_selector)
        &&& forall|c: InterpView, res: (OOP, u8)| #[trigger] self.cache_post(c, cls, self.msg_selector, res) ==>
            c.with_new_method(res).exec_ok()
    }

    pub open spec fn send_to_class_post(self, c: InterpView, cls: OOP) -> bool {
        exists|c1: InterpView, res: (OOP, u8)| #[trigger] self.cache_post(c1, cls, self.msg_selector, res)
            && c1.with_new_method(res).exec_post(c)
    }

    /// The class of `o`: SmallInteger for a small integer.
    pub open spec fn class_of(self, o: OOP) -> OOP {
        if is_int_spec(o) { CLASS_SMALL_INTEGER } else { self.om.class[o as int] }
    }

    /// The receiver of a send with `argc` arguments, as this stack has it.
    pub open spec fn send_receiver(self, argc: u8) -> OOP {
        self.stack_at(argc + 1)
    }

    /// `self` once a send of `selector` with `argc` arguments is set up.
    pub open spec fn sending(self, selector: OOP, argc: u8) -> InterpView {
        InterpView { msg_selector: selector, arg_count: argc as usize, ..self }
    }

    pub open spec fn send_ok(self, selector: OOP, argc: u8) -> bool {
        let rcv = self.send_receiver(argc);
        &&& self.wf()
        &&& 0 <= self.sp - argc - 1 < self.om.mem.len()
        &&& !is_int_spec(rcv) ==> rcv < OT_SIZE
        &&& self.sending(selector, argc).send_to_class_ok(self.class_of(rcv))
    }

    pub open spec fn send_post(self, c: InterpView, selector: OOP, argc: u8) -> bool {
        self.sending(selector, argc).send_to_class_post(c, self.class_of(self.send_receiver(argc)))
    }
}

impl Interpreter {
    /// The method and primitive index for `selector` sent to an instance of
    /// `cls`, from the cache or by a lookup that fills the cache.
    fn get_method_from_cache(&mut self, cls: OOP, selector: OOP) -> (res: (OOP, u8))
        requires
            old(self)@.cache_ok(cls, selector),
        ensures
            old(self)@.cache_post(final(self)@, cls, selector, res),
    {
        let ghost v = self@;
        let hash = ((selector ^ cls) as usize) & (CACHE_SIZE - 1);
        proof {
            let x = (selector ^ cls) as usize;
            assert(x & 1023usize < 1024usize) by (bit_vector);
        }
        let entry = self.mcache[hash];
        if entry.selector == selector && entry.class == cls {
            return (entry.method, entry.prim_index);
        }
        let method = self.lookup_method_in_class(cls, selector);
        let ghost c1 = self@;
        self.new_method = method;
        self.prim_index = self.primitive_index(self.new_method);
        let save_entry = MethodCacheEntry {
            selector: selector,
            class: cls,
            method: self.method,
            prim_index: self.prim_index,
        };
        self.mcache.set(hash, save_entry);
        proof {
            assert(v.lookup_in_class_post(c1, cls, selector, method) && c1.wf());
        }
        return (self.method, self.prim_index);
    }

    fn send_selector_to_class(&mut self, cls: OOP)
        requires
            old(self)@.send_to_class_ok(cls),
        ensures
            old(self)@.send_to_class_post(final(self)@, cls),
    {
        let ghost v = self@;
        let selector = self.msg_selector;
        let (method, prim_index) = self.get_method_from_cache(cls, selector);
        let ghost c1 = self@;
        proof {
            assert(v.cache_post(c1, cls, selector, (method, prim_index)));
        }
        self.new_method = method;
        self.prim_index = prim_index;
        self.execute_new_method();
    }

    /// Sends `selector` with `argc` arguments to the receiver below them on the stack.
    pub(crate) fn send_selector(&mut self, selector: OOP, argc: u8)
        requires
            old(self)@.send_ok(selector, argc),
        ensures
            old(self)@.send_post(final(self)@, selector, argc),
    {
        let new_receiver = self.stack_val(argc as isize);
        self.msg_selector = selector;
        self.arg_count = argc as usize;
        let cls = self.om.fetch_class(new_receiver);
        self.send_selector_to_class(cls);
    }
}
} // verus!
