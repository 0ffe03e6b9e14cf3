//! The object memory: the object table, the object space, allocation and the
//! reference-counting garbage collector.
use vstd::prelude::*;
use crate::std_ptrs::{OOP, LAST_REF_COUNTED_OOP, NIL_PTR, CLASS_SMALL_INTEGER};

verus! {

pub const OM_SIZE: usize = 128 * 1024 * 1024;
pub const OT_SIZE: usize = 128 * 1024;

pub const FIRST_OOP: usize = 0;
pub const LAST_OOP: usize = 131071;

/// Marks the end of every list threaded through the object table.
pub const NON_PTR: OOP = 0xFFFFFFFF;

pub const BIG_SIZE: usize = 40;

pub const SATURATED: u8 = 1;

pub const MAX_INT: i32 = 0x3FFFFFFF;
pub const MIN_INT: i32 = -0x40000000;

pub const HEADER: isize = 0;
pub const LITERAL_START: u32 = 1;

pub const SUPER_CLASS: u8 = 0;
pub const MSG_DICT: u8 = 1;
pub const INSTANCE_SPEC: u8 = 2;
pub const METH_ARRAY: u8 = 1;
pub const SEL_START: u8 = 2;

pub const REST_PTRS: u8 = 2;
pub const REST_FREE: u8 = 4;
pub const REST_BITMAP: u8 = 8;

pub type SizeField = i32;

/// Where the body of an object lives: a word address in the object space,
/// or (for free entries and bitmaps) a bare index.
#[derive(Clone, Copy, PartialEq, Eq, Structural, Debug)]
pub enum Loc {
    Address { addr: usize },
    Index { index: usize },
}

pub open spec fn is_int_spec(oop: OOP) -> bool {
    oop >= 0x8000_0000
}

/// The value of a tagged small integer: its low 31 bits, sign-extended.
pub open spec fn small_int_of(oop: OOP) -> int {
    let low = (oop as int) % 0x8000_0000;
    if low >= 0x4000_0000 { low - 0x8000_0000 } else { low }
}

pub open spec fn word_size(nbytes: int) -> int {
    (nbytes + 3) / 4
}

pub open spec fn counted_spec(oop: OOP) -> bool {
    LAST_REF_COUNTED_OOP < oop && oop <= LAST_OOP
}

pub open spec fn has_flag(rest: u8, flag: u8) -> bool {
    rest & flag != 0
}

/// Whether `oop` is a tagged small integer.
pub fn is_int(oop: OOP) -> (r: bool)
    ensures
        r == is_int_spec(oop),
{
    assert((oop & 0x80000000u32 != 0) == (oop >= 0x80000000u32)) by (bit_vector);
    (oop & 0x80000000) != 0
}

/// The integer a tagged small integer stands for.
pub fn int_val(oop: OOP) -> (r: i32)
    ensures
        r as int == small_int_of(oop),
{
    let r = ((oop << 1u32) as i32) >> 1u32;
    assert(oop % 0x8000_0000 < 0x4000_0000 ==> (((oop << 1u32) as i32) >> 1u32) == (oop % 0x8000_0000) as i32) by (bit_vector);
    assert(oop % 0x8000_0000 >= 0x4000_0000 ==> (((oop << 1u32) as i32) >> 1u32) == ((oop % 0x8000_0000) as i32) - 0x8000_0000i64) by (bit_vector);
    r
}

pub fn hash(oop: OOP) -> (r: usize)
    ensures
        r == oop,
{
    oop as usize
}


pub fn to_word_size(nbytes: usize) -> (r: usize)
    requires
        nbytes + 4 <= usize::MAX,
    ensures
        r == word_size(nbytes as int),
{
    (nbytes + 4 - 1) / 4
}

pub fn counted(oop: OOP) -> (r: bool)
    ensures
        r == counted_spec(oop),
{
    oop > LAST_REF_COUNTED_OOP && oop <= LAST_OOP as OOP
}

/// The abstract state of the object memory.
pub ghost struct OMView {
    /// The object space, one entry per word.
    pub mem: Seq<OOP>,
    pub loc: Seq<Loc>,
    pub rest: Seq<u8>,
    pub count: Seq<u16>,
    pub size: Seq<SizeField>,
    pub class: Seq<OOP>,
    /// Heads of the free chunk lists, by size in words (the last holds all big chunks).
    pub heads: Seq<OOP>,
    pub free_ptr: OOP,
    pub oops_left: usize,
    pub active_context: OOP,
    /// The free chunk lists, node by node.
    pub chunks: Seq<Seq<OOP>>,
    /// The list of free object-table entries, node by node.
    pub free_oops: Seq<OOP>,
}

pub struct OM {
    pub object_space: Vec<OOP>,
    pub ot_loc: Vec<Loc>,
    /// Bitmap, free, pointer and odd bits.
    pub ot_rest: Vec<u8>,
    /// Reference counts.
    pub ot_count: Vec<u16>,
    /// Sizes of the object bodies, in bytes.
    pub sizes: Vec<SizeField>,
    pub classes: Vec<OOP>,
    pub fcl_heads: Vec<OOP>,
    pub free_ptr: OOP,
    pub oops_left: usize,
    pub active_context: OOP,
    pub chunk_lists: Ghost<Seq<Seq<OOP>>>,
    pub free_list: Ghost<Seq<OOP>>,
}

impl View for OM {
    type V = OMView;

    open spec fn view(&self) -> OMView {
        OMView {
            mem: self.object_space@,
            loc: self.ot_loc@,
            rest: self.ot_rest@,
            count: self.ot_count@,
            size: self.sizes@,
            class: self.classes@,
            heads: self.fcl_heads@,
            free_ptr: self.free_ptr,
            oops_left: self.oops_left,
            active_context: self.active_context,
            chunks: self.chunk_lists@,
            free_oops: self.free_list@,
        }
    }
}

impl OMView {
    /// The object table has one entry per OOP, and one free chunk list per size.
    pub open spec fn wf(self) -> bool {
        &&& self.loc.len() == OT_SIZE
        &&& self.rest.len() == OT_SIZE
        &&& self.count.len() == OT_SIZE
        &&& self.size.len() == OT_SIZE
        &&& self.class.len() == OT_SIZE
        &&& self.heads.len() == BIG_SIZE + 1
    }

    pub open spec fn is_free(self, oop: OOP) -> bool {
        has_flag(self.rest[oop as int], REST_FREE)
    }

    pub open spec fn is_ptrs(self, oop: OOP) -> bool {
        has_flag(self.rest[oop as int], REST_PTRS)
    }

    pub open spec fn is_bitmap(self, oop: OOP) -> bool {
        has_flag(self.rest[oop as int], REST_BITMAP)
    }

    /// The size field of `oop`, read as an unsigned byte count.
    pub open spec fn size_of(self, oop: OOP) -> usize {
        self.size[oop as int] as usize
    }

    pub open spec fn addr_of(self, oop: OOP) -> usize {
        match self.loc[oop as int] {
            Loc::Address { addr } => addr,
            Loc::Index { index } => 0,
        }
    }

    pub open spec fn has_addr(self, oop: OOP) -> bool {
        self.loc[oop as int] is Address
    }

    /// The word at `i` words into the body of `oop`.
    pub open spec fn field(self, oop: OOP, i: int) -> OOP {
        self.mem[self.addr_of(oop) + i]
    }

    pub open spec fn field_in_bounds(self, oop: OOP, i: int) -> bool {
        &&& self.has_addr(oop)
        &&& 0 <= self.addr_of(oop) + i < self.mem.len()
    }
}

impl OM {
    pub fn new() -> (om: OM)
        ensures
            om@.wf(),
            om@.mem == seq![0u32],
            om@.loc == Seq::new(OT_SIZE as nat, |i: int| Loc::Index { index: 0 }),
            om@.rest == Seq::new(OT_SIZE as nat, |i: int| REST_FREE),
            om@.count == Seq::new(OT_SIZE as nat, |i: int| 0u16),
            om@.size == Seq::new(OT_SIZE as nat, |i: int| 0i32),
            om@.class == Seq::new(OT_SIZE as nat, |i: int| NIL_PTR),
            om@.heads == Seq::new((BIG_SIZE + 1) as nat, |i: int| NON_PTR),
            om@.free_ptr == NON_PTR,
            om@.oops_left == 0,
            om@.active_context == NIL_PTR,
            om@.chunks == Seq::new((BIG_SIZE + 1) as nat, |i: int| Seq::<OOP>::empty()),
            om@.free_oops == Seq::<OOP>::empty(),
    {
        let om = OM {
            object_space: vec![0; 1],
            ot_loc: vec![Loc::Index { index: 0 }; OT_SIZE],
            ot_rest: vec![REST_FREE; OT_SIZE],
            ot_count: vec![0; OT_SIZE],
            sizes: vec![0; OT_SIZE],
            classes: vec![NIL_PTR; OT_SIZE],
            fcl_heads: vec![NON_PTR; BIG_SIZE + 1],
            free_ptr: NON_PTR,
            oops_left: 0,
            active_context: NIL_PTR,
            chunk_lists: Ghost(Seq::new((BIG_SIZE + 1) as nat, |i: int| Seq::<OOP>::empty())),
            free_list: Ghost(Seq::<OOP>::empty()),
        };
        assert(om.object_space@ =~= seq![0u32]);
        assert(om.ot_loc@ =~= Seq::new(OT_SIZE as nat, |i: int| Loc::Index { index: 0 }));
        assert(om.ot_rest@ =~= Seq::new(OT_SIZE as nat, |i: int| REST_FREE));
        assert(om.ot_count@ =~= Seq::new(OT_SIZE as nat, |i: int| 0u16));
        assert(om.sizes@ =~= Seq::new(OT_SIZE as nat, |i: int| 0i32));
        assert(om.classes@ =~= Seq::new(OT_SIZE as nat, |i: int| NIL_PTR));
        assert(om.fcl_heads@ =~= Seq::new((BIG_SIZE + 1) as nat, |i: int| NON_PTR));
        om
    }
}


pub open spec fn int_obj_spec(i: i32) -> OOP {
    ((i as u32) % 0x8000_0000) as u32
}

impl OMView {
    pub open spec fn with_count(self, oop: OOP, c: u16) -> OMView {
        OMView { count: self.count.update(oop as int, c), ..self }
    }

    /// The state after incrementing the count of `oop`, when it is counted.
    pub open spec fn inc_ref_spec(self, oop: OOP) -> OMView {
        if counted_spec(oop) {
            self.with_count(oop, (self.count[oop as int] + 1) as u16)
        } else {
            self
        }
    }

    /// The state after decrementing the count of `oop`, when it is counted.
    pub open spec fn dec_ref_spec(self, oop: OOP) -> OMView {
        if counted_spec(oop) {
            self.with_count(oop, (self.count[oop as int] - 1) as u16)
        } else {
            self
        }
    }

    pub open spec fn can_inc(self, oop: OOP) -> bool {
        counted_spec(oop) ==> self.count[oop as int] < u16::MAX
    }

    pub open spec fn can_dec(self, oop: OOP) -> bool {
        counted_spec(oop) ==> self.count[oop as int] > 0
    }

    /// `self` after storing `value` `i` words into the body of `oop`: the
    /// count of `value` up, that of the word it replaces down.
    pub open spec fn with_store(self, oop: OOP, i: int, value: OOP) -> OMView {
        OMView {
            mem: self.mem.update(self.slot(oop, i), value),
            ..self.inc_ref_spec(value).dec_ref_spec(self.field(oop, i))
        }
    }

    /// The word index that `i` words into the body of `oop` designates.
    pub open spec fn slot(self, oop: OOP, i: int) -> int {
        self.addr_of(oop) + i
    }
}

impl OM {
    pub fn get_count(&self, oop: OOP) -> (r: u16)
        requires
            self@.wf(),
            oop < OT_SIZE,
        ensures
            r == self@.count[oop as int],
    {
        self.ot_count[oop as usize]
    }

    pub fn get_class(&self, oop: OOP) -> (r: OOP)
        requires
            self@.wf(),
            oop < OT_SIZE,
        ensures
            r == self@.class[oop as int],
    {
        return self.classes[oop as usize];
    }

    pub fn get_size(&self, oop: OOP) -> (r: usize)
        requires
            self@.wf(),
            oop < OT_SIZE,
        ensures
            r == self@.size_of(oop),
    {
        self.sizes[oop as usize] as usize
    }

    pub fn get_loc(&self, oop: OOP) -> (r: Loc)
        requires
            self@.wf(),
            oop < OT_SIZE,
        ensures
            r == self@.loc[oop as int],
    {
        self.ot_loc[oop as usize]
    }

    pub fn get_rest(&self, oop: OOP) -> (r: u8)
        requires
            self@.wf(),
            oop < OT_SIZE,
        ensures
            r == self@.rest[oop as int],
    {
        self.ot_rest[oop as usize]
    }

    pub fn set_count(&mut self, oop: OOP, count: u16)
        requires
            old(self)@.wf(),
            oop < OT_SIZE,
        ensures
            final(self)@ == old(self)@.with_count(oop, count),
    {
        self.ot_count.set(oop as usize, count);
    }

    pub fn set_size(&mut self, oop: OOP, size: usize)
        requires
            old(self)@.wf(),
            oop < OT_SIZE,
        ensures
            final(self)@ == (OMView { size: old(self)@.size.update(oop as int, size as i32), ..old(self)@ }),
    {
        self.sizes.set(oop as usize, size as i32);
    }

    pub fn set_class(&mut self, oop: OOP, cls: OOP)
        requires
            old(self)@.wf(),
            oop < OT_SIZE,
        ensures
            final(self)@ == (OMView { class: old(self)@.class.update(oop as int, cls), ..old(self)@ }),
    {
        self.classes.set(oop as usize, cls);
    }

    pub fn set_loc(&mut self, oop: OOP, loc: Loc)
        requires
            old(self)@.wf(),
            oop < OT_SIZE,
        ensures
            final(self)@ == (OMView { loc: old(self)@.loc.update(oop as int, loc), ..old(self)@ }),
    {
        self.ot_loc.set(oop as usize, loc);
    }

    pub fn set_rest(&mut self, oop: OOP, rest: u8)
        requires
            old(self)@.wf(),
            oop < OT_SIZE,
        ensures
            final(self)@ == (OMView { rest: old(self)@.rest.update(oop as int, rest), ..old(self)@ }),
    {
        self.ot_rest.set(oop as usize, rest);
    }

    /// The word address of the body of `oop`.
    pub fn location_addr(&self, oop: OOP) -> (r: usize)
        requires
            self@.wf(),
            oop < OT_SIZE,
            self@.has_addr(oop),
        ensures
            r == self@.addr_of(oop),
    {
        match self.get_loc(oop) {
            Loc::Address { addr } => addr,
            Loc::Index { index } => {
                assert(false);
                0
            },
        }
    }

    pub fn location_index(&self, oop: OOP) -> (r: usize)
        requires
            self@.wf(),
            oop < OT_SIZE,
            self@.loc[oop as int] is Index,
        ensures
            r == self@.loc[oop as int]->index,
    {
        match self.get_loc(oop) {
            Loc::Index { index } => index,
            Loc::Address { addr } => {
                assert(false);
                0
            },
        }
    }

    pub fn is_free(&self, oop: OOP) -> (r: bool)
        requires
            self@.wf(),
            oop < OT_SIZE,
        ensures
            r == self@.is_free(oop),
    {
        (self.get_rest(oop) & REST_FREE) != 0
    }

    pub fn is_ptrs(&self, oop: OOP) -> (r: bool)
        requires
            self@.wf(),
            oop < OT_SIZE,
        ensures
            r == self@.is_ptrs(oop),
    {
        (self.get_rest(oop) & REST_PTRS) != 0
    }

    pub fn is_bitmap(&self, oop: OOP) -> (r: bool)
        requires
            self@.wf(),
            oop < OT_SIZE,
        ensures
            r == self@.is_bitmap(oop),
    {
        (self.get_rest(oop) & REST_BITMAP) != 0
    }

    /// The number of whole words in the body of `oop`.
    pub fn len(&self, oop: OOP) -> (r: usize)
        requires
            self@.wf(),
            oop < OT_SIZE,
        ensures
            r == self@.size_of(oop) / 4,
    {
        return self.get_size(oop) / 4;
    }

    /// Whether `val` fits in a tagged small integer.
    pub fn is_int_val(&self, val: i32) -> (r: bool)
        ensures
            r == (MIN_INT <= val <= MAX_INT),
    {
        val <= MAX_INT && val >= MIN_INT
    }

    /// The low 31 bits of `i`, as an object pointer.
    pub fn int_obj(&self, i: i32) -> (r: OOP)
        ensures
            r == int_obj_spec(i),
    {
        assert(((i & 0x7FFFFFFFi32) as u32) == ((i as u32) % 0x8000_0000u32)) by (bit_vector);
        (i & 0x7FFFFFFF) as OOP
    }

    /// The word `i` words into the body of `oop`.
    pub fn fetch_ptr(&self, oop: OOP, i: isize) -> (r: OOP)
        requires
            self@.wf(),
            oop < OT_SIZE,
            self@.field_in_bounds(oop, i as int),
        ensures
            r == self@.field(oop, i as int),
    {
        let a = self.location_addr(oop);
        let _n = self.object_space.len();
        let sum: i128 = a as i128 + i as i128;
        assert(sum == a as int + i as int);
        let idx = sum as usize;
        assert(idx == self@.slot(oop, i as int));
        self.object_space[idx]
    }

    pub(crate) fn header(&self, obj: OOP) -> (r: OOP)
        requires
            self@.wf(),
            obj < OT_SIZE,
            self@.field_in_bounds(obj, 0),
        ensures
            r == self@.field(obj, 0),
    {
        self.fetch_ptr(obj, HEADER)
    }

    pub(crate) fn lit_count(&self, obj: OOP) -> (r: OOP)
        requires
            self@.wf(),
            obj < OT_SIZE,
            self@.field_in_bounds(obj, 0),
        ensures
            r == self@.field(obj, 0) % 64,
    {
        self.lit_cnt_hdr(self.header(obj))
    }

    pub(crate) fn lit_cnt_hdr(&self, header: OOP) -> (r: OOP)
        ensures
            r == header % 64,
    {
        assert(header & 0x3Fu32 == header % 64) by (bit_vector);
        header & 0x3F
    }

    pub fn inc_ref(&mut self, oop: OOP)
        requires
            old(self)@.wf(),
            old(self)@.can_inc(oop),
        ensures
            final(self)@ == old(self)@.inc_ref_spec(oop),
    {
        if !counted(oop) {
            return;
        }
        let cnt = self.ot_count[oop as usize];
        self.ot_count.set(oop as usize, cnt + 1);
    }

    pub fn dec_ref(&mut self, oop: OOP)
        requires
            old(self)@.wf(),
            old(self)@.can_dec(oop),
        ensures
            final(self)@ == old(self)@.dec_ref_spec(oop),
    {
        if !counted(oop) {
            return;
        }
        let cnt = self.ot_count[oop as usize];
        self.ot_count.set(oop as usize, cnt - 1);
    }

    /// Stores `value` `i` words into the body of `oop`, keeping reference counts.
    pub fn store_ptr(&mut self, oop: OOP, i: isize, value: OOP)
        requires
            old(self)@.wf(),
            oop < OT_SIZE,
            old(self)@.field_in_bounds(oop, i as int),
            old(self)@.can_inc(value),
            old(self)@.inc_ref_spec(value).can_dec(old(self)@.field(oop, i as int)),
        ensures
            final(self)@ == old(self)@.with_store(oop, i as int, value),
    {
        self.inc_ref(value);
        let a = self.location_addr(oop);
        let _n = self.object_space.len();
        let sum: i128 = a as i128 + i as i128;
        assert(sum == a as int + i as int);
        let idx = sum as usize;
        let prev = self.object_space[idx];
        self.dec_ref(prev);
        self.object_space.set(idx, value);
    }

    /// The word address of the body of `oop`.
    pub fn addr_of_oop(&self, oop: OOP) -> (r: usize)
        requires
            self@.wf(),
            oop < OT_SIZE,
            self@.has_addr(oop),
        ensures
            r == self@.addr_of(oop),
    {
        self.location_addr(oop)
    }

    pub fn fetch_class(&self, oop: OOP) -> (r: OOP)
        requires
            self@.wf(),
            !is_int_spec(oop) ==> oop < OT_SIZE,
        ensures
            r == if is_int_spec(oop) { CLASS_SMALL_INTEGER } else { self@.class[oop as int] },
    {
        if is_int(oop) {
            CLASS_SMALL_INTEGER
        } else {
            self.classes[oop as usize]
        }
    }

    pub fn register_active_context(&mut self, active_context: OOP)
        ensures
            final(self)@ == (OMView { active_context, ..old(self)@ }),
    {
        self.active_context = active_context;
    }
}

impl OMView {
    pub open spec fn free_next(self, k: int) -> OOP {
        if k + 1 < self.free_oops.len() { self.free_oops[k + 1] } else { NON_PTR }
    }

    /// The free object-table entries form a list from `free_ptr`, linked
    /// through their locations.
    #[verifier::opaque]
    pub open spec fn free_list_ok(self) -> bool {
        &&& self.free_ptr == (if self.free_oops.len() == 0 { NON_PTR } else { self.free_oops[0] })
        &&& forall|k: int| 0 <= k < self.free_oops.len() ==> {
            let o = #[trigger] self.free_oops[k];
            &&& o < OT_SIZE
            &&& self.is_free(o)
            &&& self.loc[o as int] == Loc::Index { index: self.free_next(k) as usize }
        }
        &&& self.free_oops.no_duplicates()
    }

    pub open spec fn chunk_next(self, j: int, k: int) -> OOP {
        if k + 1 < self.chunks[j].len() { self.chunks[j][k + 1] } else { NON_PTR }
    }

    /// `o` is a free chunk fit for the list of chunks of `j` words.
    pub open spec fn chunk_node_ok(self, o: OOP, j: int) -> bool {
        &&& o < OT_SIZE
        &&& !self.is_free(o)
        &&& self.has_addr(o)
        &&& 0 <= self.size[o as int]
        &&& word_size(self.size[o as int] as int) * 4 <= i32::MAX
        &&& self.addr_of(o) + word_size(self.size[o as int] as int) <= self.mem.len()
        &&& (j < BIG_SIZE ==> word_size(self.size[o as int] as int) == j)
    }

    /// The free chunk lists start at `heads`, are linked through the class
    /// fields, and share no node.
    #[verifier::opaque]
    pub open spec fn chunks_ok(self) -> bool {
        &&& self.chunks.len() == BIG_SIZE + 1
        &&& forall|j: int| 0 <= j <= BIG_SIZE ==> #[trigger] self.heads[j] == (if self.chunks[j].len() == 0 { NON_PTR } else { self.chunks[j][0] })
        &&& forall|j: int, k: int| 0 <= j <= BIG_SIZE && 0 <= k < self.chunks[j].len() ==> {
            &&& self.chunk_node_ok(#[trigger] self.chunks[j][k], j)
            &&& self.class[self.chunks[j][k] as int] == self.chunk_next(j, k)
        }
        &&& forall|j1: int, k1: int, j2: int, k2: int|
            0 <= j1 <= BIG_SIZE && 0 <= j2 <= BIG_SIZE && 0 <= k1 < self.chunks[j1].len() && 0 <= k2 < self.chunks[j2].len()
            && #[trigger] self.chunks[j1][k1] == #[trigger] self.chunks[j2][k2] ==> j1 == j2 && k1 == k2
    }

    /// The invariant that allocation relies on.
    pub open spec fn alloc_inv(self) -> bool {
        &&& self.wf()
        &&& self.chunks.len() == BIG_SIZE + 1
        &&& self.free_list_ok()
        &&& self.chunks_ok()
    }
}

impl OM {
    fn set_free_list_next(&mut self, node: OOP, next: OOP)
        requires
            old(self)@.wf(),
            node < OT_SIZE,
        ensures
            final(self)@ == (OMView { loc: old(self)@.loc.update(node as int, Loc::Index { index: next as usize }), ..old(self)@ }),
    {
        self.set_loc(node, Loc::Index { index: next as usize });
    }

    fn get_free_list_next(&self, node: OOP) -> (r: OOP)
        requires
            self@.wf(),
            node < OT_SIZE,
            self@.loc[node as int] is Index,
        ensures
            r == self@.loc[node as int]->index as OOP,
    {
        self.location_index(node) as OOP
    }

    pub(crate) fn set_free_chunk_next(&mut self, node: OOP, next: OOP)
        requires
            old(self)@.wf(),
            node < OT_SIZE,
        ensures
            final(self)@ == (OMView { class: old(self)@.class.update(node as int, next), ..old(self)@ }),
    {
        self.set_class(node, next);
    }

    pub(crate) fn get_free_chunk_next(&self, node: OOP) -> (r: OOP)
        requires
            self@.wf(),
            node < OT_SIZE,
        ensures
            r == self@.class[node as int],
    {
        self.get_class(node)
    }

    /// Puts `oop` at the front of the list of free object-table entries.
    pub fn free_list_prepend(&mut self, oop: OOP)
        requires
            old(self)@.wf(),
            oop < OT_SIZE,
        ensures
            final(self)@ == (OMView {
                loc: old(self)@.loc.update(oop as int, Loc::Index { index: old(self)@.free_ptr as usize }),
                free_ptr: oop,
                free_oops: seq![oop] + old(self)@.free_oops,
                ..old(self)@
            }),
    {
        let next = self.free_ptr;
        self.set_free_list_next(oop, next);
        self.free_ptr = oop;
        self.free_list = Ghost(seq![oop] + self.free_list@);
    }
}

pub open spec fn strictly_ascending(s: Seq<OOP>) -> bool {
    forall|i: int, j: int| 0 <= i < j < s.len() ==> s[i] < s[j]
}

/// Every OOP of the object table, in ascending order.
pub fn for_every_oop() -> (v: Vec<OOP>)
    ensures
        v@.len() == OT_SIZE,
        forall|i: int| 0 <= i < OT_SIZE ==> #[trigger] v@[i] == i,
{
    let mut v: Vec<OOP> = Vec::new();
    let mut oop: usize = FIRST_OOP;
    while oop <= LAST_OOP
        invariant
            oop <= OT_SIZE,
            v@.len() == oop,
            forall|i: int| 0 <= i < oop ==> #[trigger] v@[i] == i,
        decreases OT_SIZE - oop,
    {
        v.push(oop as OOP);
        oop = oop + 1;
    }
    v
}

/// Every OOP of the object table, in descending order.
pub fn for_every_oop_reverse() -> (v: Vec<OOP>)
    ensures
        v@.len() == OT_SIZE,
        forall|i: int| 0 <= i < OT_SIZE ==> #[trigger] v@[i] == LAST_OOP - i,
{
    let mut v: Vec<OOP> = Vec::new();
    let mut k: usize = 0;
    while k < OT_SIZE
        invariant
            k <= OT_SIZE,
            v@.len() == k,
            forall|i: int| 0 <= i < k ==> #[trigger] v@[i] == LAST_OOP - i,
        decreases OT_SIZE - k,
    {
        v.push((LAST_OOP - k) as OOP);
        k = k + 1;
    }
    v
}

impl OMView {
    /// `c` is `self` with every free entry linked into the free list,
    /// lowest first, and counted in `oops_left`.
    pub open spec fn free_list_built(self, c: OMView) -> bool {
        &&& c.wf()
        &&& c.free_list_ok()
        &&& strictly_ascending(c.free_oops)
        &&& forall|o: OOP| o < OT_SIZE ==> (c.free_oops.contains(o) <==> #[trigger] self.is_free(o))
        &&& forall|o: int| 0 <= o < OT_SIZE && !self.is_free(o as OOP) ==> #[trigger] c.loc[o] == self.loc[o]
        &&& c.oops_left == self.oops_left + c.free_oops.len()
        &&& c == (OMView { loc: c.loc, free_ptr: c.free_ptr, oops_left: c.oops_left, free_oops: c.free_oops, ..self })
    }

    /// `self` with its first free entry taken off the free list and made
    /// the one big free chunk, of the object space beyond `object_space_length`.
    pub open spec fn with_big_chunk(self, object_space_length: usize) -> OMView {
        let fcp = self.free_ptr;
        OMView {
            free_ptr: self.loc[fcp as int]->index as OOP,
            heads: self.heads.update(BIG_SIZE as int, fcp),
            loc: self.loc.update(fcp as int, Loc::Address { addr: object_space_length / 4 }),
            rest: self.rest.update(fcp as int, self.rest[fcp as int] & !(REST_FREE | REST_PTRS)),
            size: self.size.update(fcp as int, ((OM_SIZE - object_space_length) / 4) as i32),
            class: self.class.update(fcp as int, NON_PTR),
            free_oops: self.free_oops.drop_first(),
            chunks: self.chunks.update(BIG_SIZE as int, seq![fcp]),
            ..self
        }
    }
}

impl OM {
    /// Links every free object-table entry into the free list, lowest first.
    pub fn initialize_free_list(&mut self)
        requires
            old(self)@.wf(),
            old(self)@.oops_left + OT_SIZE <= usize::MAX,
            exists|o: int| 0 <= o < OT_SIZE && #[trigger] old(self)@.is_free(o as OOP),
        ensures
            old(self)@.free_list_built(final(self)@),
    {
        reveal(OMView::free_list_ok);
        let oops = for_every_oop_reverse();
        self.free_ptr = NON_PTR;
        self.free_list = Ghost(Seq::empty());
        let mut t: usize = 0;
        while t < OT_SIZE
            invariant
                t <= OT_SIZE,
                oops@.len() == OT_SIZE,
                forall|i: int| 0 <= i < OT_SIZE ==> #[trigger] oops@[i] == LAST_OOP - i,
                self@.wf(),
                self@.free_list_ok(),
                strictly_ascending(self@.free_oops),
                forall|k: int| 0 <= k < self@.free_oops.len() ==> #[trigger] self@.free_oops[k] >= OT_SIZE - t,
                forall|o: OOP| OT_SIZE - t <= o < OT_SIZE ==> (self@.free_oops.contains(o) <==> #[trigger] old(self)@.is_free(o)),
                forall|o: int| 0 <= o < OT_SIZE && !old(self)@.is_free(o as OOP) ==> #[trigger] self@.loc[o] == old(self)@.loc[o],
                self@.oops_left == old(self)@.oops_left + self@.free_oops.len(),
                self@.free_oops.len() <= t,
                old(self)@.oops_left + OT_SIZE <= usize::MAX,
                self@ == (OMView {
                    loc: self@.loc,
                    free_ptr: self@.free_ptr,
                    oops_left: self@.oops_left,
                    free_oops: self@.free_oops,
                    ..old(self)@
                }),
            decreases OT_SIZE - t,
        {
            reveal(OMView::free_list_ok);
            let oop = oops[t];
            if self.is_free(oop) {
                self.oops_left = self.oops_left + 1;
                let ghost before = self@;
                self.free_list_prepend(oop);
                proof {
                    let fl = self@.free_oops;
                    assert forall|k: int| 0 <= k < fl.len() implies #[trigger] fl[k] >= oop by {
                        if k > 0 {
                            assert(fl[k] == before.free_oops[k - 1]);
                        }
                    }
                    assert forall|k: int| 1 <= k < fl.len() implies #[trigger] fl[k] != oop by {
                        assert(fl[k] == before.free_oops[k - 1]);
                    }
                    assert forall|k: int| 0 <= k < fl.len() implies ({
                        let o = #[trigger] fl[k];
                        &&& o < OT_SIZE
                        &&& self@.is_free(o)
                        &&& self@.loc[o as int] == Loc::Index { index: self@.free_next(k) as usize }
                    }) by {
                        if k > 0 {
                            assert(fl[k] == before.free_oops[k - 1]);
                            assert(self@.free_next(k) == before.free_next(k - 1));
                        }
                    }
                    assert forall|i: int, j: int| 0 <= i < j < fl.len() implies fl[i] < fl[j] by {
                        if i > 0 {
                            assert(fl[i] == before.free_oops[i - 1]);
                        }
                        assert(fl[j] == before.free_oops[j - 1]);
                    }
                    assert(fl.no_duplicates());
                    assert forall|o: OOP| OT_SIZE - (t + 1) <= o < OT_SIZE implies (fl.contains(o) <==> #[trigger] old(self)@.is_free(o)) by {
                        if o == oop {
                            assert(fl[0] == oop);
                        } else {
                            if fl.contains(o) {
                                let k = choose|k: int| 0 <= k < fl.len() && fl[k] == o;
                                assert(before.free_oops[k - 1] == o);
                            }
                            if before.free_oops.contains(o) {
                                let k = choose|k: int| 0 <= k < before.free_oops.len() && before.free_oops[k] == o;
                                assert(fl[k + 1] == o);
                            }
                        }
                    }
                }
            } else {
                proof {
                    let fl = self@.free_oops;
                    assert forall|o: OOP| OT_SIZE - (t + 1) <= o < OT_SIZE implies (fl.contains(o) <==> #[trigger] old(self)@.is_free(o)) by {
                        if o == oop {
                            if fl.contains(o) {
                                let k = choose|k: int| 0 <= k < fl.len() && fl[k] == o;
                            }
                        }
                    }
                }
            }
            t = t + 1;
        }
        proof {
            let w = choose|o: int| 0 <= o < OT_SIZE && #[trigger] old(self)@.is_free(o as OOP);
            assert(self@.free_oops.contains(w as OOP));
        }
        if self.free_ptr == NON_PTR {
            proof {
                assert(false);
            }
        }
    }
}

impl OMView {
    pub open spec fn in_chunks(self, o: OOP) -> bool {
        exists|j: int, k: int| 0 <= j <= BIG_SIZE && 0 <= k < self.chunks[j].len() && #[trigger] self.chunks[j][k] == o
    }

    /// The words available in the body of `o`.
    pub open spec fn avail(self, o: OOP) -> int {
        word_size(self.size[o as int] as int)
    }

    /// The entry `o` keeps its location, flags, size, class and count.
    pub open spec fn same_entry(self, other: OMView, o: int) -> bool {
        &&& self.loc[o] == other.loc[o]
        &&& self.rest[o] == other.rest[o]
        &&& self.size[o] == other.size[o]
        &&& self.class[o] == other.class[o]
        &&& self.count[o] == other.count[o]
    }

    /// The big chunk at `k` is the first that has at least `w` words.
    pub open spec fn first_fit(self, w: int, k: int) -> bool {
        &&& 0 <= k < self.chunks[BIG_SIZE as int].len()
        &&& self.avail(self.chunks[BIG_SIZE as int][k]) >= w
        &&& forall|i: int| 0 <= i < k ==> #[trigger] self.avail(self.chunks[BIG_SIZE as int][i]) < w
    }

    pub open spec fn no_fit(self, w: int) -> bool {
        forall|i: int| 0 <= i < self.chunks[BIG_SIZE as int].len() ==> #[trigger] self.avail(self.chunks[BIG_SIZE as int][i]) < w
    }
}

/// Removing the `k`th node of the big chunk list, by relinking its
/// predecessor (or the head), keeps the lists well formed.
proof fn lemma_chunks_remove(a: OMView, c: OMView, r: OOP, k: int)
    requires
        a.wf(),
        a.chunks_ok(),
        0 <= k < a.chunks[BIG_SIZE as int].len(),
        r == a.chunks[BIG_SIZE as int][k],
        c.wf(),
        c.mem.len() == a.mem.len(),
        forall|o: int| 0 <= o < OT_SIZE && o != r ==> c.loc[o] == a.loc[o] && c.rest[o] == a.rest[o] && c.size[o] == a.size[o],
        c.chunks == a.chunks.update(BIG_SIZE as int, a.chunks[BIG_SIZE as int].remove(k)),
        k == 0 ==> c.heads == a.heads.update(BIG_SIZE as int, a.chunk_next(BIG_SIZE as int, 0)) && c.class == a.class,
        k > 0 ==> c.heads == a.heads && c.class == a.class.update(a.chunks[BIG_SIZE as int][k - 1] as int, a.chunk_next(BIG_SIZE as int, k)),
    ensures
        c.chunks_ok(),
        !c.in_chunks(r),
        forall|o: OOP| #[trigger] c.in_chunks(o) ==> a.in_chunks(o),
{
    reveal(OMView::chunks_ok);
    let big = BIG_SIZE as int;
    let l = a.chunks[big];
    let l2 = c.chunks[big];
    assert forall|j: int, i: int| 0 <= j <= BIG_SIZE && 0 <= i < c.chunks[j].len() implies {
        &&& c.chunk_node_ok(#[trigger] c.chunks[j][i], j)
        &&& c.class[c.chunks[j][i] as int] == c.chunk_next(j, i)
    } by {
        if j == big {
            let ai = if i < k { i } else { i + 1 };
            assert(l2[i] == l[ai]);
            assert(a.chunk_node_ok(l[ai], j));
            assert(l[ai] != r);
            if k > 0 && i == k - 1 {
                assert(c.class[l2[i] as int] == a.chunk_next(big, k));
            } else {
                assert(l[k - 1] != l[ai] || k == 0);
                assert(c.class[l2[i] as int] == a.class[l[ai] as int]);
            }
        } else {
            assert(c.chunks[j] == a.chunks[j]);
            assert(a.chunk_node_ok(a.chunks[j][i], j));
            assert(a.chunks[j][i] != r);
            assert(k == 0 || a.chunks[j][i] != l[k - 1]);
        }
    }
    assert forall|j1: int, k1: int, j2: int, k2: int|
        0 <= j1 <= BIG_SIZE && 0 <= j2 <= BIG_SIZE && 0 <= k1 < c.chunks[j1].len() && 0 <= k2 < c.chunks[j2].len()
        && #[trigger] c.chunks[j1][k1] == #[trigger] c.chunks[j2][k2] implies j1 == j2 && k1 == k2 by {
        let a1 = if j1 == big && k1 >= k { k1 + 1 } else { k1 };
        let a2 = if j2 == big && k2 >= k { k2 + 1 } else { k2 };
        assert(c.chunks[j1][k1] == a.chunks[j1][a1]);
        assert(c.chunks[j2][k2] == a.chunks[j2][a2]);
    }
    assert forall|o: OOP| #[trigger] c.in_chunks(o) implies a.in_chunks(o) && o != r by {
        let (j, i) = choose|j: int, i: int| 0 <= j <= BIG_SIZE && 0 <= i < c.chunks[j].len() && #[trigger] c.chunks[j][i] == o;
        let ai = if j == big && i >= k { i + 1 } else { i };
        assert(a.chunks[j][ai] == o);
        if o == r {
            assert(a.chunks[big][k] == a.chunks[j][ai]);
        }
    }
    assert forall|j: int| 0 <= j <= BIG_SIZE implies #[trigger] c.heads[j] == (if c.chunks[j].len() == 0 { NON_PTR } else { c.chunks[j][0] }) by {
        if j == big && l2.len() > 0 {
            if k == 0 {
                assert(l2[0] == l[1]);
            } else {
                assert(l2[0] == l[0]);
            }
        }
    }
}

/// Putting a fit chunk that is in no list at the front of list `j` keeps the
/// lists well formed.
pub(crate) proof fn lemma_chunks_push(a: OMView, c: OMView, f: OOP, j: int)
    requires
        a.wf(),
        a.chunks_ok(),
        0 <= j <= BIG_SIZE,
        a.chunk_node_ok(f, j),
        !a.in_chunks(f),
        c == (OMView {
            class: a.class.update(f as int, a.heads[j]),
            heads: a.heads.update(j, f),
            chunks: a.chunks.update(j, seq![f] + a.chunks[j]),
            ..a
        }),
    ensures
        c.chunks_ok(),
        forall|o: OOP| #[trigger] c.in_chunks(o) <==> (o == f || a.in_chunks(o)),
{
    reveal(OMView::chunks_ok);
    assert(c.chunks[j][0] == f);
    assert forall|jj: int, i: int| 0 <= jj <= BIG_SIZE && 0 <= i < c.chunks[jj].len() implies {
        &&& c.chunk_node_ok(#[trigger] c.chunks[jj][i], jj)
        &&& c.class[c.chunks[jj][i] as int] == c.chunk_next(jj, i)
    } by {
        if jj == j && i == 0 {
        } else {
            let ai = if jj == j { i - 1 } else { i };
            assert(c.chunks[jj][i] == a.chunks[jj][ai]);
            assert(a.chunks[jj][ai] != f);
            if jj == j && i == 1 {
                assert(a.chunks[j][0] == c.chunks[j][1]);
            }
        }
    }
    assert forall|j1: int, k1: int, j2: int, k2: int|
        0 <= j1 <= BIG_SIZE && 0 <= j2 <= BIG_SIZE && 0 <= k1 < c.chunks[j1].len() && 0 <= k2 < c.chunks[j2].len()
        && #[trigger] c.chunks[j1][k1] == #[trigger] c.chunks[j2][k2] implies j1 == j2 && k1 == k2 by {
        if j1 == j && k1 == 0 {
            if !(j2 == j && k2 == 0) {
                let a2 = if j2 == j { k2 - 1 } else { k2 };
                assert(c.chunks[j2][k2] == a.chunks[j2][a2]);
            }
        } else if j2 == j && k2 == 0 {
            let a1 = if j1 == j { k1 - 1 } else { k1 };
            assert(c.chunks[j1][k1] == a.chunks[j1][a1]);
        } else {
            let a1 = if j1 == j { k1 - 1 } else { k1 };
            let a2 = if j2 == j { k2 - 1 } else { k2 };
            assert(c.chunks[j1][k1] == a.chunks[j1][a1]);
            assert(c.chunks[j2][k2] == a.chunks[j2][a2]);
        }
    }
    assert forall|jj: int| 0 <= jj <= BIG_SIZE implies #[trigger] c.heads[jj] == (if c.chunks[jj].len() == 0 { NON_PTR } else { c.chunks[jj][0] }) by {
    }
    assert forall|o: OOP| #[trigger] c.in_chunks(o) <==> (o == f || a.in_chunks(o)) by {
        if c.in_chunks(o) {
            let (jj, i) = choose|jj: int, i: int| 0 <= jj <= BIG_SIZE && 0 <= i < c.chunks[jj].len() && #[trigger] c.chunks[jj][i] == o;
            if !(jj == j && i == 0) {
                let ai = if jj == j { i - 1 } else { i };
                assert(a.chunks[jj][ai] == o);
            }
        }
        if o == f {
            assert(c.chunks[j][0] == f);
        }
        if a.in_chunks(o) {
            let (jj, i) = choose|jj: int, i: int| 0 <= jj <= BIG_SIZE && 0 <= i < a.chunks[jj].len() && #[trigger] a.chunks[jj][i] == o;
            let ci = if jj == j { i + 1 } else { i };
            assert(c.chunks[jj][ci] == o);
        }
    }
}

impl OMView {
    /// `self` once the first free entry is taken off the free list and
    /// given a body of `nbytes` bytes at word address `addr`.
    pub open spec fn entry_obtained(self, nbytes: int, addr: int) -> OMView {
        let q = self.free_oops[0];
        OMView {
            free_ptr: self.free_next(0),
            count: self.count.update(q as int, 0),
            rest: self.rest.update(q as int, self.rest[q as int] & !(REST_FREE | REST_PTRS | REST_BITMAP)),
            size: self.size.update(q as int, nbytes as i32),
            loc: self.loc.update(q as int, Loc::Address { addr: addr as usize }),
            free_oops: self.free_oops.drop_first(),
            ..self
        }
    }

    /// `self` once the chunk `o` is pushed on the free chunk list `j`.
    pub open spec fn chunk_pushed(self, o: OOP, j: int) -> OMView {
        OMView {
            class: self.class.update(o as int, self.heads[j]),
            heads: self.heads.update(j, o),
            chunks: self.chunks.update(j, seq![o] + self.chunks[j]),
            ..self
        }
    }

    /// `self` once the head of the list of chunks of `w` words is taken off it.
    pub open spec fn head_taken(self, w: int) -> OMView {
        OMView {
            heads: self.heads.update(w, self.chunk_next(w, 0)),
            chunks: self.chunks.update(w, self.chunks[w].drop_first()),
            ..self
        }
    }

    /// `self` once the `k`th big chunk is unlinked: its predecessor, or the
    /// head, points past it.
    pub open spec fn big_unlinked(self, k: int) -> OMView {
        let big = BIG_SIZE as int;
        let l = self.chunks[big];
        let next = self.chunk_next(big, k);
        OMView {
            heads: if k == 0 { self.heads.update(big, next) } else { self.heads },
            class: if k == 0 { self.class } else { self.class.update(l[k - 1] as int, next) },
            chunks: self.chunks.update(big, l.remove(k)),
            ..self
        }
    }

    /// `self` once the `k`th big chunk is cut for `nbytes` bytes: it keeps
    /// the first words and leaves its list; the first free entry takes the
    /// words beyond them and goes on the list of chunks of their number.
    pub open spec fn big_split(self, k: int, nbytes: int) -> OMView {
        let o = self.chunks[BIG_SIZE as int][k];
        let w = word_size(nbytes);
        let e = self.avail(o) - w;
        let q = self.free_oops[0];
        let a1 = self.entry_obtained(e * 4, self.addr_of(o) + w);
        let a2 = OMView { size: a1.size.update(o as int, nbytes as i32), ..a1 }.big_unlinked(k);
        a2.chunk_pushed(q, if e < BIG_SIZE { e } else { BIG_SIZE as int })
    }

    /// `self` once the `k`th big chunk serves `nbytes` bytes: whole when it
    /// has just the words needed, else cut.
    pub open spec fn big_alloc(self, k: int, nbytes: int) -> OMView {
        if self.avail(self.chunks[BIG_SIZE as int][k]) == word_size(nbytes) {
            self.big_unlinked(k)
        } else {
            self.big_split(k, nbytes)
        }
    }

    /// `c` and `r` are what serving `nbytes` bytes from the first big chunk
    /// that has the words leaves and hands out.
    pub open spec fn big_alloc_post(self, c: OMView, r: OOP, nbytes: int) -> bool {
        exists|k: int| #[trigger] self.first_fit(word_size(nbytes), k)
            && self.chunks[BIG_SIZE as int][k] == r
            && c == self.big_alloc(k, nbytes)
    }
}

impl OM {
    /// Takes the first free object-table entry and gives it a body of
    /// `nbytes` bytes at word address `loc`; `NON_PTR` when none is free.
    fn obtain_ptr(&mut self, nbytes: usize, loc: usize) -> (r: OOP)
        requires
            old(self)@.alloc_inv(),
        ensures
            final(self)@.alloc_inv(),
            old(self)@.free_ptr == NON_PTR ==> r == NON_PTR && final(self)@ == old(self)@,
            old(self)@.free_ptr != NON_PTR ==> {
                &&& r == old(self)@.free_oops[0]
                &&& final(self)@ == old(self)@.entry_obtained(nbytes as int, loc as int)
            },
    {
        reveal(OMView::chunks_ok);
        reveal(OMView::free_list_ok);
        let oop = self.free_ptr;
        if oop == NON_PTR {
            return NON_PTR;
        }
        proof {
            assert(self@.free_oops[0] == oop);
        }
        let next = self.get_free_list_next(oop);
        self.free_ptr = next;
        self.set_count(oop, 0);
        let rest = self.get_rest(oop);
        self.set_rest(oop, rest & !(REST_FREE | REST_PTRS | REST_BITMAP));
        self.set_size(oop, nbytes);
        self.set_loc(oop, Loc::Address { addr: loc });
        self.free_list = Ghost(self.free_list@.drop_first());
        proof {
            let a = old(self)@;
            let c = self@;
            assert(c.free_ptr == a.free_next(0));
            lemma_free_list_drop_first(a, c);
            assert forall|j: int, k: int| 0 <= j <= BIG_SIZE && 0 <= k < c.chunks[j].len() implies {
                &&& c.chunk_node_ok(#[trigger] c.chunks[j][k], j)
                &&& c.class[c.chunks[j][k] as int] == c.chunk_next(j, k)
            } by {
                assert(a.chunk_node_ok(a.chunks[j][k], j));
                assert(a.chunks[j][k] != oop);
            }
            assert(c.free_list_ok());
            assert(c.chunks_ok());
        }
        oop
    }
}

impl OMView {
    pub open spec fn attempt_fails(self, w: int) -> bool {
        ||| self.no_fit(w)
        ||| exists|k: int| #[trigger] self.first_fit(w, k) && self.avail(self.chunks[BIG_SIZE as int][k]) > w && self.free_ptr == NON_PTR
    }

    /// What an allocation hands out: an entry with a body of at least `w`
    /// words, in no free list.
    pub open spec fn fresh_body(self, r: OOP, w: int) -> bool {
        &&& r < OT_SIZE
        &&& self.has_addr(r)
        &&& self.addr_of(r) + w <= self.mem.len()
        &&& !self.in_chunks(r)
        &&& !self.free_oops.contains(r)
    }

    /// Entries outside every free list are untouched from `self` to `other`.
    pub open spec fn frame_outside_lists(self, other: OMView) -> bool {
        forall|o: OOP| o < OT_SIZE && !self.in_chunks(o) && !self.free_oops.contains(o) ==> #[trigger] other.same_entry(self, o as int)
    }
}

/// The free list stays well formed when it is the same list and its nodes
/// keep their flags and locations.
pub(crate) proof fn lemma_free_list_kept(a: OMView, c: OMView)
    requires
        a.free_list_ok(),
        c.free_oops == a.free_oops,
        c.free_ptr == a.free_ptr,
        forall|k: int| 0 <= k < a.free_oops.len() ==>
            c.rest[#[trigger] a.free_oops[k] as int] == a.rest[a.free_oops[k] as int]
            && c.loc[a.free_oops[k] as int] == a.loc[a.free_oops[k] as int],
    ensures
        c.free_list_ok(),
{
    reveal(OMView::free_list_ok);
    assert forall|k: int| 0 <= k < c.free_oops.len() implies ({
        let o = #[trigger] c.free_oops[k];
        &&& o < OT_SIZE
        &&& c.is_free(o)
        &&& c.loc[o as int] == Loc::Index { index: c.free_next(k) as usize }
    }) by {
        assert(c.free_oops[k] == a.free_oops[k]);
    }
}

/// Taking the head off the free list keeps it well formed when every
/// other entry keeps its flags and location.
pub(crate) proof fn lemma_free_list_drop_first(a: OMView, c: OMView)
    requires
        a.free_list_ok(),
        a.free_oops.len() > 0,
        c.free_oops == a.free_oops.drop_first(),
        c.free_ptr == a.free_next(0),
        forall|o: int| 0 <= o < OT_SIZE && o != a.free_oops[0] ==> #[trigger] c.rest[o] == a.rest[o] && c.loc[o] == a.loc[o],
    ensures
        c.free_list_ok(),
{
    reveal(OMView::free_list_ok);
    assert forall|k: int| 0 <= k < c.free_oops.len() implies ({
        let o = #[trigger] c.free_oops[k];
        &&& o < OT_SIZE
        &&& c.is_free(o)
        &&& c.loc[o as int] == Loc::Index { index: c.free_next(k) as usize }
    }) by {
        assert(c.free_oops[k] == a.free_oops[k + 1]);
        assert(a.free_oops[k + 1] != a.free_oops[0]);
        assert(c.free_next(k) == a.free_next(k + 1));
    }
}

/// A chunk node never sits in the free list: their locations differ in kind.
pub(crate) proof fn lemma_chunk_not_free(a: OMView, o: OOP, j: int)
    requires
        a.free_list_ok(),
        a.chunk_node_ok(o, j),
    ensures
        !a.free_oops.contains(o),
{
    reveal(OMView::free_list_ok);
    if a.free_oops.contains(o) {
        let k = choose|k: int| 0 <= k < a.free_oops.len() && a.free_oops[k] == o;
        assert(a.loc[o as int] is Index);
    }
}

/// A free entry is in no chunk list.
pub(crate) proof fn lemma_free_not_chunk(a: OMView, k: int)
    requires
        a.free_list_ok(),
        a.chunks_ok(),
        0 <= k < a.free_oops.len(),
    ensures
        !a.in_chunks(a.free_oops[k]),
{
    reveal(OMView::free_list_ok);
    reveal(OMView::chunks_ok);
    let o = a.free_oops[k];
    if a.in_chunks(o) {
        let (j, i) = choose|j: int, i: int| 0 <= j <= BIG_SIZE && 0 <= i < a.chunks[j].len() && #[trigger] a.chunks[j][i] == o;
        assert(a.chunk_node_ok(a.chunks[j][i], j));
    }
}

impl OM {
    /// Unlinks the big chunk `oop`, the `k`th of its list, and hands it out whole.
    fn take_chunk(&mut self, prev: OOP, oop: OOP, next_oop: OOP, Ghost(k): Ghost<int>, Ghost(w): Ghost<int>) -> (r: OOP)
        requires
            old(self)@.alloc_inv(),
            old(self)@.first_fit(w, k),
            old(self)@.avail(oop) == w,
            oop == old(self)@.chunks[BIG_SIZE as int][k],
            prev == (if k == 0 { NON_PTR } else { old(self)@.chunks[BIG_SIZE as int][k - 1] }),
            next_oop == old(self)@.chunk_next(BIG_SIZE as int, k),
        ensures
            r == oop,
            final(self)@ == old(self)@.big_unlinked(k),
            final(self)@.alloc_inv(),
            final(self)@.fresh_body(r, w),
            final(self)@.loc[r as int] == old(self)@.loc[r as int],
            final(self)@.rest[r as int] == old(self)@.rest[r as int],
            final(self)@.mem == old(self)@.mem,
            final(self)@.active_context == old(self)@.active_context,
            final(self)@.oops_left == old(self)@.oops_left,
            forall|o: OOP| o < OT_SIZE && !old(self)@.free_oops.contains(o) ==> #[trigger] final(self)@.loc[o as int] == old(self)@.loc[o as int],
            forall|o: OOP| o < OT_SIZE ==> #[trigger] final(self)@.count[o as int] == old(self)@.count[o as int] || (old(self)@.free_oops.contains(o) && final(self)@.count[o as int] == 0),
            old(self)@.frame_outside_lists(final(self)@),
    {
        reveal(OMView::free_list_ok);
        reveal(OMView::chunks_ok);
        let ghost big = BIG_SIZE as int;
        let ghost a = self@;
        let ghost l = a.chunks[big];
        proof {
            assert(a.chunk_node_ok(l[k], big));
            if k > 0 {
                assert(a.chunk_node_ok(l[k - 1], big));
            }
        }
        if prev == NON_PTR {
            self.fcl_heads.set(BIG_SIZE, next_oop);
        } else {
            self.set_free_chunk_next(prev, next_oop);
        }
        self.chunk_lists = Ghost(self.chunk_lists@.update(big, l.remove(k)));
        proof {
            lemma_chunks_remove(a, self@, oop, k);
            lemma_chunk_not_free(a, oop, big);
            lemma_free_list_kept(a, self@);
            assert forall|o: OOP| o < OT_SIZE && !a.in_chunks(o) && !a.free_oops.contains(o) implies #[trigger] self@.same_entry(a, o as int) by {
                if k > 0 {
                    assert(a.chunks[big][k - 1] == l[k - 1]);
                }
            }
        }
        oop
    }

    /// Hands out the first `wsize` words of the big chunk `oop`, the `k`th of
    /// its list; the `excess` words beyond them become a chunk of their own.
    #[verifier::rlimit(60)]
    fn split_chunk(&mut self, prev: OOP, oop: OOP, next_oop: OOP, nbytes: usize, wsize: usize, excess_words: isize, Ghost(k): Ghost<int>) -> (r: OOP)
        requires
            old(self)@.alloc_inv(),
            old(self)@.first_fit(wsize as int, k),
            old(self)@.avail(oop) == wsize + excess_words,
            excess_words > 0,
            wsize == word_size(nbytes as int),
            oop == old(self)@.chunks[BIG_SIZE as int][k],
            prev == (if k == 0 { NON_PTR } else { old(self)@.chunks[BIG_SIZE as int][k - 1] }),
            next_oop == old(self)@.chunk_next(BIG_SIZE as int, k),
        ensures
            final(self)@.alloc_inv(),
            (r == NON_PTR) == (old(self)@.free_ptr == NON_PTR),
            r == NON_PTR ==> final(self)@ == old(self)@,
            r != NON_PTR ==> {
                &&& r == oop
                &&& final(self)@ == old(self)@.big_split(k, nbytes as int)
                &&& final(self)@.fresh_body(r, wsize as int)
                &&& final(self)@.loc[r as int] == old(self)@.loc[r as int]
                &&& final(self)@.rest[r as int] == old(self)@.rest[r as int]
            },
            final(self)@.mem == old(self)@.mem,
            final(self)@.active_context == old(self)@.active_context,
            final(self)@.oops_left == old(self)@.oops_left,
            forall|o: OOP| o < OT_SIZE && !old(self)@.free_oops.contains(o) ==> #[trigger] final(self)@.loc[o as int] == old(self)@.loc[o as int],
            forall|o: OOP| o < OT_SIZE ==> #[trigger] final(self)@.count[o as int] == old(self)@.count[o as int] || (old(self)@.free_oops.contains(o) && final(self)@.count[o as int] == 0),
            old(self)@.frame_outside_lists(final(self)@),
    {
        reveal(OMView::free_list_ok);
        reveal(OMView::chunks_ok);
        let ghost big = BIG_SIZE as int;
        let ghost a0 = self@;
        let ghost l = a0.chunks[big];
        proof {
            assert(a0.chunk_node_ok(l[k], big));
            if k > 0 {
                assert(a0.chunk_node_ok(l[k - 1], big));
            }
        }
        let _n = self.object_space.len();
        let oop_addr = self.location_addr(oop) + wsize;
        let rest_oop = self.obtain_ptr((excess_words as usize) * 4, oop_addr);
        if rest_oop == NON_PTR {
            return NON_PTR;
        }
        let ghost a1 = self@;
        proof {
            lemma_free_not_chunk(a0, 0);
            lemma_chunk_not_free(a0, oop, big);
        }
        self.set_size(oop, nbytes);
        if prev == NON_PTR {
            self.fcl_heads.set(BIG_SIZE, next_oop);
        } else {
            self.set_free_chunk_next(prev, next_oop);
        }
        self.chunk_lists = Ghost(self.chunk_lists@.update(big, l.remove(k)));
        let ghost a2 = self@;
        proof {
            assert(a1.chunks == a0.chunks);
            assert(a1.chunk_next(big, k) == next_oop);
            lemma_chunks_remove(a1, a2, oop, k);
            lemma_free_list_kept(a1, a2);
        }
        let fcl_idx = if (excess_words as usize) < BIG_SIZE { excess_words as usize } else { BIG_SIZE };
        let rest_next = self.fcl_heads[fcl_idx];
        self.set_free_chunk_next(rest_oop, rest_next);
        self.fcl_heads.set(fcl_idx, rest_oop);
        self.chunk_lists = Ghost(self.chunk_lists@.update(fcl_idx as int, seq![rest_oop] + self.chunk_lists@[fcl_idx as int]));
        proof {
            let e = excess_words as int;
            assert((e * 4) as usize as i32 == e * 4);
            assert(word_size(e * 4) == e);
            lemma_cleared_flags(a0.rest[rest_oop as int]);
            assert(a2.chunk_node_ok(rest_oop, fcl_idx as int));
            assert(!a2.in_chunks(rest_oop));
            lemma_chunks_push(a2, self@, rest_oop, fcl_idx as int);
            lemma_free_list_kept(a2, self@);
            assert(!self@.free_oops.contains(oop)) by {
                lemma_chunk_not_free(a0, oop, big);
                if self@.free_oops.contains(oop) {
                    let q = choose|q: int| 0 <= q < self@.free_oops.len() && self@.free_oops[q] == oop;
                    assert(a0.free_oops[q + 1] == oop);
                }
            }
            assert forall|o: OOP| o < OT_SIZE && !a0.free_oops.contains(o) implies #[trigger] self@.loc[o as int] == a0.loc[o as int] by {
                assert(a0.free_oops[0] == rest_oop);
            }
            assert forall|o: OOP| o < OT_SIZE implies #[trigger] self@.count[o as int] == a0.count[o as int] || (a0.free_oops.contains(o) && self@.count[o as int] == 0) by {
                assert(a0.free_oops[0] == rest_oop);
            }
            assert forall|o: OOP| o < OT_SIZE && !a0.in_chunks(o) && !a0.free_oops.contains(o) implies #[trigger] self@.same_entry(a0, o as int) by {
                assert(a0.free_oops[0] == rest_oop);
                if k > 0 {
                    assert(a0.chunks[big][k - 1] == l[k - 1]);
                }
                assert(a0.chunks[big][k] == oop);
            }
        }
        oop
    }

    /// Takes the first big chunk of at least `nbytes` bytes, splitting off
    /// what it has beyond them into a new chunk.
    #[verifier::rlimit(60)]
    pub(crate) fn attempt_to_alloc(&mut self, nbytes: usize) -> (r: OOP)
        requires
            old(self)@.alloc_inv(),
            nbytes + 4 <= usize::MAX,
        ensures
            final(self)@.alloc_inv(),
            (r == NON_PTR) == old(self)@.attempt_fails(word_size(nbytes as int)),
            r == NON_PTR ==> final(self)@ == old(self)@,
            r != NON_PTR ==> {
                &&& old(self)@.big_alloc_post(final(self)@, r, nbytes as int)
                &&& final(self)@.fresh_body(r, word_size(nbytes as int))
                &&& final(self)@.loc[r as int] == old(self)@.loc[r as int]
                &&& final(self)@.rest[r as int] == old(self)@.rest[r as int]
            },
            final(self)@.mem == old(self)@.mem,
            final(self)@.active_context == old(self)@.active_context,
            final(self)@.oops_left == old(self)@.oops_left,
            forall|o: OOP| o < OT_SIZE && !old(self)@.free_oops.contains(o) ==> #[trigger] final(self)@.loc[o as int] == old(self)@.loc[o as int],
            forall|o: OOP| o < OT_SIZE ==> #[trigger] final(self)@.count[o as int] == old(self)@.count[o as int] || (old(self)@.free_oops.contains(o) && final(self)@.count[o as int] == 0),
            old(self)@.frame_outside_lists(final(self)@),
    {
        reveal(OMView::chunks_ok);
        let ghost big = BIG_SIZE as int;
        let ghost l = self@.chunks[big];
        let ghost w = word_size(nbytes as int);
        let mut prev = NON_PTR;
        let mut oop = self.fcl_heads[BIG_SIZE];
        let wsize = to_word_size(nbytes);
        let ghost mut k: int = 0;
        proof {
            assert(self@.heads[big] == (if l.len() == 0 { NON_PTR } else { l[0] }));
        }
        while oop != NON_PTR
            invariant
                self@ == old(self)@,
                self@.alloc_inv(),
                l == self@.chunks[big],
                big == BIG_SIZE,
                w == word_size(nbytes as int),
                wsize == w,
                nbytes + 4 <= usize::MAX,
                0 <= k <= l.len(),
                oop == (if k < l.len() { l[k] } else { NON_PTR }),
                prev == (if k == 0 { NON_PTR } else { l[k - 1] }),
                forall|i: int| 0 <= i < k ==> #[trigger] self@.avail(l[i]) < w,
            decreases l.len() - k,
        {
            reveal(OMView::chunks_ok);
            proof {
                assert(self@.chunk_node_ok(l[k], big));
            }
            let next_oop = self.get_free_chunk_next(oop);
            let available_size = to_word_size(self.get_size(oop));
            if available_size == wsize {
                proof {
                    assert(self@.first_fit(w, k));
                }
                return self.take_chunk(prev, oop, next_oop, Ghost(k), Ghost(w));
            }
            assert(wsize <= isize::MAX) by {
                assert(nbytes <= usize::MAX);
            }
            let excess_words = (available_size as isize) - (wsize as isize);
            if excess_words < 0 {
                prev = oop;
                oop = next_oop;
                proof {
                    k = k + 1;
                }
                continue;
            }
            proof {
                assert(self@.first_fit(w, k));
            }
            return self.split_chunk(prev, oop, next_oop, nbytes, wsize, excess_words, Ghost(k));
        }
        proof {
            assert(self@.no_fit(w));
        }
        return NON_PTR;
    }
}

/// Clearing the free, pointer and bitmap flags clears each of them.
pub proof fn lemma_cleared_flags(r: u8)
    ensures
        !has_flag(r & !(REST_FREE | REST_PTRS | REST_BITMAP), REST_FREE),
        !has_flag(r & !(REST_FREE | REST_PTRS | REST_BITMAP), REST_PTRS),
        !has_flag(r & !(REST_FREE | REST_PTRS | REST_BITMAP), REST_BITMAP),
        !has_flag(r & !(REST_FREE | REST_PTRS), REST_FREE),
        !has_flag(r & !(REST_FREE | REST_PTRS), REST_PTRS),
{
    assert((r & !(4u8 | 2u8 | 8u8)) & 4u8 == 0u8) by (bit_vector);
    assert((r & !(4u8 | 2u8 | 8u8)) & 2u8 == 0u8) by (bit_vector);
    assert((r & !(4u8 | 2u8 | 8u8)) & 8u8 == 0u8) by (bit_vector);
    assert((r & !(4u8 | 2u8)) & 4u8 == 0u8) by (bit_vector);
    assert((r & !(4u8 | 2u8)) & 2u8 == 0u8) by (bit_vector);
}


/// Setting the free flag and clearing the bitmap flag leaves the entry free.
pub proof fn lemma_freed_flags(r: u8)
    ensures
        has_flag((r | REST_FREE) & !REST_BITMAP, REST_FREE),
        !has_flag((r | REST_FREE) & !REST_BITMAP, REST_BITMAP),
{
    assert(((r | 4u8) & !8u8) & 4u8 != 0u8) by (bit_vector);
    assert(((r | 4u8) & !8u8) & 8u8 == 0u8) by (bit_vector);
}

impl OMView {
    /// The free chunk list that a chunk of the size of `o` belongs in.
    pub open spec fn chunk_class(self, o: OOP) -> int {
        if self.avail(o) > BIG_SIZE { BIG_SIZE as int } else { self.avail(o) }
    }

    /// The free chunk list that freeing `o` puts it on, by its size field
    /// read as an unsigned byte count.
    pub open spec fn dealloc_class(self, o: OOP) -> int {
        let w = word_size(self.size_of(o) as int);
        if w > BIG_SIZE { BIG_SIZE as int } else { w }
    }

    /// The free chunk lists start at `heads` and are linked through the
    /// class fields of their nodes, entries of the object table.
    pub open spec fn lists_linked(self) -> bool {
        &&& self.wf()
        &&& self.chunks.len() == BIG_SIZE + 1
        &&& forall|j: int| 0 <= j <= BIG_SIZE ==> #[trigger] self.heads[j] == (if self.chunks[j].len() == 0 { NON_PTR } else { self.chunks[j][0] })
        &&& forall|j: int, k: int| 0 <= j <= BIG_SIZE && 0 <= k < self.chunks[j].len() ==> {
            &&& #[trigger] self.chunks[j][k] < OT_SIZE
            &&& self.class[self.chunks[j][k] as int] == self.chunk_next(j, k)
        }
    }
}

/// Well formed free chunk lists are linked.
pub proof fn lemma_chunks_linked(a: OMView)
    requires
        a.alloc_inv(),
    ensures
        a.lists_linked(),
{
    reveal(OMView::chunks_ok);
    assert forall|j: int, k: int| 0 <= j <= BIG_SIZE && 0 <= k < a.chunks[j].len() implies {
        &&& #[trigger] a.chunks[j][k] < OT_SIZE
        &&& a.class[a.chunks[j][k] as int] == a.chunk_next(j, k)
    } by {
        assert(a.chunk_node_ok(a.chunks[j][k], j));
    }
}

/// Pushing an entry that is on no list keeps the lists linked.
pub proof fn lemma_lists_push(a: OMView, o: OOP, j: int)
    requires
        a.lists_linked(),
        !a.in_chunks(o),
        o < OT_SIZE,
        0 <= j <= BIG_SIZE,
    ensures
        a.chunk_pushed(o, j).lists_linked(),
{
    let c = a.chunk_pushed(o, j);
    assert forall|jj: int, k: int| 0 <= jj <= BIG_SIZE && 0 <= k < c.chunks[jj].len() implies {
        &&& #[trigger] c.chunks[jj][k] < OT_SIZE
        &&& c.class[c.chunks[jj][k] as int] == c.chunk_next(jj, k)
    } by {
        if jj == j {
            if k > 0 {
                assert(c.chunks[jj][k] == a.chunks[j][k - 1]);
                assert(a.chunks[j][k - 1] != o);
            } else {
                assert(c.chunks[jj][1] == a.chunks[j][0] || c.chunks[jj].len() == 1);
            }
        } else {
            assert(a.chunks[jj][k] != o);
        }
    }
    assert forall|jj: int| 0 <= jj <= BIG_SIZE implies #[trigger] c.heads[jj] == (if c.chunks[jj].len() == 0 { NON_PTR } else { c.chunks[jj][0] }) by {
    }
}

impl OM {
    /// Frees `oop`: a bitmap goes back to the free list of entries, any
    /// other object becomes a free chunk of its size.
    pub(crate) fn deallocate(&mut self, oop: OOP)
        requires
            old(self)@.wf(),
            old(self)@.chunks.len() == BIG_SIZE + 1,
            oop < OT_SIZE,
            !old(self)@.is_bitmap(oop) ==> old(self)@.size_of(oop) + 4 <= usize::MAX,
        ensures
            old(self)@.is_bitmap(oop) ==> final(self)@ == (OMView {
                rest: old(self)@.rest.update(oop as int, (old(self)@.rest[oop as int] | REST_FREE) & !REST_BITMAP),
                loc: old(self)@.loc.update(oop as int, Loc::Index { index: old(self)@.free_ptr as usize }),
                free_ptr: oop,
                free_oops: seq![oop] + old(self)@.free_oops,
                ..old(self)@
            }),
            !old(self)@.is_bitmap(oop) ==> final(self)@ == old(self)@.chunk_pushed(oop, old(self)@.dealloc_class(oop)),
            old(self)@.size[oop as int] >= 0 ==> old(self)@.dealloc_class(oop) == old(self)@.chunk_class(oop),
            !old(self)@.is_bitmap(oop) && old(self)@.lists_linked() && !old(self)@.in_chunks(oop) ==> final(self)@.lists_linked(),
            ({
                let a = old(self)@;
                &&& a.alloc_inv()
                &&& !a.is_free(oop)
                &&& !a.in_chunks(oop)
                &&& !a.free_oops.contains(oop)
                &&& !a.is_bitmap(oop) ==> a.chunk_node_ok(oop, a.chunk_class(oop))
            }) ==> final(self)@.alloc_inv(),
    {
        reveal(OMView::free_list_ok);
        reveal(OMView::chunks_ok);
        let ghost a = self@;
        if self.is_bitmap(oop) {
            let rest = self.get_rest(oop);
            self.set_rest(oop, (rest | REST_FREE) & !REST_BITMAP);
            self.free_list_prepend(oop);
            proof {
              if a.alloc_inv() && !a.is_free(oop) && !a.in_chunks(oop) && !a.free_oops.contains(oop) {
                lemma_freed_flags(a.rest[oop as int]);
                let c = self@;
                assert forall|k: int| 0 <= k < c.free_oops.len() implies ({
                    let o = #[trigger] c.free_oops[k];
                    &&& o < OT_SIZE
                    &&& c.is_free(o)
                    &&& c.loc[o as int] == Loc::Index { index: c.free_next(k) as usize }
                }) by {
                    if k > 0 {
                        assert(c.free_oops[k] == a.free_oops[k - 1]);
                        assert(c.free_next(k) == a.free_next(k - 1));
                    }
                }
                assert forall|i: int, j: int| 0 <= i < c.free_oops.len() && 0 <= j < c.free_oops.len() && i != j implies c.free_oops[i] != c.free_oops[j] by {
                    if i > 0 {
                        assert(c.free_oops[i] == a.free_oops[i - 1]);
                    }
                    if j > 0 {
                        assert(c.free_oops[j] == a.free_oops[j - 1]);
                    }
                }
                assert forall|j: int, k: int| 0 <= j <= BIG_SIZE && 0 <= k < c.chunks[j].len() implies {
                    &&& c.chunk_node_ok(#[trigger] c.chunks[j][k], j)
                    &&& c.class[c.chunks[j][k] as int] == c.chunk_next(j, k)
                } by {
                    assert(a.chunk_node_ok(a.chunks[j][k], j));
                    assert(a.chunks[j][k] != oop);
                }
              }
            }
        } else {
            let mut wsize = to_word_size(self.get_size(oop));
            if wsize > BIG_SIZE {
                wsize = BIG_SIZE;
            }
            let oop_next = self.fcl_heads[wsize];
            self.set_free_chunk_next(oop, oop_next);
            self.fcl_heads.set(wsize, oop);
            self.chunk_lists = Ghost(self.chunk_lists@.update(wsize as int, seq![oop] + self.chunk_lists@[wsize as int]));
            proof {
                assert(self@ == a.chunk_pushed(oop, a.dealloc_class(oop)));
                if a.lists_linked() && !a.in_chunks(oop) {
                    lemma_lists_push(a, oop, a.dealloc_class(oop));
                }
                if a.alloc_inv() && !a.is_free(oop) && !a.in_chunks(oop) && !a.free_oops.contains(oop) && a.chunk_node_ok(oop, a.chunk_class(oop)) {
                    lemma_chunks_push(a, self@, oop, wsize as int);
                    lemma_free_list_kept(a, self@);
                }
            }
        }
    }
}

impl OMView {
    /// Where the snapshot's offset table places `o`.
    pub open spec fn loaded_loc(self, o: OOP, offsets: Seq<i32>) -> Loc {
        if self.is_free(o) {
            self.loc[o as int]
        } else if self.is_bitmap(o) {
            Loc::Index { index: offsets[o as int] as usize }
        } else {
            Loc::Address { addr: offsets[o as int] as usize }
        }
    }
}

impl OM {
    /// Installs the object space of a snapshot and places every entry in
    /// use at its offset: a bitmap by index, any other object by address.
    pub fn initialize_object_space(&mut self, object_space: Vec<OOP>, offsets: Vec<i32>)
        requires
            old(self)@.wf(),
            forall|o: OOP| o < OT_SIZE && !old(self)@.is_free(o) ==> o < offsets@.len(),
        ensures
            final(self)@.wf(),
            final(self)@.mem == object_space@,
            forall|o: OOP| o < OT_SIZE ==> #[trigger] final(self)@.loc[o as int] == old(self)@.loaded_loc(o, offsets@),
            final(self)@ == (OMView { mem: object_space@, loc: final(self)@.loc, ..old(self)@ }),
    {
        self.object_space = object_space;
        let ghost a = self@;
        assert(a.rest == old(self)@.rest);
        let oops = for_every_oop();
        let mut t: usize = 0;
        while t < OT_SIZE
            invariant
                t <= OT_SIZE,
                oops@.len() == OT_SIZE,
                forall|i: int| 0 <= i < OT_SIZE ==> #[trigger] oops@[i] == i,
                forall|o: OOP| o < OT_SIZE && !old(self)@.is_free(o) ==> o < offsets@.len(),
                a.rest == old(self)@.rest,
                self@.wf(),
                forall|o: OOP| o < OT_SIZE ==> #[trigger] self@.loc[o as int] == if o < t { a.loaded_loc(o, offsets@) } else { a.loc[o as int] },
                self@ == (OMView { loc: self@.loc, ..a }),
            decreases OT_SIZE - t,
        {
            let oop = oops[t];
            proof {
                assert(self@.is_free(oop) == old(self)@.is_free(oop));
            }
            if self.is_free(oop) {
            } else if self.is_bitmap(oop) {
                self.set_loc(oop, Loc::Index { index: #[verifier::truncate] (offsets[oop as usize] as usize) });
            } else {
                self.set_loc(oop, Loc::Address { addr: #[verifier::truncate] (offsets[oop as usize] as usize) });
            }
            t = t + 1;
        }
    }

    /// Makes the first free entry the single big chunk that covers the
    /// object space beyond the snapshot's `object_space_length`.
    pub fn initialize_free_chunks(&mut self, object_space_length: usize)
        requires
            old(self)@.wf(),
            old(self)@.free_ptr < OT_SIZE,
            old(self)@.loc[old(self)@.free_ptr as int] is Index,
            object_space_length <= OM_SIZE,
        ensures
            final(self)@ == old(self)@.with_big_chunk(object_space_length),
            old(self)@.alloc_inv() && object_space_length / 4 + word_size(((OM_SIZE - object_space_length) / 4) as int) <= old(self)@.mem.len()
                ==> final(self)@.alloc_inv(),
    {
        let ghost a = self@;
        let fcp = self.free_ptr;
        self.free_ptr = self.get_free_list_next(fcp);
        self.fcl_heads.set(BIG_SIZE, fcp);
        let loc = object_space_length / 4;
        let free_space = OM_SIZE - object_space_length;
        self.set_loc(fcp, Loc::Address { addr: loc });
        let rest = self.get_rest(fcp);
        self.set_rest(fcp, rest & !(REST_FREE | REST_PTRS));
        self.set_size(fcp, free_space / 4);
        self.set_class(fcp, NON_PTR);
        self.free_list = Ghost(self.free_list@.drop_first());
        self.chunk_lists = Ghost(self.chunk_lists@.update(BIG_SIZE as int, seq![fcp]));
        proof {
            let c = self@;
            if a.alloc_inv() && loc + word_size((free_space / 4) as int) <= a.mem.len() {
                reveal(OMView::free_list_ok);
                reveal(OMView::chunks_ok);
                lemma_cleared_flags(a.rest[fcp as int]);
                assert(a.free_oops[0] == fcp);
                assert(c.chunk_node_ok(fcp, BIG_SIZE as int));
                lemma_free_list_drop_first(a, c);
                assert forall|j: int, k: int| 0 <= j <= BIG_SIZE && 0 <= k < c.chunks[j].len() implies {
                    &&& c.chunk_node_ok(#[trigger] c.chunks[j][k], j)
                    &&& c.class[c.chunks[j][k] as int] == c.chunk_next(j, k)
                } by {
                    if j != BIG_SIZE {
                        assert(a.chunk_node_ok(a.chunks[j][k], j));
                        lemma_chunk_not_free(a, a.chunks[j][k], j);
                        assert(a.chunks[j][k] != fcp);
                    }
                }
                assert forall|j1: int, k1: int, j2: int, k2: int|
                    0 <= j1 <= BIG_SIZE && 0 <= j2 <= BIG_SIZE && 0 <= k1 < c.chunks[j1].len() && 0 <= k2 < c.chunks[j2].len()
                    && #[trigger] c.chunks[j1][k1] == #[trigger] c.chunks[j2][k2] implies j1 == j2 && k1 == k2 by {
                    if j1 != BIG_SIZE && j2 != BIG_SIZE {
                    } else if j1 != BIG_SIZE {
                        assert(a.chunk_node_ok(a.chunks[j1][k1], j1));
                        lemma_chunk_not_free(a, a.chunks[j1][k1], j1);
                    } else if j2 != BIG_SIZE {
                        assert(a.chunk_node_ok(a.chunks[j2][k2], j2));
                        lemma_chunk_not_free(a, a.chunks[j2][k2], j2);
                    }
                }
                assert(c.chunks_ok());
            }
        }
    }
}

/// Half `k` (0 the low, 1 the high) of the word `w`.
pub open spec fn half_of(w: u32, k: int) -> u16 {
    ((w >> (16 * k) as u32) & 0xFFFFu32) as u16
}

/// The `k`th halfword from word address `base`, the halves of each word
/// lowest first.
pub open spec fn halfword(mem: Seq<OOP>, base: int, k: int) -> u16 {
    half_of(mem[base + k / 2], k % 2)
}

/// `w` with its low half set to `h`.
pub open spec fn with_low_half(w: u32, h: u16) -> u32 {
    (w & 0xFFFF0000u32) | (h as u32)
}

/// `w` with its high half set to `h`.
pub open spec fn with_high_half(w: u32, h: u16) -> u32 {
    (w & 0xFFFFu32) | ((h as u32) << 16u32)
}

/// `mem` once the first `n` halfwords from word address `src` are copied to
/// word address `dst`, as one move.
pub open spec fn copied_halves(mem: Seq<OOP>, src: int, dst: int, n: int) -> Seq<OOP> {
    Seq::new(mem.len(), |i: int|
        if dst <= i < dst + (n + 1) / 2 {
            let j = i - dst;
            let w1 = if 2 * j < n { with_low_half(mem[i], halfword(mem, src, 2 * j)) } else { mem[i] };
            if 2 * j + 1 < n { with_high_half(w1, halfword(mem, src, 2 * j + 1)) } else { w1 }
        } else {
            mem[i]
        })
}

impl OM {
    /// Copies `n` halfwords from word address `src` to word address `dst`,
    /// as a move: the source is read whole before the target is written.
    pub fn copy_halfwords(&mut self, src: usize, dst: usize, n: usize)
        requires
            n + 1 <= usize::MAX,
            src + (n + 1) / 2 <= old(self)@.mem.len(),
            dst + (n + 1) / 2 <= old(self)@.mem.len(),
        ensures
            final(self)@ == (OMView { mem: copied_halves(old(self)@.mem, src as int, dst as int, n as int), ..old(self)@ }),
    {
        let ghost m0 = self@.mem;
        let mlen = self.object_space.len();
        let mut halves: Vec<u16> = Vec::new();
        let mut k: usize = 0;
        while k < n
            invariant
                k <= n,
                mlen == m0.len(),
                self@.mem == m0,
                src + (n + 1) / 2 <= m0.len(),
                halves@.len() == k,
                forall|i: int| 0 <= i < k ==> #[trigger] halves@[i] == halfword(m0, src as int, i),
            decreases n - k,
        {
            let w = self.object_space[src + k / 2];
            halves.push(#[verifier::truncate] (((w >> (16 * (k % 2)) as u32) & 0xFFFF) as u16));
            k = k + 1;
        }
        let words = (n + 1) / 2;
        let mut j: usize = 0;
        while j < words
            invariant
                j <= words,
                mlen == m0.len(),
                words == (n + 1) / 2,
                dst + words <= m0.len(),
                halves@.len() == n,
                forall|i: int| 0 <= i < n ==> #[trigger] halves@[i] == halfword(m0, src as int, i),
                self@ == (OMView { mem: self@.mem, ..old(self)@ }),
                self@.mem.len() == m0.len(),
                forall|i: int| 0 <= i < m0.len() ==> #[trigger] self@.mem[i] == if dst <= i < dst + j { copied_halves(m0, src as int, dst as int, n as int)[i] } else { m0[i] },
            decreases words - j,
        {
            let mut w = self.object_space[dst + j];
            if 2 * j < n {
                w = (w & 0xFFFF0000) | (halves[2 * j] as u32);
            }
            if 2 * j + 1 < n {
                w = (w & 0xFFFF) | ((halves[2 * j + 1] as u32) << 16u32);
            }
            self.object_space.set(dst + j, w);
            j = j + 1;
        }
        proof {
            assert(self@.mem =~= copied_halves(m0, src as int, dst as int, n as int));
        }
    }
}
} // verus!
