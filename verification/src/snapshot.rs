//! Loading a snapshot image into the object memory.
//!
//! An image starts with a header: the length of the object space in words
//! and the length of the object table in entries (big-endian 32-bit), then
//! the image type (big-endian 16-bit). From byte 512 come the words of the
//! object space; from the next multiple of 512 the object table, column by
//! column: offsets, counts, flag bytes, sizes and classes.
use vstd::prelude::*;
use vstd::slice::slice_subrange;
use byteorder::{BigEndian, ByteOrder};
use crate::std_ptrs::OOP;
use crate::om::{OM, OMView, OM_SIZE, OT_SIZE, BIG_SIZE, NON_PTR, REST_FREE, has_flag};

verus! {

/// The image type of a Manchester image, the one kind that is understood.
pub const MANCHESTER2: i16 = 43;

/// The first two bytes of `s`, most significant first.
pub open spec fn be_u16(s: Seq<u8>) -> u16 {
    (s[0] as int * 256 + s[1] as int) as u16
}

/// The first four bytes of `s`, most significant first.
pub open spec fn be_u32(s: Seq<u8>) -> u32 {
    (s[0] as int * 16777216 + s[1] as int * 65536 + s[2] as int * 256 + s[3] as int) as u32
}

/// `BigEndian::read_u32` of byteorder: the first four bytes of `buf` as a
/// big-endian number; it panics on fewer than four bytes.
#[verifier::external_body]
fn read_u32_be(buf: &[u8]) -> (r: u32)
    requires
        buf@.len() >= 4,
    ensures
        r == be_u32(buf@),
{
    BigEndian::read_u32(buf)
}

/// `BigEndian::read_i32` of byteorder: the first four bytes of `buf` as a
/// big-endian two's-complement number; it panics on fewer than four bytes.
#[verifier::external_body]
fn read_i32_be(buf: &[u8]) -> (r: i32)
    requires
        buf@.len() >= 4,
    ensures
        r == be_u32(buf@) as i32,
{
    BigEndian::read_i32(buf)
}

/// `BigEndian::read_i16` of byteorder: the first two bytes of `buf` as a
/// big-endian two's-complement number; it panics on fewer than two bytes.
#[verifier::external_body]
fn read_i16_be(buf: &[u8]) -> (r: i16)
    requires
        buf@.len() >= 2,
    ensures
        r == be_u16(buf@) as i16,
{
    BigEndian::read_i16(buf)
}

/// The big-endian word at byte `p` of `s`.
pub open spec fn u32_at(s: Seq<u8>, p: int) -> u32 {
    be_u32(s.subrange(p, p + 4))
}

/// The object space length that the header of `s` gives, in words.
pub open spec fn header_space_length(s: Seq<u8>) -> i32 {
    u32_at(s, 0) as i32
}

/// The object table length that the header of `s` gives, in entries.
pub open spec fn header_table_length(s: Seq<u8>) -> i32 {
    u32_at(s, 4) as i32
}

pub open spec fn header_image_type(s: Seq<u8>) -> i16 {
    be_u16(s.subrange(8, 10)) as i16
}

/// Word `i` of the object space in the image.
pub open spec fn word_at(s: Seq<u8>, i: int) -> u32 {
    u32_at(s, 512 + 4 * i)
}

/// The byte where the object table starts: the first multiple of 512 at
/// or after the end of an object space of `osl` words.
pub open spec fn table_start(osl: int) -> int {
    (512 + 4 * osl + 511) / 512 * 512
}

/// The object space as loaded: the image's words, then zeros.
pub open spec fn loaded_mem(s: Seq<u8>, osl: int) -> Seq<OOP> {
    Seq::new(OM_SIZE as nat, |i: int| if i < osl { word_at(s, i) } else { 0u32 })
}

/// The offset of entry `o` in the object table of the image.
pub open spec fn offset_at(s: Seq<u8>, osl: int, otl: int, o: int) -> i32 {
    u32_at(s, table_start(osl) + 4 * o) as i32
}

pub open spec fn count_at(s: Seq<u8>, osl: int, otl: int, o: int) -> u8 {
    s[table_start(osl) + 4 * otl + o]
}

pub open spec fn rest_at(s: Seq<u8>, osl: int, otl: int, o: int) -> u8 {
    s[table_start(osl) + 5 * otl + o]
}

pub open spec fn size_at(s: Seq<u8>, osl: int, otl: int, o: int) -> i32 {
    u32_at(s, table_start(osl) + 6 * otl + 4 * o) as i32
}

pub open spec fn class_at(s: Seq<u8>, osl: int, otl: int, o: int) -> OOP {
    u32_at(s, table_start(osl) + 10 * otl + 4 * o)
}

/// The offsets of the first `n` entries.
pub open spec fn offsets_of(s: Seq<u8>, osl: int, otl: int, n: int) -> Seq<i32> {
    Seq::new(n as nat, |o: int| offset_at(s, osl, otl, o))
}

/// The counts, with the first `n` entries loaded from the image.
pub open spec fn counts_of(s: Seq<u8>, osl: int, otl: int, n: int, old: Seq<u16>) -> Seq<u16> {
    Seq::new(OT_SIZE as nat, |o: int| if o < n { count_at(s, osl, otl, o) as u16 } else { old[o] })
}

pub open spec fn rests_of(s: Seq<u8>, osl: int, otl: int, n: int, old: Seq<u8>) -> Seq<u8> {
    Seq::new(OT_SIZE as nat, |o: int| if o < n { rest_at(s, osl, otl, o) } else { old[o] })
}

pub open spec fn sizes_of(s: Seq<u8>, osl: int, otl: int, n: int, old: Seq<i32>) -> Seq<i32> {
    Seq::new(OT_SIZE as nat, |o: int| if o < n { (size_at(s, osl, otl, o) as usize) as i32 } else { old[o] })
}

pub open spec fn classes_of(s: Seq<u8>, osl: int, otl: int, n: int, old: Seq<OOP>) -> Seq<OOP> {
    Seq::new(OT_SIZE as nat, |o: int| if o < n { class_at(s, osl, otl, o) } else { old[o] })
}

/// `a` with the object space and the object table of the image in place,
/// each entry in use placed at its offset.
pub open spec fn tables_loaded(a: OMView, s: Seq<u8>, osl: int, otl: int) -> OMView {
    let r = OMView {
        count: counts_of(s, osl, otl, otl, a.count),
        rest: rests_of(s, osl, otl, otl, a.rest),
        size: sizes_of(s, osl, otl, otl, a.size),
        ..a
    };
    OMView {
        mem: loaded_mem(s, osl),
        loc: Seq::new(OT_SIZE as nat, |o: int| r.loaded_loc(o as OOP, offsets_of(s, osl, otl, otl))),
        class: classes_of(s, osl, otl, otl, a.class),
        ..r
    }
}

/// An image of object space length `osl` and object table length `otl`
/// can be loaded into `a`: it holds what is read, its table fits, every
/// entry beyond it is free, and some entry is free.
pub open spec fn manchester_ok(s: Seq<u8>, a: OMView, osl: int, otl: int) -> bool {
    &&& a.wf()
    &&& 0 <= osl <= OM_SIZE
    &&& 0 <= otl <= OT_SIZE
    &&& osl == 0 || 512 + 4 * osl <= s.len()
    &&& otl == 0 || table_start(osl) + 14 * otl <= s.len()
    &&& forall|o: OOP| otl <= o < OT_SIZE ==> #[trigger] a.is_free(o)
    &&& a.oops_left + OT_SIZE <= usize::MAX
    &&& otl < OT_SIZE || exists|o: int| 0 <= o < otl && has_flag(#[trigger] rest_at(s, osl, otl, o), REST_FREE)
}

/// `c` is `a` after loading the image: the tables in place, the free
/// entries linked, and the first of them made the big free chunk.
pub open spec fn manchester_loaded(a: OMView, s: Seq<u8>, osl: int, otl: int, c: OMView) -> bool {
    exists|mid: OMView| #[trigger] tables_loaded(a, s, osl, otl).free_list_built(mid)
        && c == mid.with_big_chunk(osl as usize)
}

/// The header of `s` can be read, names a Manchester image, and the image can be loaded into `a`.
pub open spec fn load_ok(s: Seq<u8>, a: OMView) -> bool {
    &&& s.len() >= 10
    &&& header_image_type(s) == MANCHESTER2
    &&& manchester_ok(s, a, header_space_length(s) as int, header_table_length(s) as int)
}

/// The header of `image`: the object space length, the object table
/// length and the image type.
pub fn image_header(image: &[u8]) -> (r: (i32, i32, i16))
    requires
        image@.len() >= 10,
    ensures
        r == (header_space_length(image@), header_table_length(image@), header_image_type(image@)),
{
    let object_space_length = read_i32_be(slice_subrange(image, 0, 4));
    let object_table_length = read_i32_be(slice_subrange(image, 4, 8));
    let image_type = read_i16_be(slice_subrange(image, 8, 10));
    (object_space_length, object_table_length, image_type)
}

/// The byte where the object table of an image with an object space of
/// `object_space_length` words starts.
pub fn table_offset(object_space_length: usize) -> (r: usize)
    requires
        object_space_length <= OM_SIZE,
    ensures
        r == table_start(object_space_length as int),
{
    (512 + 4 * object_space_length + 511) / 512 * 512
}

/// Loads the object space and object table of a Manchester image of
/// `object_space_length` words and `object_table_length` entries, links
/// the free entries and makes the space beyond the image one free chunk.
pub fn load_manchester(image: &[u8], om: &mut OM, object_space_length: usize, object_table_length: usize)
    requires
        manchester_ok(image@, old(om)@, object_space_length as int, object_table_length as int),
    ensures
        manchester_loaded(old(om)@, image@, object_space_length as int, object_table_length as int, final(om)@),
        old(om)@.chunks == Seq::new((BIG_SIZE + 1) as nat, |j: int| Seq::<OOP>::empty())
            && old(om)@.heads == Seq::new((BIG_SIZE + 1) as nat, |j: int| NON_PTR)
            ==> final(om)@.alloc_inv(),
{
    let ghost s = image@;
    let ghost a = om@;
    let osl = object_space_length;
    let otl = object_table_length;
    let ghost n = osl as int;
    let ghost t = otl as int;
    let _len = image.len();

    let mut object_space: Vec<OOP> = vec![0u32; OM_SIZE];
    let mut i: usize = 0;
    while i < osl
        invariant
            s == image@,
            n == osl,
            t == otl,
            s.len() <= usize::MAX,
            i <= osl <= OM_SIZE,
            osl == 0 || 512 + 4 * osl <= s.len(),
            object_space@.len() == OM_SIZE,
            forall|j: int| 0 <= j < OM_SIZE ==> #[trigger] object_space@[j] == if j < i { word_at(s, j) } else { 0u32 },
        decreases osl - i,
    {
        let pos = 512 + 4 * i;
        let w = read_u32_be(slice_subrange(image, pos, pos + 4));
        object_space.set(i, w);
        i = i + 1;
    }
    assert(object_space@ =~= loaded_mem(s, n));

    let start = table_offset(osl);
    let mut offsets: Vec<i32> = Vec::new();
    let mut o: usize = 0;
    while o < otl
        invariant
            s == image@,
            n == osl,
            t == otl,
            o <= otl <= OT_SIZE,
            osl <= OM_SIZE,
            start == table_start(n),
            s.len() <= usize::MAX,
            otl == 0 || start + 14 * otl <= s.len(),
            offsets@ == offsets_of(s, n, t, o as int),
        decreases otl - o,
    {
        let p = start + 4 * o;
        offsets.push(read_i32_be(slice_subrange(image, p, p + 4)));
        o = o + 1;
        assert(offsets@ =~= offsets_of(s, n, t, o as int));
    }

    o = 0;
    assert(a.count =~= counts_of(s, n, t, 0, a.count));
    while o < otl
        invariant
            s == image@,
            n == osl,
            t == otl,
            o <= otl <= OT_SIZE,
            start == table_start(n),
            s.len() <= usize::MAX,
            otl == 0 || start + 14 * otl <= s.len(),
            a.wf(),
            om@ == (OMView { count: counts_of(s, n, t, o as int, a.count), ..a }),
        decreases otl - o,
    {
        let b = image[start + 4 * otl + o];
        om.set_count(o as OOP, b as u16);
        o = o + 1;
        assert(om@.count =~= counts_of(s, n, t, o as int, a.count));
    }
    assert(om@.count =~= counts_of(s, n, t, t, a.count));

    o = 0;
    assert(a.rest =~= rests_of(s, n, t, 0, a.rest));
    while o < otl
        invariant
            s == image@,
            n == osl,
            t == otl,
            o <= otl <= OT_SIZE,
            start == table_start(n),
            s.len() <= usize::MAX,
            otl == 0 || start + 14 * otl <= s.len(),
            a.wf(),
            om@ == (OMView { count: counts_of(s, n, t, t, a.count), rest: rests_of(s, n, t, o as int, a.rest), ..a }),
        decreases otl - o,
    {
        let b = image[start + 5 * otl + o];
        om.set_rest(o as OOP, b);
        o = o + 1;
        assert(om@.rest =~= rests_of(s, n, t, o as int, a.rest));
    }
    assert(om@.rest =~= rests_of(s, n, t, t, a.rest));

    o = 0;
    assert(a.size =~= sizes_of(s, n, t, 0, a.size));
    while o < otl
        invariant
            s == image@,
            n == osl,
            t == otl,
            o <= otl <= OT_SIZE,
            start == table_start(n),
            s.len() <= usize::MAX,
            otl == 0 || start + 14 * otl <= s.len(),
            a.wf(),
            om@ == (OMView {
                count: counts_of(s, n, t, t, a.count),
                rest: rests_of(s, n, t, t, a.rest),
                size: sizes_of(s, n, t, o as int, a.size),
                ..a
            }),
        decreases otl - o,
    {
        let p = start + 6 * otl + 4 * o;
        let v = read_i32_be(slice_subrange(image, p, p + 4));
        om.set_size(o as OOP, #[verifier::truncate] (v as usize));
        o = o + 1;
        assert(om@.size =~= sizes_of(s, n, t, o as int, a.size));
    }
    assert(om@.size =~= sizes_of(s, n, t, t, a.size));

    let ghost r = om@;
    proof {
        assert forall|k: OOP| k < OT_SIZE && !r.is_free(k) implies k < offsets@.len() by {
            if k >= otl {
                assert(a.is_free(k));
            }
        }
    }
    om.initialize_object_space(object_space, offsets);
    let ghost r2 = om@;

    o = 0;
    assert(r2.class =~= classes_of(s, n, t, 0, a.class));
    while o < otl
        invariant
            s == image@,
            n == osl,
            t == otl,
            o <= otl <= OT_SIZE,
            start == table_start(n),
            s.len() <= usize::MAX,
            otl == 0 || start + 14 * otl <= s.len(),
            r2.wf(),
            om@ == (OMView { class: classes_of(s, n, t, o as int, a.class), ..r2 }),
        decreases otl - o,
    {
        let p = start + 10 * otl + 4 * o;
        let c = read_u32_be(slice_subrange(image, p, p + 4));
        om.set_class(o as OOP, c);
        o = o + 1;
        assert(om@.class =~= classes_of(s, n, t, o as int, a.class));
    }
    assert(om@.class =~= classes_of(s, n, t, t, a.class));

    let ghost tl = tables_loaded(a, s, n, t);
    proof {
        assert(om@.loc =~= tl.loc);
        assert(om@ == tl);
        if otl < OT_SIZE {
            assert(a.is_free(otl as OOP));
            assert(tl.is_free(otl as OOP));
        } else {
            let k = choose|k: int| 0 <= k < t && has_flag(#[trigger] rest_at(s, n, t, k), REST_FREE);
            assert(tl.rest[k] == rest_at(s, n, t, k));
            assert(tl.is_free(k as OOP));
        }
    }
    om.initialize_free_list();
    let ghost mid = om@;
    proof {
        reveal(OMView::free_list_ok);
        let w: OOP = if otl < OT_SIZE {
            otl as OOP
        } else {
            (choose|k: int| 0 <= k < t && has_flag(#[trigger] rest_at(s, n, t, k), REST_FREE)) as OOP
        };
        if otl < OT_SIZE {
            assert(a.is_free(otl as OOP));
        } else {
            let k = choose|k: int| 0 <= k < t && has_flag(#[trigger] rest_at(s, n, t, k), REST_FREE);
            assert(tl.rest[k] == rest_at(s, n, t, k));
        }
        assert(tl.is_free(w));
        assert(mid.free_oops.contains(w));
        assert(mid.free_oops.len() > 0);
        assert(mid.free_ptr == mid.free_oops[0]);
    }
    om.initialize_free_chunks(osl);
    proof {
        assert(tl.free_list_built(mid));
        if a.chunks == Seq::new((BIG_SIZE + 1) as nat, |j: int| Seq::<OOP>::empty())
            && a.heads == Seq::new((BIG_SIZE + 1) as nat, |j: int| NON_PTR) {
            reveal(OMView::chunks_ok);
            assert(mid.chunks == a.chunks);
            assert(mid.heads == a.heads);
            assert(mid.chunks_ok());
            assert(mid.alloc_inv());
        }
    }
}

/// Reads the header of `image` and loads it, as a Manchester image, into `om`.
pub fn load(image: &[u8], om: &mut OM)
    requires
        load_ok(image@, old(om)@),
    ensures
        manchester_loaded(old(om)@, image@, header_space_length(image@) as int, header_table_length(image@) as int, final(om)@),
        old(om)@.chunks == Seq::new((BIG_SIZE + 1) as nat, |j: int| Seq::<OOP>::empty())
            && old(om)@.heads == Seq::new((BIG_SIZE + 1) as nat, |j: int| NON_PTR)
            ==> final(om)@.alloc_inv(),
{
    let (object_space_length, object_table_length, image_type) = image_header(image);
    if image_type == MANCHESTER2 {
        load_manchester(image, om, object_space_length as usize, object_table_length as usize);
    }
}

/// Whether `image` can be loaded into `om`: its header can be read and
/// names a Manchester image, its object space and object table fit, every
/// entry beyond the table is free in `om`, and some entry will be free.
pub fn loadable(image: &[u8], om: &OM) -> (r: bool)
    requires
        om@.wf(),
    ensures
        r == load_ok(image@, om@),
{
    let len = image.len();
    if len < 10 {
        return false;
    }
    let (osl, otl, image_type) = image_header(image);
    if image_type != MANCHESTER2 {
        return false;
    }
    if osl < 0 || osl as usize > OM_SIZE || otl < 0 || otl as usize > OT_SIZE {
        return false;
    }
    let osl = osl as usize;
    let otl = otl as usize;
    if osl != 0 && 512 + 4 * osl > len {
        return false;
    }
    let start = table_offset(osl);
    if otl != 0 && start + 14 * otl > len {
        return false;
    }
    if om.oops_left > usize::MAX - OT_SIZE {
        return false;
    }
    let mut o: usize = otl;
    while o < OT_SIZE && om.is_free(o as OOP)
        invariant
            otl <= o <= OT_SIZE,
            om@.wf(),
            forall|k: OOP| otl <= k < o ==> #[trigger] om@.is_free(k),
        decreases OT_SIZE - o,
    {
        o = o + 1;
    }
    if o < OT_SIZE {
        assert(!om@.is_free(o as OOP));
        return false;
    }
    if otl < OT_SIZE {
        return true;
    }
    let ghost s = image@;
    let ghost n = osl as int;
    let ghost t = otl as int;
    o = 0;
    while o < otl && image[start + 5 * otl + o] & REST_FREE == 0
        invariant
            s == image@,
            len == s.len(),
            n == osl,
            t == otl,
            o <= otl,
            start == table_start(n),
            otl == 0 || start + 14 * otl <= len,
            forall|k: int| 0 <= k < o ==> !has_flag(#[trigger] rest_at(s, n, t, k), REST_FREE),
        decreases otl - o,
    {
        o = o + 1;
    }
    if o < otl {
        assert(has_flag(rest_at(s, n, t, o as int), REST_FREE));
        return true;
    }
    false
}

} // verus!
