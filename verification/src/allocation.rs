//! Allocation of new objects, with a garbage collection when no free chunk fits.
use vstd::prelude::*;
use crate::std_ptrs::{OOP, NIL_PTR};
use crate::om::{OM, OMView, OT_SIZE, BIG_SIZE, NON_PTR, REST_PTRS, word_size, to_word_size, counted_spec, lemma_chunks_linked};
use crate::gc::{lemma_dead_chunks_below, lemma_dead_bitmaps_below};

verus! {

/// `mem` with the `n` words from `a` set to `v`.
pub open spec fn filled(mem: Seq<OOP>, a: int, n: int, v: OOP) -> Seq<OOP> {
    Seq::new(mem.len(), |i: int| if a <= i < a + n { v } else { mem[i] })
}

impl OMView {
    /// A chunk of exactly `w` words waits at the head of its own list.
    pub open spec fn fast_fit(self, w: int) -> bool {
        &&& w < BIG_SIZE
        &&& self.chunks[w].len() > 0
    }

    /// No free chunk serves `w` words without a collection.
    pub open spec fn gc_needed(self, w: int) -> bool {
        !self.fast_fit(w) && self.attempt_fails(w)
    }

    /// The free lists a collection leaves.
    pub open spec fn after_gc_lists(self) -> OMView {
        let mv = self.marked_view();
        let fl = mv.dead_bitmaps(OT_SIZE as int) + self.free_oops;
        OMView {
            chunks: Seq::new((BIG_SIZE + 1) as nat, |j: int| mv.dead_chunks(j, OT_SIZE as int)),
            free_oops: fl,
            free_ptr: if fl.len() == 0 { NON_PTR } else { fl[0] },
            ..self
        }
    }

    /// An allocation of `nbytes` bytes succeeds: a chunk fits, or one fits
    /// after a collection that can run.
    pub open spec fn alloc_ok(self, nbytes: int) -> bool {
        &&& self.alloc_inv()
        &&& nbytes + 4 <= usize::MAX
        &&& self.gc_needed(word_size(nbytes)) ==> self.gc_ready() && !self.after_gc_lists().attempt_fails(word_size(nbytes))
    }

    /// What allocating `nbytes` bytes in `self` leaves in `c`, handing out `r`.
    pub open spec fn alloc_post(self, c: OMView, r: OOP, nbytes: int) -> bool {
        let w = word_size(nbytes);
        &&& c.alloc_inv()
        &&& c.fresh_body(r, w)
        &&& c.mem == self.mem
        &&& c.active_context == self.active_context
        &&& c.oops_left == self.oops_left
        &&& forall|o: OOP| o < OT_SIZE && self.has_addr(o) && !self.is_bitmap(o) ==> #[trigger] c.loc[o as int] == self.loc[o as int]
        &&& forall|o: OOP| o < OT_SIZE && o != r && !self.in_chunks(o) && !self.free_oops.contains(o)
            && !(self.gc_needed(w) && self.marked_view().dead(o)) ==> {
            &&& #[trigger] c.loc[o as int] == self.loc[o as int]
            &&& c.rest[o as int] == self.rest[o as int]
            &&& c.size[o as int] == self.size[o as int]
            &&& c.class[o as int] == self.class[o as int]
        }
        &&& !self.gc_needed(w) ==> forall|o: OOP| o < OT_SIZE ==> #[trigger] c.count[o as int] == self.count[o as int] || (self.free_oops.contains(o) && c.count[o as int] == 0)
        &&& self.gc_needed(w) ==> forall|o: OOP| o < OT_SIZE ==> #[trigger] c.count[o as int] == self.marked_view().rectified_count(o) || c.count[o as int] == 0
        &&& !self.gc_needed(w) ==> self.in_chunks(r)
        &&& self.fast_fit(w) ==> r == self.chunks[w][0] && c == self.head_taken(w)
        &&& !self.fast_fit(w) && !self.gc_needed(w) ==> self.big_alloc_post(c, r, nbytes)
        &&& self.gc_needed(w) ==> exists|g: OMView| #[trigger] self.marked_view().rectified(g) && g.big_alloc_post(c, r, nbytes)
    }
}

proof fn lemma_attempt_fails_same(x: OMView, y: OMView, w: int)
    requires
        x.chunks[BIG_SIZE as int] == y.chunks[BIG_SIZE as int],
        x.size == y.size,
        x.free_ptr == y.free_ptr,
    ensures
        x.attempt_fails(w) == y.attempt_fails(w),
{
    let big = BIG_SIZE as int;
    assert forall|o: OOP| #[trigger] x.avail(o) == y.avail(o) by {}
    if x.no_fit(w) {
        assert forall|i: int| 0 <= i < y.chunks[big].len() implies #[trigger] y.avail(y.chunks[big][i]) < w by {
            assert(x.avail(x.chunks[big][i]) < w);
        }
    }
    if y.no_fit(w) {
        assert forall|i: int| 0 <= i < x.chunks[big].len() implies #[trigger] x.avail(x.chunks[big][i]) < w by {
            assert(y.avail(y.chunks[big][i]) < w);
        }
    }
    if exists|k: int| #[trigger] x.first_fit(w, k) && x.avail(x.chunks[BIG_SIZE as int][k]) > w && x.free_ptr == NON_PTR {
        let k = choose|k: int| #[trigger] x.first_fit(w, k) && x.avail(x.chunks[BIG_SIZE as int][k]) > w && x.free_ptr == NON_PTR;
        assert forall|i: int| 0 <= i < k implies #[trigger] y.avail(y.chunks[big][i]) < w by {
            assert(x.avail(x.chunks[big][i]) < w);
        }
        assert(y.first_fit(w, k));
    }
    if exists|k: int| #[trigger] y.first_fit(w, k) && y.avail(y.chunks[BIG_SIZE as int][k]) > w && y.free_ptr == NON_PTR {
        let k = choose|k: int| #[trigger] y.first_fit(w, k) && y.avail(y.chunks[BIG_SIZE as int][k]) > w && y.free_ptr == NON_PTR;
        assert forall|i: int| 0 <= i < k implies #[trigger] x.avail(x.chunks[big][i]) < w by {
            assert(y.avail(y.chunks[big][i]) < w);
        }
        assert(x.first_fit(w, k));
    }
}

proof fn lemma_alloc_post_intro(a: OMView, c: OMView, r: OOP, nbytes: int)
    requires
        c.alloc_inv(),
        c.fresh_body(r, word_size(nbytes)),
        c.mem == a.mem,
        c.active_context == a.active_context,
        c.oops_left == a.oops_left,
        forall|o: OOP| o < OT_SIZE && a.has_addr(o) && !a.is_bitmap(o) ==> #[trigger] c.loc[o as int] == a.loc[o as int],
        forall|o: OOP| o < OT_SIZE && o != r && !a.in_chunks(o) && !a.free_oops.contains(o)
            && !(a.gc_needed(word_size(nbytes)) && a.marked_view().dead(o)) ==> {
            &&& #[trigger] c.loc[o as int] == a.loc[o as int]
            &&& c.rest[o as int] == a.rest[o as int]
            &&& c.size[o as int] == a.size[o as int]
            &&& c.class[o as int] == a.class[o as int]
        },
        !a.gc_needed(word_size(nbytes)) ==> forall|o: OOP| o < OT_SIZE ==> #[trigger] c.count[o as int] == a.count[o as int] || (a.free_oops.contains(o) && c.count[o as int] == 0),
        a.gc_needed(word_size(nbytes)) ==> forall|o: OOP| o < OT_SIZE ==> #[trigger] c.count[o as int] == a.marked_view().rectified_count(o) || c.count[o as int] == 0,
        !a.gc_needed(word_size(nbytes)) ==> a.in_chunks(r),
        a.fast_fit(word_size(nbytes)) ==> r == a.chunks[word_size(nbytes)][0] && c == a.head_taken(word_size(nbytes)),
        !a.fast_fit(word_size(nbytes)) && !a.gc_needed(word_size(nbytes)) ==> a.big_alloc_post(c, r, nbytes),
        a.gc_needed(word_size(nbytes)) ==> exists|g: OMView| #[trigger] a.marked_view().rectified(g) && g.big_alloc_post(c, r, nbytes),
    ensures
        a.alloc_post(c, r, nbytes),
{
}

/// Taking the head off list `j` keeps the lists well formed.
proof fn lemma_chunks_pop(a: OMView, c: OMView, j: int)
    requires
        a.alloc_inv(),
        0 <= j <= BIG_SIZE,
        a.chunks[j].len() > 0,
        c == (OMView {
            heads: a.heads.update(j, a.chunk_next(j, 0)),
            chunks: a.chunks.update(j, a.chunks[j].drop_first()),
            ..a
        }),
    ensures
        c.alloc_inv(),
        !c.in_chunks(a.chunks[j][0]),
        forall|o: OOP| #[trigger] c.in_chunks(o) ==> a.in_chunks(o),
{
    reveal(OMView::chunks_ok);
    reveal(OMView::free_list_ok);
    let f = a.chunks[j][0];
    assert forall|jj: int, i: int| 0 <= jj <= BIG_SIZE && 0 <= i < c.chunks[jj].len() implies {
        &&& c.chunk_node_ok(#[trigger] c.chunks[jj][i], jj)
        &&& c.class[c.chunks[jj][i] as int] == c.chunk_next(jj, i)
    } by {
        let ai = if jj == j { i + 1 } else { i };
        assert(c.chunks[jj][i] == a.chunks[jj][ai]);
        assert(a.chunk_node_ok(a.chunks[jj][ai], jj));
    }
    assert forall|j1: int, k1: int, j2: int, k2: int|
        0 <= j1 <= BIG_SIZE && 0 <= j2 <= BIG_SIZE && 0 <= k1 < c.chunks[j1].len() && 0 <= k2 < c.chunks[j2].len()
        && #[trigger] c.chunks[j1][k1] == #[trigger] c.chunks[j2][k2] implies j1 == j2 && k1 == k2 by {
        let a1 = if j1 == j { k1 + 1 } else { k1 };
        let a2 = if j2 == j { k2 + 1 } else { k2 };
        assert(c.chunks[j1][k1] == a.chunks[j1][a1]);
        assert(c.chunks[j2][k2] == a.chunks[j2][a2]);
    }
    assert forall|jj: int| 0 <= jj <= BIG_SIZE implies #[trigger] c.heads[jj] == (if c.chunks[jj].len() == 0 { NON_PTR } else { c.chunks[jj][0] }) by {
        if jj == j && c.chunks[jj].len() > 0 {
            assert(c.chunks[j][0] == a.chunks[j][1]);
        }
    }
    assert forall|o: OOP| #[trigger] c.in_chunks(o) implies a.in_chunks(o) && o != f by {
        let (jj, i) = choose|jj: int, i: int| 0 <= jj <= BIG_SIZE && 0 <= i < c.chunks[jj].len() && #[trigger] c.chunks[jj][i] == o;
        let ai = if jj == j { i + 1 } else { i };
        assert(a.chunks[jj][ai] == o);
        if o == f {
            assert(a.chunks[j][0] == a.chunks[jj][ai]);
        }
    }
}

impl OM {
    /// Hands out the head of the list of chunks of `wsize` words.
    fn take_head(&mut self, wsize: usize, nbytes: usize) -> (r: OOP)
        requires
            old(self)@.lists_linked(),
            wsize == word_size(nbytes as int),
            old(self)@.fast_fit(wsize as int),
            nbytes + 4 <= usize::MAX,
        ensures
            r == old(self)@.chunks[wsize as int][0],
            final(self)@ == old(self)@.head_taken(wsize as int),
            old(self)@.alloc_inv() ==> old(self)@.alloc_post(final(self)@, r, nbytes as int),
    {
        let ghost a = self@;
        let ghost w = wsize as int;
        let oop = self.fcl_heads[wsize];
        proof {
            assert(a.heads[w] == a.chunks[w][0]);
            assert(a.chunks[w][0] < OT_SIZE);
        }
        let next = self.get_free_chunk_next(oop);
        self.fcl_heads.set(wsize, next);
        self.chunk_lists = Ghost(self.chunk_lists@.update(wsize as int, self.chunk_lists@[wsize as int].drop_first()));
        proof {
            assert(self@ == a.head_taken(w));
            if a.alloc_inv() {
                reveal(OMView::chunks_ok);
                assert(a.chunk_node_ok(oop, w));
                lemma_chunks_pop(a, self@, w);
                crate::om::lemma_chunk_not_free(a, oop, w);
                assert(!self@.free_oops.contains(oop));
                assert(!a.gc_needed(w));
                let c = self@;
                assert forall|o: OOP| o < OT_SIZE implies #[trigger] c.count[o as int] == a.count[o as int] || (a.free_oops.contains(o) && c.count[o as int] == 0) by {
                }
                assert(a.alloc_post(c, oop, nbytes as int));
            }
        }
        oop
    }

    /// Collects garbage, then takes a big chunk.
    #[verifier::rlimit(50)]
    fn collect_and_alloc(&mut self, nbytes: usize) -> (r: OOP)
        requires
            old(self)@.alloc_ok(nbytes as int),
            old(self)@.gc_needed(word_size(nbytes as int)),
        ensures
            old(self)@.alloc_post(final(self)@, r, nbytes as int),
    {
        let ghost a = self@;
        let ghost w = word_size(nbytes as int);
        self.reclaim();
        let ghost post = self@;
        proof {
            reveal(OMView::free_list_ok);
            let v = a.after_gc_lists();
            assert(post.chunks =~= v.chunks);
            assert(post.free_oops == v.free_oops);
            assert(post.free_ptr == v.free_ptr);
            assert(post.size == v.size);
            assert(post.chunks[BIG_SIZE as int] == v.chunks[BIG_SIZE as int]);
            lemma_attempt_fails_same(post, v, w);
        }
        let mut oop = self.attempt_to_alloc(nbytes);
        if oop == NON_PTR {
            oop = self.attempt_to_alloc(nbytes);
        }
        proof {
            reveal(OMView::free_list_ok);
            let c = self@;
            let mv = a.marked_view();
            assert forall|o: OOP| o < OT_SIZE && a.has_addr(o) && !a.is_bitmap(o) implies #[trigger] c.loc[o as int] == a.loc[o as int] by {
                assert(mv.loc[o as int] == a.loc[o as int]);
                assert(post.loc[o as int] == a.loc[o as int]);
                if post.free_oops.contains(o) {
                    let k = choose|k: int| 0 <= k < post.free_oops.len() && post.free_oops[k] == o;
                    lemma_dead_bitmaps_below(mv, OT_SIZE as int);
                    let nb = mv.dead_bitmaps(OT_SIZE as int).len();
                    if k < nb {
                        assert(post.free_oops[k] == mv.dead_bitmaps(OT_SIZE as int)[k]);
                    } else {
                        assert(post.free_oops[k] == a.free_oops[k - nb]);
                        assert(a.loc[a.free_oops[k - nb] as int] is Index);
                    }
                }
            }
            assert forall|o: OOP| o < OT_SIZE && o != oop && !a.in_chunks(o) && !a.free_oops.contains(o)
                && !(a.gc_needed(w) && mv.dead(o)) implies {
                &&& #[trigger] c.loc[o as int] == a.loc[o as int]
                &&& c.rest[o as int] == a.rest[o as int]
                &&& c.size[o as int] == a.size[o as int]
                &&& c.class[o as int] == a.class[o as int]
            } by {
                assert(!post.in_chunks(o)) by {
                    if post.in_chunks(o) {
                        let (j, k) = choose|j: int, k: int| 0 <= j <= BIG_SIZE && 0 <= k < post.chunks[j].len() && #[trigger] post.chunks[j][k] == o;
                        lemma_dead_chunks_below(mv, j, OT_SIZE as int);
                        assert(post.chunks[j] == mv.dead_chunks(j, OT_SIZE as int));
                    }
                }
                assert(!post.free_oops.contains(o)) by {
                    if post.free_oops.contains(o) {
                        let k = choose|k: int| 0 <= k < post.free_oops.len() && post.free_oops[k] == o;
                        lemma_dead_bitmaps_below(mv, OT_SIZE as int);
                        let nb = mv.dead_bitmaps(OT_SIZE as int).len();
                        if k < nb {
                            assert(post.free_oops[k] == mv.dead_bitmaps(OT_SIZE as int)[k]);
                        } else {
                            assert(post.free_oops[k] == a.free_oops[k - nb]);
                        }
                    }
                }
                assert(c.same_entry(post, o as int));
                assert(post.loc[o as int] == mv.loc[o as int]);
                assert(post.class[o as int] == mv.class[o as int]);
            }
            assert forall|o: OOP| o < OT_SIZE implies #[trigger] c.count[o as int] == mv.rectified_count(o) || c.count[o as int] == 0 by {
                assert(post.count[o as int] == mv.rectified_count(o));
            }
        }
        oop
    }

    /// Finds a body of `nbytes` bytes: from the list of chunks of that size,
    /// else from the big chunks, else after collecting garbage.
    fn alloc_space(&mut self, nbytes: usize) -> (r: OOP)
        requires
            nbytes + 4 <= usize::MAX,
            old(self)@.lists_linked(),
            !old(self)@.fast_fit(word_size(nbytes as int)) ==> old(self)@.alloc_ok(nbytes as int),
        ensures
            old(self)@.fast_fit(word_size(nbytes as int)) ==> {
                &&& r == old(self)@.chunks[word_size(nbytes as int)][0]
                &&& final(self)@ == old(self)@.head_taken(word_size(nbytes as int))
            },
            old(self)@.alloc_ok(nbytes as int) ==> old(self)@.alloc_post(final(self)@, r, nbytes as int),
    {
        let ghost a = self@;
        let ghost w = word_size(nbytes as int);
        let mut oop;
        let wsize = to_word_size(nbytes);
        if wsize < BIG_SIZE {
            oop = self.fcl_heads[wsize];
            if oop != NON_PTR {
                proof {
                    assert(a.fast_fit(w));
                }
                return self.take_head(wsize, nbytes);
            }
        }
        proof {
            assert(!a.fast_fit(w));
        }
        oop = self.attempt_to_alloc(nbytes);
        if oop == NON_PTR {
            oop = self.attempt_to_alloc(nbytes);
            if oop == NON_PTR {
                proof {
                    assert(a.gc_needed(w));
                }
                return self.collect_and_alloc(nbytes);
            }
        }
        proof {
            let c = self@;
            assert(!a.gc_needed(w));
            assert forall|o: OOP| o < OT_SIZE && a.has_addr(o) && !a.is_bitmap(o) implies #[trigger] c.loc[o as int] == a.loc[o as int] by {
                reveal(OMView::free_list_ok);
                if a.free_oops.contains(o) {
                    let k = choose|k: int| 0 <= k < a.free_oops.len() && a.free_oops[k] == o;
                }
            }
            assert forall|o: OOP| o < OT_SIZE && o != oop && !a.in_chunks(o) && !a.free_oops.contains(o) implies {
                &&& #[trigger] c.loc[o as int] == a.loc[o as int]
                &&& c.rest[o as int] == a.rest[o as int]
                &&& c.size[o as int] == a.size[o as int]
                &&& c.class[o as int] == a.class[o as int]
            } by {
                assert(c.same_entry(a, o as int));
            }
            assert forall|o: OOP| o < OT_SIZE implies #[trigger] c.count[o as int] == a.count[o as int] || (a.free_oops.contains(o) && c.count[o as int] == 0) by {
            }
            assert(a.gc_needed(w) ==> forall|o: OOP| o < OT_SIZE ==> #[trigger] c.count[o as int] == a.marked_view().rectified_count(o) || c.count[o as int] == 0);
            assert(c.alloc_inv());
            assert(c.fresh_body(oop, w));
            assert(c.mem == a.mem);
            lemma_alloc_post_intro(a, c, oop, nbytes as int);
        }
        oop
    }
}


impl OMView {
    /// `self` once `r` is set up as an object of `nbytes` bytes of class `class`,
    /// its words all nil (pointers) or zero.
    pub open spec fn init_spec(self, r: OOP, nbytes: int, ptrs: bool, class: OOP) -> OMView {
        let c = self.inc_ref_spec(class);
        OMView {
            rest: c.rest.update(r as int, if ptrs { REST_PTRS } else { 0u8 }),
            class: c.class.update(r as int, class),
            size: c.size.update(r as int, nbytes as i32),
            mem: filled(c.mem, c.addr_of(r) as int, word_size(nbytes), if ptrs { NIL_PTR } else { 0u32 }),
            ..c
        }
    }

    /// The class's count has room for one more reference after the allocation.
    pub open spec fn class_inc_ok(self, nbytes: int, class: OOP) -> bool {
        &&& !self.gc_needed(word_size(nbytes)) ==> self.can_inc(class)
        &&& self.gc_needed(word_size(nbytes)) && counted_spec(class) ==> self.marked_view().rectified_count(class) < u16::MAX
    }

    /// What allocating and setting up an object leaves in `c`.
    pub open spec fn allocate_post(self, c: OMView, r: OOP, nbytes: int, ptrs: bool, class: OOP) -> bool {
        &&& c.alloc_inv()
        &&& c.fresh_body(r, word_size(nbytes))
        &&& c.rest[r as int] == (if ptrs { REST_PTRS } else { 0u8 })
        &&& c.class[r as int] == class
        &&& c.size[r as int] == nbytes as i32
        &&& c.mem == filled(self.mem, c.addr_of(r) as int, word_size(nbytes), if ptrs { NIL_PTR } else { 0u32 })
        &&& c.active_context == self.active_context
        &&& !self.gc_needed(word_size(nbytes)) ==> self.in_chunks(r)
        &&& forall|o: OOP| o < OT_SIZE && self.has_addr(o) && !self.is_bitmap(o) ==> #[trigger] c.loc[o as int] == self.loc[o as int]
        &&& exists|mid: OMView| #[trigger] self.alloc_post(mid, r, nbytes) && c == mid.init_spec(r, nbytes, ptrs, class)
    }
}

/// Changing an entry in no free list, and the words of the object space,
/// keeps the free lists well formed.
proof fn lemma_alloc_inv_entry(a: OMView, c: OMView, r: OOP)
    requires
        a.alloc_inv(),
        !a.in_chunks(r),
        !a.free_oops.contains(r),
        c.wf(),
        c.mem.len() == a.mem.len(),
        c.loc == a.loc,
        c.heads == a.heads,
        c.chunks == a.chunks,
        c.free_oops == a.free_oops,
        c.free_ptr == a.free_ptr,
        forall|o: int| 0 <= o < OT_SIZE && o != r ==> c.rest[o] == a.rest[o] && c.size[o] == a.size[o] && c.class[o] == a.class[o],
    ensures
        c.alloc_inv(),
{
    reveal(OMView::chunks_ok);
    reveal(OMView::free_list_ok);
    assert forall|j: int, k: int| 0 <= j <= BIG_SIZE && 0 <= k < c.chunks[j].len() implies {
        &&& c.chunk_node_ok(#[trigger] c.chunks[j][k], j)
        &&& c.class[c.chunks[j][k] as int] == c.chunk_next(j, k)
    } by {
        assert(a.chunk_node_ok(a.chunks[j][k], j));
        assert(a.chunks[j][k] != r);
    }
    crate::om::lemma_free_list_kept(a, c);
}

impl OM {
    /// Sets up `oop` as an object of `nbytes` bytes of class `class`, its
    /// words all nil (pointers) or zero.
    fn init(&mut self, oop: OOP, nbytes: usize, ptrs: bool, class: OOP)
        requires
            old(self)@.wf(),
            oop < OT_SIZE,
            old(self)@.has_addr(oop),
            old(self)@.addr_of(oop) + word_size(nbytes as int) <= old(self)@.mem.len(),
            old(self)@.can_inc(class),
            nbytes + 4 <= usize::MAX,
        ensures
            final(self)@ == old(self)@.init_spec(oop, nbytes as int, ptrs, class),
    {
        self.inc_ref(class);
        self.set_rest(oop, if ptrs { REST_PTRS } else { 0 });
        self.set_class(oop, class);
        self.set_size(oop, nbytes);
        let default_entry = if ptrs { NIL_PTR } else { 0 };
        let wsize = (nbytes + 4 - 1) / 4;
        let slots = self.location_addr(oop);
        let ghost b = self@;
        let mlen = self.object_space.len();
        let mut i: usize = 0;
        while i < wsize
            invariant
                mlen == b.mem.len(),
                0 <= i <= wsize,
                wsize == word_size(nbytes as int),
                slots == b.addr_of(oop),
                slots + wsize <= b.mem.len(),
                self@ == (OMView { mem: self@.mem, ..b }),
                self@.mem == filled(b.mem, slots as int, i as int, default_entry),
            decreases wsize - i,
        {
            self.object_space.set(slots + i, default_entry);
            proof {
                assert(self@.mem =~= filled(b.mem, slots as int, i as int + 1, default_entry));
            }
            i = i + 1;
        }
        proof {
            assert(self@.mem =~= old(self)@.init_spec(oop, nbytes as int, ptrs, class).mem);
        }
    }

    /// Allocates an object of `nbytes` bytes of class `class`.
    fn allocate(&mut self, nbytes: usize, ptrs: bool, class: OOP) -> (r: OOP)
        requires
            old(self)@.alloc_ok(nbytes as int),
            old(self)@.class_inc_ok(nbytes as int, class),
        ensures
            old(self)@.allocate_post(final(self)@, r, nbytes as int, ptrs, class),
    {
        let ghost a = self@;
        proof {
            lemma_chunks_linked(a);
        }
        let oop = self.alloc_space(nbytes);
        let ghost mid = self@;
        proof {
            if counted_spec(class) {
                if !a.gc_needed(word_size(nbytes as int)) {
                    assert(mid.count[class as int] == a.count[class as int] || mid.count[class as int] == 0);
                } else {
                    assert(mid.count[class as int] == a.marked_view().rectified_count(class) || mid.count[class as int] == 0);
                }
            }
        }
        self.init(oop, nbytes, ptrs, class);
        proof {
            let c = self@;
            lemma_alloc_inv_entry(mid, c, oop);
            assert(c.mem =~= filled(a.mem, c.addr_of(oop) as int, word_size(nbytes as int), if ptrs { NIL_PTR } else { 0u32 }));
        }
        oop
    }

    /// Allocates an object of class `class` with `len` pointer words.
    pub fn inst_ptrs(&mut self, class: OOP, len: usize) -> (r: OOP)
        requires
            len * 4 + 4 <= usize::MAX,
            old(self)@.alloc_ok(len * 4),
            old(self)@.class_inc_ok(len * 4, class),
        ensures
            old(self)@.allocate_post(final(self)@, r, len * 4, true, class),
    {
        self.allocate(len * 4, true, class)
    }
}
} // verus!
