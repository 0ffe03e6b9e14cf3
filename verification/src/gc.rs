//! The garbage collector: marking from the roots, then rebuilding the
//! reference counts and the free lists.
use vstd::prelude::*;
use crate::std_ptrs::{OOP, CLASS_COMPILED_METHOD, SYSTEM_DICTIONARY, UNUSED_PTR, NIL_PTR, LAST_REF_COUNTED_OOP};
use crate::om::{OM, OMView, OT_SIZE, BIG_SIZE, NON_PTR, SATURATED, is_int, is_int_spec, counted_spec, for_every_oop};

verus! {

/// The number of zero counts.
pub open spec fn zeros(s: Seq<u16>) -> nat
    decreases s.len(),
{
    if s.len() == 0 {
        0
    } else {
        zeros(s.drop_last()) + if s.last() == 0 { 1nat } else { 0nat }
    }
}

proof fn lemma_zeros_mono(s: Seq<u16>, t: Seq<u16>)
    requires
        s.len() == t.len(),
        forall|i: int| 0 <= i < t.len() && t[i] == 0 ==> s[i] == 0,
    ensures
        zeros(t) <= zeros(s),
    decreases s.len(),
{
    if s.len() > 0 {
        lemma_zeros_mono(s.drop_last(), t.drop_last());
    }
}

proof fn lemma_zeros_mark(s: Seq<u16>, i: int, v: u16)
    requires
        0 <= i < s.len(),
        s[i] == 0,
        v != 0,
    ensures
        zeros(s.update(i, v)) + 1 == zeros(s),
    decreases s.len(),
{
    if i == s.len() - 1 {
        assert(s.update(i, v).drop_last() =~= s.drop_last());
    } else {
        lemma_zeros_mark(s.drop_last(), i, v);
        assert(s.update(i, v).drop_last() =~= s.drop_last().update(i, v));
    }
}

impl OMView {
    /// How many leading words of `o` hold pointers.
    pub open spec fn pointer_words(self, o: OOP) -> int {
        if self.is_ptrs(o) {
            (self.size_of(o) / 4) as int
        } else if self.class[o as int] == CLASS_COMPILED_METHOD {
            (self.field(o, 0) % 64) as int + 1
        } else {
            0
        }
    }

    /// The entry and its pointer words can be read.
    pub open spec fn body_ok(self, o: OOP) -> bool {
        &&& o < OT_SIZE
        &&& self.has_addr(o)
        &&& (!self.is_ptrs(o) && self.class[o as int] == CLASS_COMPILED_METHOD ==> self.addr_of(o) < self.mem.len())
        &&& self.addr_of(o) + self.pointer_words(o) <= self.mem.len()
    }

    /// `c` is held by `o`: it is its class, or one of its pointer words
    /// that is no small integer.
    pub open spec fn points_to(self, o: OOP, c: OOP) -> bool {
        ||| c == self.class[o as int]
        ||| exists|k: int| 0 <= k < self.pointer_words(o) && !is_int_spec(#[trigger] self.field(o, k)) && self.field(o, k) == c
    }

    /// Every member of `s` can be read, and what it holds is in `s`.
    pub open spec fn closed(self, s: Set<OOP>) -> bool {
        forall|o: OOP| #[trigger] s.contains(o) ==> {
            &&& self.body_ok(o)
            &&& s.contains(self.class[o as int])
            &&& forall|k: int| 0 <= k < self.pointer_words(o) && !is_int_spec(#[trigger] self.field(o, k)) ==> s.contains(self.field(o, k))
        }
    }

    pub open spec fn is_path(self, p: Seq<OOP>) -> bool {
        &&& p.len() >= 1
        &&& forall|i: int| 0 <= i < p.len() - 1 ==> #[trigger] self.points_to(p[i], p[i + 1])
    }

    pub open spec fn reaches(self, a: OOP, b: OOP) -> bool {
        exists|p: Seq<OOP>| #[trigger] self.is_path(p) && p[0] == a && p.last() == b
    }

    /// Reachable from the system dictionary or from the active context.
    pub open spec fn live(self, o: OOP) -> bool {
        self.reaches(SYSTEM_DICTIONARY, o) || self.reaches(self.active_context, o)
    }

    /// A closed set holds both roots.
    pub open spec fn gc_roots_ok(self, s: Set<OOP>) -> bool {
        &&& self.closed(s)
        &&& s.contains(SYSTEM_DICTIONARY)
        &&& s.contains(self.active_context)
    }

    pub open spec fn children_marked(self, o: OOP) -> bool {
        &&& self.count[self.class[o as int] as int] != 0
        &&& forall|k: int| 0 <= k < self.pointer_words(o) && !is_int_spec(#[trigger] self.field(o, k)) ==> self.count[self.field(o, k) as int] != 0
    }

    /// `other` differs from `self` in the counts alone.
    pub open spec fn same_graph(self, other: OMView) -> bool {
        other == (OMView { count: other.count, ..self })
    }

    /// From `self` to `other` marks are only added, as the count 2.
    pub open spec fn marks_grow(self, other: OMView) -> bool {
        forall|o: int| 0 <= o < OT_SIZE ==> {
            &&& (self.count[o] != 0 ==> #[trigger] other.count[o] == self.count[o])
            &&& (self.count[o] == 0 ==> other.count[o] == 0 || other.count[o] == 2)
        }
    }

    pub open spec fn newly_marked(self, other: OMView, o: OOP) -> bool {
        &&& o < OT_SIZE
        &&& self.count[o as int] == 0
        &&& other.count[o as int] != 0
    }
}

proof fn lemma_reaches_self(v: OMView, a: OOP)
    ensures
        v.reaches(a, a),
{
    let p = seq![a];
    assert(v.is_path(p));
}

proof fn lemma_reaches_step(v: OMView, a: OOP, c: OOP, b: OOP)
    requires
        v.points_to(a, c),
        v.reaches(c, b),
    ensures
        v.reaches(a, b),
{
    let p = choose|p: Seq<OOP>| #[trigger] v.is_path(p) && p[0] == c && p.last() == b;
    let q = seq![a] + p;
    assert forall|i: int| 0 <= i < q.len() - 1 implies #[trigger] v.points_to(q[i], q[i + 1]) by {
        if i == 0 {
            assert(q[0] == a);
            assert(q[1] == p[0]);
        } else {
            let j = i - 1;
            assert(q[i] == p[j]);
            assert(q[i + 1] == p[j + 1]);
            assert(v.points_to(p[j], p[j + 1]));
        }
    }
    assert(v.is_path(q));
}

proof fn lemma_reaches_graph(v: OMView, w: OMView, a: OOP, b: OOP)
    requires
        v.same_graph(w),
        v.reaches(a, b),
    ensures
        w.reaches(a, b),
{
    let p = choose|p: Seq<OOP>| #[trigger] v.is_path(p) && p[0] == a && p.last() == b;
    assert forall|i: int| 0 <= i < p.len() - 1 implies #[trigger] w.points_to(p[i], p[i + 1]) by {
        assert(v.points_to(p[i], p[i + 1]));
        if p[i + 1] != v.class[p[i] as int] {
            let k = choose|k: int| 0 <= k < v.pointer_words(p[i]) && !is_int_spec(#[trigger] v.field(p[i], k)) && v.field(p[i], k) == p[i + 1];
            assert(w.field(p[i], k) == v.field(p[i], k));
        }
    }
    assert(w.is_path(p));
}

proof fn lemma_closed_graph(v: OMView, w: OMView, s: Set<OOP>)
    requires
        v.same_graph(w),
        v.closed(s),
    ensures
        w.closed(s),
{
    assert forall|o: OOP| #[trigger] s.contains(o) implies {
        &&& w.body_ok(o)
        &&& s.contains(w.class[o as int])
        &&& forall|k: int| 0 <= k < w.pointer_words(o) && !is_int_spec(#[trigger] w.field(o, k)) ==> s.contains(w.field(o, k))
    } by {
        assert(w.pointer_words(o) == v.pointer_words(o));
        assert forall|k: int| 0 <= k < w.pointer_words(o) && !is_int_spec(#[trigger] w.field(o, k)) implies s.contains(w.field(o, k)) by {
            assert(w.field(o, k) == v.field(o, k));
        }
    }
}

/// Marking what `child` reaches, after marking from `root`, keeps every
/// newly marked entry reachable from `root` with its children marked.
proof fn lemma_after_child(a: OMView, b: OMView, c: OMView, root: OOP, child: OOP, s: Set<OOP>)
    requires
        a.same_graph(b),
        b.same_graph(c),
        a.marks_grow(b),
        b.marks_grow(c),
        a.points_to(root, child),
        a.closed(s),
        forall|o: OOP| #[trigger] a.newly_marked(b, o) ==> b.children_marked(o) && s.contains(o) && a.reaches(root, o),
        forall|o: OOP| #[trigger] b.newly_marked(c, o) ==> c.children_marked(o) && s.contains(o) && b.reaches(child, o),
    ensures
        a.same_graph(c),
        a.marks_grow(c),
        forall|o: OOP| #[trigger] a.newly_marked(c, o) ==> c.children_marked(o) && s.contains(o) && a.reaches(root, o),
{
    assert forall|o: OOP| #[trigger] a.newly_marked(c, o) implies c.children_marked(o) && s.contains(o) && a.reaches(root, o) by {
        if a.newly_marked(b, o) {
            assert(b.children_marked(o));
            assert(s.contains(a.class[o as int]));
            assert(a.body_ok(a.class[o as int]));
            assert(c.count[c.class[o as int] as int] != 0) by {
                assert(b.count[b.class[o as int] as int] != 0);
            }
            assert forall|k: int| 0 <= k < c.pointer_words(o) && !is_int_spec(#[trigger] c.field(o, k)) implies c.count[c.field(o, k) as int] != 0 by {
                assert(b.field(o, k) == c.field(o, k));
                assert(a.field(o, k) == c.field(o, k));
                assert(b.pointer_words(o) == c.pointer_words(o));
                assert(a.pointer_words(o) == c.pointer_words(o));
                assert(s.contains(a.field(o, k)));
                assert(a.body_ok(a.field(o, k)));
                assert(b.count[b.field(o, k) as int] != 0);
            }
        } else {
            assert(b.newly_marked(c, o));
            lemma_reaches_graph(b, a, child, o);
            lemma_reaches_step(a, root, child, o);
        }
    }
}

impl OM {
    fn unmark(&mut self, oop: OOP)
        requires
            old(self)@.wf(),
            oop < OT_SIZE,
        ensures
            final(self)@ == old(self)@.with_count(oop, 0),
    {
        self.set_count(oop, 0);
    }

    fn mark(&mut self, oop: OOP)
        requires
            old(self)@.wf(),
            oop < OT_SIZE,
        ensures
            final(self)@ == old(self)@.with_count(oop, 2),
    {
        self.set_count(oop, 2);
    }

    fn unmarked(&self, oop: OOP) -> (r: bool)
        requires
            self@.wf(),
            oop < OT_SIZE,
        ensures
            r == (self@.count[oop as int] == 0),
    {
        self.ot_count[oop as usize] == 0
    }

    /// Clears every reference count.
    fn zero_ref_counts(&mut self)
        requires
            old(self)@.wf(),
        ensures
            final(self)@ == (OMView { count: Seq::new(OT_SIZE as nat, |i: int| 0u16), ..old(self)@ }),
    {
        let oops = for_every_oop();
        let mut t: usize = 0;
        while t < OT_SIZE
            invariant
                t <= OT_SIZE,
                oops@.len() == OT_SIZE,
                forall|i: int| 0 <= i < OT_SIZE ==> #[trigger] oops@[i] == i,
                self@.wf(),
                forall|i: int| 0 <= i < t ==> #[trigger] self@.count[i] == 0,
                self@ == (OMView { count: self@.count, ..old(self)@ }),
            decreases OT_SIZE - t,
        {
            self.unmark(oops[t]);
            t = t + 1;
        }
        assert(self@.count =~= Seq::new(OT_SIZE as nat, |i: int| 0u16));
    }

    /// How many leading words of `oop` hold pointers.
    fn last_pointer_index(&self, oop: OOP) -> (r: usize)
        requires
            self@.wf(),
            self@.body_ok(oop),
        ensures
            r == self@.pointer_words(oop),
    {
        if self.is_ptrs(oop) {
            return self.get_size(oop) / 4;
        }
        if self.classes[oop as usize] == CLASS_COMPILED_METHOD {
            return self.lit_count(oop) as usize + 1;
        }
        return 0;
    }

    /// Marks what `root` holds, and what that holds in turn.
    #[verifier::rlimit(50)]
    fn mark_rest(&mut self, root: OOP, Ghost(s): Ghost<Set<OOP>>)
        requires
            old(self)@.wf(),
            old(self)@.closed(s),
            s.contains(root),
            old(self)@.count[root as int] != 0,
        ensures
            final(self)@.wf(),
            old(self)@.same_graph(final(self)@),
            old(self)@.marks_grow(final(self)@),
            final(self)@.children_marked(root),
            forall|o: OOP| #[trigger] old(self)@.newly_marked(final(self)@, o) ==>
                final(self)@.children_marked(o) && s.contains(o) && old(self)@.reaches(root, o),
        decreases zeros(old(self)@.count), 1nat,
    {
        let ghost a = self@;
        let n = self.last_pointer_index(root);
        let addr = self.location_addr(root);
        let mlen = self.object_space.len();
        let mut offset: usize = 0;
        while offset < n
            invariant
                mlen == self@.mem.len(),
                zeros(self@.count) <= zeros(old(self)@.count),
                a == old(self)@,
                self@.wf(),
                a.wf(),
                a.closed(s),
                s.contains(root),
                a.body_ok(root),
                n == a.pointer_words(root),
                addr == a.addr_of(root),
                0 <= offset <= n,
                a.same_graph(self@),
                a.marks_grow(self@),
                zeros(self@.count) <= zeros(a.count),
                forall|k: int| 0 <= k < offset && !is_int_spec(#[trigger] a.field(root, k)) ==> self@.count[a.field(root, k) as int] != 0,
                forall|o: OOP| #[trigger] a.newly_marked(self@, o) ==>
                    self@.children_marked(o) && s.contains(o) && a.reaches(root, o),
            decreases n - offset,
        {
            let val = self.object_space[addr + offset];
            if !is_int(val) {
                let ghost b = self@;
                proof {
                    assert(a.field(root, offset as int) == val);
                    assert(s.contains(val));
                    lemma_closed_graph(a, b, s);
                }
                self.mark_from(val, Ghost(s));
                proof {
                    let c = self@;
                    lemma_zeros_mono(b.count, c.count);
                    assert(a.points_to(root, val));
                    lemma_after_child(a, b, c, root, val, s);
                    assert forall|k: int| 0 <= k < offset + 1 && !is_int_spec(#[trigger] a.field(root, k)) implies c.count[a.field(root, k) as int] != 0 by {
                        if k < offset {
                            assert(b.count[a.field(root, k) as int] != 0);
                        }
                    }
                }
            }
            offset = offset + 1;
        }
        let class = self.get_class(root);
        let ghost b = self@;
        proof {
            assert(s.contains(class));
            lemma_closed_graph(a, b, s);
        }
        self.mark_from(class, Ghost(s));
        proof {
            let c = self@;
            lemma_zeros_mono(b.count, c.count);
            assert(a.points_to(root, class));
            lemma_after_child(a, b, c, root, class, s);
            assert forall|k: int| 0 <= k < c.pointer_words(root) && !is_int_spec(#[trigger] c.field(root, k)) implies c.count[c.field(root, k) as int] != 0 by {
                assert(c.field(root, k) == a.field(root, k));
                assert(b.count[a.field(root, k) as int] != 0);
            }
        }
    }

    /// Marks `root`, if unmarked, and everything it reaches.
    fn mark_from(&mut self, root: OOP, Ghost(s): Ghost<Set<OOP>>)
        requires
            old(self)@.wf(),
            old(self)@.closed(s),
            s.contains(root),
        ensures
            final(self)@.wf(),
            old(self)@.same_graph(final(self)@),
            old(self)@.marks_grow(final(self)@),
            final(self)@.count[root as int] != 0,
            forall|o: OOP| #[trigger] old(self)@.newly_marked(final(self)@, o) ==>
                final(self)@.children_marked(o) && s.contains(o) && old(self)@.reaches(root, o),
        decreases zeros(old(self)@.count), 0nat,
    {
        let ghost a = self@;
        proof {
            assert(a.body_ok(root));
        }
        if self.unmarked(root) {
            self.mark(root);
            let ghost b = self@;
            proof {
                lemma_zeros_mark(a.count, root as int, 2);
                lemma_closed_graph(a, b, s);
            }
            self.mark_rest(root, Ghost(s));
            proof {
                let c = self@;
                lemma_reaches_self(a, root);
                assert forall|o: OOP| #[trigger] a.newly_marked(c, o) implies
                    c.children_marked(o) && s.contains(o) && a.reaches(root, o) by {
                    if o != root {
                        assert(b.newly_marked(c, o));
                        lemma_reaches_graph(b, a, root, o);
                    }
                }
            }
        }
    }
}


proof fn lemma_children_persist(b: OMView, c: OMView, o: OOP, s: Set<OOP>)
    requires
        b.closed(s),
        s.contains(o),
        b.children_marked(o),
        b.same_graph(c),
        b.marks_grow(c),
    ensures
        c.children_marked(o),
{
    assert(s.contains(b.class[o as int]));
    assert(b.body_ok(b.class[o as int]));
    assert forall|k: int| 0 <= k < c.pointer_words(o) && !is_int_spec(#[trigger] c.field(o, k)) implies c.count[c.field(o, k) as int] != 0 by {
        assert(b.field(o, k) == c.field(o, k));
        assert(b.pointer_words(o) == c.pointer_words(o));
        assert(s.contains(b.field(o, k)));
        assert(b.body_ok(b.field(o, k)));
        assert(b.count[b.field(o, k) as int] != 0);
    }
}

/// Along a path from a marked member of a closed set whose marked members
/// have their children marked, every entry is a marked member.
proof fn lemma_path_marked(v: OMView, s: Set<OOP>, p: Seq<OOP>, i: int)
    requires
        v.closed(s),
        v.is_path(p),
        s.contains(p[0]),
        v.count[p[0] as int] != 0,
        forall|o: OOP| s.contains(o) && v.count[o as int] != 0 ==> #[trigger] v.children_marked(o),
        0 <= i < p.len(),
    ensures
        s.contains(p[i]),
        v.count[p[i] as int] != 0,
    decreases i,
{
    if i > 0 {
        let j = i - 1;
        lemma_path_marked(v, s, p, j);
        assert(v.points_to(p[j], p[j + 1]));
        assert(v.children_marked(p[j]));
        if p[i] != v.class[p[j] as int] {
            let k = choose|k: int| 0 <= k < v.pointer_words(p[j]) && !is_int_spec(#[trigger] v.field(p[j], k)) && v.field(p[j], k) == p[j + 1];
            assert(v.count[v.field(p[j], k) as int] != 0);
        }
    }
}

impl OM {
    /// Marks everything reachable from the system dictionary and the active context.
    fn mark_objects(&mut self, Ghost(s): Ghost<Set<OOP>>)
        requires
            old(self)@.wf(),
            old(self)@.gc_roots_ok(s),
            forall|o: int| 0 <= o < OT_SIZE ==> #[trigger] old(self)@.count[o] == 0,
        ensures
            final(self)@.wf(),
            old(self)@.same_graph(final(self)@),
            forall|o: OOP| o < OT_SIZE ==> (final(self)@.count[o as int] != 0 <==> #[trigger] old(self)@.live(o)),
            forall|o: int| 0 <= o < OT_SIZE ==> #[trigger] final(self)@.count[o] == 0 || final(self)@.count[o] == 2,
    {
        let ghost a = self@;
        self.mark_from(SYSTEM_DICTIONARY, Ghost(s));
        let ghost b = self@;
        proof {
            lemma_closed_graph(a, b, s);
        }
        let active_context = self.active_context;
        self.mark_from(active_context, Ghost(s));
        proof {
            let c = self@;
            assert forall|o: OOP| s.contains(o) && c.count[o as int] != 0 implies #[trigger] c.children_marked(o) by {
                assert(a.body_ok(o));
                if b.count[o as int] != 0 {
                    assert(a.newly_marked(b, o));
                    lemma_children_persist(b, c, o, s);
                } else {
                    assert(b.newly_marked(c, o));
                }
            }
            lemma_closed_graph(a, c, s);
            assert forall|o: OOP| o < OT_SIZE implies (c.count[o as int] != 0 <==> #[trigger] a.live(o)) by {
                if c.count[o as int] != 0 {
                    if b.count[o as int] != 0 {
                        assert(a.newly_marked(b, o));
                    } else {
                        assert(b.newly_marked(c, o));
                        lemma_reaches_graph(b, a, active_context, o);
                    }
                }
                if a.live(o) {
                    if a.reaches(SYSTEM_DICTIONARY, o) {
                        let p = choose|p: Seq<OOP>| #[trigger] a.is_path(p) && p[0] == SYSTEM_DICTIONARY && p.last() == o;
                        lemma_reaches_graph(a, c, SYSTEM_DICTIONARY, o);
                        let q = choose|q: Seq<OOP>| #[trigger] c.is_path(q) && q[0] == SYSTEM_DICTIONARY && q.last() == o;
                        lemma_path_marked(c, s, q, q.len() - 1);
                    } else {
                        lemma_reaches_graph(a, c, active_context, o);
                        let q = choose|q: Seq<OOP>| #[trigger] c.is_path(q) && q[0] == active_context && q.last() == o;
                        lemma_path_marked(c, s, q, q.len() - 1);
                    }
                }
            }
        }
    }
}

impl OMView {
    /// Not free, and left unmarked by the marking phase.
    pub open spec fn dead(self, o: OOP) -> bool {
        &&& o != UNUSED_PTR
        &&& !self.is_free(o)
        &&& self.count[o as int] == 0
    }

    /// Entries whose references the collector counts: every object in use,
    /// and entry 0 when it is not free.
    pub open spec fn counts_toward(self, p: OOP) -> bool {
        &&& !self.is_free(p)
        &&& (self.count[p as int] != 0 || p == UNUSED_PTR)
    }

    /// How many of the first `n` words of `p` hold `o`.
    pub open spec fn field_hits(self, p: OOP, o: OOP, n: int) -> nat
        decreases n,
    {
        if n <= 0 {
            0
        } else {
            self.field_hits(p, o, n - 1) + if self.field(p, n - 1) == o { 1nat } else { 0nat }
        }
    }

    /// How many references to `o` the entry `p` holds: its class and its pointer words.
    pub open spec fn refs_from(self, p: OOP, o: OOP) -> nat {
        (if self.class[p as int] == o { 1nat } else { 0nat }) + self.field_hits(p, o, self.pointer_words(p))
    }

    /// References to `o` held by the counted entries below `n`.
    pub open spec fn refs_below(self, o: OOP, n: int) -> nat
        decreases n,
    {
        if n <= 0 {
            0
        } else {
            self.refs_below(o, n - 1) + if self.counts_toward((n - 1) as OOP) { self.refs_from((n - 1) as OOP, o) } else { 0nat }
        }
    }

    /// Every reference to `o`, the active context's root reference included.
    pub open spec fn refs_total(self, o: OOP) -> nat {
        self.refs_below(o, OT_SIZE as int) + if o == self.active_context { 1nat } else { 0nat }
    }

    /// The free chunk list of `j` words built from the dead entries below `n`.
    pub open spec fn dead_chunks(self, j: int, n: int) -> Seq<OOP>
        decreases n,
    {
        if n <= 0 {
            Seq::empty()
        } else {
            let q = (n - 1) as OOP;
            let r = self.dead_chunks(j, n - 1);
            if self.dead(q) && !self.is_bitmap(q) && self.chunk_class(q) == j { seq![q] + r } else { r }
        }
    }

    /// The dead bitmaps below `n`, highest first.
    pub open spec fn dead_bitmaps(self, n: int) -> Seq<OOP>
        decreases n,
    {
        if n <= 0 {
            Seq::empty()
        } else {
            let q = (n - 1) as OOP;
            let r = self.dead_bitmaps(n - 1);
            if self.dead(q) && self.is_bitmap(q) { seq![q] + r } else { r }
        }
    }

    /// The count of `o` once the entries below `p` are processed.
    pub open spec fn count_during(self, o: OOP, p: int) -> int {
        if o == UNUSED_PTR {
            if p > 0 && !self.is_free(o) { 1 } else { 3 }
        } else {
            (if o < p && !self.is_free(o) { 0 } else { self.count[o as int] as int })
                + (if counted_spec(o) { self.refs_below(o, p) as int } else { 0 })
        }
    }

    /// The count of `o` once the counts are rebuilt.
    pub open spec fn rectified_count(self, o: OOP) -> int {
        if NIL_PTR <= o <= LAST_REF_COUNTED_OOP {
            SATURATED as int
        } else if o == UNUSED_PTR {
            self.count_during(o, OT_SIZE as int)
        } else {
            self.count_during(o, OT_SIZE as int) + if o == self.active_context && counted_spec(o) { 1int } else { 0int }
        }
    }

    /// Entry 0, which the collector counts as in use, holds no counted
    /// object that is unmarked.
    pub open spec fn unused_ok(self) -> bool {
        !self.is_free(UNUSED_PTR) ==> {
            &&& self.body_ok(UNUSED_PTR)
            &&& forall|c: OOP| counted_spec(c) && #[trigger] self.points_to(UNUSED_PTR, c) ==> self.count[c as int] != 0
        }
    }

    /// Every dead entry that is no bitmap has the shape of a free chunk.
    pub open spec fn dead_shapes_ok(self) -> bool {
        forall|o: OOP| o < OT_SIZE && #[trigger] self.dead(o) && !self.is_bitmap(o) ==> self.chunk_node_ok(o, self.chunk_class(o))
    }

    /// No count overflows while the counts are rebuilt.
    pub open spec fn refs_bounded(self) -> bool {
        forall|o: OOP| #[trigger] counted_spec(o) ==> self.count[o as int] + self.refs_total(o) <= u16::MAX
    }

    /// What the rebuilding of the counts relies on.
    pub open spec fn rectify_ready(self) -> bool {
        &&& self.alloc_inv()
        &&& forall|o: int| 0 <= o < OT_SIZE ==> #[trigger] self.count[o] == 0 || self.count[o] == 2
        &&& forall|o: OOP| o < OT_SIZE && self.count[o as int] != 0 && !self.is_free(o) ==> #[trigger] self.body_ok(o) && self.children_marked(o)
        &&& self.unused_ok()
        &&& self.dead_shapes_ok()
        &&& self.refs_bounded()
    }

    /// The state after the entries below `p` are processed, from the marked state `self`.
    pub open spec fn rectify_inv(self, cur: OMView, p: int) -> bool {
        &&& 0 <= p <= OT_SIZE
        &&& cur.alloc_inv()
        &&& cur.mem == self.mem
        &&& cur.size == self.size
        &&& cur.active_context == self.active_context
        &&& cur.oops_left == self.oops_left
        &&& forall|o: OOP| o < OT_SIZE && !(o < p && self.dead(o) && self.is_bitmap(o)) ==> {
            &&& #[trigger] cur.loc[o as int] == self.loc[o as int]
            &&& cur.rest[o as int] == self.rest[o as int]
        }
        &&& forall|o: OOP| o < OT_SIZE && !(o < p && self.dead(o)) ==> #[trigger] cur.class[o as int] == self.class[o as int]
        &&& forall|o: OOP| o < OT_SIZE && o < p && self.dead(o) && self.is_bitmap(o) ==>
            #[trigger] cur.rest[o as int] == (self.rest[o as int] | crate::om::REST_FREE) & !crate::om::REST_BITMAP
        &&& forall|o: OOP| o < OT_SIZE ==> #[trigger] cur.count[o as int] == self.count_during(o, p)
        &&& forall|j: int| 0 <= j <= BIG_SIZE ==> #[trigger] cur.chunks[j] == self.dead_chunks(j, p)
        &&& cur.free_oops == self.dead_bitmaps(p) + self.free_oops
    }
}

proof fn lemma_hits_zero(v: OMView, p: OOP, o: OOP, n: int)
    requires
        forall|k: int| 0 <= k < n ==> #[trigger] v.field(p, k) != o,
    ensures
        v.field_hits(p, o, n) == 0,
    decreases n,
{
    if n > 0 {
        lemma_hits_zero(v, p, o, n - 1);
    }
}

proof fn lemma_hits_mono(v: OMView, p: OOP, o: OOP, k: int, n: int)
    requires
        k <= n,
    ensures
        v.field_hits(p, o, k) <= v.field_hits(p, o, n),
    decreases n - k,
{
    if k < n {
        lemma_hits_mono(v, p, o, k, n - 1);
    }
}

proof fn lemma_refs_mono(v: OMView, o: OOP, k: int, n: int)
    requires
        k <= n,
    ensures
        v.refs_below(o, k) <= v.refs_below(o, n),
    decreases n - k,
{
    if k < n {
        lemma_refs_mono(v, o, k, n - 1);
    }
}

/// A dead counted entry is referenced by no counted entry.
proof fn lemma_dead_unreferenced(g: OMView, o: OOP, n: int)
    requires
        g.rectify_ready(),
        o < OT_SIZE,
        g.dead(o),
        counted_spec(o),
        n <= OT_SIZE,
    ensures
        g.refs_below(o, n) == 0,
    decreases n,
{
    if n > 0 {
        lemma_dead_unreferenced(g, o, n - 1);
        let q = (n - 1) as OOP;
        if g.counts_toward(q) {
            if g.count[q as int] != 0 {
                assert(g.body_ok(q) && g.children_marked(q));
                assert(g.class[q as int] != o);
                assert forall|k: int| 0 <= k < g.pointer_words(q) implies #[trigger] g.field(q, k) != o by {
                    if g.field(q, k) == o {
                        assert(!is_int_spec(g.field(q, k)));
                    }
                }
                lemma_hits_zero(g, q, o, g.pointer_words(q));
            } else {
                assert(q == UNUSED_PTR);
                if g.class[q as int] == o {
                    assert(g.points_to(UNUSED_PTR, o));
                }
                assert forall|k: int| 0 <= k < g.pointer_words(q) implies #[trigger] g.field(q, k) != o by {
                    if g.field(q, k) == o {
                        assert(!is_int_spec(g.field(q, k)));
                        assert(g.points_to(UNUSED_PTR, o));
                    }
                }
                lemma_hits_zero(g, q, o, g.pointer_words(q));
            }
        }
    }
}

pub(crate) proof fn lemma_dead_chunks_below(g: OMView, j: int, n: int)
    ensures
        forall|i: int| 0 <= i < g.dead_chunks(j, n).len() ==> {
            &&& #[trigger] g.dead_chunks(j, n)[i] < n
            &&& g.dead(g.dead_chunks(j, n)[i])
        },
    decreases n,
{
    if n > 0 {
        lemma_dead_chunks_below(g, j, n - 1);
        let q = (n - 1) as OOP;
        let r = g.dead_chunks(j, n - 1);
        if g.dead(q) && !g.is_bitmap(q) && g.chunk_class(q) == j {
            assert forall|i: int| 0 <= i < g.dead_chunks(j, n).len() implies {
                &&& #[trigger] g.dead_chunks(j, n)[i] < n
                &&& g.dead(g.dead_chunks(j, n)[i])
            } by {
                if i > 0 {
                    assert(g.dead_chunks(j, n)[i] == r[i - 1]);
                }
            }
        }
    }
}

pub(crate) proof fn lemma_dead_bitmaps_below(g: OMView, n: int)
    ensures
        forall|i: int| 0 <= i < g.dead_bitmaps(n).len() ==> {
            &&& #[trigger] g.dead_bitmaps(n)[i] < n
            &&& g.dead(g.dead_bitmaps(n)[i])
        },
    decreases n,
{
    if n > 0 {
        lemma_dead_bitmaps_below(g, n - 1);
        let q = (n - 1) as OOP;
        let r = g.dead_bitmaps(n - 1);
        if g.dead(q) && g.is_bitmap(q) {
            assert forall|i: int| 0 <= i < g.dead_bitmaps(n).len() implies {
                &&& #[trigger] g.dead_bitmaps(n)[i] < n
                &&& g.dead(g.dead_bitmaps(n)[i])
            } by {
                if i > 0 {
                    assert(g.dead_bitmaps(n)[i] == r[i - 1]);
                }
            }
        }
    }
}

impl OM {
    /// Counts the references held by the marked entry `oop`, after taking
    /// off its mark.
    #[verifier::rlimit(50)]
    fn count_refs_of(&mut self, oop: OOP, Ghost(g): Ghost<OMView>)
        requires
            g.rectify_ready(),
            g.rectify_inv(old(self)@, oop as int),
            oop < OT_SIZE,
            !g.is_free(oop),
            g.count_during(oop, oop as int) != 0,
        ensures
            g.rectify_inv(final(self)@, oop + 1),
    {
        let ghost a = self@;
        proof {
            if oop != UNUSED_PTR && g.count[oop as int] == 0 && counted_spec(oop) {
                lemma_dead_unreferenced(g, oop, oop as int);
            }
            assert(g.counts_toward(oop));
            assert(g.body_ok(oop));
            assert(a.loc[oop as int] == g.loc[oop as int]);
            assert(a.pointer_words(oop) == g.pointer_words(oop));
            assert forall|o: OOP| counted_spec(o) implies #[trigger] g.refs_below(o, oop as int + 1) == g.refs_below(o, oop as int) + g.refs_from(oop, o) by {
            }
        }
        let count = self.get_count(oop);
        self.set_count(oop, count - 2);
        let oop_class = self.get_class(oop);
        proof {
            let b = self@;
            if counted_spec(oop_class) {
                lemma_refs_mono(g, oop_class, oop as int + 1, OT_SIZE as int);
                assert(g.refs_from(oop, oop_class) >= 1);
                assert(g.count_during(oop_class, oop as int + 1) <= g.count[oop_class as int] + g.refs_below(oop_class, OT_SIZE as int));
            }
        }
        self.inc_ref(oop_class);
        let n = self.last_pointer_index(oop);
        let addr = self.addr_of_oop(oop);
        let mlen = self.object_space.len();
        let mut offset: usize = 0;
        while offset < n
            invariant
                g.rectify_ready(),
                mlen == self@.mem.len(),
                self@.wf(),
                a.wf(),
                oop < OT_SIZE,
                !g.is_free(oop),
                g.counts_toward(oop),
                g.body_ok(oop),
                n == g.pointer_words(oop),
                addr == g.addr_of(oop),
                0 <= offset <= n,
                self@ == (OMView { count: self@.count, ..a }),
                a.mem == g.mem,
                forall|o: OOP| counted_spec(o) ==> #[trigger] g.refs_below(o, oop as int + 1) == g.refs_below(o, oop as int) + g.refs_from(oop, o),
                forall|o: OOP| o < OT_SIZE ==> #[trigger] self@.count[o as int] == (if o == oop { g.count_during(o, oop as int) - 2 } else { g.count_during(o, oop as int) })
                    + (if counted_spec(o) { (if g.class[oop as int] == o { 1int } else { 0int }) + g.field_hits(oop, o, offset as int) } else { 0 }),
            decreases n - offset,
        {
            let val = self.object_space[addr + offset];
            proof {
                assert(val == g.field(oop, offset as int));
            }
            if !is_int(val) {
                proof {
                    if counted_spec(val) {
                        lemma_hits_mono(g, oop, val, offset as int + 1, n as int);
                        lemma_refs_mono(g, val, oop as int + 1, OT_SIZE as int);
                    }
                }
                self.inc_ref(val);
            }
            proof {
                assert forall|o: OOP| o < OT_SIZE implies #[trigger] self@.count[o as int] == (if o == oop { g.count_during(o, oop as int) - 2 } else { g.count_during(o, oop as int) })
                    + (if counted_spec(o) { (if g.class[oop as int] == o { 1int } else { 0int }) + g.field_hits(oop, o, offset as int + 1) } else { 0 }) by {
                    if counted_spec(o) && o == val {
                        assert(!is_int_spec(val));
                    }
                }
            }
            offset = offset + 1;
        }
        proof {
            let c = self@;
            assert forall|o: OOP| o < OT_SIZE implies #[trigger] c.count[o as int] == g.count_during(o, oop as int + 1) by {
            }
            assert forall|j: int| 0 <= j <= BIG_SIZE implies #[trigger] c.chunks[j] == g.dead_chunks(j, oop as int + 1) by {
                assert(c.chunks[j] == a.chunks[j]);
            }
            assert(g.dead_bitmaps(oop as int + 1) == g.dead_bitmaps(oop as int));
            assert(c.alloc_inv()) by {
                reveal(OMView::free_list_ok);
                reveal(OMView::chunks_ok);
            }
        }
    }

    /// Processes entry `oop`: a dead one is freed, a marked one has the
    /// references it holds counted.
    fn rectify_entry(&mut self, oop: OOP, Ghost(g): Ghost<OMView>)
        requires
            g.rectify_ready(),
            g.rectify_inv(old(self)@, oop as int),
            oop < OT_SIZE,
        ensures
            g.rectify_inv(final(self)@, oop + 1),
    {
        let ghost a = self@;
        if !self.is_free(oop) {
            if self.unmarked(oop) {
                proof {
                    assert(a.loc[oop as int] == g.loc[oop as int]);
                    assert(a.count[oop as int] == g.count_during(oop, oop as int));
                    assert(g.dead(oop));
                    if counted_spec(oop) {
                        lemma_dead_unreferenced(g, oop, oop as int + 1);
                    }
                    lemma_dead_chunks_below(g, g.chunk_class(oop), oop as int);
                    lemma_dead_bitmaps_below(g, oop as int);
                    assert(!a.in_chunks(oop)) by {
                        if a.in_chunks(oop) {
                            let (j, k) = choose|j: int, k: int| 0 <= j <= BIG_SIZE && 0 <= k < a.chunks[j].len() && #[trigger] a.chunks[j][k] == oop;
                            lemma_dead_chunks_below(g, j, oop as int);
                            assert(a.chunks[j] == g.dead_chunks(j, oop as int));
                        }
                    }
                    assert(!a.free_oops.contains(oop)) by {
                        reveal(OMView::free_list_ok);
                        if a.free_oops.contains(oop) {
                            let k = choose|k: int| 0 <= k < a.free_oops.len() && a.free_oops[k] == oop;
                            let nb = g.dead_bitmaps(oop as int).len();
                            if k < nb {
                                assert(a.free_oops[k] == g.dead_bitmaps(oop as int)[k]);
                            } else {
                                assert(a.free_oops[k] == g.free_oops[k - nb]);
                                assert(g.free_list_ok());
                                assert(g.is_free(g.free_oops[k - nb]));
                            }
                        }
                    }
                    if !g.is_bitmap(oop) {
                        assert(g.chunk_node_ok(oop, g.chunk_class(oop)));
                        assert(a.chunk_class(oop) == g.chunk_class(oop));
                    }
                }
                self.deallocate(oop);
                proof {
                    let c = self@;
                    if !a.is_bitmap(oop) {
                        assert(c.chunks == a.chunks.update(a.chunk_class(oop), seq![oop] + a.chunks[a.chunk_class(oop)]));
                    } else {
                        assert(c.chunks == a.chunks);
                    }
                    assert forall|o: OOP| o < OT_SIZE implies #[trigger] c.count[o as int] == g.count_during(o, oop as int + 1) by {
                        if o != oop && counted_spec(o) {
                            assert(!g.counts_toward(oop));
                        }
                    }
                    assert(a.chunk_class(oop) == g.chunk_class(oop));
                    assert(a.is_bitmap(oop) == g.is_bitmap(oop));
                    assert forall|j: int| 0 <= j <= BIG_SIZE implies #[trigger] c.chunks[j] == g.dead_chunks(j, oop as int + 1) by {
                        assert(a.chunks[j] == g.dead_chunks(j, oop as int));
                        assert(((oop as int + 1) - 1) as OOP == oop);
                        if g.is_bitmap(oop) || j != g.chunk_class(oop) {
                            assert(g.dead_chunks(j, oop as int + 1) == g.dead_chunks(j, oop as int));
                            assert(c.chunks[j] == a.chunks[j]);
                        } else {
                            assert(g.dead_chunks(j, oop as int + 1) == seq![oop] + g.dead_chunks(j, oop as int));
                            assert(c.chunks[j] == seq![oop] + a.chunks[j]);
                        }
                    }
                    assert forall|o: OOP| o < OT_SIZE && !(o < oop + 1 && g.dead(o) && g.is_bitmap(o)) implies {
                        &&& #[trigger] c.loc[o as int] == g.loc[o as int]
                        &&& c.rest[o as int] == g.rest[o as int]
                    } by {
                        assert(a.loc[o as int] == g.loc[o as int]);
                    }
                    assert forall|o: OOP| o < OT_SIZE && !(o < oop + 1 && g.dead(o)) implies #[trigger] c.class[o as int] == g.class[o as int] by {
                        assert(a.class[o as int] == g.class[o as int]);
                    }
                    assert forall|o: OOP| o < OT_SIZE && o < oop + 1 && g.dead(o) && g.is_bitmap(o) implies
                        #[trigger] c.rest[o as int] == (g.rest[o as int] | crate::om::REST_FREE) & !crate::om::REST_BITMAP by {
                        if o != oop {
                            assert(a.rest[o as int] == (g.rest[o as int] | crate::om::REST_FREE) & !crate::om::REST_BITMAP);
                        }
                    }
                    assert(c.free_oops =~= g.dead_bitmaps(oop as int + 1) + g.free_oops);
                }
            } else {
                self.count_refs_of(oop, Ghost(g));
            }
        } else {
            proof {
                let c = self@;
                assert(!g.counts_toward(oop));
                assert forall|o: OOP| o < OT_SIZE implies #[trigger] c.count[o as int] == g.count_during(o, oop as int + 1) by {
                }
                assert forall|j: int| 0 <= j <= BIG_SIZE implies #[trigger] c.chunks[j] == g.dead_chunks(j, oop as int + 1) by {
                }
            }
        }
    }
}

impl OMView {
    /// `c` is the state once the counts and free lists are rebuilt from the
    /// marked state `self`.
    pub open spec fn rectified(self, c: OMView) -> bool {
        &&& c.alloc_inv()
        &&& forall|o: OOP| o < OT_SIZE ==> #[trigger] c.count[o as int] == self.rectified_count(o)
        &&& forall|j: int| 0 <= j <= BIG_SIZE ==> #[trigger] c.chunks[j] == self.dead_chunks(j, OT_SIZE as int)
        &&& c.free_oops == self.dead_bitmaps(OT_SIZE as int) + self.free_oops
        &&& c.mem == self.mem
        &&& c.size == self.size
        &&& c.active_context == self.active_context
        &&& c.oops_left == self.oops_left
        &&& forall|o: OOP| o < OT_SIZE && !(self.dead(o) && self.is_bitmap(o)) ==> {
            &&& #[trigger] c.loc[o as int] == self.loc[o as int]
            &&& c.rest[o as int] == self.rest[o as int]
        }
        &&& forall|o: OOP| o < OT_SIZE && !self.dead(o) ==> #[trigger] c.class[o as int] == self.class[o as int]
        &&& forall|o: OOP| o < OT_SIZE && self.dead(o) && self.is_bitmap(o) ==>
            #[trigger] c.rest[o as int] == (self.rest[o as int] | crate::om::REST_FREE) & !crate::om::REST_BITMAP
    }

    /// The state the marking phase produces: the count 2 on every live entry.
    pub open spec fn marked_view(self) -> OMView {
        OMView { count: Seq::new(OT_SIZE as nat, |i: int| if self.live(i as OOP) { 2u16 } else { 0u16 }), ..self }
    }

    /// Some closed set holds both roots.
    pub open spec fn gc_possible(self) -> bool {
        exists|s: Set<OOP>| #[trigger] self.gc_roots_ok(s)
    }

    /// What a collection relies on, beyond the roots' closed set.
    pub open spec fn gc_ready(self) -> bool {
        &&& self.alloc_inv()
        &&& self.gc_possible()
        &&& self.marked_view().unused_ok()
        &&& self.marked_view().dead_shapes_ok()
        &&& self.marked_view().refs_bounded()
    }
}

impl OM {
    /// Rebuilds the reference counts and the free lists from the marks.
    fn rectify_ref_counts(&mut self)
        requires
            old(self)@.rectify_ready(),
        ensures
            old(self)@.rectified(final(self)@),
    {
        let ghost g = self@;
        let mut size: usize = 0;
        while size <= BIG_SIZE
            invariant
                size <= BIG_SIZE + 1,
                self@.wf(),
                forall|j: int| 0 <= j < size ==> #[trigger] self@.heads[j] == NON_PTR,
                self@ == (OMView { heads: self@.heads, ..g }),
            decreases BIG_SIZE + 1 - size,
        {
            self.fcl_heads.set(size, NON_PTR);
            size = size + 1;
        }
        self.chunk_lists = Ghost(Seq::new((BIG_SIZE + 1) as nat, |j: int| Seq::<OOP>::empty()));
        self.set_count(UNUSED_PTR, 3);
        proof {
            reveal(OMView::free_list_ok);
            reveal(OMView::chunks_ok);
            let c = self@;
            assert(c.free_list_ok());
            assert(c.chunks_ok());
            assert forall|o: OOP| o < OT_SIZE implies #[trigger] c.count[o as int] == g.count_during(o, 0) by {
            }
            assert forall|j: int| 0 <= j <= BIG_SIZE implies #[trigger] c.chunks[j] == g.dead_chunks(j, 0) by {
            }
            assert(c.free_oops =~= g.dead_bitmaps(0) + g.free_oops);
            assert(g.rectify_inv(c, 0));
        }
        let oops = for_every_oop();
        let mut t: usize = 0;
        while t < OT_SIZE
            invariant
                t <= OT_SIZE,
                oops@.len() == OT_SIZE,
                forall|i: int| 0 <= i < OT_SIZE ==> #[trigger] oops@[i] == i,
                g.rectify_ready(),
                g.rectify_inv(self@, t as int),
            decreases OT_SIZE - t,
        {
            self.rectify_entry(oops[t], Ghost(g));
            t = t + 1;
        }
        let ghost b = self@;
        self.inc_ref(SYSTEM_DICTIONARY);
        let active_context = self.active_context;
        proof {
            if counted_spec(active_context) {
                assert(b.count[active_context as int] == g.count_during(active_context, OT_SIZE as int));
                assert(g.count[active_context as int] + g.refs_total(active_context) <= u16::MAX);
            }
        }
        self.inc_ref(active_context);
        let ghost b2 = self@;
        let mut i: OOP = NIL_PTR;
        while i <= LAST_REF_COUNTED_OOP
            invariant
                NIL_PTR <= i <= LAST_REF_COUNTED_OOP + 1,
                self@.wf(),
                forall|o: OOP| NIL_PTR <= o < i ==> #[trigger] self@.count[o as int] == SATURATED,
                forall|o: OOP| o < OT_SIZE && !(NIL_PTR <= o < i) ==> #[trigger] self@.count[o as int] == b2.count[o as int],
                self@ == (OMView { count: self@.count, ..b2 }),
            decreases LAST_REF_COUNTED_OOP + 1 - i,
        {
            self.set_count(i, SATURATED as u16);
            i = i + 1;
        }
        proof {
            let c = self@;
            assert(c.alloc_inv()) by {
                reveal(OMView::free_list_ok);
                reveal(OMView::chunks_ok);
            }
            assert forall|o: OOP| o < OT_SIZE implies #[trigger] c.count[o as int] == g.rectified_count(o) by {
                assert(b.count[o as int] == g.count_during(o, OT_SIZE as int));
            }
            assert(c.chunks == b.chunks);
            assert forall|j: int| 0 <= j <= BIG_SIZE implies #[trigger] c.chunks[j] == g.dead_chunks(j, OT_SIZE as int) by {
                assert(b.chunks[j] == g.dead_chunks(j, OT_SIZE as int));
            }
            assert(c.free_oops == b.free_oops);
            assert(c.mem == g.mem);
            assert forall|o: OOP| o < OT_SIZE && !(g.dead(o) && g.is_bitmap(o)) implies {
                &&& #[trigger] c.loc[o as int] == g.loc[o as int]
                &&& c.rest[o as int] == g.rest[o as int]
            } by {
                assert(b.loc[o as int] == g.loc[o as int]);
            }
            assert forall|o: OOP| o < OT_SIZE && !g.dead(o) implies #[trigger] c.class[o as int] == g.class[o as int] by {
                assert(b.class[o as int] == g.class[o as int]);
            }
            assert forall|o: OOP| o < OT_SIZE && g.dead(o) && g.is_bitmap(o) implies
                #[trigger] c.rest[o as int] == (g.rest[o as int] | crate::om::REST_FREE) & !crate::om::REST_BITMAP by {
                assert(b.rest[o as int] == (g.rest[o as int] | crate::om::REST_FREE) & !crate::om::REST_BITMAP);
            }
        }
    }
}

proof fn lemma_reaches_extend(v: OMView, a: OOP, o: OOP, c: OOP)
    requires
        v.reaches(a, o),
        v.points_to(o, c),
    ensures
        v.reaches(a, c),
{
    let p = choose|p: Seq<OOP>| #[trigger] v.is_path(p) && p[0] == a && p.last() == o;
    let q = p.push(c);
    assert forall|i: int| 0 <= i < q.len() - 1 implies #[trigger] v.points_to(q[i], q[i + 1]) by {
        if i < p.len() - 1 {
            assert(q[i] == p[i]);
            assert(q[i + 1] == p[i + 1]);
        } else {
            assert(q[i] == o);
            assert(q[i + 1] == c);
        }
    }
    assert(v.is_path(q));
}

/// What a member of a closed set reaches is in the set.
proof fn lemma_path_in_set(v: OMView, s: Set<OOP>, p: Seq<OOP>, i: int)
    requires
        v.closed(s),
        v.is_path(p),
        s.contains(p[0]),
        0 <= i < p.len(),
    ensures
        s.contains(p[i]),
    decreases i,
{
    if i > 0 {
        let j = i - 1;
        lemma_path_in_set(v, s, p, j);
        assert(v.points_to(p[j], p[j + 1]));
        if p[i] != v.class[p[j] as int] {
            let k = choose|k: int| 0 <= k < v.pointer_words(p[j]) && !is_int_spec(#[trigger] v.field(p[j], k)) && v.field(p[j], k) == p[j + 1];
        }
    }
}

proof fn lemma_reaches_in_set(v: OMView, s: Set<OOP>, a: OOP, o: OOP)
    requires
        v.closed(s),
        s.contains(a),
        v.reaches(a, o),
    ensures
        s.contains(o),
{
    let p = choose|p: Seq<OOP>| #[trigger] v.is_path(p) && p[0] == a && p.last() == o;
    lemma_path_in_set(v, s, p, p.len() - 1);
}

impl OM {
    /// Collects garbage: marks what the roots reach, then rebuilds the counts
    /// and the free lists.
    pub(crate) fn reclaim(&mut self)
        requires
            old(self)@.gc_ready(),
        ensures
            old(self)@.marked_view().rectified(final(self)@),
    {
        let ghost s = choose|s: Set<OOP>| #[trigger] old(self)@.gc_roots_ok(s);
        let ghost a = self@;
        self.zero_ref_counts();
        let ghost z = self@;
        proof {
            assert(a.same_graph(z));
            lemma_closed_graph(a, z, s);
        }
        self.mark_objects(Ghost(s));
        proof {
            let m = self@;
            let mv = a.marked_view();
            assert forall|o: OOP| o < OT_SIZE implies #[trigger] z.live(o) == a.live(o) by {
                if z.reaches(SYSTEM_DICTIONARY, o) {
                    lemma_reaches_graph(z, a, SYSTEM_DICTIONARY, o);
                }
                if a.reaches(SYSTEM_DICTIONARY, o) {
                    lemma_reaches_graph(a, z, SYSTEM_DICTIONARY, o);
                }
                if z.reaches(z.active_context, o) {
                    lemma_reaches_graph(z, a, z.active_context, o);
                }
                if a.reaches(a.active_context, o) {
                    lemma_reaches_graph(a, z, a.active_context, o);
                }
            }
            assert forall|i: int| 0 <= i < OT_SIZE implies #[trigger] m.count[i] == mv.count[i] by {
                let o = i as OOP;
                assert(z.live(o) == a.live(o));
                assert(m.count[o as int] != 0 <==> z.live(o));
                assert(m.count[i] == 0 || m.count[i] == 2);
            }
            assert(m.count =~= mv.count);
            assert(m == mv);
            assert(m.alloc_inv()) by {
                reveal(OMView::free_list_ok);
                reveal(OMView::chunks_ok);
            }
            assert forall|o: OOP| o < OT_SIZE && m.count[o as int] != 0 && !m.is_free(o) implies #[trigger] m.body_ok(o) && m.children_marked(o) by {
                assert(a.live(o));
                let root = if a.reaches(SYSTEM_DICTIONARY, o) { SYSTEM_DICTIONARY } else { a.active_context };
                lemma_reaches_graph(a, m, root, o);
                lemma_closed_graph(a, m, s);
                lemma_reaches_in_set(m, s, root, o);
                let c = m.class[o as int];
                assert(m.points_to(o, c));
                lemma_reaches_extend(m, root, o, c);
                lemma_reaches_graph(m, a, root, c);
                assert(s.contains(c));
                assert(a.live(c));
                assert forall|k: int| 0 <= k < m.pointer_words(o) && !is_int_spec(#[trigger] m.field(o, k)) implies m.count[m.field(o, k) as int] != 0 by {
                    let f = m.field(o, k);
                    assert(m.points_to(o, f));
                    lemma_reaches_extend(m, root, o, f);
                    lemma_reaches_graph(m, a, root, f);
                    assert(s.contains(f));
                    assert(a.live(f));
                }
            }
            assert(m.rectify_ready());
        }
        self.rectify_ref_counts();
    }
}
} // verus!
