//! The method cache: recent lookups, by selector and class.
use vstd::prelude::*;
use crate::std_ptrs::{OOP, NIL_PTR};
use crate::interp::Interpreter;
use crate::primitive_ops::PrimResult;

verus! {

pub const CACHE_SIZE: usize = 1024;

#[derive(Clone, Copy)]
pub struct MethodCacheEntry {
    pub selector: OOP,
    pub class: OOP,
    pub method: OOP,
    pub prim_index: u8,
}

/// What flushing the method cache answers and leaves.
pub open spec fn flushed(v: crate::interp::InterpView, c: crate::interp::InterpView, r: PrimResult) -> bool {
    &&& r is Ok
    &&& c.mcache.len() == CACHE_SIZE
    &&& forall|i: int| 0 <= i < CACHE_SIZE ==> #[trigger] c.mcache[i] == (MethodCacheEntry { selector: NIL_PTR, ..v.mcache[i] })
    &&& c == (crate::interp::InterpView { mcache: c.mcache, ..v })
}

/// Empties the method cache by clearing every entry's selector.
pub fn flush(interp: &mut Interpreter) -> (r: PrimResult)
    requires
        old(interp)@.wf(),
    ensures
        flushed(old(interp)@, final(interp)@, r),
{
    let mut i: usize = 0;
    while i < CACHE_SIZE
        invariant
            i <= CACHE_SIZE,
            interp.mcache@.len() == CACHE_SIZE,
            forall|k: int| 0 <= k < i ==> #[trigger] interp.mcache@[k] == (MethodCacheEntry { selector: NIL_PTR, ..old(interp).mcache@[k] }),
            forall|k: int| i <= k < CACHE_SIZE ==> #[trigger] interp.mcache@[k] == old(interp).mcache@[k],
            interp@ == (crate::interp::InterpView { mcache: interp@.mcache, ..old(interp)@ }),
        decreases CACHE_SIZE - i,
    {
        let mut e = interp.mcache[i];
        e.selector = NIL_PTR;
        interp.mcache.set(i, e);
        i = i + 1;
    }
    Ok(())
}

} // verus!
