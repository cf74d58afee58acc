//! The interface every collector implements.
//!
//! Workloads, tests and benchmarks are written against this trait alone, so
//! the same program can run against a reference counter, a semispace copier
//! or a generational collector unchanged.
//!
//! There is no `free`: reclamation is the collector's job. And a reference
//! slot is read or written only through [`Collector::read_field`] and
//! [`Collector::write_field`], which is what makes barriers possible.
//!
//! Each collector states its own invariant, `gc_inv`, over the numbers it
//! keeps about its heap. It depends on the heap's length, never on what the
//! heap holds, so code that writes object payloads cannot break it.

use crate::heap::{spec_size_for, Handle, Heap};
use crate::roots::Roots;
use crate::stats::{sat_add, GcStats};
use vstd::prelude::*;

verus! {

#[derive(Debug, Clone, PartialEq, Eq, Structural)]
pub enum GcError {
    /// The request could not be satisfied, even after collecting.
    OutOfMemory { requested: u32, used: u32, capacity: u32 },
}

pub trait Collector: Sized {
    /// The collector's heap.
    spec fn gc_heap(&self) -> Heap;

    /// The collector's root set.
    spec fn gc_roots(&self) -> Roots;

    /// The collector's counters.
    spec fn gc_stats(&self) -> GcStats;

    /// What [`Collector::used_bytes`] reports.
    spec fn gc_used(&self) -> int;

    /// The collector's own bookkeeping is consistent with the heap's length.
    spec fn gc_inv(&self) -> bool;

    proof fn lemma_inv_heap(&self)
        requires
            self.gc_inv(),
        ensures
            self.gc_heap().wf(),
    ;

    /// Short name used in benchmark output.
    fn name(&self) -> &'static str;

    fn heap(&self) -> (r: &Heap)
        ensures
            *r == self.gc_heap(),
    ;

    fn heap_mut(&mut self) -> (r: &mut Heap)
        requires
            old(self).gc_inv(),
        ensures
            *r == old(self).gc_heap(),
            final(self).gc_heap() == *final(r),
            final(self).gc_roots() == old(self).gc_roots(),
            final(r).cap() == r.cap() ==> final(self).gc_inv(),
    ;

    fn roots(&self) -> (r: &Roots)
        ensures
            *r == self.gc_roots(),
    ;

    fn roots_mut(&mut self) -> (r: &mut Roots)
        requires
            old(self).gc_inv(),
        ensures
            *r == old(self).gc_roots(),
            final(self).gc_roots() == *final(r),
            final(self).gc_heap() == old(self).gc_heap(),
            final(self).gc_inv(),
    ;

    fn stats(&self) -> (r: &GcStats)
        ensures
            *r == self.gc_stats(),
    ;

    /// Bytes currently committed to allocated objects, excluding free space.
    fn used_bytes(&self) -> (r: u32)
        ensures
            r == self.gc_used(),
    ;

    /// Allocate an object with `nrefs` reference slots and `ndata` payload
    /// bytes, collecting first if that is what it takes to find room.
    ///
    /// A collection may rewrite the handles held by the roots, but never adds
    /// or removes a root.
    fn allocate(&mut self, nrefs: u16, ndata: u32) -> (r: Result<Handle, GcError>)
        requires
            old(self).gc_inv(),
            16 + 4 * nrefs + ndata + 15 <= u32::MAX,
        ensures
            final(self).gc_inv(),
            final(self).gc_heap().cap() == old(self).gc_heap().cap(),
            final(self).gc_roots().stack().len() == old(self).gc_roots().stack().len(),
            r is Ok ==> final(self).gc_stats().allocation_failures == old(self).gc_stats().allocation_failures,
            r is Err ==> final(self).gc_stats().allocation_failures == sat_add(
                old(self).gc_stats().allocation_failures,
                1,
            ),
            match r {
                Ok(h) => final(self).gc_heap().is_blank(h, nrefs as int, ndata as int),
                Err(GcError::OutOfMemory { requested, .. }) => requested == spec_size_for(
                    nrefs as int,
                    ndata as int,
                ),
            },
    ;

    /// Read reference slot `i` of `obj`.
    fn read_field(&mut self, obj: Handle, i: u16) -> (r: Handle)
        requires
            old(self).gc_inv(),
            old(self).gc_heap().slot_ok(obj, i as int),
        ensures
            *final(self) == *old(self),
            r.0 == old(self).gc_heap().spec_field(obj, i as int),
    {
        proof {
            self.lemma_inv_heap();
        }
        self.heap().field(obj, i)
    }

    /// Store `val` into reference slot `i` of `obj`. This is where a write
    /// barrier lives.
    fn write_field(&mut self, obj: Handle, i: u16, val: Handle)
        requires
            old(self).gc_inv(),
            old(self).gc_heap().slot_ok(obj, i as int),
        ensures
            final(self).gc_inv(),
            final(self).gc_heap().cap() == old(self).gc_heap().cap(),
            final(self).gc_roots() == old(self).gc_roots(),
    ;

    /// Run a full collection now. Every collection is counted.
    fn collect(&mut self)
        requires
            old(self).gc_inv(),
        ensures
            final(self).gc_stats().collections == sat_add(old(self).gc_stats().collections, 1),
            final(self).gc_stats().allocation_failures == old(self).gc_stats().allocation_failures,
            final(self).gc_inv(),
            final(self).gc_heap().cap() == old(self).gc_heap().cap(),
            final(self).gc_roots().stack().len() == old(self).gc_roots().stack().len(),
    ;

    /// Called after a handle is pushed onto the shadow stack. A collector
    /// may update the bookkeeping bytes of that object's header (flags,
    /// colour, forwarding address, count), and nothing else.
    fn on_root_pushed(&mut self, h: Handle)
        requires
            old(self).gc_inv(),
        ensures
            final(self).gc_inv(),
            final(self).gc_heap().cap() == old(self).gc_heap().cap(),
            final(self).gc_roots() == old(self).gc_roots(),
            forall|j: int|
                0 <= j < old(self).gc_heap().cap() && !(h.0 + 6 <= j < h.0 + 16) ==> #[trigger] final(self).gc_heap()@[j]
                    == old(self).gc_heap()@[j],
    {
    }

    /// Called for each handle dropped when the shadow stack unwinds.
    fn on_root_popped(&mut self, h: Handle)
        requires
            old(self).gc_inv(),
        ensures
            final(self).gc_inv(),
            final(self).gc_heap().cap() == old(self).gc_heap().cap(),
            final(self).gc_roots() == old(self).gc_roots(),
    {
    }

    /// Called when a global binding changes, with the handles it named
    /// before and after.
    fn on_global_changed(&mut self, was: Handle, now: Handle)
        requires
            old(self).gc_inv(),
        ensures
            final(self).gc_inv(),
            final(self).gc_heap().cap() == old(self).gc_heap().cap(),
            final(self).gc_roots() == old(self).gc_roots(),
    {
    }
}

} // verus!
