//! The mutator: the program whose garbage is being collected.
//!
//! Workloads are written against this API rather than against the collector
//! directly. Every allocation returns a [`RootSlot`], not a `Handle`, so
//! workload code cannot hold a raw address across a collection that might
//! move it. And the mutator keeps the [`Model`] of the object graph in
//! lockstep with the real heap.
//!
//! The model records what the program did; the heap is whatever the collector
//! made of it. So the model is updated whenever the program's request makes
//! sense to the model, and the heap is touched only where the handle the
//! collector holds addresses a slot or payload of the right shape. A request
//! that makes sense to neither — a slot index past the end of the object, a
//! store into a null root — changes nothing.

use crate::collector::{Collector, GcError};
use crate::heap::{spec_size_for, Handle, Heap, NULL_ADDR};
use crate::model::{Model, ID_OFF, MAGIC, MAGIC_OFF, STAMP_BYTES};
use crate::roots::{lookup, RootSlot};
use crate::stats::GcStats;
use crate::verify::{self, agrees, push_num, spec_digits, Report};
use vstd::string::StringExecFns;
use vstd::prelude::*;

verus! {

pub struct Mutator<C: Collector> {
    /// The collector under test.
    pub gc: C,
    model: Model,
    /// The first request the program made that could not be carried out: an
    /// allocation the heap could not hold, or a store into or load from a
    /// slot that does not exist. The program goes on, but is no longer the
    /// one it meant to be.
    fault: Option<String>,
}

/// What an allocation that the collector refused reads as.
pub open spec fn allocation_fault_text(nrefs: u16, extra: u32, e: GcError) -> Seq<char> {
    match e {
        GcError::OutOfMemory { requested, used, capacity } => "allocation of "@ + spec_digits(nrefs as nat, 10)
            + " refs + "@ + spec_digits(extra as nat, 10) + " data bytes failed: out of memory: wanted "@
            + spec_digits(requested as nat, 10) + " bytes, "@ + spec_digits(used as nat, 10) + " of "@
            + spec_digits(capacity as nat, 10) + " in use"@,
    }
}

/// `h` is a freshly allocated object with `nrefs` slots and room for the
/// stamp and `extra` payload bytes, stamped with identity `id`.
pub open spec fn stamp_written(heap: Heap, h: Handle, nrefs: u16, extra: u32, id: u64) -> bool {
    &&& heap.spec_nrefs(h) == nrefs
    &&& heap.spec_size(h) == spec_size_for(nrefs as int, STAMP_BYTES + extra)
    &&& heap.spec_data_u64(h, ID_OFF as int) == id
    &&& heap.spec_data_u32(h, MAGIC_OFF as int) == MAGIC
}

/// The words for an allocation the collector refused.
fn allocation_fault(nrefs: u16, extra: u32, e: &GcError) -> (r: String)
    ensures
        r@ == allocation_fault_text(nrefs, extra, *e),
{
    let mut s = String::new();
    match e {
        GcError::OutOfMemory { requested, used, capacity } => {
            s.append("allocation of ");
            push_num(&mut s, nrefs as u64);
            s.append(" refs + ");
            push_num(&mut s, extra as u64);
            s.append(" data bytes failed: out of memory: wanted ");
            push_num(&mut s, *requested as u64);
            s.append(" bytes, ");
            push_num(&mut s, *used as u64);
            s.append(" of ");
            push_num(&mut s, *capacity as u64);
            s.append(" in use");
        },
    }
    assert(s@ =~= allocation_fault_text(nrefs, extra, *e));
    s
}

impl<C: Collector> Mutator<C> {
    /// The collector under test.
    pub closed spec fn spec_gc(&self) -> C {
        self.gc
    }

    /// The model of the object graph the program built.
    pub closed spec fn spec_model(&self) -> Model {
        self.model
    }

    /// The first request that could not be carried out, in words.
    pub closed spec fn spec_fault(&self) -> Option<Seq<char>> {
        match self.fault {
            Some(m) => Some(m@),
            None => None,
        }
    }

    /// The first request that could not be carried out, in words, if any.
    pub fn fault(&self) -> (r: Option<String>)
        ensures
            match r {
                Some(m) => self.spec_fault() == Some(m@),
                None => self.spec_fault() is None,
            },
    {
        match &self.fault {
            Some(m) => Some(m.clone()),
            None => None,
        }
    }

    /// Keep `msg` unless an earlier fault was already kept.
    fn record_fault(&mut self, msg: String)
        ensures
            final(self).gc == old(self).gc,
            final(self).model == old(self).model,
            final(self).spec_fault() == if old(self).spec_fault() is Some {
                old(self).spec_fault()
            } else {
                Some(msg@)
            },
    {
        if self.fault.is_none() {
            self.fault = Some(msg);
        }
    }

    /// The collector is consistent, the model is consistent, and the shadow
    /// stack and its mirror have the same depth.
    pub open spec fn wf(&self) -> bool {
        &&& self.spec_gc().gc_inv()
        &&& self.spec_model().wf()
        &&& self.spec_gc().gc_roots().stack().len() == self.spec_model().stack().len()
    }

    /// The depth of the shadow stack.
    pub open spec fn depth(&self) -> int {
        self.spec_model().stack().len() as int
    }

    /// The identity the model holds in `slot`.
    pub open spec fn slot_id(&self, slot: RootSlot) -> Option<u64> {
        self.spec_model().stack()[slot.0 as int]
    }

    /// Slot `i` of the object in `slot` exists, according to the model.
    pub open spec fn model_slot_ok(&self, slot: RootSlot, i: int) -> bool {
        &&& slot.0 < self.depth()
        &&& self.slot_id(slot) is Some
        &&& self.spec_model().obj(self.slot_id(slot)->Some_0) is Some
        &&& 0 <= i < self.spec_model().fields_of(self.slot_id(slot)->Some_0).len()
    }

    pub fn new(gc: C) -> (r: Mutator<C>)
        requires
            gc.gc_inv(),
            gc.gc_roots().stack().len() == 0,
        ensures
            r.wf(),
            r.spec_gc() == gc,
            r.depth() == 0,
            r.spec_model().table_len() == 0,
            r.spec_fault() is None,
    {
        Mutator { gc, model: Model::new(), fault: None }
    }

    /// Allocate an object with `nrefs` reference slots and `extra` bytes of
    /// scalar payload, root it, and return its slot.
    ///
    /// If the heap cannot satisfy the request, the slot returned is null and
    /// the failure is kept as the mutator's fault (unless an earlier one
    /// was), in the words the failure is reported in.
    pub fn allocate(&mut self, nrefs: u16, extra: u32) -> (r: RootSlot)
        requires
            old(self).wf(),
            16 + 4 * nrefs + STAMP_BYTES + extra + 15 <= u32::MAX,
        ensures
            final(self).wf(),
            r.0 == old(self).depth(),
            final(self).depth() == old(self).depth() + 1,
            final(self).spec_model().stack().subrange(0, old(self).depth()) == old(self).spec_model().stack(),
            final(self).slot_id(r) is Some ==> {
                &&& final(self).slot_id(r) == Some(old(self).spec_model().next_id())
                &&& final(self).spec_model().fields_of(old(self).spec_model().next_id())
                    == Seq::new(nrefs as nat, |k: int| None::<u64>)
                &&& final(self).spec_fault() == old(self).spec_fault()
            },
            final(self).slot_id(r) is None ==> final(self).spec_fault() is Some && (old(self).spec_fault() is Some
                ==> final(self).spec_fault() == old(self).spec_fault()),
            final(self).slot_id(r) is None && old(self).spec_fault() is None ==> exists|e: GcError|
                final(self).spec_fault() == Some(allocation_fault_text(nrefs, extra, e)),
    {
        match self.try_alloc(nrefs, extra) {
            Ok(s) => s,
            Err(e) => {
                let msg = allocation_fault(nrefs, extra, &e);
                let ghost text = msg@;
                self.record_fault(msg);
                proof {
                    if old(self).spec_fault() is None {
                        assert(self.spec_fault() == Some(allocation_fault_text(nrefs, extra, e)));
                    }
                }
                let s = self.gc.roots_mut().push(Handle::null());
                self.model.push_root(None);
                assert(self.model.stack().subrange(0, old(self).depth()) =~= old(self).model.stack());
                s
            },
        }
    }

    /// Allocate and root an object, or report why the heap could not hold it.
    ///
    /// The object carries its model identity and a magic number at the start
    /// of its payload, so verification can tell it from any other object.
    pub fn try_alloc(&mut self, nrefs: u16, extra: u32) -> (r: Result<RootSlot, GcError>)
        requires
            old(self).wf(),
            16 + 4 * nrefs + STAMP_BYTES + extra + 15 <= u32::MAX,
        ensures
            final(self).wf(),
            final(self).spec_fault() == old(self).spec_fault(),
            match r {
                Ok(s) => {
                    &&& s.0 == old(self).depth()
                    &&& final(self).depth() == old(self).depth() + 1
                    &&& final(self).spec_model().stack().subrange(0, old(self).depth()) == old(self).spec_model().stack()
                    &&& final(self).slot_id(s) == Some(old(self).spec_model().next_id())
                    &&& final(self).spec_model().obj(old(self).spec_model().next_id()) is Some
                    &&& final(self).spec_model().fields_of(old(self).spec_model().next_id())
                        == Seq::new(nrefs as nat, |k: int| None::<u64>)
                    &&& final(self).spec_model().live_count() == old(self).spec_model().live_count() + 1
                    &&& stamp_written(
                        final(self).spec_gc().gc_heap(),
                        final(self).spec_gc().gc_roots().stack()[s.0 as int],
                        nrefs,
                        extra,
                        old(self).spec_model().next_id(),
                    )
                },
                Err(GcError::OutOfMemory { requested, .. }) => {
                    &&& final(self).depth() == old(self).depth()
                    &&& final(self).spec_model() == old(self).spec_model()
                    &&& requested == spec_size_for(nrefs as int, STAMP_BYTES + extra)
                },
            },
    {
        if !self.model.can_record() {
            return Err(
                GcError::OutOfMemory {
                    requested: crate::heap::Heap::size_for(nrefs, STAMP_BYTES + extra),
                    used: self.gc.used_bytes(),
                    capacity: 0,
                },
            );
        }
        let h = match self.gc.allocate(nrefs, STAMP_BYTES + extra) {
            Ok(h) => h,
            Err(e) => return Err(e),
        };
        let id = self.model.allocate(nrefs, extra);
        proof {
            self.gc.lemma_inv_heap();
        }
        let ghost hb = self.gc.gc_heap();
        self.gc.heap_mut().set_data_u64(h, ID_OFF, id);
        let ghost h1 = self.gc.gc_heap();
        proof {
            assert(h1@[h.0 + 4] == hb@[h.0 + 4] && h1@[h.0 + 5] == hb@[h.0 + 5]);
            assert(h1@[h.0 as int] == hb@[h.0 as int] && h1@[h.0 + 1] == hb@[h.0 + 1] && h1@[h.0 + 2] == hb@[h.0 + 2]
                && h1@[h.0 + 3] == hb@[h.0 + 3]);
        }
        self.gc.heap_mut().set_data_u32(h, MAGIC_OFF, MAGIC);
        let ghost h2 = self.gc.gc_heap();
        proof {
            let o = h1.spec_data_offset(h);
            assert(h2@[h.0 + 4] == h1@[h.0 + 4] && h2@[h.0 + 5] == h1@[h.0 + 5]);
            assert(h2@[h.0 as int] == h1@[h.0 as int] && h2@[h.0 + 1] == h1@[h.0 + 1] && h2@[h.0 + 2] == h1@[h.0 + 2]
                && h2@[h.0 + 3] == h1@[h.0 + 3]);
            assert(h2.spec_data_offset(h) == o);
            assert(h2@[o] == h1@[o] && h2@[o + 1] == h1@[o + 1] && h2@[o + 2] == h1@[o + 2] && h2@[o + 3] == h1@[o + 3]
                && h2@[o + 4] == h1@[o + 4] && h2@[o + 5] == h1@[o + 5] && h2@[o + 6] == h1@[o + 6] && h2@[o + 7]
                == h1@[o + 7]);
        }
        let slot = self.gc.roots_mut().push(h);
        self.gc.on_root_pushed(h);
        proof {
            let h3 = self.gc.gc_heap();
            let o = h2.spec_data_offset(h);
            assert(h3@[h.0 + 4] == h2@[h.0 + 4] && h3@[h.0 + 5] == h2@[h.0 + 5]);
            assert(h3@[h.0 as int] == h2@[h.0 as int] && h3@[h.0 + 1] == h2@[h.0 + 1] && h3@[h.0 + 2] == h2@[h.0 + 2]
                && h3@[h.0 + 3] == h2@[h.0 + 3]);
            assert(h3.spec_data_offset(h) == o);
            assert(h3@[o] == h2@[o] && h3@[o + 1] == h2@[o + 1] && h3@[o + 2] == h2@[o + 2] && h3@[o + 3] == h2@[o + 3]
                && h3@[o + 4] == h2@[o + 4] && h3@[o + 5] == h2@[o + 5] && h3@[o + 6] == h2@[o + 6] && h3@[o + 7]
                == h2@[o + 7] && h3@[o + 8] == h2@[o + 8] && h3@[o + 9] == h2@[o + 9] && h3@[o + 10] == h2@[o + 10]
                && h3@[o + 11] == h2@[o + 11]);
        }
        self.model.push_root(Some(id));
        assert(self.model.stack().subrange(0, old(self).depth()) =~= old(self).model.stack());
        Ok(slot)
    }

    /// Store the object in `child` into reference slot `i` of `parent`.
    pub fn store(&mut self, parent: RootSlot, i: u16, child: RootSlot)
        requires
            old(self).wf(),
            parent.0 < old(self).depth(),
            child.0 < old(self).depth(),
        ensures
            final(self).wf(),
            final(self).spec_model().stack() == old(self).spec_model().stack(),
            old(self).model_slot_ok(parent, i as int) ==> final(self).spec_model().fields_of(
                old(self).slot_id(parent)->Some_0,
            ) == old(self).spec_model().fields_of(old(self).slot_id(parent)->Some_0).update(
                i as int,
                old(self).slot_id(child),
            ),
            forall|x: u64|
                !(old(self).model_slot_ok(parent, i as int) && x == old(self).slot_id(
                    parent,
                )->Some_0) ==> #[trigger] final(self).spec_model().obj(x) == old(self).spec_model().obj(x),
            old(self).model_slot_ok(parent, i as int) || old(self).spec_fault() is Some ==> final(self).spec_fault()
                == old(self).spec_fault(),
            !old(self).model_slot_ok(parent, i as int) ==> final(self).spec_fault() is Some,
            old(self).slot_id(parent) is None && old(self).spec_fault() is None ==> final(self).spec_fault()
                == Some("store into a null slot"@),
    {
        let p = self.handle(parent);
        let c = self.handle(child);
        proof {
            self.gc.lemma_inv_heap();
        }
        if self.gc.heap().field_ok(p, i) {
            self.gc.write_field(p, i, c);
        }
        let pid = self.id(parent);
        let cid = self.id(child);
        self.store_model(pid, i, cid);
    }

    /// Record a store in the model, if the model has such a slot.
    fn store_model(&mut self, pid: Option<u64>, i: u16, cid: Option<u64>)
        requires
            old(self).spec_model().wf(),
            cid matches Some(c) ==> old(self).spec_model().known_id(c),
        ensures
            final(self).spec_gc() == old(self).spec_gc(),
            final(self).spec_model().wf(),
            final(self).spec_model().stack() == old(self).spec_model().stack(),
            final(self).spec_model().table_len() == old(self).spec_model().table_len(),
            ({
                let ok = pid is Some && old(self).spec_model().obj(pid->Some_0) is Some && i
                    < old(self).spec_model().fields_of(pid->Some_0).len();
                &&& ok ==> final(self).spec_model().fields_of(pid->Some_0) == old(self).spec_model().fields_of(pid->Some_0).update(i as int, cid)
                &&& forall|x: u64|
                    !(ok && x == pid->Some_0) ==> #[trigger] final(self).spec_model().obj(x)
                        == old(self).spec_model().obj(x)
                &&& ok || old(self).spec_fault() is Some ==> final(self).spec_fault() == old(self).spec_fault()
                &&& !ok ==> final(self).spec_fault() is Some
                &&& pid is None && old(self).spec_fault() is None ==> final(self).spec_fault() == Some(
                    "store into a null slot"@,
                )
            }),
    {
        match pid {
            Some(pid) => match self.model.get(pid) {
                Some(o) => {
                    if (i as usize) < o.fields.len() {
                        self.model.store(pid, i, cid);
                    } else {
                        self.record_fault(String::from_str("store into a slot the object does not have"));
                    }
                },
                None => {
                    self.record_fault(String::from_str("model: store into unknown object"));
                },
            },
            None => {
                self.record_fault(String::from_str("store into a null slot"));
            },
        }
    }

    /// Null out reference slot `i` of `parent`.
    pub fn store_null(&mut self, parent: RootSlot, i: u16)
        requires
            old(self).wf(),
            parent.0 < old(self).depth(),
        ensures
            final(self).wf(),
            final(self).spec_model().stack() == old(self).spec_model().stack(),
            old(self).model_slot_ok(parent, i as int) ==> final(self).spec_model().fields_of(
                old(self).slot_id(parent)->Some_0,
            ) == old(self).spec_model().fields_of(old(self).slot_id(parent)->Some_0).update(
                i as int,
                None,
            ),
            forall|x: u64|
                !(old(self).model_slot_ok(parent, i as int) && x == old(self).slot_id(
                    parent,
                )->Some_0) ==> #[trigger] final(self).spec_model().obj(x) == old(self).spec_model().obj(x),
            old(self).model_slot_ok(parent, i as int) || old(self).spec_fault() is Some ==> final(self).spec_fault()
                == old(self).spec_fault(),
            !old(self).model_slot_ok(parent, i as int) ==> final(self).spec_fault() is Some,
            old(self).slot_id(parent) is None && old(self).spec_fault() is None ==> final(self).spec_fault()
                == Some("store into a null slot"@),
    {
        let p = self.handle(parent);
        proof {
            self.gc.lemma_inv_heap();
        }
        if self.gc.heap().field_ok(p, i) {
            self.gc.write_field(p, i, Handle::null());
        }
        let pid = self.id(parent);
        self.store_model(pid, i, None);
    }

    /// Read reference slot `i` of `parent` and root the result.
    ///
    /// The model's side of the new root is the identity the model holds in
    /// that slot, or null if the model has no such slot.
    pub fn load(&mut self, parent: RootSlot, i: u16) -> (r: RootSlot)
        requires
            old(self).wf(),
            parent.0 < old(self).depth(),
        ensures
            final(self).wf(),
            r.0 == old(self).depth(),
            final(self).spec_model().stack() == old(self).spec_model().stack().push(
                if old(self).model_slot_ok(parent, i as int) {
                    old(self).spec_model().fields_of(old(self).slot_id(parent)->Some_0)[i as int]
                } else {
                    None
                },
            ),
            forall|x: u64| #[trigger] final(self).spec_model().obj(x) == old(self).spec_model().obj(x),
            old(self).model_slot_ok(parent, i as int) || old(self).spec_fault() is Some ==> final(self).spec_fault()
                == old(self).spec_fault(),
            !old(self).model_slot_ok(parent, i as int) ==> final(self).spec_fault() is Some,
            old(self).slot_id(parent) is None && old(self).spec_fault() is None ==> final(self).spec_fault()
                == Some("load from a null slot"@),
            ({
                let hp = old(self).spec_gc().gc_heap();
                let p = old(self).spec_gc().gc_roots().stack()[parent.0 as int];
                final(self).spec_gc().gc_roots().stack() == old(self).spec_gc().gc_roots().stack().push(
                    if hp.slot_ok(p, i as int) {
                        Handle(hp.spec_field(p, i as int) as u32)
                    } else {
                        Handle(NULL_ADDR)
                    },
                )
            }),
    {
        let p = self.handle(parent);
        proof {
            self.gc.lemma_inv_heap();
        }
        let child = if self.gc.heap().field_ok(p, i) {
            self.gc.read_field(p, i)
        } else {
            Handle::null()
        };
        let pid = self.id(parent);
        let cid = self.model_field(pid, i);
        match pid {
            Some(p) => {
                if cid.is_none() && !self.model_has_slot(p, i) {
                    self.record_fault(String::from_str("load from a slot the object does not have"));
                }
            },
            None => {
                self.record_fault(String::from_str("load from a null slot"));
            },
        }
        let slot = self.gc.roots_mut().push(child);
        if !child.is_null() {
            self.gc.on_root_pushed(child);
        }
        self.model.push_root(cid);
        slot
    }

    /// Whether the model knows object `pid` and it has a slot `i`.
    fn model_has_slot(&self, pid: u64, i: u16) -> (r: bool)
        requires
            self.spec_model().wf(),
        ensures
            r == (self.spec_model().obj(pid) is Some && i < self.spec_model().fields_of(pid).len()),
    {
        match self.model.get(pid) {
            Some(o) => (i as usize) < o.fields.len(),
            None => false,
        }
    }

    /// The identity the model holds in slot `i` of `pid`, if it has one.
    fn model_field(&self, pid: Option<u64>, i: u16) -> (r: Option<u64>)
        requires
            self.spec_model().wf(),
        ensures
            r == if pid is Some && self.spec_model().obj(pid->Some_0) is Some && i
                < self.spec_model().fields_of(pid->Some_0).len() {
                self.spec_model().fields_of(pid->Some_0)[i as int]
            } else {
                None
            },
            r matches Some(c) ==> self.spec_model().known_id(c),
    {
        match pid {
            Some(pid) => match self.model.get(pid) {
                Some(o) => {
                    if (i as usize) < o.fields.len() {
                        self.model.field(pid, i)
                    } else {
                        None
                    }
                },
                None => None,
            },
            None => None,
        }
    }

    /// Root the same object a second time, as a fresh local variable.
    pub fn dup(&mut self, slot: RootSlot) -> (r: RootSlot)
        requires
            old(self).wf(),
            slot.0 < old(self).depth(),
        ensures
            final(self).wf(),
            r.0 == old(self).depth(),
            final(self).spec_model().stack() == old(self).spec_model().stack().push(
                old(self).slot_id(slot),
            ),
            forall|x: u64| #[trigger] final(self).spec_model().obj(x) == old(self).spec_model().obj(x),
    {
        let h = self.handle(slot);
        let id = self.id(slot);
        let new = self.gc.roots_mut().push(h);
        if !h.is_null() {
            self.gc.on_root_pushed(h);
        }
        self.model.push_root(id);
        new
    }

    /// Assign the object in `src` to the local variable `dst`.
    ///
    /// The new value is retained before the old one is released, which
    /// matters when they are the same object.
    pub fn assign(&mut self, dst: RootSlot, src: RootSlot)
        requires
            old(self).wf(),
            dst.0 < old(self).depth(),
            src.0 < old(self).depth(),
        ensures
            final(self).wf(),
            final(self).spec_model().stack() == old(self).spec_model().stack().update(
                dst.0 as int,
                old(self).slot_id(src),
            ),
            forall|x: u64| #[trigger] final(self).spec_model().obj(x) == old(self).spec_model().obj(x),
            final(self).spec_gc().gc_roots().stack() == old(self).spec_gc().gc_roots().stack().update(
                dst.0 as int,
                old(self).spec_gc().gc_roots().stack()[src.0 as int],
            ),
    {
        let new = self.handle(src);
        let was = self.handle(dst);
        if !new.is_null() {
            self.gc.on_root_pushed(new);
        }
        self.gc.roots_mut().set(dst, new);
        if !was.is_null() {
            self.gc.on_root_popped(was);
        }
        let id = self.id(src);
        self.model.set_root(dst.0, id);
    }

    /// Current address of the object in `slot`.
    pub fn handle(&self, slot: RootSlot) -> (r: Handle)
        requires
            self.wf(),
            slot.0 < self.depth(),
        ensures
            r == self.spec_gc().gc_roots().stack()[slot.0 as int],
    {
        self.gc.roots().get(slot)
    }

    /// Model identity of the object in `slot`.
    pub fn id(&self, slot: RootSlot) -> (r: Option<u64>)
        requires
            self.wf(),
            slot.0 < self.depth(),
        ensures
            r == self.slot_id(slot),
            r matches Some(c) ==> self.spec_model().known_id(c),
    {
        self.model.root(slot.0)
    }

    pub fn is_null(&self, slot: RootSlot) -> (r: bool)
        requires
            self.wf(),
            slot.0 < self.depth(),
        ensures
            r == (self.slot_id(slot) is None),
    {
        self.model.root(slot.0).is_none()
    }

    /// Current shadow stack depth.
    pub fn root_depth(&self) -> (r: usize)
        requires
            self.wf(),
        ensures
            r == self.depth(),
    {
        self.gc.roots().depth()
    }

    /// Drop every root above `depth`.
    pub fn unwind(&mut self, depth: usize)
        requires
            old(self).wf(),
            depth <= old(self).depth(),
        ensures
            final(self).wf(),
            final(self).spec_model().stack() == old(self).spec_model().stack().subrange(
                0,
                depth as int,
            ),
            forall|x: u64| #[trigger] final(self).spec_model().obj(x) == old(self).spec_model().obj(x),
    {
        let dropped = self.gc.roots_mut().unwind(depth);
        let mut k: usize = 0;
        while k < dropped.len()
            invariant
                self.gc.gc_inv(),
                self.gc.gc_roots().stack().len() == depth,
                self.model == old(self).model,
                k <= dropped@.len(),
            decreases dropped@.len() - k,
        {
            let h = dropped[k];
            if !h.is_null() {
                self.gc.on_root_popped(h);
            }
            k = k + 1;
        }
        self.model.unwind(depth);
    }

    /// Bind `name` to the object in `slot`, or unbind it if the slot is null.
    pub fn set_global(&mut self, name: &str, slot: RootSlot)
        requires
            old(self).wf(),
            slot.0 < old(self).depth(),
        ensures
            final(self).wf(),
            final(self).spec_model().stack() == old(self).spec_model().stack(),
            lookup(final(self).spec_model().bindings(), name@) == old(self).slot_id(slot),
            forall|n: Seq<char>|
                n != name@ ==> #[trigger] lookup(final(self).spec_model().bindings(), n)
                    == lookup(old(self).spec_model().bindings(), n),
            forall|x: u64| #[trigger] final(self).spec_model().obj(x) == old(self).spec_model().obj(x),
    {
        let h = self.handle(slot);
        let was = match self.gc.roots_mut().set_global(name, h) {
            Some(w) => w,
            None => Handle::null(),
        };
        self.gc.on_global_changed(was, h);
        match self.id(slot) {
            Some(id) => self.model.set_global(name, id),
            None => self.model.remove_global(name),
        }
    }

    /// Root the object currently bound to `name`.
    pub fn global(&mut self, name: &str) -> (r: RootSlot)
        requires
            old(self).wf(),
        ensures
            final(self).wf(),
            r.0 == old(self).depth(),
            final(self).spec_model().stack() == old(self).spec_model().stack().push(
                lookup(old(self).spec_model().bindings(), name@),
            ),
            forall|x: u64| #[trigger] final(self).spec_model().obj(x) == old(self).spec_model().obj(x),
    {
        let h = self.gc.roots().global(name);
        let id = self.model.global(name);
        let slot = self.gc.roots_mut().push(h);
        if !h.is_null() {
            self.gc.on_root_pushed(h);
        }
        self.model.push_root(id);
        slot
    }

    pub fn clear_global(&mut self, name: &str)
        requires
            old(self).wf(),
        ensures
            final(self).wf(),
            final(self).spec_model().stack() == old(self).spec_model().stack(),
            lookup(final(self).spec_model().bindings(), name@) == None::<u64>,
            forall|n: Seq<char>|
                n != name@ ==> #[trigger] lookup(final(self).spec_model().bindings(), n)
                    == lookup(old(self).spec_model().bindings(), n),
            forall|x: u64| #[trigger] final(self).spec_model().obj(x) == old(self).spec_model().obj(x),
    {
        let was = match self.gc.roots_mut().remove_global(name) {
            Some(w) => w,
            None => Handle::null(),
        };
        self.gc.on_global_changed(was, Handle::null());
        self.model.remove_global(name);
    }

    /// Write scalar word `index` of the object's user payload.
    pub fn write_u64(&mut self, slot: RootSlot, index: u32, v: u64)
        requires
            old(self).wf(),
            slot.0 < old(self).depth(),
            STAMP_BYTES + 8 * index <= u32::MAX,
        ensures
            final(self).wf(),
            final(self).spec_model() == old(self).spec_model(),
            ({
                let h = old(self).spec_gc().gc_roots().stack()[slot.0 as int];
                let off = STAMP_BYTES + 8 * index;
                old(self).spec_gc().gc_heap().data_range_in(h, off, 8) ==> final(self).spec_gc().gc_heap().spec_data_u64(h, off) == v
            }),
    {
        let h = self.handle(slot);
        let off = STAMP_BYTES + 8 * index;
        proof {
            self.gc.lemma_inv_heap();
        }
        if self.gc.heap().data_ok(h, off, 8) {
            self.gc.heap_mut().set_data_u64(h, off, v);
        }
    }

    /// Read scalar word `index` of the object's user payload, or zero if the
    /// object in `slot` has no such word.
    pub fn read_u64(&mut self, slot: RootSlot, index: u32) -> (r: u64)
        requires
            old(self).wf(),
            slot.0 < old(self).depth(),
            STAMP_BYTES + 8 * index <= u32::MAX,
        ensures
            *final(self) == *old(self),
            ({
                let h = old(self).spec_gc().gc_roots().stack()[slot.0 as int];
                let off = STAMP_BYTES + 8 * index;
                r == if old(self).spec_gc().gc_heap().data_range_in(h, off, 8) {
                    old(self).spec_gc().gc_heap().spec_data_u64(h, off)
                } else {
                    0
                }
            }),
    {
        let h = self.handle(slot);
        let off = STAMP_BYTES + 8 * index;
        proof {
            self.gc.lemma_inv_heap();
        }
        if self.gc.heap().data_ok(h, off, 8) {
            self.gc.heap().data_u64(h, off)
        } else {
            0
        }
    }

    /// Run a full collection. The model is untouched, and the collection
    /// is counted.
    pub fn collect(&mut self)
        requires
            old(self).wf(),
        ensures
            final(self).wf(),
            final(self).spec_model() == old(self).spec_model(),
            final(self).spec_gc().gc_stats().collections == crate::stats::sat_add(
                old(self).spec_gc().gc_stats().collections,
                1,
            ),
    {
        self.gc.collect();
    }

    pub fn stats(&self) -> (r: &GcStats)
        ensures
            *r == self.spec_gc().gc_stats(),
    {
        self.gc.stats()
    }

    pub fn used_bytes(&self) -> (r: u32)
        ensures
            r == self.spec_gc().gc_used(),
    {
        self.gc.used_bytes()
    }

    pub fn model(&self) -> (r: &Model)
        ensures
            *r == self.spec_model(),
    {
        &self.model
    }

    /// Discard model entries for objects that are provably unreachable.
    pub fn forget_unreachable(&mut self)
        requires
            old(self).wf(),
        ensures
            final(self).wf(),
            final(self).spec_gc() == old(self).spec_gc(),
            forall|id: u64|
                #[trigger] final(self).spec_model().obj(id) == if old(self).spec_model().is_reachable(id) {
                    old(self).spec_model().obj(id)
                } else {
                    None
                },
            final(self).spec_model().stack() == old(self).spec_model().stack(),
    {
        self.model.forget_unreachable();
    }

    /// Walk the heap and compare it against the model.
    pub fn verify(&mut self) -> (r: Report)
        requires
            old(self).wf(),
        ensures
            final(self).wf(),
            final(self).spec_model() == old(self).spec_model(),
            *final(self) == *old(self),
            r.is_clean() ==> agrees(final(self).spec_gc().gc_heap(), final(self).spec_gc().gc_roots(), final(self).spec_model()),
            (exists|at: Map<u64, Handle>|
                crate::verify::faithful(old(self).spec_gc().gc_heap(), old(self).spec_gc().gc_roots(), old(self).spec_model(), at))
                ==> r.is_clean(),
    {
        verify::verify(&mut self.gc, &self.model)
    }

    /// `Ok` unless the heap disagrees with the model, in which case the
    /// report says how.
    pub fn assert_consistent(&mut self) -> (r: Result<(), Report>)
        requires
            old(self).wf(),
        ensures
            final(self).wf(),
            final(self).spec_model() == old(self).spec_model(),
            *final(self) == *old(self),
            r is Ok ==> agrees(final(self).spec_gc().gc_heap(), final(self).spec_gc().gc_roots(), final(self).spec_model()),
            r matches Err(rep) ==> !rep.is_clean(),
            (exists|at: Map<u64, Handle>|
                crate::verify::faithful(old(self).spec_gc().gc_heap(), old(self).spec_gc().gc_roots(), old(self).spec_model(), at))
                ==> r is Ok,
    {
        let report = self.verify();
        if report.ok() {
            Ok(())
        } else {
            Err(report)
        }
    }

    /// `Ok` only if the heap agrees with the model and nothing unreachable
    /// is still occupying space: the bytes in use are exactly the bytes the
    /// model can reach.
    pub fn assert_fully_reclaimed(&mut self) -> (r: Result<(), Report>)
        requires
            old(self).wf(),
        ensures
            *final(self) == *old(self),
            r is Ok ==> agrees(final(self).spec_gc().gc_heap(), final(self).spec_gc().gc_roots(), final(self).spec_model()),
            r is Ok ==> final(self).spec_gc().gc_used() == crate::model::reach_bytes(
                &final(self).spec_model(),
                final(self).spec_model().table_len(),
            ),
            (exists|at: Map<u64, Handle>|
                crate::verify::faithful(old(self).spec_gc().gc_heap(), old(self).spec_gc().gc_roots(), old(self).spec_model(), at))
                && old(self).spec_gc().gc_used() == crate::model::reach_bytes(
                &old(self).spec_model(),
                old(self).spec_model().table_len(),
            ) ==> r is Ok,
            r matches Err(rep) ==> !rep.is_clean(),
    {
        let report = self.verify();
        if !report.ok() {
            return Err(report);
        }
        match verify::check_accounting(&self.gc, &self.model) {
            None => Ok(()),
            Some(v) => Err(Report { violations: vec![v], omitted: 0, visited: report.visited }),
        }
    }
}

} // verus!
