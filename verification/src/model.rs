//! An independent model of the object graph the mutator built.
//!
//! The model is maintained by the mutator in lockstep with the real heap. It
//! is deliberately trivial: a table from object identity to its fields, plus
//! a mirror of the root set. It never consults the collector, so it stays
//! correct no matter how badly the collector misbehaves.
//!
//! Identities are handed out in order from 1, so object `id` lives at
//! position `id - 1` of the table. An object the model has forgotten leaves
//! an empty entry behind.

use crate::heap::{spec_size_for, Heap};
use crate::roots::{lemma_lookup_last_match, lemma_lookup_none, lemma_lookup_push, lemma_lookup_update, lemma_lookup_without, last_match, lookup, without};
use std::collections::BTreeSet;
use vstd::prelude::*;

verus! {

/// Payload offset of the identity stamp.
pub const ID_OFF: u32 = 0;
/// Payload offset of the magic number.
pub const MAGIC_OFF: u32 = 8;
/// Value written at [`MAGIC_OFF`].
pub const MAGIC: u32 = 0xC0FF_EE01;
/// Payload bytes reserved for the stamp. User data starts after this.
pub const STAMP_BYTES: u32 = 12;

pub struct ModelObj {
    pub id: u64,
    pub nrefs: u16,
    /// Payload bytes beyond the stamp.
    pub extra: u32,
    /// Total heap footprint including header and padding.
    pub size: u32,
    /// Reference slots, by identity. `None` is a null slot.
    pub fields: Vec<Option<u64>>,
    /// Allocation order.
    pub seq: u64,
}

/// Number of `false` entries in `s`.
pub open spec fn count_false(s: Seq<bool>) -> nat
    decreases s.len(),
{
    if s.len() == 0 {
        0
    } else {
        count_false(s.drop_last()) + if s.last() {
            0nat
        } else {
            1nat
        }
    }
}

pub proof fn lemma_count_false_set(s: Seq<bool>, i: int)
    requires
        0 <= i < s.len(),
        !s[i],
    ensures
        count_false(s.update(i, true)) + 1 == count_false(s),
    decreases s.len(),
{
    let u = s.update(i, true);
    if i == s.len() - 1 {
        assert(u.drop_last() =~= s.drop_last());
    } else {
        assert(u.drop_last() =~= s.drop_last().update(i, true));
        lemma_count_false_set(s.drop_last(), i);
    }
}

pub proof fn lemma_count_false_bound(s: Seq<bool>)
    ensures
        count_false(s) <= s.len(),
    decreases s.len(),
{
    if s.len() > 0 {
        lemma_count_false_bound(s.drop_last());
    }
}

pub proof fn lemma_count_false_all(n: nat)
    ensures
        count_false(Seq::new(n, |i: int| false)) == n,
    decreases n,
{
    if n > 0 {
        assert(Seq::new(n, |i: int| false).drop_last() =~= Seq::new((n - 1) as nat, |i: int| false));
        lemma_count_false_all((n - 1) as nat);
    }
}

/// The identities among `s`, in order, skipping empty entries.
pub open spec fn stack_ids(s: Seq<Option<u64>>) -> Seq<u64>
    decreases s.len(),
{
    if s.len() == 0 {
        Seq::empty()
    } else {
        match s.last() {
            Some(id) => stack_ids(s.drop_last()).push(id),
            None => stack_ids(s.drop_last()),
        }
    }
}

/// Total size of the reachable objects among the first `i` identities,
/// pinned at `u64::MAX`.
pub open spec fn reach_bytes(m: &Model, i: int) -> int
    decreases i,
{
    if i <= 0 {
        0
    } else {
        let prev = reach_bytes(m, i - 1);
        let id = i as u64;
        let add = if m.is_reachable(id) && m.obj(id) is Some {
            m.obj(id)->Some_0.size as int
        } else {
            0
        };
        if prev + add > u64::MAX {
            u64::MAX as int
        } else {
            prev + add
        }
    }
}

/// Insert `id` into `set`.
fn add_id(set: &mut BTreeSet<u64>, id: u64)
    ensures
        final(set)@ == old(set)@.insert(id),
{
    broadcast use vstd::laws_cmp::group_laws_cmp;

    set.insert(id);
}

pub struct Model {
    objs: Vec<Option<ModelObj>>,
    stack: Vec<Option<u64>>,
    globals: Vec<(String, u64)>,
    next_id: u64,
    seq: u64,
}

impl Model {
    /// The object with identity `id`, if the model knows it.
    pub closed spec fn obj(&self, id: u64) -> Option<ModelObj> {
        if 1 <= id <= self.objs@.len() {
            self.objs@[id - 1]
        } else {
            None
        }
    }

    /// The reference slots of object `id`, by identity.
    pub open spec fn fields_of(&self, id: u64) -> Seq<Option<u64>> {
        self.obj(id)->Some_0.fields@
    }

    /// The mirror of the shadow stack.
    pub closed spec fn stack(&self) -> Seq<Option<u64>> {
        self.stack@
    }

    /// The mirror of the global table.
    pub closed spec fn bindings(&self) -> Seq<(Seq<char>, u64)> {
        self.globals@.map_values(|e: (String, u64)| (e.0@, e.1))
    }

    /// The identity the next allocation will receive.
    pub closed spec fn next_id(&self) -> u64 {
        self.next_id
    }

    /// Number of table entries: every identity handed out so far.
    pub closed spec fn table_len(&self) -> int {
        self.objs@.len() as int
    }

    /// Number of objects the model still knows: every identity handed out
    /// but those forgotten.
    pub open spec fn live_count(&self) -> int {
        self.table_len() - count_false(self.present())
    }

    /// `id` names an entry of the table, forgotten or not.
    pub open spec fn known_id(&self, id: u64) -> bool {
        1 <= id <= self.table_len()
    }

    /// Identities are dense from 1, each entry carries its own identity and
    /// exactly `nrefs` slots, and every identity named by a root or a slot is
    /// one the table has handed out.
    pub closed spec fn wf(&self) -> bool {
        &&& self.next_id == self.objs@.len() + 1
        &&& forall|i: int|
            0 <= i < self.objs@.len() && (#[trigger] self.objs@[i]) is Some ==> {
                let o = self.objs@[i]->Some_0;
                &&& o.id == i + 1
                &&& o.fields@.len() == o.nrefs
                &&& forall|k: int|
                    0 <= k < o.fields@.len() && (#[trigger] o.fields@[k]) is Some ==> 1
                        <= o.fields@[k]->Some_0 <= self.objs@.len()
            }
        &&& forall|i: int|
            0 <= i < self.stack@.len() && (#[trigger] self.stack@[i]) is Some ==> 1
                <= self.stack@[i]->Some_0 <= self.objs@.len()
        &&& forall|i: int|
            0 <= i < self.globals@.len() ==> 1 <= (#[trigger] self.globals@[i]).1
                <= self.objs@.len()
    }

    /// The identities the roots name directly: the shadow stack's non-null
    /// entries, bottom first, then every global binding.
    pub open spec fn root_id_seq(&self) -> Seq<u64> {
        stack_ids(self.stack()) + self.bindings().map_values(|e: (Seq<char>, u64)| e.1)
    }

    /// Everything the roots name directly.
    pub open spec fn is_root_id(&self, id: u64) -> bool {
        self.root_id_seq().contains(id)
    }

    /// `child` is named by some slot of the known object `parent`.
    pub open spec fn points_to(&self, parent: u64, child: u64) -> bool {
        &&& self.obj(parent) is Some
        &&& exists|k: int|
            0 <= k < self.fields_of(parent).len() && #[trigger] self.fields_of(parent)[k] == Some(
                child,
            )
    }

    /// `id` can be reached from a root in at most `n` steps.
    pub open spec fn reach_within(&self, n: nat, id: u64) -> bool
        decreases n,
    {
        if n == 0 {
            self.is_root_id(id)
        } else {
            self.reach_within((n - 1) as nat, id) || exists|p: u64|
                #[trigger] self.points_to(p, id) && self.reach_within((n - 1) as nat, p)
        }
    }

    /// `id` is transitively reachable from a root.
    pub open spec fn is_reachable(&self, id: u64) -> bool {
        exists|n: nat| #[trigger] self.reach_within(n, id)
    }

    pub fn new() -> (r: Model)
        ensures
            r.wf(),
            r.table_len() == 0,
            r.next_id() == 1,
            r.stack() == Seq::<Option<u64>>::empty(),
            r.bindings() == Seq::<(Seq<char>, u64)>::empty(),
            r.live_count() == 0,
    {
        let r = Model { objs: Vec::new(), stack: Vec::new(), globals: Vec::new(), next_id: 1, seq: 0 };
        assert(r.bindings() =~= Seq::<(Seq<char>, u64)>::empty());
        assert(r.present() =~= Seq::<bool>::empty());
        r
    }

    /// There is room for another identity.
    pub open spec fn has_room(&self) -> bool {
        self.next_id() < u64::MAX && self.table_len() < usize::MAX
    }

    /// Whether another object can be recorded.
    pub fn can_record(&self) -> (r: bool)
        ensures
            r == self.has_room(),
    {
        self.next_id < u64::MAX && self.objs.len() < usize::MAX
    }

    /// Record a new object and return its identity.
    pub fn allocate(&mut self, nrefs: u16, extra: u32) -> (r: u64)
        requires
            old(self).wf(),
            old(self).has_room(),
            16 + 4 * nrefs + STAMP_BYTES + extra + 15 <= u32::MAX,
        ensures
            final(self).wf(),
            r == old(self).next_id(),
            final(self).known_id(r),
            final(self).next_id() == r + 1,
            final(self).table_len() == old(self).table_len() + 1,
            final(self).live_count() == old(self).live_count() + 1,
            final(self).obj(r) is Some,
            final(self).obj(r)->Some_0.id == r,
            final(self).obj(r)->Some_0.nrefs == nrefs,
            final(self).obj(r)->Some_0.extra == extra,
            final(self).obj(r)->Some_0.size == spec_size_for(nrefs as int, STAMP_BYTES + extra),
            final(self).fields_of(r) == Seq::new(nrefs as nat, |k: int| None::<u64>),
            forall|id: u64| id != r ==> #[trigger] final(self).obj(id) == old(self).obj(id),
            final(self).stack() == old(self).stack(),
            final(self).bindings() == old(self).bindings(),
    {
        let id = self.next_id;
        self.next_id = self.next_id + 1;
        self.seq = self.seq.saturating_add(1);
        let mut fields: Vec<Option<u64>> = Vec::new();
        let mut k: u16 = 0;
        while k < nrefs
            invariant
                k <= nrefs,
                fields@ == Seq::new(k as nat, |j: int| None::<u64>),
            decreases nrefs - k,
        {
            fields.push(None);
            k = k + 1;
            assert(fields@ =~= Seq::new(k as nat, |j: int| None::<u64>));
        }
        let size = Heap::size_for(nrefs, STAMP_BYTES + extra);
        self.objs.push(Some(ModelObj { id, nrefs, extra, size, fields, seq: self.seq }));
        proof {
            assert(self.present().drop_last() =~= old(self).present());
            assert(self.present().last());
            assert forall|i: int|
                0 <= i < self.objs@.len() && (#[trigger] self.objs@[i]) is Some implies {
                let o = self.objs@[i]->Some_0;
                &&& o.id == i + 1
                &&& o.fields@.len() == o.nrefs
                &&& forall|k: int|
                    0 <= k < o.fields@.len() && (#[trigger] o.fields@[k]) is Some ==> 1
                        <= o.fields@[k]->Some_0 <= self.objs@.len()
            } by {
                if i < self.objs@.len() - 1 {
                    assert(self.objs@[i] == old(self).objs@[i]);
                }
            }
        }
        id
    }

    pub fn get(&self, id: u64) -> (r: Option<&ModelObj>)
        requires
            self.wf(),
        ensures
            r == match self.obj(id) {
                Some(o) => Some(&o),
                None => None::<&ModelObj>,
            },
    {
        if id >= 1 && id - 1 < self.objs.len() as u64 {
            match &self.objs[(id - 1) as usize] {
                Some(o) => Some(o),
                None => None,
            }
        } else {
            None
        }
    }

    /// Number of identities handed out so far.
    pub fn table_size(&self) -> (r: usize)
        ensures
            r == self.table_len(),
    {
        self.objs.len()
    }

    /// Every global binding names an identity the table has handed out.
    pub proof fn lemma_bindings_known(&self, g: int)
        requires
            self.wf(),
            0 <= g < self.bindings().len(),
        ensures
            self.known_id(self.bindings()[g].1),
    {
        assert(self.bindings()[g].1 == self.globals@[g].1);
    }

    /// Every slot of a known object names an identity the table has handed out.
    pub proof fn lemma_fields_known(&self, id: u64, k: int)
        requires
            self.wf(),
            self.obj(id) is Some,
            0 <= k < self.fields_of(id).len(),
            self.fields_of(id)[k] is Some,
        ensures
            self.known_id(self.fields_of(id)[k]->Some_0),
    {
        assert(self.objs@[id - 1] == self.obj(id));
    }

    /// Every object the model holds has exactly `nrefs` slots.
    pub proof fn lemma_obj_shape(&self, id: u64)
        requires
            self.wf(),
            self.obj(id) is Some,
        ensures
            self.known_id(id),
            self.fields_of(id).len() == self.obj(id)->Some_0.nrefs,
            self.obj(id)->Some_0.id == id,
    {
        assert(self.objs@[id - 1] == self.obj(id));
    }

    /// Table position of identity `id`.
    fn index_of(&self, id: u64) -> (r: usize)
        requires
            self.known_id(id),
        ensures
            r == id - 1,
    {
        let n = self.objs.len();
        assert(id - 1 < n);
        (id - 1) as usize
    }

    /// Record that slot `i` of `parent` now names `child`.
    pub fn store(&mut self, parent: u64, i: u16, child: Option<u64>)
        requires
            old(self).wf(),
            old(self).obj(parent) is Some,
            i < old(self).fields_of(parent).len(),
            child matches Some(c) ==> old(self).known_id(c),
        ensures
            final(self).wf(),
            final(self).fields_of(parent) == old(self).fields_of(parent).update(i as int, child),
            final(self).obj(parent) is Some,
            final(self).obj(parent)->Some_0.nrefs == old(self).obj(parent)->Some_0.nrefs,
            final(self).obj(parent)->Some_0.size == old(self).obj(parent)->Some_0.size,
            forall|id: u64| id != parent ==> #[trigger] final(self).obj(id) == old(self).obj(id),
            final(self).table_len() == old(self).table_len(),
            final(self).next_id() == old(self).next_id(),
            final(self).stack() == old(self).stack(),
            final(self).bindings() == old(self).bindings(),
    {
        let idx = self.index_of(parent);
        let mut slot: Option<ModelObj> = None;
        std::mem::swap(&mut slot, &mut self.objs[idx]);
        let mut o = match slot {
            Some(o) => o,
            None => {
                assert(false);
                return;
            },
        };
        o.fields.set(i as usize, child);
        self.objs.set(idx, Some(o));
        proof {
            assert forall|j: int|
                0 <= j < self.objs@.len() && (#[trigger] self.objs@[j]) is Some implies {
                let o = self.objs@[j]->Some_0;
                &&& o.id == j + 1
                &&& o.fields@.len() == o.nrefs
                &&& forall|k: int|
                    0 <= k < o.fields@.len() && (#[trigger] o.fields@[k]) is Some ==> 1
                        <= o.fields@[k]->Some_0 <= self.objs@.len()
            } by {
                if j != idx {
                    assert(self.objs@[j] == old(self).objs@[j]);
                }
            }
            assert forall|id: u64| id != parent implies #[trigger] self.obj(id) == old(self).obj(id) by {
                if 1 <= id <= self.objs@.len() {
                    assert(self.objs@[id - 1] == old(self).objs@[id - 1]);
                }
            }
        }
    }

    /// The identity named by slot `i` of `parent`.
    pub fn field(&self, parent: u64, i: u16) -> (r: Option<u64>)
        requires
            self.wf(),
            self.obj(parent) is Some,
            i < self.fields_of(parent).len(),
        ensures
            r == self.fields_of(parent)[i as int],
            r matches Some(c) ==> self.known_id(c),
    {
        let idx = self.index_of(parent);
        assert(self.objs@[idx as int] == self.obj(parent));
        match &self.objs[idx] {
            Some(o) => o.fields[i as usize],
            None => None,
        }
    }

    pub fn push_root(&mut self, id: Option<u64>)
        requires
            old(self).wf(),
            id matches Some(c) ==> old(self).known_id(c),
        ensures
            final(self).wf(),
            final(self).stack() == old(self).stack().push(id),
            forall|x: u64| #[trigger] final(self).obj(x) == old(self).obj(x),
            final(self).table_len() == old(self).table_len(),
            final(self).live_count() == old(self).live_count(),
            final(self).next_id() == old(self).next_id(),
            final(self).bindings() == old(self).bindings(),
    {
        self.stack.push(id);
    }

    pub fn unwind(&mut self, depth: usize)
        requires
            old(self).wf(),
        ensures
            final(self).wf(),
            final(self).stack() == if depth < old(self).stack().len() {
                old(self).stack().subrange(0, depth as int)
            } else {
                old(self).stack()
            },
            forall|x: u64| #[trigger] final(self).obj(x) == old(self).obj(x),
            final(self).table_len() == old(self).table_len(),
            final(self).next_id() == old(self).next_id(),
            final(self).bindings() == old(self).bindings(),
    {
        self.stack.truncate(depth);
    }

    pub fn root_depth(&self) -> (r: usize)
        ensures
            r == self.stack().len(),
    {
        self.stack.len()
    }

    pub fn root(&self, slot: usize) -> (r: Option<u64>)
        requires
            self.wf(),
            slot < self.stack().len(),
        ensures
            r == self.stack()[slot as int],
            r matches Some(c) ==> self.known_id(c),
    {
        self.stack[slot]
    }

    pub fn set_root(&mut self, slot: usize, id: Option<u64>)
        requires
            old(self).wf(),
            slot < old(self).stack().len(),
            id matches Some(c) ==> old(self).known_id(c),
        ensures
            final(self).wf(),
            final(self).stack() == old(self).stack().update(slot as int, id),
            forall|x: u64| #[trigger] final(self).obj(x) == old(self).obj(x),
            final(self).table_len() == old(self).table_len(),
            final(self).next_id() == old(self).next_id(),
            final(self).bindings() == old(self).bindings(),
    {
        self.stack.set(slot, id);
    }

    /// Index of the most recent binding of `name`, if any.
    fn find(&self, name: &String) -> (r: Option<usize>)
        ensures
            match r {
                Some(i) => last_match(self.bindings(), i as int, name@),
                None => forall|j: int|
                    0 <= j < self.bindings().len() ==> #[trigger] self.bindings()[j].0 != name@,
            },
    {
        let mut i = self.globals.len();
        while i > 0
            invariant
                i <= self.globals@.len(),
                forall|j: int| i <= j < self.bindings().len() ==> #[trigger] self.bindings()[j].0 != name@,
            decreases i,
        {
            i = i - 1;
            if self.globals[i].0 == *name {
                return Some(i);
            }
        }
        None
    }

    pub fn set_global(&mut self, name: &str, id: u64)
        requires
            old(self).wf(),
            old(self).known_id(id),
        ensures
            final(self).wf(),
            lookup(final(self).bindings(), name@) == Some(id),
            forall|n: Seq<char>|
                n != name@ ==> #[trigger] lookup(final(self).bindings(), n) == lookup(
                    old(self).bindings(),
                    n,
                ),
            forall|x: u64| #[trigger] final(self).obj(x) == old(self).obj(x),
            final(self).table_len() == old(self).table_len(),
            final(self).next_id() == old(self).next_id(),
            final(self).stack() == old(self).stack(),
    {
        let key = name.to_owned();
        let ghost g = self.bindings();
        match self.find(&key) {
            Some(i) => {
                self.globals.set(i, (key, id));
                proof {
                    assert(self.bindings() =~= g.update(i as int, (name@, id)));
                    lemma_lookup_last_match(self.bindings(), i as int, name@);
                    assert forall|n: Seq<char>| n != name@ implies #[trigger] lookup(
                        self.bindings(),
                        n,
                    ) == lookup(g, n) by {
                        lemma_lookup_update(g, i as int, id, name@, n);
                    }
                    assert forall|j: int| 0 <= j < self.globals@.len() implies 1 <= (
                    #[trigger] self.globals@[j]).1 <= self.objs@.len() by {
                        if j != i {
                            assert(self.globals@[j] == old(self).globals@[j]);
                        }
                    }
                }
            },
            None => {
                self.globals.push((key, id));
                proof {
                    assert(self.bindings() =~= g.push((name@, id)));
                    assert(self.bindings().drop_last() =~= g);
                    assert forall|n: Seq<char>| n != name@ implies #[trigger] lookup(
                        self.bindings(),
                        n,
                    ) == lookup(g, n) by {
                        lemma_lookup_push(g, (name@, id), n);
                    }
                    assert forall|j: int| 0 <= j < self.globals@.len() implies 1 <= (
                    #[trigger] self.globals@[j]).1 <= self.objs@.len() by {
                        if j < self.globals@.len() - 1 {
                            assert(self.globals@[j] == old(self).globals@[j]);
                        }
                    }
                }
            },
        }
    }

    pub fn remove_global(&mut self, name: &str)
        requires
            old(self).wf(),
        ensures
            final(self).wf(),
            final(self).bindings() == without(old(self).bindings(), name@),
            lookup(final(self).bindings(), name@) == None::<u64>,
            forall|n: Seq<char>|
                n != name@ ==> #[trigger] lookup(final(self).bindings(), n) == lookup(
                    old(self).bindings(),
                    n,
                ),
            forall|x: u64| #[trigger] final(self).obj(x) == old(self).obj(x),
            final(self).table_len() == old(self).table_len(),
            final(self).next_id() == old(self).next_id(),
            final(self).stack() == old(self).stack(),
    {
        let key = name.to_owned();
        let ghost g = self.bindings();
        let mut kept: Vec<(String, u64)> = Vec::new();
        let mut i: usize = 0;
        while i < self.globals.len()
            invariant
                *self == *old(self),
                i <= self.globals@.len(),
                g == self.bindings(),
                key@ == name@,
                kept@.map_values(|e: (String, u64)| (e.0@, e.1)) == without(
                    g.subrange(0, i as int),
                    name@,
                ),
                forall|j: int| 0 <= j < kept@.len() ==> 1 <= (#[trigger] kept@[j]).1 <= self.objs@.len(),
                self.wf(),
            decreases self.globals@.len() - i,
        {
            let ghost before = kept@.map_values(|e: (String, u64)| (e.0@, e.1));
            assert(g.subrange(0, i + 1).drop_last() =~= g.subrange(0, i as int));
            assert(g.subrange(0, i + 1).last() == g[i as int]);
            if !(self.globals[i].0 == key) {
                let n = self.globals[i].0.clone();
                kept.push((n, self.globals[i].1));
                assert(kept@.map_values(|e: (String, u64)| (e.0@, e.1)) =~= before.push(
                    g[i as int],
                ));
                assert(without(g.subrange(0, i + 1), name@) == without(g.subrange(0, i as int), name@).push(g[i as int]));
            } else {
                assert(without(g.subrange(0, i + 1), name@) == without(g.subrange(0, i as int), name@));
            }
            i = i + 1;
        }
        assert(g.subrange(0, g.len() as int) =~= g);
        self.globals = kept;
        proof {
            assert forall|n: Seq<char>| true implies #[trigger] lookup(self.bindings(), n) == if n
                == name@ {
                None
            } else {
                lookup(g, n)
            } by {
                lemma_lookup_without(g, name@, n);
            }
        }
    }

    pub fn global(&self, name: &str) -> (r: Option<u64>)
        requires
            self.wf(),
        ensures
            r == lookup(self.bindings(), name@),
            r matches Some(c) ==> self.known_id(c),
    {
        let key = name.to_owned();
        match self.find(&key) {
            Some(i) => {
                proof {
                    lemma_lookup_last_match(self.bindings(), i as int, name@);
                }
                Some(self.globals[i].1)
            },
            None => {
                proof {
                    lemma_lookup_none(self.bindings(), name@);
                }
                None
            },
        }
    }

    /// The global bindings, in binding order.
    pub fn globals(&self) -> (r: &[(String, u64)])
        ensures
            r@.map_values(|e: (String, u64)| (e.0@, e.1)) == self.bindings(),
    {
        self.globals.as_slice()
    }

    /// Identities named directly by a root: the shadow stack's, bottom first,
    /// then the globals'.
    pub fn root_ids(&self) -> (r: Vec<u64>)
        requires
            self.wf(),
        ensures
            r@ == self.root_id_seq(),
            forall|i: int| 0 <= i < r@.len() ==> self.known_id(#[trigger] r@[i]),
    {
        let mut out: Vec<u64> = Vec::new();
        let mut i: usize = 0;
        while i < self.stack.len()
            invariant
                self.wf(),
                i <= self.stack@.len(),
                out@ == stack_ids(self.stack@.subrange(0, i as int)),
                forall|j: int| 0 <= j < out@.len() ==> self.known_id(#[trigger] out@[j]),
            decreases self.stack@.len() - i,
        {
            assert(self.stack@.subrange(0, i + 1).drop_last() =~= self.stack@.subrange(0, i as int));
            match self.stack[i] {
                Some(id) => {
                    out.push(id);
                },
                None => {},
            }
            i = i + 1;
        }
        assert(self.stack@.subrange(0, i as int) =~= self.stack@);
        let ghost mid = out@;
        let mut g: usize = 0;
        while g < self.globals.len()
            invariant
                self.wf(),
                g <= self.globals@.len(),
                out@ == mid + self.bindings().subrange(0, g as int).map_values(|e: (Seq<char>, u64)| e.1),
                forall|j: int| 0 <= j < out@.len() ==> self.known_id(#[trigger] out@[j]),
            decreases self.globals@.len() - g,
        {
            let ghost before = out@;
            out.push(self.globals[g].1);
            assert(out@ =~= mid + self.bindings().subrange(0, g + 1).map_values(|e: (Seq<char>, u64)| e.1));
            g = g + 1;
        }
        assert(self.bindings().subrange(0, g as int) =~= self.bindings());
        out
    }

    /// `seen` holds every root and is closed under slots of known objects.
    pub open spec fn closed_set(&self, seen: Seq<bool>) -> bool {
        &&& seen.len() == self.table_len()
        &&& forall|x: u64| #[trigger] self.is_root_id(x) ==> self.known_id(x) && seen[x - 1]
        &&& forall|p: u64, c: u64|
            self.known_id(p) && seen[p - 1] && #[trigger] self.points_to(p, c) ==> self.known_id(c)
                && seen[c - 1]
    }

    /// Everything reachable lies in any closed set.
    pub proof fn lemma_reach_in_closed(&self, seen: Seq<bool>, n: nat, id: u64)
        requires
            self.closed_set(seen),
            self.reach_within(n, id),
        ensures
            self.known_id(id),
            seen[id - 1],
        decreases n,
    {
        if n == 0 {
        } else if self.reach_within((n - 1) as nat, id) {
            self.lemma_reach_in_closed(seen, (n - 1) as nat, id);
        } else {
            let p = choose|p: u64| #[trigger] self.points_to(p, id) && self.reach_within((n - 1) as nat, p);
            self.lemma_reach_in_closed(seen, (n - 1) as nat, p);
        }
    }

    /// One step past a reachable object is reachable.
    pub proof fn lemma_reach_step(&self, p: u64, k: int, c: u64)
        requires
            self.is_reachable(p),
            self.obj(p) is Some,
            0 <= k < self.fields_of(p).len(),
            self.fields_of(p)[k] == Some(c),
        ensures
            self.is_reachable(c),
    {
        let n = choose|n: nat| #[trigger] self.reach_within(n, p);
        assert(self.points_to(p, c));
        assert(self.reach_within(n + 1, c));
    }

    /// Mark every identity reachable from the roots: entry `id - 1` of the
    /// result is set exactly when `id` is reachable.
    ///
    /// The traversal carries its own worklist rather than recursing.
    fn mark_reachable(&self) -> (r: Vec<bool>)
        requires
            self.wf(),
        ensures
            r@.len() == self.table_len(),
            forall|id: u64| self.known_id(id) ==> (r@[id - 1] <==> #[trigger] self.is_reachable(id)),
            forall|id: u64| #[trigger] self.is_reachable(id) ==> self.known_id(id),
    {
        let n = self.objs.len();
        let mut seen: Vec<bool> = vec![false; n];
        let mut work = self.root_ids();
        let mut remaining: usize = n;
        proof {
            assert forall|x: u64| #[trigger] self.is_root_id(x) implies self.known_id(x) by {
                let q = choose|q: int| 0 <= q < work@.len() && work@[q] == x;
                assert(self.known_id(work@[q]));
            }
            lemma_count_false_all(n as nat);
            assert(seen@ =~= Seq::new(n as nat, |i: int| false));
            assert forall|j: int| 0 <= j < work@.len() implies #[trigger] self.is_reachable(work@[j]) by {
                assert(self.is_root_id(work@[j]));
                assert(self.reach_within(0, work@[j]));
            }
        }
        while work.len() > 0
            invariant
                self.wf(),
                n == self.objs@.len(),
                seen@.len() == n,
                remaining == count_false(seen@),
                forall|x: u64| #[trigger] self.is_root_id(x) ==> self.known_id(x),
                forall|j: int| 0 <= j < work@.len() ==> self.known_id(#[trigger] work@[j]),
                forall|j: int| 0 <= j < work@.len() ==> #[trigger] self.is_reachable(work@[j]),
                forall|id: u64| self.known_id(id) && seen@[id - 1] ==> #[trigger] self.is_reachable(id),
                forall|x: u64| #[trigger] self.is_root_id(x) ==> seen@[x - 1] || work@.contains(x),
                forall|p: u64, c: u64|
                    self.known_id(p) && seen@[p - 1] && #[trigger] self.points_to(p, c) ==> seen@[c - 1]
                        || work@.contains(c),
            decreases remaining, work@.len(),
        {
            let ghost before = work@;
            let id = match work.pop() {
                Some(id) => id,
                None => {
                    assert(false);
                    return seen;
                },
            };
            assert(id == before.last());
            assert(work@ =~= before.drop_last());
            assert forall|x: u64| before.contains(x) && x != id implies work@.contains(x) by {
                let k = choose|k: int| 0 <= k < before.len() && before[k] == x;
                assert(k < before.len() - 1);
                assert(work@[k] == x);
            }
            let idx = self.index_of(id);
            if seen[idx] {
                assert forall|x: u64| #[trigger] self.is_root_id(x) implies seen@[x - 1] || work@.contains(x) by {
                    if x != id && !seen@[x - 1] {
                        assert(before.contains(x));
                    }
                }
                continue;
            }
            let ghost seen0 = seen@;
            proof {
                lemma_count_false_set(seen@, idx as int);
            }
            seen.set(idx, true);
            remaining = remaining - 1;
            let ghost mid = work@;
            assert(self.objs@[idx as int] == self.obj(id));
            match &self.objs[idx] {
                Some(o) => {
                    let mut k: usize = 0;
                    while k < o.fields.len()
                        invariant
                            self.wf(),
                            self.obj(id) == Some(*o),
                            self.is_reachable(id),
                            k <= o.fields@.len(),
                            mid.len() <= work@.len(),
                            forall|j: int| 0 <= j < mid.len() ==> work@[j] == mid[j],
                            forall|j: int| 0 <= j < work@.len() ==> self.known_id(#[trigger] work@[j]),
                            forall|j: int| 0 <= j < work@.len() ==> #[trigger] self.is_reachable(work@[j]),
                            forall|j: int| 0 <= j < k && (#[trigger] o.fields@[j]) is Some ==> work@.contains(o.fields@[j]->Some_0),
                        decreases o.fields@.len() - k,
                    {
                        match o.fields[k] {
                            Some(c) => {
                                proof {
                                    self.lemma_reach_step(id, k as int, c);
                                }
                                let ghost w0 = work@;
                                work.push(c);
                                assert forall|j: int| 0 <= j < k + 1 && (#[trigger] o.fields@[j]) is Some implies work@.contains(o.fields@[j]->Some_0) by {
                                    if j < k {
                                        let q = choose|q: int| 0 <= q < w0.len() && w0[q] == o.fields@[j]->Some_0;
                                        assert(work@[q] == w0[q]);
                                    } else {
                                        assert(work@[work@.len() - 1] == c);
                                    }
                                }
                            },
                            None => {},
                        }
                        k = k + 1;
                    }
                    proof {
                        assert forall|x: u64| mid.contains(x) implies work@.contains(x) by {
                            let q = choose|q: int| 0 <= q < mid.len() && mid[q] == x;
                            assert(work@[q] == x);
                        }
                        assert forall|c: u64| #[trigger] self.points_to(id, c) implies work@.contains(c) by {
                            let q = choose|q: int| 0 <= q < self.fields_of(id).len() && #[trigger] self.fields_of(id)[q] == Some(c);
                            assert(o.fields@[q] is Some);
                        }
                    }
                },
                None => {},
            }
            assert forall|x: u64| #[trigger] self.is_root_id(x) implies seen@[x - 1] || work@.contains(x) by {
                if x != id && !seen0[x - 1] {
                    assert(before.contains(x));
                    assert(mid.contains(x));
                    let q = choose|q: int| 0 <= q < mid.len() && mid[q] == x;
                    assert(work@[q] == x);
                }
            }
        }
        proof {
            assert(self.closed_set(seen@));
            assert forall|id: u64| #[trigger] self.is_reachable(id) implies self.known_id(id) && seen@[id - 1] by {
                let m = choose|m: nat| #[trigger] self.reach_within(m, id);
                self.lemma_reach_in_closed(seen@, m, id);
            }
        }
        seen
    }

    /// Forgetting what cannot be reached changes nothing about what can: with
    /// the roots as they were and every reachable object kept as it was, an
    /// identity is reachable afterwards exactly when it was before.
    pub proof fn law_forget_keeps_reachability(before: Model, after: Model)
        requires
            forall|id: u64|
                #[trigger] after.obj(id) == if before.is_reachable(id) {
                    before.obj(id)
                } else {
                    None
                },
            after.stack() == before.stack(),
            after.bindings() == before.bindings(),
        ensures
            forall|id: u64| #[trigger] after.is_reachable(id) <==> before.is_reachable(id),
    {
        assert forall|id: u64| #[trigger] after.is_reachable(id) <==> before.is_reachable(id) by {
            if after.is_reachable(id) {
                let n = choose|n: nat| #[trigger] after.reach_within(n, id);
                Self::lemma_forget_reach_within(before, after, n, id);
            }
            if before.is_reachable(id) {
                let n = choose|n: nat| #[trigger] before.reach_within(n, id);
                Self::lemma_forget_reach_within(before, after, n, id);
            }
        }
    }

    proof fn lemma_forget_reach_within(before: Model, after: Model, n: nat, id: u64)
        requires
            forall|id: u64|
                #[trigger] after.obj(id) == if before.is_reachable(id) {
                    before.obj(id)
                } else {
                    None
                },
            after.stack() == before.stack(),
            after.bindings() == before.bindings(),
        ensures
            after.reach_within(n, id) <==> before.reach_within(n, id),
        decreases n,
    {
        if n > 0 {
            let m = (n - 1) as nat;
            Self::lemma_forget_reach_within(before, after, m, id);
            if after.reach_within(n, id) && !after.reach_within(m, id) {
                let p = choose|p: u64| #[trigger] after.points_to(p, id) && after.reach_within(m, p);
                Self::lemma_forget_reach_within(before, after, m, p);
                assert(after.obj(p) is Some);
                assert(before.is_reachable(p));
                assert(after.fields_of(p) == before.fields_of(p));
                let k = choose|k: int|
                    0 <= k < after.fields_of(p).len() && #[trigger] after.fields_of(p)[k] == Some(id);
                assert(before.fields_of(p)[k] == Some(id));
                assert(before.points_to(p, id));
            }
            if before.reach_within(n, id) && !before.reach_within(m, id) {
                let p = choose|p: u64| #[trigger] before.points_to(p, id) && before.reach_within(m, p);
                Self::lemma_forget_reach_within(before, after, m, p);
                assert(before.is_reachable(p));
                assert(after.obj(p) == before.obj(p));
                assert(after.fields_of(p) == before.fields_of(p));
                let k = choose|k: int|
                    0 <= k < before.fields_of(p).len() && #[trigger] before.fields_of(p)[k] == Some(id);
                assert(after.fields_of(p)[k] == Some(id));
                assert(after.points_to(p, id));
            }
        }
    }

    /// What a store writes, a read gives back: after slot `i` of `parent`
    /// is set to `child`, that slot reads `child`, every other slot of
    /// `parent` reads what it did, and every other object is untouched.
    pub proof fn law_store_then_field(before: Model, after: Model, parent: u64, i: int, child: Option<u64>)
        requires
            before.obj(parent) is Some,
            0 <= i < before.fields_of(parent).len(),
            after.obj(parent) is Some,
            after.fields_of(parent) == before.fields_of(parent).update(i, child),
            forall|id: u64| id != parent ==> #[trigger] after.obj(id) == before.obj(id),
        ensures
            after.fields_of(parent)[i] == child,
            forall|j: int|
                0 <= j < before.fields_of(parent).len() && j != i ==> #[trigger] after.fields_of(
                    parent,
                )[j] == before.fields_of(parent)[j],
            forall|id: u64| id != parent ==> #[trigger] after.fields_of(id) == before.fields_of(id),
    {
    }

    /// Every reachable identity, in ascending order.
    pub fn reachable_ids(&self) -> (r: Vec<u64>)
        requires
            self.wf(),
        ensures
            forall|id: u64| r@.contains(id) <==> #[trigger] self.is_reachable(id),
            forall|i: int, j: int| 0 <= i < j < r@.len() ==> r@[i] < r@[j],
            forall|i: int| 0 <= i < r@.len() ==> self.known_id(#[trigger] r@[i]),
    {
        let seen = self.mark_reachable();
        let mut out: Vec<u64> = Vec::new();
        let mut i: usize = 0;
        while i < seen.len()
            invariant
                seen@.len() == self.table_len(),
                i <= seen@.len(),
                forall|id: u64| out@.contains(id) <==> 1 <= id <= i && seen@[id - 1],
                forall|a: int, b: int| 0 <= a < b < out@.len() ==> out@[a] < out@[b],
                forall|a: int| 0 <= a < out@.len() ==> 1 <= #[trigger] out@[a] <= i,
            decreases seen@.len() - i,
        {
            if seen[i] {
                let ghost before = out@;
                out.push(i as u64 + 1);
                let ghost v = (i + 1) as u64;
                assert(out@ == before.push(v));
                assert forall|id: u64| out@.contains(id) <==> 1 <= id <= i + 1 && seen@[id - 1] by {
                    if out@.contains(id) {
                        let q = choose|q: int| 0 <= q < out@.len() && out@[q] == id;
                        if q < before.len() {
                            assert(before[q] == id);
                            assert(before.contains(id));
                        } else {
                            assert(id == v);
                        }
                    }
                    if 1 <= id <= i && seen@[id - 1] {
                        assert(before.contains(id));
                        let q = choose|q: int| 0 <= q < before.len() && before[q] == id;
                        assert(out@[q] == id);
                    }
                    if id == i + 1 && seen@[id - 1] {
                        assert(out@[out@.len() - 1] == id);
                    }
                }
            }
            i = i + 1;
        }
        out
    }

    /// Every identity transitively reachable from a root. This is the exact
    /// set a precise collector must keep, and nothing more.
    pub fn reachable(&self) -> (r: BTreeSet<u64>)
        requires
            self.wf(),
        ensures
            forall|id: u64| r@.contains(id) <==> #[trigger] self.is_reachable(id),
    {
        let seen = self.mark_reachable();
        let mut out: BTreeSet<u64> = BTreeSet::new();
        let mut i: usize = 0;
        while i < seen.len()
            invariant
                seen@.len() == self.table_len(),
                i <= seen@.len(),
                forall|id: u64| out@.contains(id) <==> 1 <= id <= i && seen@[id - 1],
            decreases seen@.len() - i,
        {
            if seen[i] {
                add_id(&mut out, i as u64 + 1);
            }
            i = i + 1;
        }
        out
    }

    /// Total heap footprint of everything reachable (pinned at `u64::MAX`).
    pub fn reachable_bytes(&self) -> (r: u64)
        requires
            self.wf(),
        ensures
            r == reach_bytes(self, self.table_len()),
    {
        let seen = self.mark_reachable();
        let mut total: u64 = 0;
        let mut i: usize = 0;
        while i < seen.len()
            invariant
                self.wf(),
                seen@.len() == self.table_len(),
                forall|id: u64| self.known_id(id) ==> (seen@[id - 1] <==> #[trigger] self.is_reachable(id)),
                i <= seen@.len(),
                total == reach_bytes(self, i as int),
            decreases seen@.len() - i,
        {
            let ghost id = (i + 1) as u64;
            assert(seen@[id - 1] == self.is_reachable(id));
            assert(self.objs@[i as int] == self.obj(id));
            if seen[i] {
                match &self.objs[i] {
                    Some(o) => {
                        total = total.saturating_add(o.size as u64);
                    },
                    None => {},
                }
            }
            i = i + 1;
        }
        total
    }

    /// Every object the model knows and has not forgotten.
    pub fn all_ids(&self) -> (r: BTreeSet<u64>)
        requires
            self.wf(),
        ensures
            forall|id: u64| r@.contains(id) <==> #[trigger] self.obj(id) is Some,
    {
        let mut out: BTreeSet<u64> = BTreeSet::new();
        let mut i: usize = 0;
        while i < self.objs.len()
            invariant
                self.wf(),
                i <= self.objs@.len(),
                forall|id: u64| out@.contains(id) <==> 1 <= id <= i && #[trigger] self.obj(id) is Some,
            decreases self.objs@.len() - i,
        {
            assert(self.objs@[i as int] == self.obj((i + 1) as u64));
            if self.objs[i].is_some() {
                add_id(&mut out, i as u64 + 1);
            }
            i = i + 1;
        }
        out
    }

    /// Drop objects the model can prove are unreachable.
    pub fn forget_unreachable(&mut self)
        requires
            old(self).wf(),
        ensures
            final(self).wf(),
            forall|id: u64|
                #[trigger] final(self).obj(id) == if old(self).is_reachable(id) {
                    old(self).obj(id)
                } else {
                    None
                },
            final(self).table_len() == old(self).table_len(),
            final(self).next_id() == old(self).next_id(),
            final(self).stack() == old(self).stack(),
            final(self).bindings() == old(self).bindings(),
    {
        let seen = self.mark_reachable();
        let n = self.objs.len();
        let mut i: usize = 0;
        while i < n
            invariant
                n == self.objs@.len(),
                n == old(self).objs@.len(),
                seen@.len() == n,
                i <= n,
                self.next_id == old(self).next_id,
                self.stack == old(self).stack,
                self.globals == old(self).globals,
                forall|id: u64| old(self).known_id(id) ==> (seen@[id - 1] <==> #[trigger] old(self).is_reachable(id)),
                forall|j: int| 0 <= j < i ==> #[trigger] self.objs@[j] == if seen@[j] {
                    old(self).objs@[j]
                } else {
                    None
                },
                forall|j: int| i <= j < n ==> #[trigger] self.objs@[j] == old(self).objs@[j],
            decreases n - i,
        {
            if !seen[i] {
                self.objs.set(i, None);
            }
            i = i + 1;
        }
        proof {
            assert forall|id: u64| #[trigger] self.obj(id) == if old(self).is_reachable(id) {
                old(self).obj(id)
            } else {
                None
            } by {
                if !old(self).known_id(id) {
                    assert(!old(self).is_reachable(id));
                }
            }
        }
    }

    /// Number of objects the model still knows.
    pub fn len(&self) -> (r: usize)
        ensures
            r == self.live_count(),
    {
        let mut n: usize = 0;
        let mut i: usize = 0;
        while i < self.objs.len()
            invariant
                i <= self.objs@.len(),
                n == i - count_false(self.present().subrange(0, i as int)),
                n <= i,
            decreases self.objs@.len() - i,
        {
            proof {
                assert(self.present().subrange(0, i + 1).drop_last() =~= self.present().subrange(0, i as int));
                lemma_count_false_bound(self.present().subrange(0, i as int));
            }
            if self.objs[i].is_some() {
                n = n + 1;
            }
            i = i + 1;
        }
        assert(self.present().subrange(0, i as int) =~= self.present());
        n
    }

    /// Which table entries still hold an object.
    pub closed spec fn present(&self) -> Seq<bool> {
        self.objs@.map_values(|o: Option<ModelObj>| o is Some)
    }

    pub fn is_empty(&self) -> (r: bool)
        ensures
            r == (self.table_len() == count_false(self.present())),
    {
        self.len() == 0
    }
}

} // verus!
