//! The root set: everything a collection must treat as live by definition.
//!
//! Handles are byte offsets, so a relocating collector invalidates every one
//! it moves. Mutator code therefore holds a [`RootSlot`], an index into the
//! shadow stack, and the collector rewrites the handles in that stack when it
//! moves objects.
//!
//! Globals are kept as a list of `(name, handle)` bindings. A name is looked
//! up from the most recent binding backwards, and rebinding a name replaces
//! that binding in place.

use crate::heap::{Handle, NULL_ADDR};
use vstd::prelude::*;

verus! {

/// `a` sorts before `b` the way strings compare: at the first character
/// where they differ the smaller code point wins, and a proper prefix comes
/// first.
pub open spec fn text_lt(a: Seq<char>, b: Seq<char>) -> bool
    decreases a.len(),
{
    if a.len() == 0 {
        b.len() > 0
    } else if b.len() == 0 {
        false
    } else if a[0] != b[0] {
        (a[0] as u32) < (b[0] as u32)
    } else {
        text_lt(a.drop_first(), b.drop_first())
    }
}

/// No text sorts before itself.
pub proof fn lemma_text_lt_irreflexive(a: Seq<char>)
    ensures
        !text_lt(a, a),
    decreases a.len(),
{
    if a.len() > 0 {
        lemma_text_lt_irreflexive(a.drop_first());
    }
}

/// The order on texts is transitive.
pub proof fn lemma_text_lt_transitive(a: Seq<char>, b: Seq<char>, c: Seq<char>)
    requires
        text_lt(a, b),
        text_lt(b, c),
    ensures
        text_lt(a, c),
    decreases a.len(),
{
    if a.len() > 0 && b.len() > 0 && c.len() > 0 && a[0] == b[0] && b[0] == c[0] {
        lemma_text_lt_transitive(a.drop_first(), b.drop_first(), c.drop_first());
    }
}

/// The texts of `v`, in order.
pub open spec fn texts(v: Seq<String>) -> Seq<Seq<char>> {
    v.map_values(|t: String| t@)
}

/// No text of `s` sorts before an earlier one.
pub open spec fn text_sorted(s: Seq<Seq<char>>) -> bool {
    forall|i: int, j: int| 0 <= i < j < s.len() ==> !text_lt(#[trigger] s[j], #[trigger] s[i])
}

/// Whether `a` sorts before `b`.
fn text_less(a: &str, b: &str) -> (r: bool)
    ensures
        r == text_lt(a@, b@),
{
    let na = a.unicode_len();
    let nb = b.unicode_len();
    let mut i: usize = 0;
    assert(a@.skip(0) =~= a@ && b@.skip(0) =~= b@);
    while i < na && i < nb
        invariant
            na == a@.len(),
            nb == b@.len(),
            i <= na,
            i <= nb,
            text_lt(a@, b@) == text_lt(a@.skip(i as int), b@.skip(i as int)),
        decreases na - i,
    {
        let x = a.get_char(i);
        let y = b.get_char(i);
        assert(a@.skip(i as int)[0] == x);
        assert(b@.skip(i as int)[0] == y);
        if x != y {
            return (x as u32) < (y as u32);
        }
        assert(a@.skip(i as int).drop_first() =~= a@.skip(i + 1));
        assert(b@.skip(i as int).drop_first() =~= b@.skip(i + 1));
        i = i + 1;
    }
    i == na && i < nb
}

/// A stable name for a root. Valid until the stack is unwound past it.
#[derive(Clone, Copy, PartialEq, Eq, Structural, Hash, Debug, PartialOrd, Ord)]
pub struct RootSlot(pub usize);

/// The handle bound to `name`, looking from the most recent binding back.
pub open spec fn lookup<V>(g: Seq<(Seq<char>, V)>, name: Seq<char>) -> Option<V>
    decreases g.len(),
{
    if g.len() == 0 {
        None
    } else if g.last().0 == name {
        Some(g.last().1)
    } else {
        lookup(g.drop_last(), name)
    }
}

/// `g` with every binding of `name` removed, the rest in order.
pub open spec fn without<V>(g: Seq<(Seq<char>, V)>, name: Seq<char>) -> Seq<(Seq<char>, V)>
    decreases g.len(),
{
    if g.len() == 0 {
        g
    } else if g.last().0 == name {
        without(g.drop_last(), name)
    } else {
        without(g.drop_last(), name).push(g.last())
    }
}

/// The names bound in `g`, in binding order.
pub open spec fn names<V>(g: Seq<(Seq<char>, V)>) -> Seq<Seq<char>> {
    g.map_values(|e: (Seq<char>, V)| e.0)
}

/// Nothing bound after position `i` carries `name`.
pub open spec fn last_match<V>(g: Seq<(Seq<char>, V)>, i: int, name: Seq<char>) -> bool {
    &&& 0 <= i < g.len()
    &&& g[i].0 == name
    &&& forall|j: int| i < j < g.len() ==> #[trigger] g[j].0 != name
}

pub proof fn lemma_lookup_last_match<V>(g: Seq<(Seq<char>, V)>, i: int, name: Seq<char>)
    requires
        last_match(g, i, name),
    ensures
        lookup(g, name) == Some(g[i].1),
    decreases g.len(),
{
    if i != g.len() - 1 {
        assert(g.drop_last()[i] == g[i]);
        lemma_lookup_last_match(g.drop_last(), i, name);
    }
}

pub proof fn lemma_lookup_none<V>(g: Seq<(Seq<char>, V)>, name: Seq<char>)
    requires
        forall|j: int| 0 <= j < g.len() ==> #[trigger] g[j].0 != name,
    ensures
        lookup(g, name) == None::<V>,
    decreases g.len(),
{
    if g.len() > 0 {
        assert forall|j: int| 0 <= j < g.drop_last().len() implies #[trigger] g.drop_last()[j].0
            != name by {
            assert(g.drop_last()[j] == g[j]);
        }
        lemma_lookup_none(g.drop_last(), name);
    }
}

pub proof fn lemma_lookup_update<V>(g: Seq<(Seq<char>, V)>, i: int, v: V, name: Seq<char>, other: Seq<char>)
    requires
        0 <= i < g.len(),
        g[i].0 == name,
        other != name,
    ensures
        lookup(g.update(i, (name, v)), other) == lookup(g, other),
    decreases g.len(),
{
    let u = g.update(i, (name, v));
    if i != g.len() - 1 {
        assert(u.drop_last() =~= g.drop_last().update(i, (name, v)));
        lemma_lookup_update(g.drop_last(), i, v, name, other);
    } else {
        assert(u.drop_last() =~= g.drop_last());
    }
}

pub proof fn lemma_lookup_push<V>(g: Seq<(Seq<char>, V)>, e: (Seq<char>, V), other: Seq<char>)
    requires
        e.0 != other,
    ensures
        lookup(g.push(e), other) == lookup(g, other),
{
    assert(g.push(e).drop_last() =~= g);
}

pub proof fn lemma_lookup_without<V>(g: Seq<(Seq<char>, V)>, name: Seq<char>, other: Seq<char>)
    ensures
        lookup(without(g, name), other) == if other == name {
            None
        } else {
            lookup(g, other)
        },
    decreases g.len(),
{
    if g.len() > 0 {
        lemma_lookup_without(g.drop_last(), name, other);
        if g.last().0 != name {
            let w = without(g.drop_last(), name);
            assert(w.push(g.last()).drop_last() =~= w);
        }
    }
}

/// The shadow stack plus a table of named globals.
pub struct Roots {
    stack: Vec<Handle>,
    globals: Vec<(String, Handle)>,
}

impl Roots {
    /// The shadow stack, bottom first.
    pub closed spec fn stack(&self) -> Seq<Handle> {
        self.stack@
    }

    /// The global bindings, in binding order.
    pub closed spec fn globals(&self) -> Seq<(Seq<char>, Handle)> {
        self.globals@.map_values(|e: (String, Handle)| (e.0@, e.1))
    }

    /// Every root slot: the shadow stack followed by the global bindings.
    pub open spec fn slots(&self) -> Seq<Handle> {
        self.stack() + self.globals().map_values(|e: (Seq<char>, Handle)| e.1)
    }

    pub fn new() -> (r: Roots)
        ensures
            r.stack() == Seq::<Handle>::empty(),
            r.globals() == Seq::<(Seq<char>, Handle)>::empty(),
    {
        let r = Roots { stack: Vec::new(), globals: Vec::new() };
        assert(r.globals() =~= Seq::<(Seq<char>, Handle)>::empty());
        r
    }

    /// Push `h` onto the shadow stack and return its slot.
    pub fn push(&mut self, h: Handle) -> (r: RootSlot)
        ensures
            final(self).stack() == old(self).stack().push(h),
            final(self).globals() == old(self).globals(),
            r.0 == old(self).stack().len(),
    {
        self.stack.push(h);
        RootSlot(self.stack.len() - 1)
    }

    /// Current handle held in `slot`.
    pub fn get(&self, slot: RootSlot) -> (r: Handle)
        requires
            slot.0 < self.stack().len(),
        ensures
            r == self.stack()[slot.0 as int],
    {
        self.stack[slot.0]
    }

    /// Replace the handle held in `slot`.
    pub fn set(&mut self, slot: RootSlot, h: Handle)
        requires
            slot.0 < old(self).stack().len(),
        ensures
            final(self).stack() == old(self).stack().update(slot.0 as int, h),
            final(self).globals() == old(self).globals(),
    {
        self.stack.set(slot.0, h);
    }

    /// Number of live shadow stack entries.
    pub fn depth(&self) -> (r: usize)
        ensures
            r == self.stack().len(),
    {
        self.stack.len()
    }

    /// Drop shadow stack entries down to `depth`, returning what was dropped.
    pub fn unwind(&mut self, depth: usize) -> (r: Vec<Handle>)
        requires
            depth <= old(self).stack().len(),
        ensures
            final(self).stack() == old(self).stack().subrange(0, depth as int),
            r@ == old(self).stack().subrange(depth as int, old(self).stack().len() as int),
            final(self).globals() == old(self).globals(),
    {
        self.stack.split_off(depth)
    }

    /// Index of the most recent binding of `name`, if any.
    fn find(&self, name: &String) -> (r: Option<usize>)
        ensures
            match r {
                Some(i) => last_match(self.globals(), i as int, name@),
                None => forall|j: int|
                    0 <= j < self.globals().len() ==> #[trigger] self.globals()[j].0 != name@,
            },
    {
        let mut i = self.globals.len();
        while i > 0
            invariant
                i <= self.globals@.len(),
                forall|j: int| i <= j < self.globals().len() ==> #[trigger] self.globals()[j].0 != name@,
            decreases i,
        {
            i = i - 1;
            if self.globals[i].0 == *name {
                return Some(i);
            }
        }
        None
    }

    /// Bind a name to a handle in the global table, returning what it held.
    pub fn set_global(&mut self, name: &str, h: Handle) -> (r: Option<Handle>)
        ensures
            r == lookup(old(self).globals(), name@),
            lookup(final(self).globals(), name@) == Some(h),
            forall|n: Seq<char>|
                n != name@ ==> #[trigger] lookup(final(self).globals(), n) == lookup(
                    old(self).globals(),
                    n,
                ),
            final(self).stack() == old(self).stack(),
    {
        let key = name.to_owned();
        match self.find(&key) {
            Some(i) => {
                let old_h = self.globals[i].1;
                let ghost g = self.globals();
                proof {
                    lemma_lookup_last_match(g, i as int, name@);
                }
                self.globals.set(i, (key, h));
                proof {
                    assert(self.globals() =~= g.update(i as int, (name@, h)));
                    lemma_lookup_last_match(self.globals(), i as int, name@);
                    assert forall|n: Seq<char>| n != name@ implies #[trigger] lookup(
                        self.globals(),
                        n,
                    ) == lookup(g, n) by {
                        lemma_lookup_update(g, i as int, h, name@, n);
                    }
                }
                Some(old_h)
            },
            None => {
                let ghost g = self.globals();
                proof {
                    lemma_lookup_none(g, name@);
                }
                self.globals.push((key, h));
                proof {
                    assert(self.globals() =~= g.push((name@, h)));
                    assert(self.globals().drop_last() =~= g);
                    assert forall|n: Seq<char>| n != name@ implies #[trigger] lookup(
                        self.globals(),
                        n,
                    ) == lookup(g, n) by {
                        lemma_lookup_push(g, (name@, h), n);
                    }
                }
                None
            },
        }
    }

    /// Look up a global, or the null handle if unbound.
    pub fn global(&self, name: &str) -> (r: Handle)
        ensures
            r == match lookup(self.globals(), name@) {
                Some(h) => h,
                None => Handle(NULL_ADDR),
            },
    {
        let key = name.to_owned();
        match self.find(&key) {
            Some(i) => {
                proof {
                    lemma_lookup_last_match(self.globals(), i as int, name@);
                }
                self.globals[i].1
            },
            None => {
                proof {
                    lemma_lookup_none(self.globals(), name@);
                }
                Handle(NULL_ADDR)
            },
        }
    }

    /// Remove a global binding, returning the handle it held.
    pub fn remove_global(&mut self, name: &str) -> (r: Option<Handle>)
        ensures
            r == lookup(old(self).globals(), name@),
            final(self).globals() == without(old(self).globals(), name@),
            lookup(final(self).globals(), name@) == None::<Handle>,
            forall|n: Seq<char>|
                n != name@ ==> #[trigger] lookup(final(self).globals(), n) == lookup(
                    old(self).globals(),
                    n,
                ),
            final(self).stack() == old(self).stack(),
    {
        let key = name.to_owned();
        let found = self.find(&key);
        let r = match found {
            Some(i) => {
                proof {
                    lemma_lookup_last_match(self.globals(), i as int, name@);
                }
                Some(self.globals[i].1)
            },
            None => {
                proof {
                    lemma_lookup_none(self.globals(), name@);
                }
                None
            },
        };
        let ghost g = self.globals();
        let mut kept: Vec<(String, Handle)> = Vec::new();
        let mut i: usize = 0;
        while i < self.globals.len()
            invariant
                i <= self.globals@.len(),
                g == self.globals(),
                key@ == name@,
                kept@.map_values(|e: (String, Handle)| (e.0@, e.1)) == without(
                    g.subrange(0, i as int),
                    name@,
                ),
            decreases self.globals@.len() - i,
        {
            let ghost before = kept@.map_values(|e: (String, Handle)| (e.0@, e.1));
            assert(g.subrange(0, i + 1).drop_last() =~= g.subrange(0, i as int));
            assert(g.subrange(0, i + 1).last() == g[i as int]);
            if !(self.globals[i].0 == key) {
                let n = self.globals[i].0.clone();
                kept.push((n, self.globals[i].1));
                assert(kept@.map_values(|e: (String, Handle)| (e.0@, e.1)) =~= before.push(
                    g[i as int],
                ));
                assert(g[i as int].0 != name@);
                assert(without(g.subrange(0, i + 1), name@) == without(g.subrange(0, i as int), name@).push(g[i as int]));
            } else {
                assert(g[i as int].0 == name@);
                assert(without(g.subrange(0, i + 1), name@) == without(g.subrange(0, i as int), name@));
            }
            i = i + 1;
        }
        assert(g.subrange(0, g.len() as int) =~= g);
        self.globals = kept;
        proof {
            assert forall|n: Seq<char>| true implies #[trigger] lookup(self.globals(), n) == if n
                == name@ {
                None
            } else {
                lookup(g, n)
            } by {
                lemma_lookup_without(g, name@, n);
            }
        }
        r
    }

    /// Every non-null root, from both the shadow stack and the global table.
    pub fn iter(&self) -> (r: Vec<Handle>)
        ensures
            r@ == self.slots().filter(|h: Handle| h.0 != NULL_ADDR),
            forall|h: Handle| #[trigger] r@.contains(h) <==> self.slots().contains(h) && h.0 != NULL_ADDR,
    {
        let mut out: Vec<Handle> = Vec::new();
        let ghost s = self.slots();
        let ghost st = self.stack();
        let mut i: usize = 0;
        while i < self.stack.len()
            invariant
                s == self.slots(),
                st == self.stack(),
                i <= st.len(),
                out@ == s.subrange(0, i as int).filter(|h: Handle| h.0 != NULL_ADDR),
            decreases st.len() - i,
        {
            let h = self.stack[i];
            assert(h == s[i as int]);
            proof {
                reveal(Seq::filter);
                assert(s.subrange(0, i + 1).drop_last() =~= s.subrange(0, i as int));
            }
            if !h.is_null() {
                out.push(h);
            }
            i = i + 1;
        }
        let mut j: usize = 0;
        while j < self.globals.len()
            invariant
                s == self.slots(),
                st == self.stack(),
                j <= self.globals@.len(),
                s.len() == st.len() + self.globals@.len(),
                out@ == s.subrange(0, st.len() + j).filter(|h: Handle| h.0 != NULL_ADDR),
            decreases self.globals@.len() - j,
        {
            let h = self.globals[j].1;
            assert(h == s[st.len() + j]);
            proof {
                reveal(Seq::filter);
                assert(s.subrange(0, st.len() + j + 1).drop_last() =~= s.subrange(0, st.len() + j));
            }
            if !h.is_null() {
                out.push(h);
            }
            j = j + 1;
        }
        assert(s.subrange(0, s.len() as int) =~= s);
        proof {
            let pred = |h: Handle| h.0 != NULL_ADDR;
            assert forall|h: Handle| #[trigger] out@.contains(h) <==> s.contains(h) && h.0 != NULL_ADDR by {
                if s.contains(h) && h.0 != NULL_ADDR {
                    let i = choose|i: int| 0 <= i < s.len() && s[i] == h;
                    s.lemma_filter_contains(pred, i);
                }
                if out@.contains(h) {
                    s.lemma_filter_contains_rev(pred, h);
                }
            }
        }
        out
    }

    /// Number of global bindings.
    pub fn global_count(&self) -> (r: usize)
        ensures
            r == self.globals().len(),
    {
        self.globals.len()
    }

    /// The handle held by global binding `j`.
    pub fn global_at(&self, j: usize) -> (r: Handle)
        requires
            j < self.globals().len(),
        ensures
            r == self.globals()[j as int].1,
    {
        self.globals[j].1
    }

    /// Every bound name, in string order.
    pub fn global_names(&self) -> (r: Vec<String>)
        ensures
            texts(r@).to_multiset() == names(self.globals()).to_multiset(),
            text_sorted(texts(r@)),
    {
        let mut out: Vec<String> = Vec::new();
        let mut g: usize = 0;
        assert(texts(out@) =~= Seq::<Seq<char>>::empty());
        assert(names(self.globals()).subrange(0, 0) =~= Seq::<Seq<char>>::empty());
        while g < self.globals.len()
            invariant
                g <= self.globals@.len(),
                texts(out@).to_multiset() == names(self.globals()).subrange(0, g as int).to_multiset(),
                text_sorted(texts(out@)),
            decreases self.globals@.len() - g,
        {
            let name = self.globals[g].0.clone();
            let mut k: usize = 0;
            while k < out.len()
                invariant
                    k <= out@.len(),
                    forall|j: int| 0 <= j < k ==> !text_lt(name@, #[trigger] out@[j]@),
                ensures
                    k <= out@.len(),
                    forall|j: int| 0 <= j < k ==> !text_lt(name@, #[trigger] out@[j]@),
                    k < out@.len() ==> text_lt(name@, out@[k as int]@),
                decreases out@.len() - k,
            {
                if text_less(name.as_str(), out[k].as_str()) {
                    break;
                }
                k = k + 1;
            }
            let ghost before = texts(out@);
            let ghost x = name@;
            proof {
                assert(forall|j: int| 0 <= j < k ==> #[trigger] before[j] == out@[j]@);
                if k < out@.len() {
                    assert(before[k as int] == out@[k as int]@);
                }
            }
            out.insert(k, name);
            proof {
                let after = texts(out@);
                let pre = before.subrange(0, k as int);
                let post = before.subrange(k as int, before.len() as int);
                assert(after =~= pre + seq![x] + post);
                assert(before =~= pre + post);
                vstd::seq_lib::lemma_multiset_commutative(pre + seq![x], post);
                vstd::seq_lib::lemma_multiset_commutative(pre, seq![x]);
                vstd::seq_lib::lemma_multiset_commutative(pre, post);
                let ns = names(self.globals());
                assert(ns.subrange(0, g + 1) =~= ns.subrange(0, g as int).push(x));
                assert(ns.subrange(0, g as int).push(x) =~= ns.subrange(0, g as int) + seq![x]);
                vstd::seq_lib::lemma_multiset_commutative(ns.subrange(0, g as int), seq![x]);
                assert forall|i: int, j: int| 0 <= i < j < after.len() implies !text_lt(
                    #[trigger] after[j],
                    #[trigger] after[i],
                ) by {
                    if j < k {
                        assert(after[i] == before[i] && after[j] == before[j]);
                    } else if j == k {
                        assert(after[j] == x && after[i] == before[i]);
                    } else if i < k {
                        assert(after[i] == before[i] && after[j] == before[j - 1]);
                        if text_lt(before[j - 1], before[i]) {
                            assert(false);
                        }
                    } else if i == k {
                        assert(after[i] == x && after[j] == before[j - 1]);
                        if text_lt(before[j - 1], x) {
                            if j - 1 == k {
                                lemma_text_lt_transitive(before[j - 1], x, before[k as int]);
                                lemma_text_lt_irreflexive(before[k as int]);
                            } else {
                                lemma_text_lt_transitive(before[j - 1], x, before[k as int]);
                            }
                        }
                    } else {
                        assert(after[i] == before[i - 1] && after[j] == before[j - 1]);
                    }
                }
            }
            g = g + 1;
        }
        assert(names(self.globals()).subrange(0, g as int) =~= names(self.globals()));
        out
    }

    /// Replace the handle held by global binding `j`, keeping its name.
    pub fn set_global_at(&mut self, j: usize, h: Handle)
        requires
            j < old(self).globals().len(),
        ensures
            final(self).globals() == old(self).globals().update(
                j as int,
                (old(self).globals()[j as int].0, h),
            ),
            final(self).stack() == old(self).stack(),
    {
        let ghost g = self.globals();
        let name = self.globals[j].0.clone();
        self.globals.set(j, (name, h));
        assert(self.globals() =~= g.update(j as int, (g[j as int].0, h)));
    }

    /// Snapshot of the shadow stack, including nulls.
    pub fn stack_snapshot(&self) -> (r: &[Handle])
        ensures
            r@ == self.stack(),
    {
        self.stack.as_slice()
    }
}

} // verus!
