//! The module registry: a named directory of service entries, which owns
//! each handler and hands out non-owning handles.
//!
//! A handle names an entry by its slot, a number issued once and never again.
//! Replacing a handler keeps the slot, so every handle already given out sees
//! the new handler on its next call; removing the entry retires the slot, so
//! those handles resolve to `Destroyed` from then on, whatever is registered
//! later under the same name.
//!
//! Calls are admitted one at a time per entry (`begin_call` / `end_call`).
//! A replacement needs no exclusive access to the old handler: a call in
//! flight finishes on the handler it started with, and the entry stays busy
//! until it ends, so the first call on the new handler never overlaps it.
use vstd::prelude::*;

use crate::error::{ModuleError, RegistryError};

verus! {

/// A non-owning reference to a registry entry.
#[derive(Debug, Clone, Copy, PartialEq, Eq, Structural)]
pub struct ModuleHandle {
    slot: u64,
}

impl View for ModuleHandle {
    type V = u64;

    /// The slot of the entry that the handle names.
    closed spec fn view(&self) -> u64 {
        self.slot
    }
}

/// An entry as a value: its slot, its current handler, and whether a call to
/// it is in flight.
pub struct EntryView<H> {
    pub slot: u64,
    pub handler: H,
    pub busy: bool,
}

/// The registry as a value: the entries by name, and the next slot to issue.
pub struct RegistryView<H> {
    pub modules: Map<Seq<char>, EntryView<H>>,
    pub next_slot: u64,
}

/// Every slot in use was issued before `next_slot`, and no two names share one.
pub open spec fn view_wf<H>(v: RegistryView<H>) -> bool {
    &&& forall|k: Seq<char>| #[trigger] v.modules.contains_key(k) ==> v.modules[k].slot < v.next_slot
    &&& forall|k1: Seq<char>, k2: Seq<char>|
        #[trigger] v.modules.contains_key(k1) && #[trigger] v.modules.contains_key(k2) && k1 != k2
            ==> v.modules[k1].slot != v.modules[k2].slot
}

/// The handler that a handle with this slot reaches, if its entry is still there.
pub open spec fn resolve_view<H>(v: RegistryView<H>, slot: u64) -> Option<H> {
    if exists|k: Seq<char>| #[trigger] v.modules.contains_key(k) && v.modules[k].slot == slot {
        let k = choose|k: Seq<char>| #[trigger] v.modules.contains_key(k) && v.modules[k].slot == slot;
        Some(v.modules[k].handler)
    } else {
        None
    }
}

/// The slot of the entry named `name`, if there is one.
pub open spec fn lookup_view<H>(v: RegistryView<H>, name: Seq<char>) -> Option<u64> {
    if v.modules.contains_key(name) {
        Some(v.modules[name].slot)
    } else {
        None
    }
}

/// A new entry under a fresh slot.
pub open spec fn insert_fresh<H>(v: RegistryView<H>, name: Seq<char>, h: H) -> RegistryView<H> {
    RegistryView {
        modules: v.modules.insert(name, EntryView { slot: v.next_slot, handler: h, busy: false }),
        next_slot: (v.next_slot + 1) as u64,
    }
}

/// `register`: refused, with nothing changed, when the name is taken.
pub open spec fn register_view<H>(v: RegistryView<H>, name: Seq<char>, h: H) -> (
    RegistryView<H>,
    Result<(), RegistryError>,
) {
    if v.modules.contains_key(name) {
        (v, Err(RegistryError::AlreadyExists))
    } else {
        (insert_fresh(v, name, h), Ok(()))
    }
}

/// `register_or_replace`: a taken name keeps its slot and gets the new handler.
pub open spec fn replace_view<H>(v: RegistryView<H>, name: Seq<char>, h: H) -> RegistryView<H> {
    if v.modules.contains_key(name) {
        RegistryView {
            modules: v.modules.insert(name, EntryView { slot: v.modules[name].slot, handler: h, busy: v.modules[name].busy }),
            next_slot: v.next_slot,
        }
    } else {
        insert_fresh(v, name, h)
    }
}

/// `remove`: the entry goes, and its slot with it.
pub open spec fn remove_view<H>(v: RegistryView<H>, name: Seq<char>) -> RegistryView<H> {
    RegistryView { modules: v.modules.remove(name), next_slot: v.next_slot }
}

/// Whether a call to a module may start.
#[derive(Debug, Clone, Copy, PartialEq, Eq, Structural)]
pub enum Admission {
    /// The call starts now; it must be ended with `end_call`.
    Started,
    /// Another call to the module is in flight: try again after it ends.
    Busy,
}

/// Whether some entry has this slot.
pub open spec fn slot_live<H>(v: RegistryView<H>, slot: u64) -> bool {
    exists|k: Seq<char>| #[trigger] v.modules.contains_key(k) && v.modules[k].slot == slot
}

/// The name of the entry with this slot, when `slot_live`.
pub open spec fn name_of_slot<H>(v: RegistryView<H>, slot: u64) -> Seq<char> {
    choose|k: Seq<char>| #[trigger] v.modules.contains_key(k) && v.modules[k].slot == slot
}

/// The entry with this slot marked as having (`busy`) or not having a call in flight.
pub open spec fn mark_view<H>(v: RegistryView<H>, slot: u64, busy: bool) -> RegistryView<H> {
    let k = name_of_slot(v, slot);
    RegistryView {
        modules: v.modules.insert(
            k,
            EntryView { slot: v.modules[k].slot, handler: v.modules[k].handler, busy },
        ),
        next_slot: v.next_slot,
    }
}

/// `begin_call`: `Destroyed` once the entry is gone, `Busy` while a call to it
/// is in flight, and otherwise the call starts.
pub open spec fn begin_view<H>(v: RegistryView<H>, slot: u64) -> (
    RegistryView<H>,
    Result<Admission, ModuleError>,
) {
    if !slot_live(v, slot) {
        (v, Err(ModuleError::Destroyed))
    } else if v.modules[name_of_slot(v, slot)].busy {
        (v, Ok(Admission::Busy))
    } else {
        (mark_view(v, slot, true), Ok(Admission::Started))
    }
}

/// `end_call`: the entry, if still there, has no call in flight.
pub open spec fn end_view<H>(v: RegistryView<H>, slot: u64) -> RegistryView<H> {
    if slot_live(v, slot) {
        mark_view(v, slot, false)
    } else {
        v
    }
}

#[verifier::reject_recursive_types(H)]
struct ServiceEntry<H> {
    name: String,
    slot: u64,
    handler: H,
    busy: bool,
}

/// The named directory of service entries.
#[verifier::reject_recursive_types(H)]
pub struct ModulesRegistry<H> {
    entries: Vec<ServiceEntry<H>>,
    next_slot: u64,
    model: Ghost<Map<Seq<char>, EntryView<H>>>,
}

impl<H> View for ModulesRegistry<H> {
    type V = RegistryView<H>;

    closed spec fn view(&self) -> RegistryView<H> {
        RegistryView { modules: self.model@, next_slot: self.next_slot }
    }
}

impl<H> Default for ModulesRegistry<H> {
    fn default() -> (r: Self)
        ensures
            r.wf(),
            r@.modules == Map::<Seq<char>, EntryView<H>>::empty(),
            r@.next_slot == 0,
    {
        Self::new()
    }
}

impl<H> ModulesRegistry<H> {
    /// The entries hold unique names, and the model maps each name to its
    /// entry's slot and handler.
    pub closed spec fn wf(&self) -> bool {
        &&& forall|i: int|
            0 <= i < self.entries@.len() ==> {
                let e = #[trigger] self.entries@[i];
                &&& self.model@.contains_key(e.name@)
                &&& self.model@[e.name@] == EntryView { slot: e.slot, handler: e.handler, busy: e.busy }
            }
        &&& forall|k: Seq<char>|
            #[trigger] self.model@.contains_key(k) ==> exists|i: int|
                0 <= i < self.entries@.len() && (#[trigger] self.entries@[i]).name@ == k
        &&& forall|i: int, j: int|
            0 <= i < self.entries@.len() && 0 <= j < self.entries@.len() && i != j
                ==> (#[trigger] self.entries@[i]).name@ != (#[trigger] self.entries@[j]).name@
        &&& view_wf(self@)
    }

    pub fn new() -> (r: Self)
        ensures
            r.wf(),
            r@.modules == Map::<Seq<char>, EntryView<H>>::empty(),
            r@.next_slot == 0,
    {
        ModulesRegistry { entries: Vec::new(), next_slot: 0, model: Ghost(Map::empty()) }
    }

    /// Whether another slot can still be issued (one per new name).
    pub fn can_issue_slot(&self) -> (r: bool)
        ensures
            r == (self@.next_slot < u64::MAX),
    {
        self.next_slot < u64::MAX
    }

    fn find(&self, name: &String) -> (r: Option<usize>)
        requires
            self.wf(),
        ensures
            match r {
                Some(i) => i < self.entries@.len() && self.entries@[i as int].name@ == name@
                    && self@.modules.contains_key(name@),
                None => !self@.modules.contains_key(name@),
            },
    {
        let mut i: usize = 0;
        while i < self.entries.len()
            invariant
                self.wf(),
                i <= self.entries@.len(),
                forall|j: int| 0 <= j < i ==> (#[trigger] self.entries@[j]).name@ != name@,
            decreases self.entries@.len() - i,
        {
            if self.entries[i].name == *name {
                return Some(i);
            }
            i += 1;
        }
        None
    }

    fn find_slot(&self, slot: u64) -> (r: Option<usize>)
        requires
            self.wf(),
        ensures
            match r {
                Some(i) => i < self.entries@.len() && self.entries@[i as int].slot == slot,
                None => forall|j: int|
                    0 <= j < self.entries@.len() ==> (#[trigger] self.entries@[j]).slot != slot,
            },
    {
        let mut i: usize = 0;
        while i < self.entries.len()
            invariant
                i <= self.entries@.len(),
                forall|j: int| 0 <= j < i ==> (#[trigger] self.entries@[j]).slot != slot,
            decreases self.entries@.len() - i,
        {
            if self.entries[i].slot == slot {
                return Some(i);
            }
            i += 1;
        }
        None
    }

    /// Adds `svc` under `name` with a fresh slot, or refuses with
    /// `AlreadyExists`, changing nothing, when the name is taken.
    pub fn register(&mut self, name: &str, svc: H) -> (r: Result<(), RegistryError>)
        requires
            old(self).wf(),
            old(self)@.next_slot < u64::MAX,
        ensures
            final(self).wf(),
            (final(self)@, r) == register_view(old(self)@, name@, svc),
    {
        let key = name.to_owned();
        match self.find(&key) {
            Some(_) => Err(RegistryError::AlreadyExists),
            None => {
                self.insert_new(key, svc);
                Ok(())
            },
        }
    }

    fn insert_new(&mut self, key: String, svc: H)
        requires
            old(self).wf(),
            old(self)@.next_slot < u64::MAX,
            !old(self)@.modules.contains_key(key@),
        ensures
            final(self).wf(),
            final(self)@ == insert_fresh(old(self)@, key@, svc),
    {
        let ghost old_entries = self.entries@;
        let slot = self.next_slot;
        proof {
            self.model@ = self.model@.insert(key@, EntryView { slot, handler: svc, busy: false });
        }
        self.entries.push(ServiceEntry { name: key, slot, handler: svc, busy: false });
        self.next_slot = slot + 1;
        proof {
            let n = old_entries.len() as int;
            assert forall|i: int| 0 <= i < self.entries@.len() implies {
                let e = #[trigger] self.entries@[i];
                &&& self.model@.contains_key(e.name@)
                &&& self.model@[e.name@] == EntryView { slot: e.slot, handler: e.handler, busy: e.busy }
            } by {
                if i < n {
                    assert(self.entries@[i] == old_entries[i]);
                    assert(old_entries[i].name@ != key@);
                }
            }
            assert forall|k: Seq<char>| #[trigger] self.model@.contains_key(k) implies exists|i: int|
                0 <= i < self.entries@.len() && (#[trigger] self.entries@[i]).name@ == k by {
                if k == key@ {
                    assert(self.entries@[n].name@ == k);
                } else {
                    let i = choose|i: int|
                        0 <= i < old_entries.len() && (#[trigger] old_entries[i]).name@ == k;
                    assert(self.entries@[i] == old_entries[i]);
                }
            }
            assert forall|i: int, j: int|
                0 <= i < self.entries@.len() && 0 <= j < self.entries@.len() && i != j
                    implies (#[trigger] self.entries@[i]).name@ != (
                #[trigger] self.entries@[j]).name@ by {
                if i < n && j < n {
                    assert(self.entries@[i] == old_entries[i]);
                    assert(self.entries@[j] == old_entries[j]);
                } else if i < n {
                    assert(self.entries@[i] == old_entries[i]);
                } else {
                    assert(self.entries@[j] == old_entries[j]);
                }
            }
        }
    }

    /// Adds `svc` under `name`; when the name is taken, swaps the handler in
    /// place, so that handles already given out reach `svc` from now on.
    pub fn register_or_replace(&mut self, name: &str, svc: H)
        requires
            old(self).wf(),
            old(self)@.modules.contains_key(name@) || old(self)@.next_slot < u64::MAX,
        ensures
            final(self).wf(),
            final(self)@ == replace_view(old(self)@, name@, svc),
    {
        let key = name.to_owned();
        match self.find(&key) {
            None => self.insert_new(key, svc),
            Some(i) => {
                let ghost old_entries = self.entries@;
                let slot = self.entries[i].slot;
                let busy = self.entries[i].busy;
                proof {
                    self.model@ = self.model@.insert(key@, EntryView { slot, handler: svc, busy });
                }
                self.entries.set(i, ServiceEntry { name: key, slot, handler: svc, busy });
                proof {
                    assert forall|j: int| 0 <= j < self.entries@.len() implies {
                        let e = #[trigger] self.entries@[j];
                        &&& self.model@.contains_key(e.name@)
                        &&& self.model@[e.name@] == EntryView { slot: e.slot, handler: e.handler, busy: e.busy }
                    } by {
                        if j != i {
                            assert(self.entries@[j] == old_entries[j]);
                        }
                    }
                    assert forall|k: Seq<char>| #[trigger] self.model@.contains_key(k) implies exists|
                        j: int,
                    |
                        0 <= j < self.entries@.len() && (#[trigger] self.entries@[j]).name@ == k by {
                        if k == key@ {
                            assert(self.entries@[i as int].name@ == k);
                        } else {
                            let j = choose|j: int|
                                0 <= j < old_entries.len() && (#[trigger] old_entries[j]).name@ == k;
                            assert(self.entries@[j] == old_entries[j]);
                        }
                    }
                    assert forall|a: int, b: int|
                        0 <= a < self.entries@.len() && 0 <= b < self.entries@.len() && a != b
                            implies (#[trigger] self.entries@[a]).name@ != (
                        #[trigger] self.entries@[b]).name@ by {
                        assert(old_entries[a].name@ != old_entries[b].name@);
                    }
                    assert(self@.modules =~= replace_view(old(self)@, name@, svc).modules);
                }
            },
        }
    }

    /// A handle to the entry named `name`, if there is one.
    pub fn get(&self, name: &str) -> (r: Option<ModuleHandle>)
        requires
            self.wf(),
        ensures
            match r {
                Some(h) => lookup_view(self@, name@) == Some(h@),
                None => lookup_view(self@, name@) == None::<u64>,
            },
    {
        let key = name.to_owned();
        match self.find(&key) {
            Some(i) => Some(ModuleHandle { slot: self.entries[i].slot }),
            None => None,
        }
    }

    /// Deletes the entry named `name`, if there is one; its handles resolve to
    /// `Destroyed` from then on.
    pub fn remove(&mut self, name: &str)
        requires
            old(self).wf(),
        ensures
            final(self).wf(),
            final(self)@ == remove_view(old(self)@, name@),
    {
        let key = name.to_owned();
        match self.find(&key) {
            None => {
                proof {
                    assert(self@.modules =~= remove_view(old(self)@, name@).modules);
                }
            },
            Some(i) => {
                let ghost old_entries = self.entries@;
                proof {
                    self.model@ = self.model@.remove(key@);
                }
                self.entries.remove(i);
                proof {
                    assert forall|j: int| 0 <= j < self.entries@.len() implies {
                        let e = #[trigger] self.entries@[j];
                        &&& self.model@.contains_key(e.name@)
                        &&& self.model@[e.name@] == EntryView { slot: e.slot, handler: e.handler, busy: e.busy }
                    } by {
                        if j < i {
                            assert(self.entries@[j] == old_entries[j]);
                            assert(old_entries[j].name@ != old_entries[i as int].name@);
                        } else {
                            assert(self.entries@[j] == old_entries[j + 1]);
                            assert(old_entries[j + 1].name@ != old_entries[i as int].name@);
                        }
                    }
                    assert forall|k: Seq<char>| #[trigger] self.model@.contains_key(k) implies exists|
                        j: int,
                    |
                        0 <= j < self.entries@.len() && (#[trigger] self.entries@[j]).name@ == k by {
                        let j = choose|j: int|
                            0 <= j < old_entries.len() && (#[trigger] old_entries[j]).name@ == k;
                        assert(j != i);
                        if j < i {
                            assert(self.entries@[j] == old_entries[j]);
                        } else {
                            assert(self.entries@[j - 1] == old_entries[j]);
                        }
                    }
                    assert forall|a: int, b: int|
                        0 <= a < self.entries@.len() && 0 <= b < self.entries@.len() && a != b
                            implies (#[trigger] self.entries@[a]).name@ != (
                        #[trigger] self.entries@[b]).name@ by {
                        let a2 = if a < i { a } else { a + 1 };
                        let b2 = if b < i { b } else { b + 1 };
                        assert(self.entries@[a] == old_entries[a2]);
                        assert(self.entries@[b] == old_entries[b2]);
                        assert(old_entries[a2].name@ != old_entries[b2].name@);
                    }
                }
            },
        }
    }

    /// The handler that `handle` reaches, or `Destroyed` once its entry is gone.
    pub fn resolve(&self, handle: &ModuleHandle) -> (r: Result<&H, ModuleError>)
        requires
            self.wf(),
        ensures
            match r {
                Ok(h) => resolve_view(self@, handle@) == Some(*h),
                Err(e) => e is Destroyed && resolve_view(self@, handle@) == None::<H>,
            },
    {
        match self.find_slot(handle.slot) {
            Some(i) => {
                proof {
                    let e = self.entries@[i as int];
                    assert(self@.modules.contains_key(e.name@));
                    let k = choose|k: Seq<char>|
                        #[trigger] self@.modules.contains_key(k) && self@.modules[k].slot
                            == handle.slot;
                    assert(k == e.name@);
                }
                Ok(&self.entries[i].handler)
            },
            None => {
                proof {
                    assert forall|k: Seq<char>| #[trigger] self@.modules.contains_key(k) implies self@.modules[k].slot
                        != handle.slot by {
                        let j = choose|j: int|
                            0 <= j < self.entries@.len() && (#[trigger] self.entries@[j]).name@ == k;
                        assert(self.entries@[j].slot != handle.slot);
                    }
                }
                Err(ModuleError::Destroyed)
            },
        }
    }
}


impl<H> ModulesRegistry<H> {
    proof fn lemma_entry_slot(&self, i: int)
        requires
            self.wf(),
            0 <= i < self.entries@.len(),
        ensures
            slot_live(self@, self.entries@[i].slot),
            name_of_slot(self@, self.entries@[i].slot) == self.entries@[i].name@,
    {
        let e = self.entries@[i];
        assert(self@.modules.contains_key(e.name@));
        let k = name_of_slot(self@, e.slot);
        assert(k == e.name@);
    }

    proof fn lemma_no_entry_slot(&self, slot: u64)
        requires
            self.wf(),
            forall|j: int| 0 <= j < self.entries@.len() ==> (#[trigger] self.entries@[j]).slot != slot,
        ensures
            !slot_live(self@, slot),
    {
        assert forall|k: Seq<char>| #[trigger] self@.modules.contains_key(k) implies self@.modules[k].slot
            != slot by {
            let j = choose|j: int| 0 <= j < self.entries@.len() && (#[trigger] self.entries@[j]).name@ == k;
            assert(self.entries@[j].slot != slot);
        }
    }

    fn set_busy(&mut self, i: usize, busy: bool)
        requires
            old(self).wf(),
            i < old(self).entries@.len(),
        ensures
            final(self).wf(),
            final(self)@ == mark_view(old(self)@, old(self).entries@[i as int].slot, busy),
    {
        proof {
            self.lemma_entry_slot(i as int);
        }
        let ghost old_entries = self.entries@;
        let ghost e = self.entries@[i as int];
        proof {
            self.model@ = self.model@.insert(
                e.name@,
                EntryView { slot: e.slot, handler: e.handler, busy },
            );
        }
        self.entries[i].busy = busy;
        proof {
            assert(self.entries@[i as int].name == e.name && self.entries@[i as int].slot == e.slot);
            assert forall|j: int| 0 <= j < self.entries@.len() implies {
                let f = #[trigger] self.entries@[j];
                &&& self.model@.contains_key(f.name@)
                &&& self.model@[f.name@] == EntryView { slot: f.slot, handler: f.handler, busy: f.busy }
            } by {
                if j != i {
                    assert(self.entries@[j] == old_entries[j]);
                    assert(old_entries[j].name@ != e.name@);
                }
            }
            assert forall|k: Seq<char>| #[trigger] self.model@.contains_key(k) implies exists|j: int|
                0 <= j < self.entries@.len() && (#[trigger] self.entries@[j]).name@ == k by {
                let j = choose|j: int| 0 <= j < old_entries.len() && (#[trigger] old_entries[j]).name@ == k;
                if j != i {
                    assert(self.entries@[j] == old_entries[j]);
                } else {
                    assert(self.entries@[j].name@ == k);
                }
            }
            assert forall|a: int, b: int|
                0 <= a < self.entries@.len() && 0 <= b < self.entries@.len() && a != b
                    implies (#[trigger] self.entries@[a]).name@ != (#[trigger] self.entries@[b]).name@ by {
                assert(old_entries[a].name@ != old_entries[b].name@);
                assert(self.entries@[a].name == old_entries[a].name);
                assert(self.entries@[b].name == old_entries[b].name);
            }
            assert(self@.modules =~= mark_view(old(self)@, e.slot, busy).modules);
        }
    }

    /// Admits a call through `handle`: `Destroyed` once its entry is gone,
    /// `Busy` while another call to the entry is in flight, and otherwise
    /// `Started`, after which the entry counts as busy until `end_call`.
    pub fn begin_call(&mut self, handle: &ModuleHandle) -> (r: Result<Admission, ModuleError>)
        requires
            old(self).wf(),
        ensures
            final(self).wf(),
            (final(self)@, r) == begin_view(old(self)@, handle@),
    {
        match self.find_slot(handle.slot) {
            None => {
                proof {
                    self.lemma_no_entry_slot(handle.slot);
                }
                Err(ModuleError::Destroyed)
            },
            Some(i) => {
                proof {
                    self.lemma_entry_slot(i as int);
                }
                if self.entries[i].busy {
                    Ok(Admission::Busy)
                } else {
                    self.set_busy(i, true);
                    Ok(Admission::Started)
                }
            },
        }
    }

    /// Ends the call that `begin_call` started through `handle`; nothing
    /// happens when the entry is gone.
    pub fn end_call(&mut self, handle: &ModuleHandle)
        requires
            old(self).wf(),
        ensures
            final(self).wf(),
            final(self)@ == end_view(old(self)@, handle@),
    {
        match self.find_slot(handle.slot) {
            None => {
                proof {
                    self.lemma_no_entry_slot(handle.slot);
                }
            },
            Some(i) => {
                self.set_busy(i, false);
            },
        }
    }
}

impl<H> ModulesRegistry<H> {
    /// A well-formed registry has a well-formed view.
    pub proof fn lemma_view_wf(&self)
        requires
            self.wf(),
        ensures
            view_wf(self@),
    {
    }
}

/// The entry under a fresh slot is the one that a handle with that slot reaches.
proof fn lemma_fresh_resolves<H>(v: RegistryView<H>, name: Seq<char>, h: H)
    requires
        view_wf(v),
        v.next_slot < u64::MAX,
    ensures
        resolve_view(insert_fresh(v, name, h), v.next_slot) == Some(h),
{
    let v1 = insert_fresh(v, name, h);
    assert(v1.modules.contains_key(name) && v1.modules[name].slot == v.next_slot);
    let k = choose|k: Seq<char>| #[trigger] v1.modules.contains_key(k) && v1.modules[k].slot == v.next_slot;
    if k != name {
        assert(v.modules.contains_key(k));
    }
}

/// Registering one name twice without replacing: the first call succeeds, the
/// second fails with `AlreadyExists` and changes nothing, and the first
/// handler stays reachable, by name and through its handle.
pub proof fn lemma_register_twice<H>(v: RegistryView<H>, name: Seq<char>, h1: H, h2: H)
    requires
        view_wf(v),
        v.next_slot < u64::MAX,
        !v.modules.contains_key(name),
    ensures
        ({
            let (v1, r1) = register_view(v, name, h1);
            let (v2, r2) = register_view(v1, name, h2);
            &&& r1 is Ok
            &&& r2 == Err::<(), RegistryError>(RegistryError::AlreadyExists)
            &&& v2 == v1
            &&& lookup_view(v2, name) == Some(v.next_slot)
            &&& resolve_view(v2, v.next_slot) == Some(h1)
        }),
{
    lemma_fresh_resolves(v, name, h1);
}

/// After `register_or_replace` on a taken name, a handle obtained before the
/// swap reaches the new handler.
pub proof fn lemma_replace_reaches_old_handles<H>(v: RegistryView<H>, name: Seq<char>, h: H)
    requires
        view_wf(v),
        v.modules.contains_key(name),
    ensures
        ({
            let slot = v.modules[name].slot;
            &&& lookup_view(v, name) == Some(slot)
            &&& resolve_view(replace_view(v, name, h), slot) == Some(h)
            &&& lookup_view(replace_view(v, name, h), name) == Some(slot)
        }),
{
    let slot = v.modules[name].slot;
    let v1 = replace_view(v, name, h);
    assert(v1.modules.contains_key(name) && v1.modules[name].slot == slot);
    let k = choose|k: Seq<char>| #[trigger] v1.modules.contains_key(k) && v1.modules[k].slot == slot;
    if k != name {
        assert(v.modules.contains_key(k));
    }
}

/// After `remove`, every handle to the removed entry resolves to nothing
/// (`Destroyed`).
pub proof fn lemma_remove_destroys<H>(v: RegistryView<H>, name: Seq<char>)
    requires
        view_wf(v),
        v.modules.contains_key(name),
    ensures
        resolve_view(remove_view(v, name), v.modules[name].slot) == None::<H>,
{
    let slot = v.modules[name].slot;
    let v1 = remove_view(v, name);
    assert forall|k: Seq<char>| #[trigger] v1.modules.contains_key(k) implies v1.modules[k].slot
        != slot by {
        assert(v.modules.contains_key(k) && k != name);
    }
}

/// A handle whose entry is gone is never revived: no later `register`,
/// `register_or_replace` or `remove`, under any name, makes it reach a handler.
pub proof fn lemma_destroyed_stays_destroyed<H>(
    v: RegistryView<H>,
    slot: u64,
    name: Seq<char>,
    h: H,
)
    requires
        view_wf(v),
        v.next_slot < u64::MAX,
        slot < v.next_slot,
        resolve_view(v, slot) == None::<H>,
    ensures
        resolve_view(register_view(v, name, h).0, slot) == None::<H>,
        resolve_view(replace_view(v, name, h), slot) == None::<H>,
        resolve_view(remove_view(v, name), slot) == None::<H>,
        view_wf(register_view(v, name, h).0),
        view_wf(replace_view(v, name, h)),
        view_wf(remove_view(v, name)),
{
    assert forall|k: Seq<char>| #[trigger] v.modules.contains_key(k) implies v.modules[k].slot != slot by {
        if v.modules[k].slot == slot {
            assert(exists|k: Seq<char>| #[trigger] v.modules.contains_key(k) && v.modules[k].slot == slot);
        }
    }
    let a = register_view(v, name, h).0;
    assert forall|k: Seq<char>| #[trigger] a.modules.contains_key(k) implies a.modules[k].slot != slot by {
        if k != name || v.modules.contains_key(name) {
            assert(v.modules.contains_key(k));
        }
    }
    let b = replace_view(v, name, h);
    assert forall|k: Seq<char>| #[trigger] b.modules.contains_key(k) implies b.modules[k].slot != slot by {
        if k != name || v.modules.contains_key(name) {
            assert(v.modules.contains_key(k));
        }
    }
    let c = remove_view(v, name);
    assert forall|k: Seq<char>| #[trigger] c.modules.contains_key(k) implies c.modules[k].slot != slot by {
        assert(v.modules.contains_key(k));
    }
    assert forall|k1: Seq<char>, k2: Seq<char>|
        #[trigger] b.modules.contains_key(k1) && #[trigger] b.modules.contains_key(k2) && k1 != k2
            implies b.modules[k1].slot != b.modules[k2].slot by {
        if k1 != name && k2 != name {
            assert(v.modules.contains_key(k1) && v.modules.contains_key(k2));
        } else if k1 == name {
            assert(v.modules.contains_key(k2));
        } else {
            assert(v.modules.contains_key(k1));
        }
    }
}


/// In a well-formed registry, the slot of an entry leads back to its name.
proof fn lemma_slot_names<H>(v: RegistryView<H>, k: Seq<char>)
    requires
        view_wf(v),
        v.modules.contains_key(k),
    ensures
        slot_live(v, v.modules[k].slot),
        name_of_slot(v, v.modules[k].slot) == k,
{
    let k2 = name_of_slot(v, v.modules[k].slot);
    assert(v.modules.contains_key(k2) && v.modules[k2].slot == v.modules[k].slot);
}

/// Marking an entry busy or idle keeps every slot, so the view stays well formed.
proof fn lemma_mark_keeps_slots<H>(v: RegistryView<H>, slot: u64, busy: bool)
    requires
        view_wf(v),
        slot_live(v, slot),
    ensures
        view_wf(mark_view(v, slot, busy)),
        mark_view(v, slot, busy).modules.dom() == v.modules.dom(),
        forall|k: Seq<char>| #[trigger] v.modules.contains_key(k) ==> mark_view(v, slot, busy).modules[k].slot
            == v.modules[k].slot,
        forall|k: Seq<char>|
            #[trigger] v.modules.contains_key(k) && k != name_of_slot(v, slot) ==> mark_view(
                v,
                slot,
                busy,
            ).modules[k] == v.modules[k],
{
    let m = mark_view(v, slot, busy);
    let n = name_of_slot(v, slot);
    assert(v.modules.contains_key(n));
    assert(m.modules.dom() =~= v.modules.dom());
    assert forall|k1: Seq<char>, k2: Seq<char>|
        #[trigger] m.modules.contains_key(k1) && #[trigger] m.modules.contains_key(k2) && k1 != k2
            implies m.modules[k1].slot != m.modules[k2].slot by {
        assert(v.modules.contains_key(k1) && v.modules.contains_key(k2));
    }
}

/// Calls to one module never overlap: once a call has started, the next
/// attempt is refused as `Busy` and changes nothing; once that call has ended,
/// the next attempt starts.
pub proof fn lemma_calls_never_overlap<H>(v: RegistryView<H>, slot: u64)
    requires
        view_wf(v),
        begin_view(v, slot).1 == Ok::<Admission, ModuleError>(Admission::Started),
    ensures
        ({
            let v1 = begin_view(v, slot).0;
            &&& view_wf(v1)
            &&& begin_view(v1, slot) == (v1, Ok::<Admission, ModuleError>(Admission::Busy))
            &&& view_wf(end_view(v1, slot))
            &&& begin_view(end_view(v1, slot), slot).1 == Ok::<Admission, ModuleError>(
                Admission::Started,
            )
        }),
{
    let n = name_of_slot(v, slot);
    let v1 = begin_view(v, slot).0;
    lemma_mark_keeps_slots(v, slot, true);
    lemma_slot_names(v1, n);
    let v2 = end_view(v1, slot);
    lemma_mark_keeps_slots(v1, slot, false);
    lemma_slot_names(v2, n);
}

/// While a call to a module is in flight, nothing else done to the registry
/// lets a second call to it start: not replacing its handler, not
/// registering any name, not starting or ending calls to other modules.
pub proof fn lemma_busy_survives<H>(
    v: RegistryView<H>,
    slot: u64,
    name: Seq<char>,
    h: H,
    other: u64,
)
    requires
        view_wf(v),
        v.next_slot < u64::MAX,
        begin_view(v, slot).1 == Ok::<Admission, ModuleError>(Admission::Busy),
        other != slot,
    ensures
        begin_view(replace_view(v, name, h), slot).1 == Ok::<Admission, ModuleError>(Admission::Busy),
        begin_view(register_view(v, name, h).0, slot).1 == Ok::<Admission, ModuleError>(
            Admission::Busy,
        ),
        begin_view(begin_view(v, other).0, slot).1 == Ok::<Admission, ModuleError>(Admission::Busy),
        begin_view(end_view(v, other), slot).1 == Ok::<Admission, ModuleError>(Admission::Busy),
{
    let n = name_of_slot(v, slot);
    assert(v.modules.contains_key(n) && v.modules[n].slot == slot && v.modules[n].busy);
    // replace or register
    let a = replace_view(v, name, h);
    lemma_insert_keeps_wf(v, name, h);
    assert(a.modules.contains_key(n) && a.modules[n].slot == slot && a.modules[n].busy);
    lemma_slot_names(a, n);
    let b = register_view(v, name, h).0;
    assert(b.modules.contains_key(n) && b.modules[n].slot == slot && b.modules[n].busy);
    lemma_slot_names(b, n);
    // calls to another module
    if slot_live(v, other) {
        let o = name_of_slot(v, other);
        assert(o != n);
        lemma_mark_keeps_slots(v, other, true);
        lemma_mark_keeps_slots(v, other, false);
        let c = mark_view(v, other, true);
        lemma_slot_names(c, n);
        let d = mark_view(v, other, false);
        lemma_slot_names(d, n);
    }
}

/// `register` and `register_or_replace` keep a registry well formed.
proof fn lemma_insert_keeps_wf<H>(v: RegistryView<H>, name: Seq<char>, h: H)
    requires
        view_wf(v),
        v.next_slot < u64::MAX,
    ensures
        view_wf(register_view(v, name, h).0),
        view_wf(replace_view(v, name, h)),
{
    let b = replace_view(v, name, h);
    assert forall|k1: Seq<char>, k2: Seq<char>|
        #[trigger] b.modules.contains_key(k1) && #[trigger] b.modules.contains_key(k2) && k1 != k2
            implies b.modules[k1].slot != b.modules[k2].slot by {
        if k1 != name && k2 != name {
            assert(v.modules.contains_key(k1) && v.modules.contains_key(k2));
        } else if k1 == name {
            assert(v.modules.contains_key(k2));
        } else {
            assert(v.modules.contains_key(k1));
        }
    }
}

} // verus!
