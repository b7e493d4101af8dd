//! Root handles, root records, object statuses and the per-block status
//! table.

use vstd::prelude::*;

use crate::gc::Gc;
use crate::generation::Generation;
use crate::{GcError, GcInfo};

verus! {

/// Status of one slot, kept in the owning block's status table. A slot
/// with no entry is a plain, unrooted object.
#[derive(Clone, Copy, Debug)]
pub enum ObjectStatus {
    /// During a collection, the object has been copied to this to-space
    /// address; the entry is the forwarding pointer.
    Moved(usize),
    /// At least one root handle is outstanding; the payload is the index of
    /// the object's record in the root registry.
    Rooted(usize),
    /// The destructor has run; the slot is poisoned.
    Dropped,
}

/// A record in the root registry, shared by every root handle to one
/// object. `ptr` always points at the most recent location of the object.
#[derive(Clone, Copy, Debug)]
pub struct RootInner {
    /// Current address of the referent.
    pub ptr: usize,
    /// Canonical identity of the referent's type.
    pub type_id: u64,
    /// The collection marker current when `traced_count` was last reset.
    pub collection_marker: bool,
    /// How many owning references the current collection has traced.
    pub traced_count: usize,
    /// Count of all owning references, in handles and in managed words.
    pub ref_count: usize,
}

impl RootInner {
    /// A fresh record for an object at `ptr`, with no owning references
    /// counted yet.
    pub fn new(ptr: usize, type_id: u64, collection_marker: bool) -> (r: RootInner)
        ensures
            r == (RootInner {
                ptr,
                type_id,
                collection_marker,
                traced_count: 0,
                ref_count: 0,
            }),
    {
        RootInner { ptr, type_id, collection_marker, traced_count: 0, ref_count: 0 }
    }
}

/// An owning root handle: an index into the generation's root registry.
/// It cannot be forged or cloned directly; the registry's reference count
/// tracks every handle, so duplication and disposal go through the
/// generation.
#[derive(Debug)]
pub struct Root {
    idx: usize,
}

impl Root {
    /// The registry index this handle refers to.
    pub closed spec fn id(self) -> usize {
        self.idx
    }

    pub(crate) fn from_idx(idx: usize) -> (r: Root)
        ensures
            r.id() == idx,
    {
        Root { idx }
    }

    /// The registry index, readable at run time.
    pub fn index(&self) -> (i: usize)
        ensures
            i == self.id(),
    {
        self.idx
    }

    /// Library-internal duplication, modelling the evacuator's verbatim
    /// copy of an object that holds a root word. The registry's reference
    /// count is not changed by this; the pass that calls it transfers
    /// ownership from the dying copy to the new one.
    pub(crate) fn duplicate(&self) -> (r: Root)
        ensures
            r == *self,
    {
        Root { idx: self.idx }
    }

    /// Roots the object a scoped handle points at: installs a fresh record
    /// with one owner, or counts one more owner in the existing record.
    /// Rooting a moved or dropped slot is excluded outright — outside a
    /// collection no such entry exists in a well-formed heap.
    pub fn from_gc(gen: &mut Generation, h: Gc) -> (r: Root)
        requires
            old(gen).wf(),
            old(gen).valid_obj(h.0),
            match old(gen).status_of(h.0) {
                Some(st) => st is Rooted && old(gen).rec(st->Rooted_0).ref_count < usize::MAX,
                None => true,
            },
        ensures
            final(gen).wf(),
            final(gen).root_live(r.id()),
            final(gen).rec(r.id()).ptr == h.0,
            final(gen).rec(r.id()).type_id == old(gen).obj_info(h.0).type_id,
            final(gen).status_of(h.0) == Some(ObjectStatus::Rooted(r.id())),
            forall|x: usize| x != h.0 ==> final(gen).status_of(x) == old(gen).status_of(x),
            forall|x: usize|
                #[trigger] old(gen).valid_obj(x) ==> final(gen).valid_obj(x) && final(gen).obj_info(x) == old(gen).obj_info(x) && final(gen).obj_words(x) == old(gen).obj_words(x),
            forall|x: usize| #[trigger] final(gen).valid_obj(x) ==> old(gen).valid_obj(x),
            final(gen).marker == old(gen).marker,
            final(gen).block_count == old(gen).block_count,
            final(gen).post_block_count == old(gen).post_block_count,
            final(gen).destructors_run == old(gen).destructors_run,
            final(gen).next_base == old(gen).next_base,
            match old(gen).status_of(h.0) {
                None => {
                    &&& r.id() == old(gen).roots@.len()
                    &&& final(gen).roots@ == old(gen).roots@.push(
                        Some(
                            RootInner {
                                ptr: h.0,
                                type_id: old(gen).obj_info(h.0).type_id,
                                collection_marker: old(gen).marker,
                                traced_count: 0,
                                ref_count: 1,
                            },
                        ),
                    )
                },
                Some(st) => {
                    &&& r.id() == st->Rooted_0
                    &&& final(gen).roots@ == old(gen).roots@.update(
                        r.id() as int,
                        Some(
                            RootInner {
                                ref_count: (old(gen).rec(r.id()).ref_count + 1) as usize,
                                ..old(gen).rec(r.id())
                            },
                        ),
                    )
                },
            },
    {
        let ghost pre = *gen;
        let st = gen.nursery.status_at(h.0);
        match st {
            None => {
                let info = match gen.nursery.info_at(h.0) {
                    Some(i) => i,
                    None => {
                        proof {
                            assert(false);
                        }
                        return Root { idx: 0 };
                    },
                };
                let ri = gen.roots.len();
                let rec0 = RootInner::new(h.0, info.type_id, gen.marker);
                gen.roots.push(Some(RootInner { ref_count: 1, ..rec0 }));
                gen.nursery.set_status(h.0, ObjectStatus::Rooted(ri));
                proof {
                    assert forall|x: usize| #[trigger] gen.status_ok(x) by {
                        assert(pre.status_ok(x));
                        if x == h.0 {
                            assert(gen.status_of(x) == Some(ObjectStatus::Rooted(ri)));
                        } else {
                            assert(gen.status_of(x) == pre.status_of(x));
                            if gen.status_of(x) is Some {
                                let rj = gen.status_of(x)->Some_0->Rooted_0;
                                assert(gen.roots@[rj as int] == pre.roots@[rj as int]);
                            }
                        }
                    }
                }
                Root { idx: ri }
            },
            Some(ObjectStatus::Rooted(ri)) => {
                proof {
                    assert(pre.status_ok(h.0));
                }
                let rec = match gen.roots[ri] {
                    Some(rec) => rec,
                    None => {
                        proof {
                            assert(!pre.status_ok(h.0));
                        }
                        return Root { idx: 0 };
                    },
                };
                gen.roots[ri] = Some(RootInner { ref_count: rec.ref_count + 1, ..rec });
                proof {
                    assert(pre.status_ok(h.0));
                    assert forall|x: usize| #[trigger] gen.status_ok(x) by {
                        assert(pre.status_ok(x));
                        assert(gen.status_of(x) == pre.status_of(x));
                    }
                }
                Root { idx: ri }
            },
            Some(_) => {
                proof {
                    assert(false);
                }
                Root { idx: 0 }
            },
        }
    }
}

/// A work item for the evacuator: the place that holds a managed pointer
/// which must be rewritten once its referent has been copied.
#[derive(Clone, Copy, Debug)]
pub struct TraceAt {
    /// The pointer-holding field this item will rewrite.
    pub at: TraceTarget,
}

/// Where a managed pointer lives: a handle word inside a to-space object
/// — named by the object's address and the word's offset — or the `ptr`
/// field of a root record.
#[derive(Clone, Copy, Debug, PartialEq, Eq, Structural)]
pub enum TraceTarget {
    /// Word `1` (the offset) of the to-space object at address `0` holds
    /// the handle to rewrite.
    Word(usize, usize),
    /// The `ptr` field of the root record at this registry index.
    RootPtr(usize),
}

/// The status table of one block: a map from slot address to
/// [`ObjectStatus`], stored as an association vector with unique keys.
pub struct StatusTable {
    pub entries: Vec<(usize, ObjectStatus)>,
}

/// The map an association vector denotes: later entries win, though with
/// unique keys the order never matters.
pub open spec fn map_of(s: Seq<(usize, ObjectStatus)>) -> Map<usize, ObjectStatus>
    decreases s.len(),
{
    if s.len() == 0 {
        Map::empty()
    } else {
        map_of(s.drop_last()).insert(s.last().0, s.last().1)
    }
}

/// No key occurs twice.
pub open spec fn keys_unique(s: Seq<(usize, ObjectStatus)>) -> bool {
    forall|i: int, j: int| 0 <= i < j < s.len() ==> (#[trigger] s[i]).0 != (#[trigger] s[j]).0
}

/// A key is in the map exactly when some entry holds it.
pub proof fn lemma_map_of_contains(s: Seq<(usize, ObjectStatus)>, k: usize)
    ensures
        map_of(s).contains_key(k) <==> exists|i: int| 0 <= i < s.len() && (#[trigger] s[i]).0 == k,
    decreases s.len(),
{
    if s.len() > 0 {
        lemma_map_of_contains(s.drop_last(), k);
        if s.last().0 == k {
            assert(s[s.len() - 1].0 == k);
        } else if map_of(s).contains_key(k) {
            let i = choose|i: int| 0 <= i < s.drop_last().len() && (#[trigger] s.drop_last()[i]).0
                == k;
            assert(s[i].0 == k);
        } else {
            assert forall|i: int| 0 <= i < s.len() && (#[trigger] s[i]).0 == k implies false by {
                if i < s.len() - 1 {
                    assert(s.drop_last()[i].0 == k);
                }
            }
        }
    }
}

/// With unique keys, the entry holding a key gives its value in the map.
pub proof fn lemma_map_of_index(s: Seq<(usize, ObjectStatus)>, i: int)
    requires
        keys_unique(s),
        0 <= i < s.len(),
    ensures
        map_of(s).contains_key(s[i].0),
        map_of(s)[s[i].0] == s[i].1,
    decreases s.len(),
{
    if i == s.len() - 1 {
        lemma_map_of_contains(s, s[i].0);
    } else {
        assert(keys_unique(s.drop_last()));
        lemma_map_of_index(s.drop_last(), i);
        assert(s.drop_last()[i] == s[i]);
        assert(s[s.len() - 1].0 != s[i].0);
    }
}

impl StatusTable {
    /// The denoted map.
    pub open spec fn view(&self) -> Map<usize, ObjectStatus> {
        map_of(self.entries@)
    }

    /// Keys are unique, so every entry is authoritative.
    pub open spec fn wf(&self) -> bool {
        keys_unique(self.entries@)
    }

    /// An empty table.
    pub fn new() -> (t: StatusTable)
        ensures
            t.wf(),
            t@ == Map::<usize, ObjectStatus>::empty(),
            t.entries@.len() == 0,
    {
        StatusTable { entries: Vec::new() }
    }

    /// Looks a slot address up.
    pub fn get(&self, k: usize) -> (r: Option<ObjectStatus>)
        requires
            self.wf(),
        ensures
            match r {
                Some(st) => self@.contains_key(k) && self@[k] == st,
                None => !self@.contains_key(k),
            },
    {
        let n = self.entries.len();
        let mut i: usize = 0;
        while i < n
            invariant
                0 <= i <= n,
                n == self.entries@.len(),
                self.wf(),
                forall|j: int| 0 <= j < i ==> (#[trigger] self.entries@[j]).0 != k,
            decreases n - i,
        {
            if self.entries[i].0 == k {
                proof {
                    lemma_map_of_index(self.entries@, i as int);
                }
                return Some(self.entries[i].1);
            }
            i += 1;
        }
        proof {
            lemma_map_of_contains(self.entries@, k);
        }
        None
    }

    /// Inserts or overwrites the entry for a slot address.
    pub fn set(&mut self, k: usize, v: ObjectStatus)
        requires
            old(self).wf(),
        ensures
            final(self).wf(),
            final(self)@ == old(self)@.insert(k, v),
            final(self).entries@.len() <= old(self).entries@.len() + 1,
            (exists|i: int|
                0 <= i < old(self).entries@.len() && (#[trigger] old(self).entries@[i]).0 == k
                    && final(self).entries@ == old(self).entries@.update(i, (k, v))) || (!old(self)@.contains_key(k) && final(self).entries@ == old(self).entries@.push((k, v))),
    {
        let n = self.entries.len();
        let mut i: usize = 0;
        while i < n
            invariant
                0 <= i <= n,
                n == self.entries@.len(),
                self.wf(),
                *self == *old(self),
                forall|j: int| 0 <= j < i ==> (#[trigger] self.entries@[j]).0 != k,
            decreases n - i,
        {
            if self.entries[i].0 == k {
                self.entries[i] = (k, v);
                proof {
                    lemma_map_of_update(old(self).entries@, i as int, k, v);
                }
                return ;
            }
            i += 1;
        }
        self.entries.push((k, v));
        proof {
            assert(self.entries@.drop_last() == old(self).entries@);
            lemma_map_of_contains(old(self).entries@, k);
            assert(keys_unique(self.entries@));
        }
    }

    /// Removes the entry for a slot address, if any.
    pub fn remove(&mut self, k: usize)
        requires
            old(self).wf(),
        ensures
            final(self).wf(),
            final(self)@ == old(self)@.remove(k),
            final(self).entries@.len() <= old(self).entries@.len(),
            (exists|i: int|
                0 <= i < old(self).entries@.len() && (#[trigger] old(self).entries@[i]).0 == k
                    && final(self).entries@ == old(self).entries@.remove(i)) || (!old(self)@.contains_key(k) && final(self).entries@ == old(self).entries@),
    {
        let n = self.entries.len();
        let mut i: usize = 0;
        while i < n
            invariant
                0 <= i <= n,
                n == self.entries@.len(),
                self.wf(),
                *self == *old(self),
                forall|j: int| 0 <= j < i ==> (#[trigger] self.entries@[j]).0 != k,
            decreases n - i,
        {
            if self.entries[i].0 == k {
                self.entries.remove(i);
                proof {
                    lemma_map_of_remove(old(self).entries@, i as int, k);
                }
                return ;
            }
            i += 1;
        }
        proof {
            lemma_map_of_contains(self.entries@, k);
            assert(self@ =~= old(self)@.remove(k));
        }
    }
}

/// Updating the entry at `i` in place updates the map at its key.
pub proof fn lemma_map_of_update(s: Seq<(usize, ObjectStatus)>, i: int, k: usize, v: ObjectStatus)
    requires
        keys_unique(s),
        0 <= i < s.len(),
        s[i].0 == k,
    ensures
        keys_unique(s.update(i, (k, v))),
        map_of(s.update(i, (k, v))) =~= map_of(s).insert(k, v),
    decreases s.len(),
{
    let t = s.update(i, (k, v));
    assert forall|a: int, b: int| 0 <= a < b < t.len() implies (#[trigger] t[a]).0 != (
    #[trigger] t[b]).0 by {
        assert(s[a].0 != s[b].0);
    }
    if i == s.len() - 1 {
        assert(t.drop_last() =~= s.drop_last());
        assert forall|k2: usize| #[trigger]
            map_of(t).contains_key(k2) == map_of(s).insert(k, v).contains_key(k2) && (map_of(
                t,
            ).contains_key(k2) ==> map_of(t)[k2] == map_of(s).insert(k, v)[k2]) by {
            lemma_map_of_contains(t, k2);
            lemma_map_of_contains(s, k2);
        }
    } else {
        assert(keys_unique(s.drop_last()));
        assert(s.drop_last()[i] == s[i]);
        lemma_map_of_update(s.drop_last(), i, k, v);
        assert(t.drop_last() =~= s.drop_last().update(i, (k, v)));
        assert(t.last() == s.last());
        // last key differs from k, so the outer insert commutes
        assert(s[s.len() - 1].0 != k);
        assert(map_of(t) =~= map_of(s).insert(k, v));
    }
}

impl Root {
    /// Runs a full collection. No scoped handle should be kept across
    /// this call; a stale handle is merely useless here — every lookup
    /// through it reports the object as absent.
    pub fn collect_garbage(gen: &mut Generation)
        requires
            old(gen).wf(),
            old(gen).collect_room(),
        ensures
            final(gen).wf(),
            crate::internals::collect_post(*old(gen), *final(gen)),
    {
        crate::internals::run_evac(gen)
    }

    /// Runs a collection only when the heap has more than twice the blocks
    /// it had right after the last one.
    pub fn maybe_collect_garbage(gen: &mut Generation)
        requires
            old(gen).wf(),
            old(gen).collect_room(),
        ensures
            final(gen).wf(),
            (old(gen).block_count as int > 2 * old(gen).post_block_count as int)
                ==> crate::internals::collect_post(*old(gen), *final(gen)),
            !(old(gen).block_count as int > 2 * old(gen).post_block_count as int) ==> *final(gen)
                == *old(gen),
    {
        let trigger = if gen.post_block_count <= usize::MAX / 2 {
            gen.block_count > 2 * gen.post_block_count
        } else {
            false
        };
        if trigger {
            crate::internals::run_evac(gen)
        }
    }
}

/// A typed root: a root handle paired with the descriptor its referent
/// was checked against.
pub struct RootGc {
    /// The untyped owning handle.
    pub root: Root,
    /// The descriptor of the referent.
    pub info: GcInfo,
}

impl RootGc {
    /// Allocates a fresh object and roots it in one step.
    pub fn new(gen: &mut Generation, value: Vec<crate::gc::Word>, info: GcInfo) -> (r: RootGc)
        requires
            old(gen).wf(),
            info.wf(),
            value@.len() == info.size as int,
            old(gen).can_alloc_block(),
        ensures
            final(gen).wf(),
            r.info == info,
            final(gen).root_live(r.root.id()),
            final(gen).rec(r.root.id()).ref_count == 1,
            final(gen).rec(r.root.id()).type_id == info.type_id,
            final(gen).projects(r.root.id(), info),
            final(gen).obj_words(final(gen).rec(r.root.id()).ptr) == value@,
            final(gen).marker == old(gen).marker,
            final(gen).post_block_count == old(gen).post_block_count,
            final(gen).destructors_run == old(gen).destructors_run,
            forall|x: usize|
                #[trigger] old(gen).valid_obj(x) ==> final(gen).valid_obj(x) && final(gen).obj_info(x) == old(gen).obj_info(x) && final(gen).obj_words(x) == old(gen).obj_words(x),
            forall|x: usize|
                x != final(gen).rec(r.root.id()).ptr ==> final(gen).status_of(x) == old(gen).status_of(x),
    {
        let h = gen.gc(value, info);
        let root = Root::from_gc(gen, h);
        RootGc { root, info }
    }

    /// Checks an untyped root against a descriptor, taking ownership of
    /// the handle on success and handing it back beside the error on a
    /// mismatch.
    pub fn try_from(gen: &Generation, root: Root, info: GcInfo) -> (r: Result<RootGc, (GcError, Root)>)
        requires
            gen.wf(),
            gen.root_live(root.id()),
        ensures
            match r {
                Ok(rg) => gen.projects(root.id(), info) && rg.root.id() == root.id() && rg.info
                    == info,
                Err(e) => !gen.projects(root.id(), info) && e.0 == GcError::TypeMismatch
                    && e.1.id() == root.id(),
            },
    {
        match gen.try_from_root(&root, info) {
            Ok(_) => Ok(RootGc { root, info }),
            Err(e) => Err((e, root)),
        }
    }

    /// The current address of the referent.
    pub fn as_ptr(gen: &Generation, root: &RootGc) -> (a: usize)
        requires
            gen.wf(),
            gen.root_live(root.root.id()),
        ensures
            a == gen.rec(root.root.id()).ptr,
    {
        let ri = root.root.index();
        match gen.roots[ri] {
            Some(rec) => rec.ptr,
            None => {
                proof {
                    assert(false);
                }
                0
            },
        }
    }
}

/// Removing the entry at `i` removes its key from the map.
pub proof fn lemma_map_of_remove(s: Seq<(usize, ObjectStatus)>, i: int, k: usize)
    requires
        keys_unique(s),
        0 <= i < s.len(),
        s[i].0 == k,
    ensures
        keys_unique(s.remove(i)),
        map_of(s.remove(i)) =~= map_of(s).remove(k),
    decreases s.len(),
{
    let t = s.remove(i);
    assert forall|a: int, b: int| 0 <= a < b < t.len() implies (#[trigger] t[a]).0 != (
    #[trigger] t[b]).0 by {
        let a2: int = if a < i {
            a
        } else {
            a + 1
        };
        let b2: int = if b < i {
            b
        } else {
            b + 1
        };
        assert(s[a2].0 != s[b2].0);
    }
    if i == s.len() - 1 {
        assert(t =~= s.drop_last());
        lemma_map_of_contains(s.drop_last(), k);
        assert forall|k2: usize| #[trigger]
            map_of(t).contains_key(k2) == map_of(s).remove(k).contains_key(k2) && (map_of(
                t,
            ).contains_key(k2) ==> map_of(t)[k2] == map_of(s).remove(k)[k2]) by {
            lemma_map_of_contains(t, k2);
            lemma_map_of_contains(s, k2);
            if k2 != k && map_of(t).contains_key(k2) {
                let j = choose|j: int| 0 <= j < t.len() && (#[trigger] t[j]).0 == k2;
                lemma_map_of_index(t, j);
                lemma_map_of_index(s, j);
            }
        }
    } else {
        assert(keys_unique(s.drop_last()));
        assert(s.drop_last()[i] == s[i]);
        lemma_map_of_remove(s.drop_last(), i, k);
        assert(t.drop_last() =~= s.drop_last().remove(i));
        assert(t.last() == s.last());
        assert(s[s.len() - 1].0 != k);
        assert(map_of(t) =~= map_of(s).remove(k));
    }
}

} // verus!
