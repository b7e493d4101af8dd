//! The generation: the heap state of one thread — its nursery of blocks,
//! the collection marker, the root registry and the block counters — and
//! the allocation front end.

use vstd::prelude::*;

use crate::blocks::{base_of, Blocks};
use crate::gc::{Gc, Word};
use crate::root::{ObjectStatus, RootInner};
use crate::{GcError, GcInfo, BLOCK_SIZE};

verus! {

/// The heap of one thread. The client owns it and threads it through
/// every operation — the moral equivalent of thread-local state, with the
/// same single-threaded discipline made explicit.
pub struct Generation {
    /// The live blocks.
    pub nursery: Blocks,
    /// The current collection marker; every live block carries it outside a
    /// collection.
    pub marker: bool,
    /// The root registry; a root handle is an index into it, and a freed
    /// record leaves a `None` behind.
    pub roots: Vec<Option<RootInner>>,
    /// The next fresh block base; block addresses are never reused.
    pub next_base: usize,
    /// Count of live blocks.
    pub block_count: usize,
    /// The block count right after the last collection, seeding the
    /// growth heuristic.
    pub post_block_count: usize,
    /// How many object destructors have run.
    pub destructors_run: usize,
}

impl Generation {
    /// The status entry at `x`, if any, names a live root record that
    /// points back at `x`, with the type of `x`'s block and at least one
    /// owning reference; no entry outside a collection is `Moved` or
    /// `Dropped`.
    pub open spec fn status_ok(self, x: usize) -> bool {
        match self.nursery.status_of(x) {
            Some(st) => match st {
                ObjectStatus::Rooted(ri) => {
                    &&& (ri as int) < self.roots@.len()
                    &&& self.roots@[ri as int] is Some
                    &&& self.roots@[ri as int]->Some_0.ptr == x
                    &&& self.roots@[ri as int]->Some_0.type_id == self.nursery.obj_info(
                        x,
                    ).type_id
                    &&& 1 <= self.roots@[ri as int]->Some_0.ref_count
                    &&& self.nursery.valid_obj(x)
                },
                _ => false,
            },
            None => true,
        }
    }

    /// Well-formedness of the whole heap.
    pub open spec fn wf(self) -> bool {
        &&& self.nursery.wf()
        &&& self.nursery.marked_all(self.marker)
        &&& self.nursery.bases_below(self.next_base as int)
        &&& self.next_base % BLOCK_SIZE == 0
        &&& BLOCK_SIZE <= self.next_base
        &&& self.block_count == self.nursery.blocks@.len()
        &&& forall|x: usize| #[trigger] self.status_ok(x)
    }

    /// `a` is the address of a live object.
    pub open spec fn valid_obj(self, a: usize) -> bool {
        self.nursery.valid_obj(a)
    }

    /// The descriptor of the block holding `a`.
    pub open spec fn obj_info(self, a: usize) -> GcInfo {
        self.nursery.obj_info(a)
    }

    /// The words of the object at `a`.
    pub open spec fn obj_words(self, a: usize) -> Seq<Word> {
        self.nursery.obj_words(a)
    }

    /// The status entry at `a`, if any.
    pub open spec fn status_of(self, a: usize) -> Option<ObjectStatus> {
        self.nursery.status_of(a)
    }

    /// Registry index `ri` holds a live root record.
    pub open spec fn root_live(self, ri: usize) -> bool {
        (ri as int) < self.roots@.len() && self.roots@[ri as int] is Some
    }

    /// The record at registry index `ri`.
    pub open spec fn rec(self, ri: usize) -> RootInner {
        self.roots@[ri as int]->Some_0
    }

    /// Registry index `i` is live and its referent's status entry points
    /// back at it: the normal state of a rooted object outside a
    /// collection.
    pub open spec fn rooted(self, i: usize) -> bool {
        self.root_live(i) && self.status_of(self.rec(i).ptr) == Some(ObjectStatus::Rooted(i))
    }

    /// There is address space left to carve one more block.
    pub open spec fn can_alloc_block(self) -> bool {
        self.next_base + BLOCK_SIZE <= usize::MAX
    }

    /// There is address space left to run a whole collection: the pass can
    /// copy at most two units of work per allocated slot, and consumes at
    /// most one block of address space per unit.
    pub open spec fn collect_room(self) -> bool {
        &&& self.next_base as int + (BLOCK_SIZE as int) * (2 * (BLOCK_SIZE as int) * (
        self.block_count as int) + 2) <= usize::MAX as int
        &&& self.block_count as int + 2 * (BLOCK_SIZE as int) * (self.block_count as int) + 4
            <= usize::MAX as int
    }

    /// The registry holds no live record: no object is rooted.
    pub open spec fn no_live_roots(self) -> bool {
        forall|i: int| 0 <= i < self.roots@.len() ==> !((#[trigger] self.roots@[i]) is Some)
    }

    /// Projecting the root at `ri` as an object of descriptor `info`
    /// succeeds: the record's pointer sits in a block of that descriptor.
    pub open spec fn projects(self, ri: usize, info: GcInfo) -> bool {
        &&& self.valid_obj(self.rec(ri).ptr)
        &&& self.obj_info(self.rec(ri).ptr) == info
    }

    /// What allocation guarantees: the new object carries the given words
    /// under the given descriptor, is not rooted, and every prior object,
    /// status entry and root is exactly as it was.
    pub open spec fn alloc_post(
        pre: Generation,
        post: Generation,
        h: Gc,
        value: Seq<Word>,
        info: GcInfo,
    ) -> bool {
        &&& post.valid_obj(h.0)
        &&& !pre.valid_obj(h.0)
        &&& post.obj_info(h.0) == info
        &&& post.obj_words(h.0) == value
        &&& post.status_of(h.0) is None
        &&& h.0 as int % info.align as int == 0
        &&& BLOCK_SIZE < h.0
        &&& post.marker == pre.marker
        &&& post.roots == pre.roots
        &&& post.post_block_count == pre.post_block_count
        &&& post.destructors_run == pre.destructors_run
        &&& pre.block_count <= post.block_count <= pre.block_count + 1
        &&& pre.next_base <= post.next_base <= pre.next_base + BLOCK_SIZE
        &&& forall|x: usize| #[trigger] post.status_of(x) == pre.status_of(x)
        &&& forall|x: usize|
            #[trigger] pre.valid_obj(x) ==> post.valid_obj(x) && post.obj_info(x) == pre.obj_info(
                x,
            ) && post.obj_words(x) == pre.obj_words(x) && x != h.0
    }

    /// A fresh, empty heap.
    pub fn new() -> (g: Generation)
        ensures
            g.wf(),
            g.marker == true,
            g.block_count == 0,
            g.post_block_count == 2,
            g.destructors_run == 0,
            g.roots@.len() == 0,
            g.nursery.blocks@.len() == 0,
            g.next_base == BLOCK_SIZE,
    {
        let g = Generation {
            nursery: Blocks::new(),
            marker: true,
            roots: Vec::new(),
            next_base: BLOCK_SIZE,
            block_count: 0,
            post_block_count: 2,
            destructors_run: 0,
        };
        proof {
            assert forall|x: usize| #[trigger] g.status_ok(x) by {
                assert(g.status_of(x) is None);
            }
        }
        g
    }

    /// Allocates a managed object holding `value` under descriptor `info`
    /// and hands back a scoped handle to it.
    pub fn gc(&mut self, value: Vec<Word>, info: GcInfo) -> (h: Gc)
        requires
            old(self).wf(),
            info.wf(),
            value@.len() == info.size as int,
            old(self).can_alloc_block(),
        ensures
            final(self).wf(),
            Generation::alloc_post(*old(self), *final(self), h, value@, info),
    {
        let ghost pre = *self;
        let a = self.nursery.allocate(info, self.marker, &mut self.next_base);
        let grew = self.nursery.blocks.len() > self.block_count;
        if grew {
            self.block_count = self.block_count + 1;
        }
        self.nursery.write_obj_at(a, value);
        proof {
            assert forall|x: usize| #[trigger] self.status_ok(x) by {
                assert(pre.status_ok(x));
                assert(self.status_of(x) == pre.status_of(x));
                if self.status_of(x) is Some {
                    assert(pre.valid_obj(x));
                    assert(x != a);
                }
            }
        }
        Gc::new(a)
    }

    /// Reads an integer word of an object.
    pub fn read_int(&self, h: Gc, k: usize) -> (r: Option<u64>)
        requires
            self.wf(),
        ensures
            match r {
                Some(v) => self.valid_obj(h.0) && (k as int) < self.obj_info(h.0).size as int
                    && self.obj_words(h.0)[k as int] == Word::Int(v),
                None => !(self.valid_obj(h.0) && (k as int) < self.obj_info(h.0).size as int
                    && self.obj_words(h.0)[k as int] is Int),
            },
    {
        match self.nursery.read_word(h.0, k) {
            Some(w) => match w {
                Word::Int(v) => Some(*v),
                _ => None,
            },
            None => None,
        }
    }

    /// Reads a string word of an object.
    pub fn read_text(&self, h: Gc, k: usize) -> (r: Option<String>)
        requires
            self.wf(),
        ensures
            match r {
                Some(v) => self.valid_obj(h.0) && (k as int) < self.obj_info(h.0).size as int
                    && self.obj_words(h.0)[k as int] == Word::Text(v),
                None => !(self.valid_obj(h.0) && (k as int) < self.obj_info(h.0).size as int
                    && self.obj_words(h.0)[k as int] is Text),
            },
    {
        match self.nursery.read_word(h.0, k) {
            Some(w) => match w {
                Word::Text(v) => Some(v.clone()),
                _ => None,
            },
            None => None,
        }
    }

    /// Reads a handle word of an object.
    pub fn read_handle(&self, h: Gc, k: usize) -> (r: Option<Gc>)
        requires
            self.wf(),
        ensures
            match r {
                Some(v) => self.valid_obj(h.0) && (k as int) < self.obj_info(h.0).size as int
                    && self.obj_words(h.0)[k as int] == Word::Handle(v),
                None => !(self.valid_obj(h.0) && (k as int) < self.obj_info(h.0).size as int
                    && self.obj_words(h.0)[k as int] is Handle),
            },
    {
        match self.nursery.read_word(h.0, k) {
            Some(w) => match w {
                Word::Handle(v) => Some(*v),
                _ => None,
            },
            None => None,
        }
    }

    /// Projects a root to a scoped handle of descriptor `info`, absent when
    /// the referent's block carries another descriptor.
    pub fn from_root(&self, root: &crate::root::Root, info: GcInfo) -> (r: Option<Gc>)
        requires
            self.wf(),
            self.root_live(root.id()),
        ensures
            match r {
                Some(h) => self.projects(root.id(), info) && h.0 == self.rec(root.id()).ptr,
                None => !self.projects(root.id(), info),
            },
    {
        let ri = root.index();
        let rec = match self.roots[ri] {
            Some(rec) => rec,
            None => {
                proof {
                    assert(false);
                }
                return None;
            },
        };
        let base = crate::blocks::Header::from_ptr(rec.ptr);
        match self.nursery.find_base(base) {
            Some(i) => {
                let h = &self.nursery.blocks[i];
                if h.slot_check(rec.ptr) && h.info == info {
                    proof {
                        assert(self.nursery.index_of_base(base_of(rec.ptr)) == i);
                    }
                    Some(Gc::new(rec.ptr))
                } else {
                    proof {
                        if self.nursery.valid_obj(rec.ptr) {
                            assert(self.nursery.index_of_base(base_of(rec.ptr)) == i);
                        }
                    }
                    None
                }
            },
            None => {
                proof {
                    if self.nursery.valid_obj(rec.ptr) {
                        assert(self.nursery.has_base(base_of(rec.ptr)));
                    }
                }
                None
            },
        }
    }

    /// Like [`Generation::from_root`], reporting the mismatch as an error.
    pub fn try_from_root(&self, root: &crate::root::Root, info: GcInfo) -> (r: Result<
        Gc,
        GcError,
    >)
        requires
            self.wf(),
            self.root_live(root.id()),
        ensures
            match r {
                Ok(h) => self.projects(root.id(), info) && h.0 == self.rec(root.id()).ptr,
                Err(e) => !self.projects(root.id(), info) && e == GcError::TypeMismatch,
            },
    {
        match self.from_root(root, info) {
            Some(h) => Ok(h),
            None => Err(GcError::TypeMismatch),
        }
    }

    /// Duplicates a root handle, counting the new owner in the record.
    pub fn clone_root(&mut self, r: &crate::root::Root) -> (r2: crate::root::Root)
        requires
            old(self).wf(),
            old(self).root_live(r.id()),
            old(self).rec(r.id()).ref_count < usize::MAX,
        ensures
            final(self).wf(),
            r2.id() == r.id(),
            final(self).roots@ == old(self).roots@.update(
                r.id() as int,
                Some(
                    RootInner {
                        ref_count: (old(self).rec(r.id()).ref_count + 1) as usize,
                        ..old(self).rec(r.id())
                    },
                ),
            ),
            *final(self) == (Generation { roots: final(self).roots, ..*old(self) }),
    {
        let ghost pre = *self;
        let ri = r.index();
        match self.roots[ri] {
            Some(rec) => {
                self.roots[ri] = Some(
                    RootInner { ref_count: rec.ref_count + 1, ..rec },
                );
                proof {
                    assert forall|x: usize| #[trigger] self.status_ok(x) by {
                        assert(pre.status_ok(x));
                        assert(self.status_of(x) == pre.status_of(x));
                    }
                }
                crate::root::Root::from_idx(ri)
            },
            None => {
                proof {
                    assert(false);
                }
                crate::root::Root::from_idx(ri)
            },
        }
    }

    /// Disposes of a root handle: the last owner going away frees the
    /// record and removes the referent's status entry.
    pub fn drop_root(&mut self, r: crate::root::Root)
        requires
            old(self).wf(),
            old(self).root_live(r.id()),
        ensures
            final(self).wf(),
            old(self).rec(r.id()).ref_count > 1 ==> final(self).roots@ == old(self).roots@.update(
                r.id() as int,
                Some(
                    RootInner {
                        ref_count: (old(self).rec(r.id()).ref_count - 1) as usize,
                        ..old(self).rec(r.id())
                    },
                ),
            ) && *final(self) == (Generation { roots: final(self).roots, ..*old(self) }),
            old(self).rec(r.id()).ref_count <= 1 ==> {
                &&& final(self).roots@ == old(self).roots@.update(r.id() as int, None)
                &&& !final(self).root_live(r.id())
                &&& final(self).status_of(old(self).rec(r.id()).ptr) is None
                &&& forall|x: usize|
                    x != old(self).rec(r.id()).ptr ==> final(self).status_of(x) == old(self).status_of(x)
                &&& forall|x: usize|
                    #[trigger] old(self).valid_obj(x) ==> final(self).valid_obj(x) && final(self).obj_info(x) == old(self).obj_info(x) && final(self).obj_words(x) == old(self).obj_words(x)
                &&& final(self).marker == old(self).marker
                &&& final(self).block_count == old(self).block_count
                &&& final(self).post_block_count == old(self).post_block_count
                &&& final(self).destructors_run == old(self).destructors_run
            },
    {
        let ghost pre = *self;
        let ri = r.index();
        match self.roots[ri] {
            Some(rec) => {
                if rec.ref_count > 1 {
                    self.roots[ri] = Some(
                        RootInner { ref_count: rec.ref_count - 1, ..rec },
                    );
                    proof {
                        assert forall|x: usize| #[trigger] self.status_ok(x) by {
                            assert(pre.status_ok(x));
                            assert(self.status_of(x) == pre.status_of(x));
                        }
                    }
                } else {
                    self.nursery.remove_status(rec.ptr);
                    self.roots[ri] = None;
                    proof {
                        assert forall|x: usize| #[trigger] self.status_ok(x) by {
                            assert(pre.status_ok(x));
                            if x != rec.ptr && self.status_of(x) is Some {
                                assert(self.status_of(x) == pre.status_of(x));
                                let rj = pre.status_of(x)->Some_0->Rooted_0;
                                if rj == ri {
                                    assert(pre.rec(ri).ptr == x);
                                }
                            }
                        }
                    }
                }
            },
            None => {
                proof {
                    assert(false);
                }
            },
        }
    }

    /// Stores a root handle into a word of an object, as client code does
    /// to make a value own a root. The word must not already hold a root,
    /// whose record would otherwise lose an owner silently.
    pub fn store_root(&mut self, h: Gc, k: usize, r: crate::root::Root)
        requires
            old(self).wf(),
            old(self).valid_obj(h.0),
            (k as int) < old(self).obj_info(h.0).size as int,
            !(old(self).obj_words(h.0)[k as int] is Root),
        ensures
            final(self).wf(),
            final(self).valid_obj(h.0),
            final(self).obj_words(h.0) == old(self).obj_words(h.0).update(
                k as int,
                Word::Root(r),
            ),
            forall|x: usize| #[trigger] final(self).status_of(x) == old(self).status_of(x),
            forall|x: usize|
                #[trigger] old(self).valid_obj(x) && x != h.0 ==> final(self).valid_obj(x)
                    && final(self).obj_info(x) == old(self).obj_info(x) && final(self).obj_words(
                    x,
                ) == old(self).obj_words(x),
            final(self).obj_info(h.0) == old(self).obj_info(h.0),
            *final(self) == (Generation { nursery: final(self).nursery, ..*old(self) }),
    {
        let ghost pre = *self;
        self.nursery.write_word_at(h.0, k, Word::Root(r));
        proof {
            assert forall|x: usize| #[trigger] self.status_ok(x) by {
                assert(pre.status_ok(x));
                assert(self.status_of(x) == pre.status_of(x));
            }
        }
    }
}

impl Default for Generation {
    /// Same as [`Generation::new`]: a fresh, empty heap.
    fn default() -> (g: Generation)
        ensures
            g.wf(),
            g.marker == true,
            g.block_count == 0,
            g.post_block_count == 2,
            g.destructors_run == 0,
            g.roots@.len() == 0,
            g.nursery.blocks@.len() == 0,
            g.next_base == BLOCK_SIZE,
    {
        Generation::new()
    }
}

} // verus!
