//! Laws the collector obeys, stated and proved over the contracts of the
//! public operations.

use vstd::prelude::*;

use crate::gc::{Gc, Word};
use crate::generation::Generation;
use crate::internals::{collect_post, data_preserved};
use crate::GcInfo;

verus! {

/// Every scoped handle points into a block of the descriptor it was
/// allocated under, and later allocations do not disturb it: the block of
/// a handle keeps its descriptor and the object keeps its words until a
/// collection runs.
pub proof fn lemma_handle_keeps_descriptor(
    g0: Generation,
    g1: Generation,
    g2: Generation,
    h1: Gc,
    v1: Seq<Word>,
    i1: GcInfo,
    h2: Gc,
    v2: Seq<Word>,
    i2: GcInfo,
)
    requires
        Generation::alloc_post(g0, g1, h1, v1, i1),
        Generation::alloc_post(g1, g2, h2, v2, i2),
    ensures
        g2.obj_info(h1.0) == i1,
        g2.obj_words(h1.0) == v1,
        g2.obj_info(h2.0) == i2,
        g2.obj_words(h2.0) == v2,
        h1.0 != h2.0,
{
}

/// Across a collection, the payload of a properly rooted object is
/// preserved: every non-pointer word of the copy equals the original's,
/// and handle words sit exactly where they sat.
pub proof fn lemma_collect_preserves_root_payload(pre: Generation, post: Generation, i: usize)
    requires
        collect_post(pre, post),
        pre.rooted(i),
        post.root_live(i),
    ensures
        post.valid_obj(post.rec(i).ptr),
        post.obj_info(post.rec(i).ptr) == pre.obj_info(pre.rec(i).ptr),
        data_preserved(pre.obj_words(pre.rec(i).ptr), post.obj_words(post.rec(i).ptr)),
{
}

/// After a collection, no block carries the old global marker: the whole
/// heap is in the new cohort.
pub proof fn lemma_collect_flips_marker(pre: Generation, post: Generation)
    requires
        collect_post(pre, post),
    ensures
        post.marker == !pre.marker,
        forall|j: int|
            0 <= j < post.nursery.blocks@.len() ==> (#[trigger] post.nursery.blocks@[j]).marked
                != pre.marker,
{
}

/// A collection with no surviving roots frees every block.
pub proof fn lemma_collect_empties_unrooted(pre: Generation, post: Generation)
    requires
        collect_post(pre, post),
        pre.no_live_roots(),
    ensures
        post.block_count == 0,
        post.nursery.blocks@.len() == 0,
{
}

/// Every rooted status entry is owned: its record is live, counts at
/// least one outstanding owner, and points back at the entry's slot with
/// the slot's own type.
pub proof fn lemma_rooted_entry_owned(g: Generation, x: usize)
    requires
        g.wf(),
        g.status_of(x) is Some,
    ensures
        g.status_of(x)->Some_0 is Rooted,
        g.root_live(g.status_of(x)->Some_0->Rooted_0),
        g.rec(g.status_of(x)->Some_0->Rooted_0).ptr == x,
        1 <= g.rec(g.status_of(x)->Some_0->Rooted_0).ref_count,
        g.rec(g.status_of(x)->Some_0->Rooted_0).type_id == g.obj_info(x).type_id,
        g.valid_obj(x),
{
    assert(g.status_ok(x));
}

/// Round trip: a properly rooted object that is still live after a
/// collection projects back at its own descriptor, and its non-pointer
/// payload reads back unchanged; handle words sit at the same offsets.
pub proof fn lemma_root_round_trip(pre: Generation, post: Generation, i: usize, info: GcInfo)
    requires
        collect_post(pre, post),
        pre.rooted(i),
        post.root_live(i),
        info == pre.obj_info(pre.rec(i).ptr),
    ensures
        post.projects(i, info),
        data_preserved(pre.obj_words(pre.rec(i).ptr), post.obj_words(post.rec(i).ptr)),
{
}

/// Payload preservation composes: what two successive copies preserve, the
/// pair preserves.
pub proof fn lemma_data_preserved_trans(a: Seq<Word>, b: Seq<Word>, c: Seq<Word>)
    requires
        data_preserved(a, b),
        data_preserved(b, c),
    ensures
        data_preserved(a, c),
{
}

/// Round trip across two collections: a root that stays properly rooted
/// and live projects back after both passes, its non-pointer payload equal
/// to the value it was created with. By induction on
/// [`lemma_data_preserved_trans`], the same holds for any number of
/// intermediate collections.
pub proof fn lemma_root_round_trip_twice(
    g0: Generation,
    g1: Generation,
    g2: Generation,
    i: usize,
    info: GcInfo,
)
    requires
        collect_post(g0, g1),
        collect_post(g1, g2),
        g0.rooted(i),
        g1.rooted(i),
        g2.root_live(i),
        info == g0.obj_info(g0.rec(i).ptr),
    ensures
        g2.projects(i, info),
        data_preserved(g0.obj_words(g0.rec(i).ptr), g2.obj_words(g2.rec(i).ptr)),
{
    lemma_data_preserved_trans(
        g0.obj_words(g0.rec(i).ptr),
        g1.obj_words(g1.rec(i).ptr),
        g2.obj_words(g2.rec(i).ptr),
    );
}

/// After a collection, no live object holds a dangling handle: every
/// handle word of every live object points at a live object, or carries an
/// address that never named a live object to begin with. In particular the
/// evacuated copies' child pointers were rewritten off the freed space.
pub proof fn lemma_collect_leaves_no_dangling_handle(
    pre: Generation,
    post: Generation,
    x: usize,
    k: int,
)
    requires
        collect_post(pre, post),
        post.valid_obj(x),
        0 <= k < post.obj_info(x).size as int,
        post.obj_words(x)[k] is Handle,
        pre.valid_obj(post.obj_words(x)[k]->Handle_0.0),
    ensures
        post.valid_obj(post.obj_words(x)[k]->Handle_0.0),
{
}

/// A collection of a heap with no roots runs exactly one destructor per
/// allocated slot whose type needs dropping, besides freeing every block.
pub proof fn lemma_collect_reclaims_unrooted(pre: Generation, post: Generation)
    requires
        collect_post(pre, post),
        pre.no_live_roots(),
        pre.destructors_run + crate::internals::needs_drop_slots(pre.nursery.blocks@)
            <= usize::MAX,
    ensures
        post.block_count == 0,
        post.destructors_run == pre.destructors_run + crate::internals::needs_drop_slots(
            pre.nursery.blocks@,
        ),
{
}

/// A collection never invents roots: a record live afterwards was live
/// before, with its identity kept and no owner gained.
pub proof fn lemma_collect_keeps_root_identity(pre: Generation, post: Generation, i: usize)
    requires
        collect_post(pre, post),
        post.root_live(i),
    ensures
        pre.root_live(i),
        post.rec(i).type_id == pre.rec(i).type_id,
        post.rec(i).ref_count <= pre.rec(i).ref_count,
{
}

} // verus!
