//! The evacuation pass: the collection algorithm that flips the marker,
//! seeds the work stack from the rooted entries, copies live objects into
//! a fresh to-space, rewrites every managed pointer, and frees the
//! from-space blocks.

use vstd::prelude::*;
use vstd::set_lib::lemma_int_range;

use crate::blocks::{base_of, Blocks, Header};
use crate::gc::{Gc, Word};
use crate::generation::Generation;
use crate::root::{ObjectStatus, RootInner, TraceAt, TraceTarget};
use crate::BLOCK_SIZE;

verus! {

/// The live block count of the thread's heap.
pub fn thread_block_count(gen: &Generation) -> (n: usize)
    ensures
        n == gen.block_count,
{
    gen.block_count
}

/// The block count recorded right after the last collection.
pub fn thread_post_block_count(gen: &Generation) -> (n: usize)
    ensures
        n == gen.post_block_count,
{
    gen.post_block_count
}

/// The current collection marker.
pub fn marker(gen: &Generation) -> (m: bool)
    ensures
        m == gen.marker,
{
    gen.marker
}

/// The non-pointer payload of a copied object equals the original's, and
/// handle words sit exactly where they sat.
pub open spec fn data_preserved(src: Seq<Word>, dst: Seq<Word>) -> bool {
    &&& dst.len() == src.len()
    &&& forall|k: int|
        0 <= k < src.len() ==> (((#[trigger] src[k]) is Handle <==> dst[k] is Handle) && (!(src[k]
            is Handle) ==> dst[k] == src[k]))
}

/// Rewriting a handle word keeps the payload preserved.
pub proof fn lemma_data_preserved_update(src: Seq<Word>, dst: Seq<Word>, k: int, w: Word)
    requires
        data_preserved(src, dst),
        0 <= k < dst.len(),
        dst[k] is Handle,
        w is Handle,
    ensures
        data_preserved(src, dst.update(k, w)),
{
}

/// Weight of a status entry in the termination measure: a rooted entry can
/// still cause up to two copies of its slot, a forwarded or dropped one
/// none.
pub open spec fn entry_delta(st: ObjectStatus) -> int {
    match st {
        ObjectStatus::Rooted(_) => 1,
        ObjectStatus::Moved(_) => -1,
        ObjectStatus::Dropped => -1,
    }
}

/// Sum of the entry weights of a status table.
pub open spec fn delta_sum(s: Seq<(usize, ObjectStatus)>) -> int
    decreases s.len(),
{
    if s.len() == 0 {
        0
    } else {
        delta_sum(s.drop_last()) + entry_delta(s.last().1)
    }
}

/// The remaining copy work a block can cause: one unit per allocated slot,
/// one more per rooted slot, none per already forwarded slot.
pub open spec fn header_mass(h: Header) -> int {
    (h.capacity as int - h.count as int) + delta_sum(h.evaced.entries@)
}

/// The remaining copy work of a whole space.
pub open spec fn mass_all(s: Seq<Header>) -> int
    decreases s.len(),
{
    if s.len() == 0 {
        0
    } else {
        mass_all(s.drop_last()) + header_mass(s.last())
    }
}

/// The entry-weight sum is bounded by the entry count.
pub proof fn lemma_delta_sum_bounds(s: Seq<(usize, ObjectStatus)>)
    ensures
        -s.len() <= delta_sum(s) <= s.len(),
    decreases s.len(),
{
    if s.len() > 0 {
        lemma_delta_sum_bounds(s.drop_last());
    }
}

/// Updating one entry shifts the sum by the weight difference.
pub proof fn lemma_delta_sum_update(s: Seq<(usize, ObjectStatus)>, i: int, e: (usize, ObjectStatus))
    requires
        0 <= i < s.len(),
    ensures
        delta_sum(s.update(i, e)) == delta_sum(s) - entry_delta(s[i].1) + entry_delta(e.1),
    decreases s.len(),
{
    let t = s.update(i, e);
    if i == s.len() - 1 {
        assert(t.drop_last() =~= s.drop_last());
    } else {
        lemma_delta_sum_update(s.drop_last(), i, e);
        assert(t.drop_last() =~= s.drop_last().update(i, e));
        assert(t.last() == s.last());
    }
}

/// Removing one entry drops its weight from the sum.
pub proof fn lemma_delta_sum_remove(s: Seq<(usize, ObjectStatus)>, i: int)
    requires
        0 <= i < s.len(),
    ensures
        delta_sum(s.remove(i)) == delta_sum(s) - entry_delta(s[i].1),
    decreases s.len(),
{
    let t = s.remove(i);
    if i == s.len() - 1 {
        assert(t =~= s.drop_last());
    } else {
        lemma_delta_sum_remove(s.drop_last(), i);
        assert(t.drop_last() =~= s.drop_last().remove(i));
        assert(t.last() == s.last());
    }
}

/// A table with unique slot keys has no more entries than the block has
/// allocated slots.
pub proof fn lemma_entries_le_slots(h: Header)
    requires
        h.wf(),
    ensures
        h.evaced.entries@.len() <= h.capacity as int - h.count as int,
{
    let s = h.evaced.entries@;
    let sz = h.info.size as int;
    let js = Seq::new(s.len(), |i: int| (s[i].0 - h.bottom) / sz);
    assert forall|i: int| 0 <= i < s.len() implies h.count as int <= #[trigger] js[i]
        < h.capacity as int && h.slot_addr(js[i]) == s[i].0 by {
        crate::root::lemma_map_of_index(s, i);
        assert(h.evaced@.contains_key(s[i].0));
        assert(h.is_slot(s[i].0));
        let j = choose|j: int|
            h.count as int <= j < h.capacity as int && s[i].0 == #[trigger] h.slot_addr(j);
        assert((s[i].0 - h.bottom) as int == sz * j);
        assert((sz * j) / sz == j) by (nonlinear_arith)
            requires
                1 <= sz,
        ;
    }
    assert forall|i: int, j: int|
        0 <= i < js.len() && 0 <= j < js.len() && i != j implies js[i] != js[j] by {
        assert(s[i].0 != s[j].0);
        assert(h.slot_addr(js[i]) == s[i].0 && h.slot_addr(js[j]) == s[j].0);
    }
    let jset = js.to_set();
    let range = vstd::set_lib::set_int_range(h.count as int, h.capacity as int);
    lemma_int_range(h.count as int, h.capacity as int);
    assert(jset.subset_of(range));
    assert(js.no_duplicates());
    js.unique_seq_to_set();
    vstd::set_lib::lemma_len_subset(jset, range);
}

/// A block's remaining copy work is never negative, at most two units per
/// allocated slot, and at least one unit per slot that has not been
/// forwarded.
pub proof fn lemma_header_mass_bounds(h: Header)
    requires
        h.wf(),
    ensures
        0 <= header_mass(h) <= 2 * (h.capacity as int - h.count as int),
        header_mass(h) <= 2 * (BLOCK_SIZE as int),
{
    lemma_entries_le_slots(h);
    lemma_delta_sum_bounds(h.evaced.entries@);
    assert(h.capacity as int <= BLOCK_SIZE as int) by {
        let sz = h.info.size as int;
        assert(sz * (h.capacity as int + 1) >= h.capacity as int + 1) by (nonlinear_arith)
            requires
                1 <= sz,
                0 <= h.capacity as int,
        ;
    }
}

/// A space's mass is never negative and at most two block sizes per block.
pub proof fn lemma_mass_all_bounds(s: Seq<Header>)
    requires
        forall|i: int| 0 <= i < s.len() ==> (#[trigger] s[i]).wf(),
    ensures
        0 <= mass_all(s) <= 2 * (BLOCK_SIZE as int) * s.len(),
    decreases s.len(),
{
    if s.len() > 0 {
        lemma_mass_all_bounds(s.drop_last());
        lemma_header_mass_bounds(s.last());
        assert(2 * (BLOCK_SIZE as int) * s.len() == 2 * (BLOCK_SIZE as int) * (s.len() - 1) + 2 * (
        BLOCK_SIZE as int)) by (nonlinear_arith);
    }
}

/// A block whose slot `x` carries no `Moved` or `Dropped` entry still owes
/// at least one unit of work.
pub proof fn lemma_header_mass_positive(h: Header, x: usize)
    requires
        h.wf(),
        h.is_slot(x),
        match h.evaced@.contains_key(x) {
            true => h.evaced@[x] is Rooted,
            false => true,
        },
    ensures
        1 <= header_mass(h),
{
    let s = h.evaced.entries@;
    lemma_entries_le_slots(h);
    lemma_delta_sum_bounds(s);
    if h.evaced@.contains_key(x) {
        // one entry has weight +1, the rest at least -1 each
        crate::root::lemma_map_of_contains(s, x);
        let i = choose|i: int| 0 <= i < s.len() && (#[trigger] s[i]).0 == x;
        crate::root::lemma_map_of_index(s, i);
        lemma_delta_sum_remove(s, i);
        lemma_delta_sum_bounds(s.remove(i));
    } else {
        // the slot has no entry at all, so entries fit in the other slots
        lemma_entries_lt_slots(h, x);
    }
}

/// A block with an entry-free allocated slot has strictly fewer entries
/// than slots.
pub proof fn lemma_entries_lt_slots(h: Header, x: usize)
    requires
        h.wf(),
        h.is_slot(x),
        !h.evaced@.contains_key(x),
    ensures
        h.evaced.entries@.len() < h.capacity as int - h.count as int,
{
    let s = h.evaced.entries@;
    let sz = h.info.size as int;
    let jx = choose|j: int|
        h.count as int <= j < h.capacity as int && x == #[trigger] h.slot_addr(j);
    let js = Seq::new(s.len(), |i: int| (s[i].0 - h.bottom) / sz);
    assert forall|i: int| 0 <= i < s.len() implies h.count as int <= #[trigger] js[i]
        < h.capacity as int && h.slot_addr(js[i]) == s[i].0 && js[i] != jx by {
        crate::root::lemma_map_of_index(s, i);
        assert(h.evaced@.contains_key(s[i].0));
        assert(h.is_slot(s[i].0));
        let j = choose|j: int|
            h.count as int <= j < h.capacity as int && s[i].0 == #[trigger] h.slot_addr(j);
        assert((s[i].0 - h.bottom) as int == sz * j);
        assert((sz * j) / sz == j) by (nonlinear_arith)
            requires
                1 <= sz,
        ;
        if js[i] == jx {
            assert(s[i].0 == x);
        }
    }
    let js2 = js.push(jx);
    assert forall|i: int, j: int|
        0 <= i < js2.len() && 0 <= j < js2.len() && i != j implies js2[i] != js2[j] by {
        if i < js.len() && j < js.len() {
            assert(s[i].0 != s[j].0);
            assert(h.slot_addr(js[i]) == s[i].0 && h.slot_addr(js[j]) == s[j].0);
        }
    }
    let jset = js2.to_set();
    let range = vstd::set_lib::set_int_range(h.count as int, h.capacity as int);
    lemma_int_range(h.count as int, h.capacity as int);
    assert(jset.subset_of(range));
    assert(js2.no_duplicates());
    js2.unique_seq_to_set();
    vstd::set_lib::lemma_len_subset(jset, range);
}


/// The from-space is the pre-collection nursery with only its status
/// tables evolved.
pub open spec fn old_space_shape(pre: Generation, old_b: Blocks) -> bool {
    &&& old_b.blocks@.len() == pre.nursery.blocks@.len()
    &&& forall|j: int|
        0 <= j < old_b.blocks@.len() ==> (#[trigger] old_b.blocks@[j]) == (Header {
            evaced: old_b.blocks@[j].evaced,
            ..pre.nursery.blocks@[j]
        })
    &&& old_b.wf()
}

/// From-space lookups and objects agree with the pre-collection nursery.
pub proof fn lemma_old_space_lookup(pre: Generation, old_b: Blocks)
    requires
        pre.wf(),
        old_space_shape(pre, old_b),
    ensures
        forall|b: usize| #[trigger] old_b.has_base(b) == pre.nursery.has_base(b),
        forall|b: usize|
            old_b.has_base(b) ==> #[trigger] old_b.index_of_base(b) == pre.nursery.index_of_base(
                b,
            ),
        forall|x: usize| #[trigger] old_b.valid_obj(x) == pre.nursery.valid_obj(x),
        forall|x: usize|
            #[trigger] old_b.valid_obj(x) ==> old_b.obj_info(x) == pre.nursery.obj_info(x)
                && old_b.obj_words(x) == pre.nursery.obj_words(x),
{
    assert forall|b: usize| #[trigger] old_b.has_base(b) == pre.nursery.has_base(b) by {
        if pre.nursery.has_base(b) {
            let j = choose|j: int|
                0 <= j < pre.nursery.blocks@.len() && (#[trigger] pre.nursery.blocks@[j]).base
                    == b;
            assert(old_b.blocks@[j].base == b);
        }
        if old_b.has_base(b) {
            let j = choose|j: int|
                0 <= j < old_b.blocks@.len() && (#[trigger] old_b.blocks@[j]).base == b;
            assert(pre.nursery.blocks@[j].base == b);
        }
    }
    assert forall|b: usize| old_b.has_base(b) implies #[trigger] old_b.index_of_base(b)
        == pre.nursery.index_of_base(b) by {
        let j1 = old_b.index_of_base(b);
        assert(0 <= j1 < old_b.blocks@.len() && old_b.blocks@[j1].base == b);
        let j2 = pre.nursery.index_of_base(b);
        assert(0 <= j2 < pre.nursery.blocks@.len() && pre.nursery.blocks@[j2].base == b);
        if j1 != j2 {
            assert(pre.nursery.blocks@[j1].base == b);
        }
    }
    assert forall|x: usize| #[trigger] old_b.valid_obj(x) == pre.nursery.valid_obj(x) by {
        if pre.nursery.has_base(base_of(x)) {
            let j = pre.nursery.index_of_base(base_of(x));
            Header::lemma_same_slots(pre.nursery.blocks@[j], old_b.blocks@[j]);
        }
    }
    assert forall|x: usize| #[trigger] old_b.valid_obj(x) implies old_b.obj_info(x)
        == pre.nursery.obj_info(x) && old_b.obj_words(x) == pre.nursery.obj_words(x) by {
        let j = old_b.index_of_base(base_of(x));
        assert(old_b.obj_words(x) =~= pre.nursery.obj_words(x));
    }
}

/// Every entry of a from-space table is sound: a forwarding entry names a
/// faithful to-space copy, a rooted entry is an original one, and no entry
/// is poisoned.
pub open spec fn old_entries_ok(pre: Generation, g: Generation, old_b: Blocks) -> bool {
    forall|x: usize|
        match #[trigger] old_b.status_of(x) {
            Some(st) => match st {
                ObjectStatus::Moved(n) => g.nursery.valid_obj(n) && g.nursery.obj_info(n)
                    == pre.nursery.obj_info(x) && data_preserved(
                    pre.nursery.obj_words(x),
                    g.nursery.obj_words(n),
                ) && pre.nursery.valid_obj(x),
                ObjectStatus::Rooted(ri) => pre.status_of(x) == Some(ObjectStatus::Rooted(ri))
                    && (ri as int) < g.roots@.len() && g.roots@[ri as int] is Some
                    && g.roots@[ri as int]->Some_0.ptr == x,
                ObjectStatus::Dropped => false,
            },
            None => true,
        }
}

/// The from-space entry facts carry over to a heap state whose to-space
/// objects and root pointers are unchanged.
pub proof fn lemma_old_entries_frame(pre: Generation, g1: Generation, g2: Generation, ob: Blocks)
    requires
        old_entries_ok(pre, g1, ob),
        forall|x: usize|
            #[trigger] g1.nursery.valid_obj(x) ==> g2.nursery.valid_obj(x) && g2.nursery.obj_info(
                x,
            ) == g1.nursery.obj_info(x) && g2.nursery.obj_words(x) == g1.nursery.obj_words(x),
        g2.roots@.len() == g1.roots@.len(),
        forall|i: int|
            0 <= i < g1.roots@.len() && (#[trigger] g1.roots@[i]) is Some ==> g2.roots@[i] is Some
                && g2.roots@[i]->Some_0.ptr == g1.roots@[i]->Some_0.ptr,
    ensures
        old_entries_ok(pre, g2, ob),
{
    assert forall|x: usize|
        match #[trigger] ob.status_of(x) {
            Some(st) => match st {
                ObjectStatus::Moved(n) => g2.nursery.valid_obj(n) && g2.nursery.obj_info(n)
                    == pre.nursery.obj_info(x) && data_preserved(
                    pre.nursery.obj_words(x),
                    g2.nursery.obj_words(n),
                ) && pre.nursery.valid_obj(x),
                ObjectStatus::Rooted(ri) => pre.status_of(x) == Some(ObjectStatus::Rooted(ri))
                    && (ri as int) < g2.roots@.len() && g2.roots@[ri as int] is Some
                    && g2.roots@[ri as int]->Some_0.ptr == x,
                ObjectStatus::Dropped => false,
            },
            None => true,
        } by {
        if ob.status_of(x) is Some {
            match ob.status_of(x)->Some_0 {
                ObjectStatus::Moved(n) => {
                    assert(g1.nursery.valid_obj(n));
                },
                ObjectStatus::Rooted(ri) => {
                    assert(g1.roots@[ri as int] is Some);
                },
                ObjectStatus::Dropped => {},
            }
        }
    }
}

/// The to-space under construction: fresh blocks above the old address
/// space, all carrying the flipped marker, with sound rooted entries.
pub open spec fn to_space_ok(pre: Generation, g: Generation, fm: bool) -> bool {
    &&& g.marker == !fm
    &&& g.nursery.wf()
    &&& g.nursery.marked_all(!fm)
    &&& g.nursery.bases_at_least(pre.next_base as int)
    &&& g.nursery.bases_below(g.next_base as int)
    &&& pre.next_base <= g.next_base
    &&& g.next_base % BLOCK_SIZE == 0
    &&& forall|x: usize| #[trigger] g.status_ok(x)
}

/// A root record either still holds its pre-collection pointer or has been
/// switched to a faithful to-space copy; its identity and owner count do
/// not change while the work stack drains.
pub open spec fn root_state_ok(pre: Generation, g: Generation, i: int) -> bool {
    match g.roots@[i] {
        Some(rec) => {
            &&& pre.roots@[i] is Some
            &&& rec.type_id == pre.roots@[i]->Some_0.type_id
            &&& rec.ref_count == pre.roots@[i]->Some_0.ref_count
            &&& (rec.ptr == pre.roots@[i]->Some_0.ptr || root_updated(pre, g, i))
        },
        None => pre.roots@[i] is None,
    }
}

/// The record's pointer has been rewritten to a faithful to-space copy of
/// its pre-collection referent.
pub open spec fn root_updated(pre: Generation, g: Generation, i: int) -> bool {
    &&& pre.roots@[i] is Some
    &&& g.roots@[i] is Some
    &&& {
        let prec = pre.roots@[i]->Some_0;
        let rec = g.roots@[i]->Some_0;
        &&& g.nursery.valid_obj(rec.ptr)
        &&& pre.valid_obj(prec.ptr)
        &&& g.nursery.obj_info(rec.ptr) == pre.obj_info(prec.ptr)
        &&& data_preserved(pre.obj_words(prec.ptr), g.nursery.obj_words(rec.ptr))
    }
}

/// Everything the evacuation pass keeps true between steps. `m0` is the
/// copy work the from-space owed when the pass began; it bounds how much
/// address space the pass can consume.
pub open spec fn evac_inv(
    pre: Generation,
    g: Generation,
    old_b: Blocks,
    fm: bool,
    m0: int,
) -> bool {
    &&& pre.wf()
    &&& fm == pre.marker
    &&& old_space_shape(pre, old_b)
    &&& old_entries_ok(pre, g, old_b)
    &&& to_space_ok(pre, g, fm)
    &&& g.roots@.len() == pre.roots@.len()
    &&& forall|i: int| 0 <= i < g.roots@.len() ==> #[trigger] root_state_ok(pre, g, i)
    &&& g.block_count == old_b.blocks@.len() + g.nursery.blocks@.len()
    &&& g.destructors_run == pre.destructors_run
    &&& g.post_block_count == pre.post_block_count
    &&& mass_all(old_b.blocks@) <= m0
    &&& (pre.no_live_roots() ==> g.nursery.blocks@.len() == 0)
}

/// Address-space budget of the pass: at most one fresh block per unit of
/// copy work already done, and one block of address space consumed per
/// block created.
pub open spec fn budget_ok(pre: Generation, g: Generation, old_b: Blocks, m0: int) -> bool {
    &&& g.next_base as int <= pre.next_base as int + (BLOCK_SIZE as int) * (1 + m0 - mass_all(
        old_b.blocks@,
    ))
    &&& pre.next_base as int + (BLOCK_SIZE as int) * g.nursery.blocks@.len() <= g.next_base as int
}

/// A work item is sound: it points at a live handle word of a to-space
/// object, or at a live root record.
pub open spec fn target_ok(g: Generation, t: TraceAt) -> bool {
    match t.at {
        TraceTarget::Word(o, k) => g.nursery.valid_obj(o) && (k as int) < g.nursery.obj_info(
            o,
        ).size as int && g.nursery.obj_words(o)[k as int] is Handle,
        TraceTarget::RootPtr(i) => (i as int) < g.roots@.len() && g.roots@[i as int] is Some,
    }
}

/// Every queued work item is sound.
pub open spec fn queue_ok(g: Generation, q: Seq<TraceAt>) -> bool {
    forall|t: int| 0 <= t < q.len() ==> #[trigger] target_ok(g, q[t])
}

/// Every handle word of a to-space object is accounted for: its rewrite is
/// still on the work stack, or it already points at a live to-space
/// object, or it carries an address that never named a live object.
pub open spec fn handles_ok(pre: Generation, g: Generation, q: Seq<TraceAt>) -> bool {
    forall|x: usize, k: int|
        #![trigger g.nursery.obj_words(x)[k]]
        g.nursery.valid_obj(x) && 0 <= k < g.nursery.obj_info(x).size as int
            && g.nursery.obj_words(x)[k] is Handle ==> queued_word(q, x, k)
            || g.nursery.valid_obj(g.nursery.obj_words(x)[k]->Handle_0.0) || !pre.valid_obj(
            g.nursery.obj_words(x)[k]->Handle_0.0,
        )
}

/// The work stack still holds the item for word `k` of the object at `x`.
pub open spec fn queued_word(q: Seq<TraceAt>, x: usize, k: int) -> bool {
    exists|t: int| 0 <= t < q.len() && (#[trigger] q[t]).at == TraceTarget::Word(x, k as usize)
}

/// The work stack still holds an item for root `i`.
pub open spec fn queued_root(q: Seq<TraceAt>, i: usize) -> bool {
    exists|t: int| 0 <= t < q.len() && (#[trigger] q[t]).at == TraceTarget::RootPtr(i)
}


/// Rewrites a root record's current pointer, leaving everything else of
/// the heap alone.
fn set_root_ptr(gen: &mut Generation, ri: usize, p: usize)
    requires
        (ri as int) < old(gen).roots@.len(),
        old(gen).roots@[ri as int] is Some,
    ensures
        final(gen).roots@ == old(gen).roots@.update(
            ri as int,
            Some(RootInner { ptr: p, ..old(gen).roots@[ri as int]->Some_0 }),
        ),
        *final(gen) == (Generation { roots: final(gen).roots, ..*old(gen) }),
{
    match gen.roots[ri] {
        Some(rec) => {
            gen.roots[ri] = Some(RootInner { ptr: p, ..rec });
        },
        None => {
            proof {
                assert(false);
            }
        },
    }
}

/// Handles one owned root word found while tracing a copy: bumps the
/// record's traced count under the current marker and, once every owning
/// reference has been seen, demotes the record's status entry.
fn trace_root_word(
    gen: &mut Generation,
    old_b: &mut Blocks,
    ridx: usize,
    fm: bool,
    Ghost(pre): Ghost<Generation>,
    Ghost(m0): Ghost<int>,
)
    requires
        evac_inv(pre, *old(gen), *old(old_b), fm, m0),
    ensures
        evac_inv(pre, *final(gen), *final(old_b), fm, m0),
        mass_all(final(old_b).blocks@) <= mass_all(old(old_b).blocks@),
        *final(old_b) == *old(old_b) || mass_all(final(old_b).blocks@) <= mass_all(
            old(old_b).blocks@,
        ) - 1,
        final(gen).nursery.blocks@.len() == old(gen).nursery.blocks@.len(),
        forall|x: usize| #[trigger] final(gen).nursery.valid_obj(x) == old(gen).nursery.valid_obj(x),
        forall|x: usize|
            #[trigger] old(gen).nursery.valid_obj(x) ==> final(gen).nursery.obj_info(x) == old(gen).nursery.obj_info(x) && final(gen).nursery.obj_words(x) == old(gen).nursery.obj_words(x),
        final(gen).roots@.len() == old(gen).roots@.len(),
        forall|i: int|
            0 <= i < old(gen).roots@.len() ==> ((#[trigger] final(gen).roots@[i]) is Some == old(gen).roots@[i] is Some) && (old(gen).roots@[i] is Some ==> final(gen).roots@[i]->Some_0.ptr == old(gen).roots@[i]->Some_0.ptr && final(gen).roots@[i]->Some_0.type_id == old(gen).roots@[i]->Some_0.type_id && final(gen).roots@[i]->Some_0.ref_count == old(gen).roots@[i]->Some_0.ref_count),
        final(gen).next_base == old(gen).next_base,
        final(gen).block_count == old(gen).block_count,
        final(gen).marker == old(gen).marker,
        forall|x: usize|
            #[trigger] final(old_b).status_of(x) == old(old_b).status_of(x) || (old(old_b).status_of(x) matches Some(ObjectStatus::Rooted(_)) && final(old_b).status_of(x) is None),
        // the reachability protocol, exactly: the traced count is bumped
        // under the current marker or reset to one under a fresh one, and
        // when it reaches the owner count the record's rooted entry is
        // demoted away, wherever it lives
        ((ridx as int) < old(gen).roots@.len() && old(gen).roots@[ridx as int] is Some) ==> ({
            let rec = old(gen).roots@[ridx as int]->Some_0;
            let tc: usize = if rec.collection_marker == old(gen).marker {
                if rec.traced_count < usize::MAX {
                    (rec.traced_count + 1) as usize
                } else {
                    rec.traced_count
                }
            } else {
                1usize
            };
            &&& final(gen).roots@ == old(gen).roots@.update(
                ridx as int,
                Some(RootInner { collection_marker: old(gen).marker, traced_count: tc, ..rec }),
            )
            &&& (tc != rec.ref_count ==> *final(old_b) == *old(old_b) && (forall|x: usize|
                #[trigger] final(gen).status_of(x) == old(gen).status_of(x)))
            &&& (tc == rec.ref_count ==> !(final(old_b).status_of(rec.ptr) == Some(
                ObjectStatus::Rooted(ridx),
            )) && !(final(gen).status_of(rec.ptr) == Some(ObjectStatus::Rooted(ridx))) && (
            forall|x: usize|
                x != rec.ptr ==> #[trigger] final(old_b).status_of(x) == old(old_b).status_of(x)
                    && final(gen).status_of(x) == old(gen).status_of(x)))
        }),
        (!((ridx as int) < old(gen).roots@.len() && old(gen).roots@[ridx as int] is Some)) ==> *final(gen) == *old(gen) && *final(old_b) == *old(old_b),
{
    if ridx >= gen.roots.len() {
        return ;
    }
    match gen.roots[ridx] {
        Some(rec) => {
            let tc: usize = if rec.collection_marker == gen.marker {
                if rec.traced_count < usize::MAX {
                    rec.traced_count + 1
                } else {
                    rec.traced_count
                }
            } else {
                1
            };
            let ghost genb = *gen;
            gen.roots[ridx] = Some(
                RootInner { collection_marker: gen.marker, traced_count: tc, ..rec },
            );
            proof {
                assert forall|x: usize| #[trigger] gen.status_ok(x) by {
                    assert(genb.status_ok(x));
                }
                assert forall|i: int|
                    0 <= i < gen.roots@.len() implies #[trigger] root_state_ok(pre, *gen, i) by {
                    assert(root_state_ok(pre, genb, i));
                    if i == ridx as int && !(gen.roots@[i]->Some_0.ptr == pre.roots@[i]->Some_0.ptr) {
                        assert(root_updated(pre, genb, i));
                    }
                }
                lemma_old_entries_frame(pre, genb, *gen, *old_b);
            }
            if tc == rec.ref_count {
                // demote: every owning reference lives inside the heap
                let ghost genc = *gen;
                let ghost oldbc = *old_b;
                let mut demote_old = false;
                match old_b.status_at(rec.ptr) {
                    Some(ObjectStatus::Rooted(rj)) => {
                        if rj == ridx {
                            demote_old = true;
                        }
                    },
                    _ => {},
                }
                if demote_old {
                    old_b.remove_status(rec.ptr);
                    proof {
                        lemma_remove_rooted_mass(oldbc, *old_b, rec.ptr);
                    }
                }
                let ghost gend = *gen;
                let mut demote_new = false;
                match gen.nursery.status_at(rec.ptr) {
                    Some(ObjectStatus::Rooted(rj)) => {
                        if rj == ridx {
                            demote_new = true;
                        }
                    },
                    _ => {},
                }
                if demote_new {
                    gen.nursery.remove_status(rec.ptr);
                }
                proof {
                    assert forall|x: usize| #[trigger] gen.status_ok(x) by {
                        assert(gend.status_ok(x));
                        if gen.status_of(x) is Some {
                            assert(gen.status_of(x) == gend.status_of(x));
                        }
                    }
                    assert forall|i: int|
                        0 <= i < gen.roots@.len() implies #[trigger] root_state_ok(
                        pre,
                        *gen,
                        i,
                    ) by {
                        assert(root_state_ok(pre, gend, i));
                        if gen.roots@[i] is Some && !(gen.roots@[i]->Some_0.ptr
                            == pre.roots@[i]->Some_0.ptr) {
                            assert(root_updated(pre, gend, i));
                        }
                    }
                    assert forall|x: usize|
                        match #[trigger] old_b.status_of(x) {
                            Some(st) => match st {
                                ObjectStatus::Moved(n) => gen.nursery.valid_obj(n)
                                    && gen.nursery.obj_info(n) == pre.nursery.obj_info(x)
                                    && data_preserved(
                                    pre.nursery.obj_words(x),
                                    gen.nursery.obj_words(n),
                                ) && pre.nursery.valid_obj(x),
                                ObjectStatus::Rooted(ri) => pre.status_of(x) == Some(
                                    ObjectStatus::Rooted(ri),
                                ) && (ri as int) < gen.roots@.len() && gen.roots@[ri as int] is Some
                                    && gen.roots@[ri as int]->Some_0.ptr == x,
                                ObjectStatus::Dropped => false,
                            },
                            None => true,
                        } by {
                        if old_b.status_of(x) is Some {
                            assert(old_b.status_of(x) == oldbc.status_of(x));
                            match old_b.status_of(x)->Some_0 {
                                ObjectStatus::Moved(n) => {
                                    assert(genc.nursery.valid_obj(n));
                                    assert(gend.nursery.valid_obj(n));
                                },
                                _ => {},
                            }
                        }
                    }
                }
            }
        },
        None => {},
    }
}

/// Enqueues a work item for every managed pointer of a freshly copied
/// object, applying the root-reachability protocol to owned root words.
fn trace_object_words(
    gen: &mut Generation,
    old_b: &mut Blocks,
    new_addr: usize,
    to_trace: &mut Vec<TraceAt>,
    fm: bool,
    Ghost(pre): Ghost<Generation>,
    Ghost(m0): Ghost<int>,
)
    requires
        evac_inv(pre, *old(gen), *old(old_b), fm, m0),
        queue_ok(*old(gen), old(to_trace)@),
        old(gen).nursery.valid_obj(new_addr),
    ensures
        evac_inv(pre, *final(gen), *final(old_b), fm, m0),
        queue_ok(*final(gen), final(to_trace)@),
        final(to_trace)@.len() <= old(to_trace)@.len() + old(gen).nursery.obj_info(
            new_addr,
        ).size as int,
        old(to_trace)@.is_prefix_of(final(to_trace)@),
        mass_all(final(old_b).blocks@) <= mass_all(old(old_b).blocks@),
        *final(old_b) == *old(old_b) || mass_all(final(old_b).blocks@) <= mass_all(
            old(old_b).blocks@,
        ) - 1,
        forall|x: usize| #[trigger] final(gen).nursery.valid_obj(x) == old(gen).nursery.valid_obj(x),
        forall|x: usize|
            #[trigger] old(gen).nursery.valid_obj(x) ==> final(gen).nursery.obj_info(x) == old(gen).nursery.obj_info(x) && final(gen).nursery.obj_words(x) == old(gen).nursery.obj_words(x),
        final(gen).roots@.len() == old(gen).roots@.len(),
        forall|i: int|
            0 <= i < old(gen).roots@.len() ==> ((#[trigger] final(gen).roots@[i]) is Some == old(gen).roots@[i] is Some) && (old(gen).roots@[i] is Some ==> final(gen).roots@[i]->Some_0.ptr == old(gen).roots@[i]->Some_0.ptr && final(gen).roots@[i]->Some_0.type_id == old(gen).roots@[i]->Some_0.type_id && final(gen).roots@[i]->Some_0.ref_count == old(gen).roots@[i]->Some_0.ref_count),
        final(gen).next_base == old(gen).next_base,
        final(gen).block_count == old(gen).block_count,
        final(gen).marker == old(gen).marker,
        final(gen).nursery.blocks@.len() == old(gen).nursery.blocks@.len(),
        forall|x: usize|
            #[trigger] final(old_b).status_of(x) == old(old_b).status_of(x) || (old(old_b).status_of(x) matches Some(ObjectStatus::Rooted(_)) && final(old_b).status_of(x) is None),
        forall|k: int|
            0 <= k < old(gen).nursery.obj_info(new_addr).size as int && (#[trigger] old(gen).nursery.obj_words(new_addr)[k]) is Handle ==> queued_word(final(to_trace)@, new_addr, k),
{
    let size = match gen.nursery.info_at(new_addr) {
        Some(info) => info.size as usize,
        None => {
            proof {
                assert(false);
            }
            0
        },
    };
    let ghost gen0 = *gen;
    let ghost oldb0 = *old_b;
    let ghost q0 = to_trace@;
    let mut k: usize = 0;
    while k < size
        invariant
            k <= size,
            size == gen0.nursery.obj_info(new_addr).size,
            gen0.nursery.valid_obj(new_addr),
            evac_inv(pre, *gen, *old_b, fm, m0),
            queue_ok(*gen, to_trace@),
            to_trace@.len() <= q0.len() + k,
            q0.is_prefix_of(to_trace@),
            mass_all(old_b.blocks@) <= mass_all(oldb0.blocks@),
            *old_b == oldb0 || mass_all(old_b.blocks@) <= mass_all(oldb0.blocks@) - 1,
            forall|x: usize| #[trigger] gen.nursery.valid_obj(x) == gen0.nursery.valid_obj(x),
            forall|x: usize|
                #[trigger] gen0.nursery.valid_obj(x) ==> gen.nursery.obj_info(x) == gen0.nursery.obj_info(x) && gen.nursery.obj_words(x) == gen0.nursery.obj_words(x),
            gen.roots@.len() == gen0.roots@.len(),
            forall|i: int|
                0 <= i < gen0.roots@.len() ==> ((#[trigger] gen.roots@[i]) is Some == gen0.roots@[i] is Some) && (gen0.roots@[i] is Some ==> gen.roots@[i]->Some_0.ptr == gen0.roots@[i]->Some_0.ptr && gen.roots@[i]->Some_0.type_id == gen0.roots@[i]->Some_0.type_id && gen.roots@[i]->Some_0.ref_count == gen0.roots@[i]->Some_0.ref_count),
            gen.next_base == gen0.next_base,
            gen.block_count == gen0.block_count,
            gen.marker == gen0.marker,
            gen.nursery.blocks@.len() == gen0.nursery.blocks@.len(),
            forall|x: usize|
                #[trigger] old_b.status_of(x) == oldb0.status_of(x) || (oldb0.status_of(x) matches Some(ObjectStatus::Rooted(_)) && old_b.status_of(x) is None),
            forall|k2: int|
                0 <= k2 < k && (#[trigger] gen0.nursery.obj_words(new_addr)[k2]) is Handle
                    ==> queued_word(to_trace@, new_addr, k2),
        decreases size - k,
    {
        let ghost qiter = to_trace@;
        let ghost geniter = *gen;
        let mut act: usize = 0;
        let mut ridx: usize = 0;
        match gen.nursery.read_word(new_addr, k) {
            Some(w) => match w {
                Word::Handle(_) => {
                    act = 1;
                },
                Word::Root(r) => {
                    act = 2;
                    ridx = r.index();
                },
                _ => {},
            },
            None => {},
        }
        if act == 1 {
            let ghost genb = *gen;
            to_trace.push(TraceAt { at: TraceTarget::Word(new_addr, k) });
            proof {
                assert(target_ok(*gen, TraceAt { at: TraceTarget::Word(new_addr, k) }));
                assert forall|t: int| 0 <= t < to_trace@.len() implies target_ok(
                    *gen,
                    #[trigger] to_trace@[t],
                ) by {
                    if t < to_trace@.len() - 1 {
                        assert(target_ok(genb, to_trace@[t]));
                    }
                }
            }
        } else if act == 2 {
            let ghost genb = *gen;
            let ghost oldbb = *old_b;
            trace_root_word(gen, old_b, ridx, fm, Ghost(pre), Ghost(m0));
            proof {
                assert forall|x: usize| #[trigger] gen0.nursery.valid_obj(x) implies gen.nursery.obj_info(
                    x,
                ) == gen0.nursery.obj_info(x) && gen.nursery.obj_words(x)
                    == gen0.nursery.obj_words(x) by {
                    assert(genb.nursery.valid_obj(x));
                }
                assert forall|x: usize| #[trigger] gen.nursery.valid_obj(x)
                    == gen0.nursery.valid_obj(x) by {
                    assert(gen.nursery.valid_obj(x) == genb.nursery.valid_obj(x));
                }
                assert forall|t: int| 0 <= t < to_trace@.len() implies target_ok(
                    *gen,
                    #[trigger] to_trace@[t],
                ) by {
                    assert(target_ok(genb, to_trace@[t]));
                    match to_trace@[t].at {
                        TraceTarget::Word(o, k2) => {
                            assert(genb.nursery.valid_obj(o));
                        },
                        TraceTarget::RootPtr(i) => {},
                    }
                }
            }
            if ridx < gen.roots.len() {
                let live = match gen.roots[ridx] {
                    Some(_) => true,
                    None => false,
                };
                if live {
                    let ghost genc = *gen;
                    to_trace.push(TraceAt { at: TraceTarget::RootPtr(ridx) });
                    proof {
                        assert forall|t: int| 0 <= t < to_trace@.len() implies target_ok(
                            *gen,
                            #[trigger] to_trace@[t],
                        ) by {
                            if t < to_trace@.len() - 1 {
                                assert(target_ok(genc, to_trace@[t]));
                            }
                        }
                    }
                }
            }
            proof {
                assert forall|t: int| 0 <= t < to_trace@.len() implies target_ok(
                    *gen,
                    #[trigger] to_trace@[t],
                ) by {
                    assert(target_ok(genb, to_trace@[t]) || to_trace@[t].at
                        == TraceTarget::RootPtr(ridx));
                }
            }
        }
        proof {
            assert(gen0.nursery.obj_words(new_addr) == geniter.nursery.obj_words(new_addr));
            assert(qiter.is_prefix_of(to_trace@));
            assert forall|k2: int|
                0 <= k2 < k + 1 && (#[trigger] gen0.nursery.obj_words(new_addr)[k2])
                    is Handle implies queued_word(to_trace@, new_addr, k2) by {
                if k2 < k {
                    assert(queued_word(qiter, new_addr, k2));
                    let t = choose|t: int|
                        0 <= t < qiter.len() && (#[trigger] qiter[t]).at == TraceTarget::Word(
                            new_addr,
                            k2 as usize,
                        );
                    assert(to_trace@[t].at == TraceTarget::Word(new_addr, k2 as usize));
                } else {
                    assert(act == 1);
                    assert(to_trace@[to_trace@.len() - 1].at == TraceTarget::Word(new_addr, k));
                }
            }
        }
        k += 1;
    }
}

/// Removing a rooted entry lowers a from-space block's remaining work.
pub proof fn lemma_remove_rooted_mass(pre: Blocks, post: Blocks, a: usize)
    requires
        pre.wf(),
        pre.status_of(a) == Some(ObjectStatus::Rooted(pre.status_of(a)->Some_0->Rooted_0)),
        pre.status_of(a) is Some,
        pre.status_of(a)->Some_0 is Rooted,
        post.blocks@.len() == pre.blocks@.len(),
        ({
            let bi = pre.index_of_base(base_of(a));
            exists|i: int|
                0 <= i < pre.blocks@[bi].evaced.entries@.len() && (#[trigger] pre.blocks@[bi].evaced.entries@[i]).0 == a && post.blocks@[bi].evaced.entries@ == pre.blocks@[bi].evaced.entries@.remove(i)
        }),
        forall|j: int|
            0 <= j < pre.blocks@.len() && j != pre.index_of_base(base_of(a)) ==> (#[trigger] post.blocks@[j]).evaced.entries@ == pre.blocks@[j].evaced.entries@,
        forall|j: int|
            0 <= j < pre.blocks@.len() ==> (#[trigger] post.blocks@[j]) == (Header {
                evaced: post.blocks@[j].evaced,
                ..pre.blocks@[j]
            }),
    ensures
        mass_all(post.blocks@) <= mass_all(pre.blocks@) - 1,
{
    let bi = pre.index_of_base(base_of(a));
    assert(pre.has_base(base_of(a)));
    assert(0 <= bi < pre.blocks@.len());
    let epre = pre.blocks@[bi].evaced.entries@;
    let epost = post.blocks@[bi].evaced.entries@;
    let i = choose|i: int|
        0 <= i < epre.len() && (#[trigger] epre[i]).0 == a && epost == epre.remove(i);
    crate::root::lemma_map_of_index(epre, i);
    assert(epre[i].1 is Rooted);
    lemma_delta_sum_remove(epre, i);
    assert(header_mass(post.blocks@[bi]) == header_mass(pre.blocks@[bi]) - 1);
    lemma_mass_all_pointwise(pre.blocks@, post.blocks@, bi, 1);
}

/// Mass is additive over blocks: a pointwise drop of `d` at one block and
/// no rise elsewhere drops the total by `d`.
pub proof fn lemma_mass_all_pointwise(s1: Seq<Header>, s2: Seq<Header>, bi: int, d: int)
    requires
        s1.len() == s2.len(),
        0 <= bi < s1.len(),
        forall|j: int|
            0 <= j < s1.len() && j != bi ==> header_mass(#[trigger] s2[j]) <= header_mass(s1[j]),
        header_mass(s2[bi]) <= header_mass(s1[bi]) - d,
    ensures
        mass_all(s2) <= mass_all(s1) - d,
    decreases s1.len(),
{
    if s1.len() > 0 {
        if bi == s1.len() - 1 {
            lemma_mass_all_pointwise_le(s1.drop_last(), s2.drop_last());
        } else {
            lemma_mass_all_pointwise(s1.drop_last(), s2.drop_last(), bi, d);
        }
    }
}

/// Mass never rises when no block's mass rises.
pub proof fn lemma_mass_all_pointwise_le(s1: Seq<Header>, s2: Seq<Header>)
    requires
        s1.len() == s2.len(),
        forall|j: int| 0 <= j < s1.len() ==> header_mass(#[trigger] s2[j]) <= header_mass(s1[j]),
    ensures
        mass_all(s2) <= mass_all(s1),
    decreases s1.len(),
{
    if s1.len() > 0 {
        lemma_mass_all_pointwise_le(s1.drop_last(), s2.drop_last());
    }
}


/// Mass shifts exactly by the weight change at one block.
pub proof fn lemma_mass_all_pointwise_exact(s1: Seq<Header>, s2: Seq<Header>, bi: int, d: int)
    requires
        s1.len() == s2.len(),
        0 <= bi < s1.len(),
        forall|j: int|
            0 <= j < s1.len() && j != bi ==> header_mass(#[trigger] s2[j]) == header_mass(s1[j]),
        header_mass(s2[bi]) == header_mass(s1[bi]) + d,
    ensures
        mass_all(s2) == mass_all(s1) + d,
    decreases s1.len(),
{
    if s1.len() > 0 {
        if bi == s1.len() - 1 {
            lemma_mass_all_pointwise_eq(s1.drop_last(), s2.drop_last());
        } else {
            lemma_mass_all_pointwise_exact(s1.drop_last(), s2.drop_last(), bi, d);
        }
    }
}

/// Mass is unchanged when every block's mass is.
pub proof fn lemma_mass_all_pointwise_eq(s1: Seq<Header>, s2: Seq<Header>)
    requires
        s1.len() == s2.len(),
        forall|j: int| 0 <= j < s1.len() ==> header_mass(#[trigger] s2[j]) == header_mass(s1[j]),
    ensures
        mass_all(s2) == mass_all(s1),
    decreases s1.len(),
{
    if s1.len() > 0 {
        lemma_mass_all_pointwise_eq(s1.drop_last(), s2.drop_last());
    }
}

/// Writing a status entry shifts a from-space block's mass by the weight
/// difference.
pub proof fn lemma_set_status_mass(pre: Blocks, post: Blocks, a: usize, st: ObjectStatus)
    requires
        pre.wf(),
        pre.valid_obj(a),
        post.blocks@.len() == pre.blocks@.len(),
        ({
            let bi = pre.index_of_base(base_of(a));
            let epre = pre.blocks@[bi].evaced.entries@;
            let epost = post.blocks@[bi].evaced.entries@;
            (exists|i: int|
                0 <= i < epre.len() && (#[trigger] epre[i]).0 == a && epost == epre.update(
                    i,
                    (a, st),
                )) || (pre.status_of(a) is None && epost == epre.push((a, st)))
        }),
        forall|j: int|
            0 <= j < pre.blocks@.len() && j != pre.index_of_base(base_of(a)) ==> (#[trigger] post.blocks@[j]).evaced.entries@ == pre.blocks@[j].evaced.entries@,
        forall|j: int|
            0 <= j < pre.blocks@.len() ==> (#[trigger] post.blocks@[j]) == (Header {
                evaced: post.blocks@[j].evaced,
                ..pre.blocks@[j]
            }),
    ensures
        mass_all(post.blocks@) == mass_all(pre.blocks@) + entry_delta(st) - (match pre.status_of(
            a,
        ) {
            Some(o) => entry_delta(o),
            None => 0,
        }),
{
    let bi = pre.index_of_base(base_of(a));
    assert(pre.has_base(base_of(a)));
    assert(0 <= bi < pre.blocks@.len());
    let epre = pre.blocks@[bi].evaced.entries@;
    let epost = post.blocks@[bi].evaced.entries@;
    if exists|i: int|
        0 <= i < epre.len() && (#[trigger] epre[i]).0 == a && epost == epre.update(i, (a, st)) {
        let i = choose|i: int|
            0 <= i < epre.len() && (#[trigger] epre[i]).0 == a && epost == epre.update(i, (a, st));
        crate::root::lemma_map_of_index(epre, i);
        assert(pre.status_of(a) == Some(epre[i].1));
        lemma_delta_sum_update(epre, i, (a, st));
        lemma_mass_all_pointwise_exact(
            pre.blocks@,
            post.blocks@,
            bi,
            entry_delta(st) - entry_delta(epre[i].1),
        );
    } else {
        assert(epost == epre.push((a, st)));
        assert(epost.drop_last() =~= epre);
        lemma_mass_all_pointwise_exact(pre.blocks@, post.blocks@, bi, entry_delta(st));
    }
}

/// One space owes at least as much work as any one of its blocks.
pub proof fn lemma_mass_all_lower(s: Seq<Header>, bi: int)
    requires
        forall|i: int| 0 <= i < s.len() ==> (#[trigger] s[i]).wf(),
        0 <= bi < s.len(),
    ensures
        header_mass(s[bi]) <= mass_all(s),
    decreases s.len(),
{
    if s.len() > 0 {
        lemma_header_mass_bounds(s.last());
        if bi == s.len() - 1 {
            lemma_mass_all_bounds(s.drop_last());
        } else {
            lemma_mass_all_lower(s.drop_last(), bi);
        }
    }
}



/// After one copy, every handle word of every to-space object is again
/// queued, live, or stale: the fresh copy's words are queued, and the
/// untouched objects carry their claims over.
pub proof fn lemma_evac_copy_handles(
    pre: Generation,
    g0: Generation,
    g: Generation,
    q0: Seq<TraceAt>,
    q: Seq<TraceAt>,
    a: usize,
)
    requires
        handles_ok(pre, g0, q0),
        q0.is_prefix_of(q),
        g.nursery.valid_obj(a),
        forall|x: usize|
            #[trigger] g0.nursery.valid_obj(x) ==> g.nursery.valid_obj(x) && g.nursery.obj_info(
                x,
            ) == g0.nursery.obj_info(x) && g.nursery.obj_words(x) == g0.nursery.obj_words(x),
        forall|x: usize| #[trigger] g.nursery.valid_obj(x) ==> g0.nursery.valid_obj(x) || x == a,
        forall|k: int|
            0 <= k < g.nursery.obj_info(a).size as int && (#[trigger] g.nursery.obj_words(a)[k])
                is Handle ==> queued_word(q, a, k),
    ensures
        handles_ok(pre, g, q),
{
    assert forall|x: usize, k2: int|
        g.nursery.valid_obj(x) && 0 <= k2 < g.nursery.obj_info(x).size as int && (
        #[trigger] g.nursery.obj_words(x)[k2]) is Handle implies queued_word(q, x, k2)
        || g.nursery.valid_obj(g.nursery.obj_words(x)[k2]->Handle_0.0) || !pre.valid_obj(
        g.nursery.obj_words(x)[k2]->Handle_0.0,
    ) by {
        if x == a {
            assert(queued_word(q, a, k2));
        } else {
            assert(g0.nursery.valid_obj(x));
            assert(g0.nursery.obj_words(x) == g.nursery.obj_words(x));
            assert(queued_word(q0, x, k2) || g0.nursery.valid_obj(
                g0.nursery.obj_words(x)[k2]->Handle_0.0,
            ) || !pre.valid_obj(g0.nursery.obj_words(x)[k2]->Handle_0.0));
            if queued_word(q0, x, k2) {
                let t = choose|t: int|
                    0 <= t < q0.len() && (#[trigger] q0[t]).at == TraceTarget::Word(
                        x,
                        k2 as usize,
                    );
                assert(q[t] == q0[t]);
                assert(queued_word(q, x, k2));
            } else if g0.nursery.valid_obj(g0.nursery.obj_words(x)[k2]->Handle_0.0) {
                assert(g.nursery.valid_obj(g.nursery.obj_words(x)[k2]->Handle_0.0));
            }
        }
    }
}

/// Evacuates the object holding the managed pointer value `old_addr`: a
/// from-space object is copied into to-space — reusing the forwarding
/// entry if it was copied before, and promoting its root record if it was
/// rooted — and the to-space address is returned; an address that is not a
/// live from-space slot comes back unchanged.
#[verifier::rlimit(100)]
fn evac(
    gen: &mut Generation,
    old_b: &mut Blocks,
    to_trace: &mut Vec<TraceAt>,
    old_addr: usize,
    fm: bool,
    Ghost(pre): Ghost<Generation>,
    Ghost(m0): Ghost<int>,
) -> (new_addr: usize)
    requires
        evac_inv(pre, *old(gen), *old(old_b), fm, m0),
        queue_ok(*old(gen), old(to_trace)@),
        budget_ok(pre, *old(gen), *old(old_b), m0),
        pre.next_base as int + (BLOCK_SIZE as int) * (m0 + 1) <= usize::MAX as int,
        pre.block_count as int + m0 + 4 <= usize::MAX as int,
        !pre.no_live_roots(),
    ensures
        evac_inv(pre, *final(gen), *final(old_b), fm, m0),
        budget_ok(pre, *final(gen), *final(old_b), m0),
        queue_ok(*final(gen), final(to_trace)@),
        handles_ok(pre, *old(gen), old(to_trace)@) ==> handles_ok(
            pre,
            *final(gen),
            final(to_trace)@,
        ),
        old(to_trace)@.is_prefix_of(final(to_trace)@),
        forall|x: usize|
            #[trigger] final(gen).nursery.valid_obj(x) ==> old(gen).nursery.valid_obj(x) || (old(old_b).valid_obj(old_addr) && !(old(old_b).status_of(old_addr) matches Some(
                ObjectStatus::Moved(_),
            )) && x == new_addr),
        !old(old_b).valid_obj(old_addr) ==> *final(gen) == *old(gen) && *final(old_b) == *old(old_b) && final(to_trace)@ == old(to_trace)@,
        old(old_b).valid_obj(old_addr) && !(old(old_b).status_of(old_addr) matches Some(
            ObjectStatus::Moved(_),
        )) ==> (forall|k: int|
            0 <= k < pre.obj_info(old_addr).size as int && (#[trigger] pre.obj_words(old_addr)[k])
                is Handle ==> queued_word(final(to_trace)@, new_addr, k)),
        (*final(gen) == *old(gen) && *final(old_b) == *old(old_b) && final(to_trace)@ == old(to_trace)@) || (mass_all(final(old_b).blocks@) <= mass_all(old(old_b).blocks@) - 1 && final(to_trace)@.len() <= old(to_trace)@.len() + BLOCK_SIZE - 1 && old(to_trace)@.is_prefix_of(
            final(to_trace)@,
        )),
        mass_all(final(old_b).blocks@) <= mass_all(old(old_b).blocks@),
        old(old_b).valid_obj(old_addr) ==> final(gen).nursery.valid_obj(new_addr) && final(gen).nursery.obj_info(new_addr) == pre.nursery.obj_info(old_addr) && data_preserved(
            pre.nursery.obj_words(old_addr),
            final(gen).nursery.obj_words(new_addr),
        ),
        !old(old_b).valid_obj(old_addr) ==> new_addr == old_addr,
        old(old_b).status_of(old_addr) matches Some(ObjectStatus::Rooted(ri)) ==> final(gen).roots@[old(old_b).status_of(old_addr)->Some_0->Rooted_0 as int] is Some && final(gen).roots@[old(old_b).status_of(old_addr)->Some_0->Rooted_0 as int]->Some_0.ptr == new_addr,
        forall|x: usize|
            #[trigger] old(gen).nursery.valid_obj(x) ==> final(gen).nursery.valid_obj(x) && final(gen).nursery.obj_info(x) == old(gen).nursery.obj_info(x) && final(gen).nursery.obj_words(
                x,
            ) == old(gen).nursery.obj_words(x),
        forall|x: usize|
            #[trigger] final(old_b).status_of(x) == old(old_b).status_of(x) || (old(old_b).status_of(x) matches Some(ObjectStatus::Rooted(_)) && (final(old_b).status_of(x) is None || (x == old_addr && final(old_b).status_of(x) == Some(ObjectStatus::Moved(new_addr))))) || (x == old_addr && old(old_b).status_of(x) is None && final(old_b).status_of(x) == Some(
                ObjectStatus::Moved(new_addr),
            )),
        old(old_b).status_of(old_addr) matches Some(ObjectStatus::Moved(n2)) ==> new_addr == old(old_b).status_of(old_addr)->Some_0->Moved_0 && *final(gen) == *old(gen) && *final(old_b) == *old(old_b) && final(to_trace)@ == old(to_trace)@,
        old(gen).nursery.valid_obj(old_addr) ==> new_addr == old_addr && *final(gen) == *old(gen) && *final(old_b) == *old(old_b) && final(to_trace)@ == old(to_trace)@,
        final(gen).roots@.len() == old(gen).roots@.len(),
        forall|i: int|
            0 <= i < old(gen).roots@.len() ==> ((#[trigger] final(gen).roots@[i]) is Some == old(gen).roots@[i] is Some) && (old(gen).roots@[i] is Some ==> final(gen).roots@[i]->Some_0.type_id == old(gen).roots@[i]->Some_0.type_id && final(gen).roots@[i]->Some_0.ref_count == old(gen).roots@[i]->Some_0.ref_count && (final(gen).roots@[i]->Some_0.ptr == old(gen).roots@[i]->Some_0.ptr || root_updated(
                pre,
                *final(gen),
                i,
            ))),
        forall|j: int|
            0 <= j < old(gen).roots@.len() && (#[trigger] old(gen).roots@[j]) is Some && !(final(gen).roots@[j]->Some_0.ptr == old(gen).roots@[j]->Some_0.ptr) ==> old(old_b).status_of(
                old_addr,
            ) == Some(ObjectStatus::Rooted(j as usize)) && final(gen).roots@[j]->Some_0.ptr
                == new_addr,
{
    let ghost gen0 = *gen;
    let ghost oldb0 = *old_b;
    let base = Header::from_ptr(old_addr);
    let found = old_b.find_base(base);
    let bi = match found {
        Some(bi) => bi,
        None => {
            proof {
                if oldb0.valid_obj(old_addr) {
                    assert(oldb0.has_base(base_of(old_addr)));
                }
            }
            return old_addr;
        },
    };
    if !Header::checksum(&old_b.blocks[bi]) {
        proof {
            assert(false);
        }
        return old_addr;
    }
    if !old_b.blocks[bi].slot_check(old_addr) {
        proof {
            if oldb0.valid_obj(old_addr) {
                assert(oldb0.index_of_base(base_of(old_addr)) == bi);
            }
        }
        return old_addr;
    }
    proof {
        old_b.blocks@[bi as int].lemma_slot_bounds(old_addr);
        assert(oldb0.index_of_base(base_of(old_addr)) == bi);
        assert(oldb0.valid_obj(old_addr));
    }
    let first = old_b.blocks[bi].evaced.get(old_addr);
    proof {
        assert(oldb0.status_of(old_addr) == first);
    }
    match first {
        Some(ObjectStatus::Moved(n)) => {
            proof {
                assert(oldb0.status_of(old_addr) == Some(ObjectStatus::Moved(n)));
                lemma_old_space_lookup(pre, oldb0);
            }
            n
        },
        Some(ObjectStatus::Dropped) => {
            proof {
                assert(false);
            }
            old_addr
        },
        _ => {
            // plain or rooted from-space object: copy it into to-space
            let info = old_b.blocks[bi].info;
            let words = old_b.copy_obj_words(old_addr);
            proof {
                lemma_old_space_lookup(pre, oldb0);
                lemma_header_mass_positive(oldb0.blocks@[bi as int], old_addr);
                lemma_mass_all_lower(oldb0.blocks@, bi as int);
                lemma_mass_all_bounds(oldb0.blocks@);
            }
            let a = gen.nursery.allocate(info, gen.marker, &mut gen.next_base);
            proof {
                let len = gen.nursery.blocks@.len() as int;
                let bound = 2 + m0 - mass_all(old_b.blocks@);
                assert(pre.next_base as int + (BLOCK_SIZE as int) * len <= gen.next_base as int);
                assert(gen.next_base as int <= pre.next_base as int + (BLOCK_SIZE as int) * bound);
                assert(len <= bound) by (nonlinear_arith)
                    requires
                        (BLOCK_SIZE as int) * len <= (BLOCK_SIZE as int) * bound,
                        1 <= (BLOCK_SIZE as int),
                ;
                lemma_mass_all_bounds(old_b.blocks@);
            }
            let grew = gen.nursery.blocks.len() > gen.block_count - old_b.blocks.len();
            if grew {
                gen.block_count = gen.block_count + 1;
            }
            gen.nursery.write_obj_at(a, words);
            let ghost gen1 = *gen;
            proof {
                assert(gen.nursery.obj_words(a) == pre.nursery.obj_words(old_addr));
                assert forall|x: usize| #[trigger] gen.status_ok(x) by {
                    assert(gen0.status_ok(x));
                    assert(gen.status_of(x) == gen0.status_of(x));
                    if gen.status_of(x) is Some {
                        assert(gen0.nursery.valid_obj(x));
                        assert(x != a);
                    }
                }
                assert forall|i: int|
                    0 <= i < gen.roots@.len() implies #[trigger] root_state_ok(pre, *gen, i) by {
                    assert(root_state_ok(pre, gen0, i));
                    if gen.roots@[i] is Some && !(gen.roots@[i]->Some_0.ptr
                        == pre.roots@[i]->Some_0.ptr) {
                        assert(root_updated(pre, gen0, i));
                        assert(gen0.nursery.valid_obj(gen0.roots@[i]->Some_0.ptr));
                    }
                }
                assert forall|x: usize|
                    match #[trigger] old_b.status_of(x) {
                        Some(st) => match st {
                            ObjectStatus::Moved(n) => gen.nursery.valid_obj(n)
                                && gen.nursery.obj_info(n) == pre.nursery.obj_info(x)
                                && data_preserved(
                                pre.nursery.obj_words(x),
                                gen.nursery.obj_words(n),
                            ) && pre.nursery.valid_obj(x),
                            ObjectStatus::Rooted(ri) => pre.status_of(x) == Some(
                                ObjectStatus::Rooted(ri),
                            ) && (ri as int) < gen.roots@.len() && gen.roots@[ri as int] is Some
                                && gen.roots@[ri as int]->Some_0.ptr == x,
                            ObjectStatus::Dropped => false,
                        },
                        None => true,
                    } by {
                    if old_b.status_of(x) is Some {
                        match old_b.status_of(x)->Some_0 {
                            ObjectStatus::Moved(n) => {
                                assert(gen0.nursery.valid_obj(n));
                            },
                            _ => {},
                        }
                    }
                }
                assert forall|t: int| 0 <= t < to_trace@.len() implies target_ok(
                    *gen,
                    #[trigger] to_trace@[t],
                ) by {
                    assert(target_ok(gen0, to_trace@[t]));
                    match to_trace@[t].at {
                        TraceTarget::Word(o, k2) => {
                            assert(gen0.nursery.valid_obj(o));
                        },
                        TraceTarget::RootPtr(i) => {},
                    }
                }
                assert(evac_inv(pre, *gen, *old_b, fm, m0));
            }
            trace_object_words(gen, old_b, a, to_trace, fm, Ghost(pre), Ghost(m0));
            let ghost gen2 = *gen;
            let ghost oldb2 = *old_b;
            match first {
                Some(ObjectStatus::Rooted(ri)) => {
                    proof {
                        assert(pre.status_of(old_addr) == Some(ObjectStatus::Rooted(ri)));
                        assert(pre.status_ok(old_addr));
                        assert(root_state_ok(pre, *gen, ri as int));
                        assert(pre.roots@[ri as int] is Some);
                        assert(gen.roots@[ri as int] is Some);
                        lemma_old_space_lookup(pre, *old_b);
                        assert(old_b.valid_obj(old_addr));
                    }
                    let cur = old_b.status_at(old_addr);
                    let still_rooted = match cur {
                        Some(ObjectStatus::Rooted(_)) => true,
                        _ => false,
                    };
                    set_root_ptr(gen, ri, a);
                    let ghost gen3 = *gen;
                    proof {
                        assert forall|x: usize| #[trigger] gen.status_ok(x) by {
                            assert(gen2.status_ok(x));
                            if gen.status_of(x) is Some {
                                let rj = gen.status_of(x)->Some_0->Rooted_0;
                                if rj == ri {
                                    assert(gen2.roots@[ri as int]->Some_0.ptr == x);
                                }
                            }
                        }
                    }
                    if still_rooted {
                        old_b.set_status(old_addr, ObjectStatus::Moved(a));
                        proof {
                            lemma_set_status_mass(
                                oldb2,
                                *old_b,
                                old_addr,
                                ObjectStatus::Moved(a),
                            );
                        }
                        gen.nursery.set_status(a, ObjectStatus::Rooted(ri));
                        proof {
                            assert forall|x: usize| #[trigger] gen.status_ok(x) by {
                                assert(gen3.status_ok(x));
                                if x == a {
                                    assert(gen.status_of(x) == Some(ObjectStatus::Rooted(ri)));
                                    assert(gen.rec(ri).ptr == a);
                                    assert(gen.rec(ri).type_id == pre.rec(ri).type_id);
                                    assert(pre.rec(ri).type_id == pre.obj_info(
                                        old_addr,
                                    ).type_id);
                                } else {
                                    assert(gen.status_of(x) == gen3.status_of(x));
                                }
                            }
                        }
                    } else {
                        // the record was demoted while its copy was traced:
                        // the entry becomes a plain forwarding entry, so any
                        // later reference reuses this copy, and the record
                        // keeps pointing at the current location
                        proof {
                            assert(oldb2.status_of(old_addr) is None);
                            assert(mass_all(oldb2.blocks@) <= mass_all(oldb0.blocks@) - 1);
                            lemma_old_space_lookup(pre, *old_b);
                            assert(old_b.valid_obj(old_addr));
                        }
                        let ghost oldb3 = *old_b;
                        old_b.set_status(old_addr, ObjectStatus::Moved(a));
                        proof {
                            lemma_set_status_mass(
                                oldb3,
                                *old_b,
                                old_addr,
                                ObjectStatus::Moved(a),
                            );
                        }
                    }
                    proof {
                        assert forall|i: int|
                            0 <= i < gen.roots@.len() implies #[trigger] root_state_ok(
                            pre,
                            *gen,
                            i,
                        ) by {
                            assert(root_state_ok(pre, gen2, i));
                            if i == ri as int {
                                assert(root_updated(pre, *gen, i));
                            } else {
                                if gen.roots@[i] is Some && !(gen.roots@[i]->Some_0.ptr
                                    == pre.roots@[i]->Some_0.ptr) {
                                    assert(root_updated(pre, gen2, i));
                                }
                            }
                        }
                        assert forall|t: int| 0 <= t < to_trace@.len() implies target_ok(
                            *gen,
                            #[trigger] to_trace@[t],
                        ) by {
                            assert(target_ok(gen2, to_trace@[t]));
                        }
                        assert forall|x: usize|
                            match #[trigger] old_b.status_of(x) {
                                Some(st) => match st {
                                    ObjectStatus::Moved(n) => gen.nursery.valid_obj(n)
                                        && gen.nursery.obj_info(n) == pre.nursery.obj_info(x)
                                        && data_preserved(
                                        pre.nursery.obj_words(x),
                                        gen.nursery.obj_words(n),
                                    ) && pre.nursery.valid_obj(x),
                                    ObjectStatus::Rooted(rj) => pre.status_of(x) == Some(
                                        ObjectStatus::Rooted(rj),
                                    ) && (rj as int) < gen.roots@.len() && gen.roots@[rj as int] is Some
                                        && gen.roots@[rj as int]->Some_0.ptr == x,
                                    ObjectStatus::Dropped => false,
                                },
                                None => true,
                            } by {
                            if x != old_addr && old_b.status_of(x) is Some {
                                assert(old_b.status_of(x) == oldb2.status_of(x));
                                match old_b.status_of(x)->Some_0 {
                                    ObjectStatus::Moved(n) => {
                                        assert(gen2.nursery.valid_obj(n));
                                        assert(gen3.nursery.valid_obj(n));
                                    },
                                    ObjectStatus::Rooted(rj) => {
                                        if rj == ri {
                                            assert(gen2.roots@[ri as int]->Some_0.ptr == x);
                                            assert(gen2.roots@[ri as int]->Some_0.ptr
                                                == pre.roots@[ri as int]->Some_0.ptr
                                                || root_updated(pre, gen2, ri as int));
                                            assert(pre.status_ok(old_addr));
                                            assert(false);
                                        }
                                    },
                                    ObjectStatus::Dropped => {},
                                }
                            }
                        }
                        assert(evac_inv(pre, *gen, *old_b, fm, m0));
                        assert forall|x: usize| #[trigger] gen0.nursery.valid_obj(x) implies gen.nursery.valid_obj(
                            x,
                        ) && gen.nursery.obj_info(x) == gen0.nursery.obj_info(x)
                            && gen.nursery.obj_words(x) == gen0.nursery.obj_words(x) by {
                            assert(gen1.nursery.valid_obj(x));
                            assert(gen2.nursery.valid_obj(x));
                        }
                        assert(old(to_trace)@.is_prefix_of(to_trace@));
                        if handles_ok(pre, gen0, old(to_trace)@) {
                            assert forall|k2: int|
                                0 <= k2 < gen.nursery.obj_info(a).size as int && (
                                #[trigger] gen.nursery.obj_words(a)[k2]) is Handle implies queued_word(
                                to_trace@,
                                a,
                                k2,
                            ) by {
                                assert(gen.nursery.obj_words(a) == gen1.nursery.obj_words(a));
                                assert(gen1.nursery.obj_words(a)[k2] is Handle);
                            }
                            lemma_evac_copy_handles(
                                pre,
                                gen0,
                                *gen,
                                old(to_trace)@,
                                to_trace@,
                                a,
                            );
                        }
                        assert forall|x: usize| #[trigger] gen.nursery.valid_obj(x) implies gen0.nursery.valid_obj(
                            x,
                        ) || x == a by {
                            assert(gen1.nursery.valid_obj(x) == gen.nursery.valid_obj(x));
                        }
                        assert forall|k2: int|
                            0 <= k2 < pre.obj_info(old_addr).size as int && (
                            #[trigger] pre.obj_words(old_addr)[k2]) is Handle implies queued_word(
                            to_trace@,
                            a,
                            k2,
                        ) by {
                            assert(gen1.nursery.obj_words(a)[k2] is Handle);
                        }

                        assert forall|i: int|
                            0 <= i < gen0.roots@.len() implies ((#[trigger] gen.roots@[i]) is Some
                            == gen0.roots@[i] is Some) && (gen0.roots@[i] is Some
                            ==> gen.roots@[i]->Some_0.type_id == gen0.roots@[i]->Some_0.type_id
                            && gen.roots@[i]->Some_0.ref_count == gen0.roots@[i]->Some_0.ref_count
                            && (gen.roots@[i]->Some_0.ptr == gen0.roots@[i]->Some_0.ptr
                            || root_updated(pre, *gen, i))) by {
                            if i == ri as int {
                                assert(root_updated(pre, *gen, i));
                            }
                        }
                        assert(data_preserved(
                            pre.nursery.obj_words(old_addr),
                            gen.nursery.obj_words(a),
                        ));
                        if still_rooted {
                            assert(mass_all(old_b.blocks@) <= mass_all(oldb0.blocks@) - 1);
                        } else {
                            assert(mass_all(old_b.blocks@) <= mass_all(oldb0.blocks@) - 1);
                        }
                        assert(budget_ok(pre, *gen, *old_b, m0));

                    }
                    a
                },
                _ => {
                    proof {
                        assert(oldb2.status_of(old_addr) is None);
                        lemma_old_space_lookup(pre, *old_b);
                        assert(old_b.valid_obj(old_addr));
                    }
                    old_b.set_status(old_addr, ObjectStatus::Moved(a));
                    proof {
                        lemma_set_status_mass(oldb2, *old_b, old_addr, ObjectStatus::Moved(a));
                        assert forall|x: usize|
                            match #[trigger] old_b.status_of(x) {
                                Some(st) => match st {
                                    ObjectStatus::Moved(n) => gen.nursery.valid_obj(n)
                                        && gen.nursery.obj_info(n) == pre.nursery.obj_info(x)
                                        && data_preserved(
                                        pre.nursery.obj_words(x),
                                        gen.nursery.obj_words(n),
                                    ) && pre.nursery.valid_obj(x),
                                    ObjectStatus::Rooted(rj) => pre.status_of(x) == Some(
                                        ObjectStatus::Rooted(rj),
                                    ) && (rj as int) < gen.roots@.len() && gen.roots@[rj as int] is Some
                                        && gen.roots@[rj as int]->Some_0.ptr == x,
                                    ObjectStatus::Dropped => false,
                                },
                                None => true,
                            } by {
                            if x != old_addr && old_b.status_of(x) is Some {
                                assert(old_b.status_of(x) == oldb2.status_of(x));
                            }
                            if x == old_addr {
                                assert(old_b.status_of(x) == Some(ObjectStatus::Moved(a)));
                                assert(gen.nursery.obj_words(a) == pre.nursery.obj_words(
                                    old_addr,
                                ));
                            }
                        }
                        assert(evac_inv(pre, *gen, *old_b, fm, m0));
                        assert forall|x: usize| #[trigger] gen0.nursery.valid_obj(x) implies gen.nursery.valid_obj(
                            x,
                        ) && gen.nursery.obj_info(x) == gen0.nursery.obj_info(x)
                            && gen.nursery.obj_words(x) == gen0.nursery.obj_words(x) by {
                            assert(gen1.nursery.valid_obj(x));
                        }
                        assert(old(to_trace)@.is_prefix_of(to_trace@));
                        if handles_ok(pre, gen0, old(to_trace)@) {
                            assert forall|k2: int|
                                0 <= k2 < gen.nursery.obj_info(a).size as int && (
                                #[trigger] gen.nursery.obj_words(a)[k2]) is Handle implies queued_word(
                                to_trace@,
                                a,
                                k2,
                            ) by {
                                assert(gen.nursery.obj_words(a) == gen1.nursery.obj_words(a));
                                assert(gen1.nursery.obj_words(a)[k2] is Handle);
                            }
                            lemma_evac_copy_handles(
                                pre,
                                gen0,
                                *gen,
                                old(to_trace)@,
                                to_trace@,
                                a,
                            );
                        }
                        assert forall|x: usize| #[trigger] gen.nursery.valid_obj(x) implies gen0.nursery.valid_obj(
                            x,
                        ) || x == a by {
                            assert(gen1.nursery.valid_obj(x) == gen.nursery.valid_obj(x));
                        }
                        assert forall|k2: int|
                            0 <= k2 < pre.obj_info(old_addr).size as int && (
                            #[trigger] pre.obj_words(old_addr)[k2]) is Handle implies queued_word(
                            to_trace@,
                            a,
                            k2,
                        ) by {
                            assert(gen1.nursery.obj_words(a)[k2] is Handle);
                        }

                        assert(data_preserved(
                            pre.nursery.obj_words(old_addr),
                            gen.nursery.obj_words(a),
                        ));
                        assert(mass_all(old_b.blocks@) <= mass_all(oldb0.blocks@) - 1);
                        assert(budget_ok(pre, *gen, *old_b, m0));


                    }
                    a
                },
            }
        },
    }
}


/// From-space and to-space are disjoint: their blocks sit in different
/// halves of the address space.
pub proof fn lemma_spaces_disjoint(pre: Generation, g: Generation, old_b: Blocks, x: usize)
    requires
        pre.wf(),
        old_space_shape(pre, old_b),
        to_space_ok(pre, g, pre.marker),
        old_b.valid_obj(x),
    ensures
        !g.nursery.valid_obj(x),
{
    lemma_old_space_lookup(pre, old_b);
    let bj = pre.nursery.index_of_base(base_of(x));
    old_b.blocks@[bj].lemma_slot_bounds(x);
    assert(base_of(x) == pre.nursery.blocks@[bj].base);
    assert(pre.nursery.blocks@[bj].base + BLOCK_SIZE <= pre.next_base);
    if g.nursery.valid_obj(x) {
        let bi = g.nursery.index_of_base(base_of(x));
        assert(g.nursery.blocks@[bi].base == base_of(x));
        assert(pre.next_base <= g.nursery.blocks@[bi].base);
    }
}

/// A live object's word sequence has exactly its descriptor's length.
pub proof fn lemma_obj_words_len(b: Blocks, a: usize)
    requires
        b.wf(),
        b.valid_obj(a),
    ensures
        b.obj_words(a).len() == b.obj_info(a).size as int,
{
    let h = b.blocks@[b.index_of_base(base_of(a))];
    h.lemma_slot_bounds(a);
}

/// An entry of a block's table is the block's status for its key.
pub proof fn lemma_entry_status(b: Blocks, bj: int, ej: int)
    requires
        b.wf(),
        0 <= bj < b.blocks@.len(),
        0 <= ej < b.blocks@[bj].evaced.entries@.len(),
    ensures
        b.status_of(b.blocks@[bj].evaced.entries@[ej].0) == Some(
            b.blocks@[bj].evaced.entries@[ej].1,
        ),
        b.valid_obj(b.blocks@[bj].evaced.entries@[ej].0),
{
    let h = b.blocks@[bj];
    let k = h.evaced.entries@[ej].0;
    crate::root::lemma_map_of_index(h.evaced.entries@, ej);
    assert(h.evaced@.contains_key(k));
    assert(h.is_slot(k));
    h.lemma_slot_bounds(k);
    assert(b.has_base(h.base));
    let w = b.index_of_base(h.base);
    if w != bj {
        assert(b.blocks@[w].base == b.blocks@[bj].base);
    }
    assert(b.index_of_base(base_of(k)) == bj);
}

/// The slot at index `j` still owes its destructor: it was never forwarded
/// to to-space nor already poisoned.
pub open spec fn slot_dies(h: Header, j: int) -> bool {
    let a = h.slot_addr(j) as usize;
    !(h.evaced@.contains_key(a) && (h.evaced@[a] is Moved || h.evaced@[a] is Dropped))
}

/// How many of the block's allocated slots below index `j` owe their
/// destructor.
pub open spec fn dying_below(h: Header, j: int) -> int
    decreases j - h.count,
{
    if j <= h.count as int {
        0
    } else {
        dying_below(h, j - 1) + if slot_dies(h, j - 1) {
            1int
        } else {
            0int
        }
    }
}

/// The destructors one freed block owes: every allocated slot that was not
/// forwarded.
pub open spec fn block_drop_count(h: Header) -> int {
    dying_below(h, h.capacity as int)
}

/// The count never exceeds the allocated slots.
pub proof fn lemma_dying_below_bounds(h: Header, j: int)
    requires
        h.count as int <= j <= h.capacity as int,
    ensures
        0 <= dying_below(h, j) <= j - h.count as int,
    decreases j - h.count,
{
    if j > h.count as int {
        lemma_dying_below_bounds(h, j - 1);
    }
}

/// The count grows with the index.
pub proof fn lemma_dying_below_mono(h: Header, j1: int, j2: int)
    requires
        h.count as int <= j1 <= j2 <= h.capacity as int,
    ensures
        dying_below(h, j1) <= dying_below(h, j2),
    decreases j2 - j1,
{
    if j1 < j2 {
        lemma_dying_below_mono(h, j1, j2 - 1);
    }
}

/// A block with an empty status table owes one destructor per allocated
/// slot.
pub proof fn lemma_dying_below_empty(h: Header, j: int)
    requires
        h.count as int <= j <= h.capacity as int,
        h.evaced.entries@.len() == 0,
    ensures
        dying_below(h, j) == j - h.count as int,
    decreases j - h.count,
{
    if j > h.count as int {
        lemma_dying_below_empty(h, j - 1);
        crate::root::lemma_map_of_contains(h.evaced.entries@, h.slot_addr(j - 1) as usize);
    }
}

/// Frees one from-space block at the end of a collection: any slot that
/// was not moved to to-space has its destructor run — releasing the root
/// words it owned — and is poisoned.
fn free_block(gen: &mut Generation, h: Header)
    requires
        h.wf(),
        forall|x: usize| #[trigger] old(gen).status_ok(x),
        old(gen).nursery.wf(),
        1 <= old(gen).block_count,
    ensures
        forall|x: usize| #[trigger] final(gen).status_ok(x),
        final(gen).nursery.wf(),
        final(gen).block_count == old(gen).block_count - 1,
        final(gen).nursery.blocks@.len() == old(gen).nursery.blocks@.len(),
        forall|x: usize| #[trigger] final(gen).nursery.valid_obj(x) == old(gen).nursery.valid_obj(x),
        forall|x: usize|
            #[trigger] old(gen).nursery.valid_obj(x) ==> final(gen).nursery.obj_info(x) == old(gen).nursery.obj_info(x) && final(gen).nursery.obj_words(x) == old(gen).nursery.obj_words(x),
        forall|m: bool| old(gen).nursery.marked_all(m) ==> final(gen).nursery.marked_all(m),
        forall|nb: int| old(gen).nursery.bases_below(nb) ==> final(gen).nursery.bases_below(nb),
        forall|lo: int|
            old(gen).nursery.bases_at_least(lo) ==> final(gen).nursery.bases_at_least(lo),
        final(gen).marker == old(gen).marker,
        final(gen).next_base == old(gen).next_base,
        final(gen).post_block_count == old(gen).post_block_count,
        final(gen).destructors_run >= old(gen).destructors_run,
        // the sweep discipline, exactly: one destructor per allocated slot
        // that was never forwarded, none otherwise
        !h.info.needs_drop ==> final(gen).destructors_run == old(gen).destructors_run,
        h.info.needs_drop && old(gen).destructors_run + block_drop_count(h) <= usize::MAX
            ==> final(gen).destructors_run == old(gen).destructors_run + block_drop_count(h),
        final(gen).roots@.len() == old(gen).roots@.len(),
        forall|i: int|
            0 <= i < old(gen).roots@.len() && (#[trigger] final(gen).roots@[i]) is Some ==> old(gen).roots@[i] is Some && final(gen).roots@[i]->Some_0.ptr == old(gen).roots@[i]->Some_0.ptr && final(gen).roots@[i]->Some_0.type_id == old(gen).roots@[i]->Some_0.type_id && final(gen).roots@[i]->Some_0.ref_count <= old(gen).roots@[i]->Some_0.ref_count,
{
    let ghost gen0 = *gen;
    let ghost h0 = h;
    let mut h = h;
    if h.info.needs_drop {
        let size = h.info.size as usize;
        let cap = h.capacity as usize;
        let mut k = h.count as usize;
        while k < cap
            invariant
                h.count as usize <= k <= cap,
                cap == h.capacity,
                size == h.info.size,
                h.wf(),
                h == (Header { evaced: h.evaced, ..h0 }),
                h0.info.needs_drop,
                forall|j2: int|
                    #![trigger h0.slot_addr(j2)]
                    k as int <= j2 < h0.capacity as int ==> h.evaced@.contains_key(
                        h0.slot_addr(j2) as usize,
                    ) == h0.evaced@.contains_key(h0.slot_addr(j2) as usize) && (
                    h0.evaced@.contains_key(h0.slot_addr(j2) as usize) ==> h.evaced@[h0.slot_addr(
                        j2,
                    ) as usize] == h0.evaced@[h0.slot_addr(j2) as usize]),
                gen.destructors_run >= gen0.destructors_run + dying_below(h0, k as int)
                    || gen.destructors_run == usize::MAX,
                gen0.destructors_run + block_drop_count(h0) <= usize::MAX
                    ==> gen.destructors_run == gen0.destructors_run + dying_below(h0, k as int),
                forall|x: usize| #[trigger] gen.status_ok(x),
                gen.nursery.wf(),
                1 <= gen.block_count,
                gen.block_count == gen0.block_count,
                gen.nursery.blocks@.len() == gen0.nursery.blocks@.len(),
                forall|x: usize| #[trigger] gen.nursery.valid_obj(x) == gen0.nursery.valid_obj(x),
                forall|x: usize|
                    #[trigger] gen0.nursery.valid_obj(x) ==> gen.nursery.obj_info(x) == gen0.nursery.obj_info(x) && gen.nursery.obj_words(x) == gen0.nursery.obj_words(x),
                forall|m: bool| gen0.nursery.marked_all(m) ==> gen.nursery.marked_all(m),
                forall|nb: int| gen0.nursery.bases_below(nb) ==> gen.nursery.bases_below(nb),
                forall|lo: int| gen0.nursery.bases_at_least(lo) ==> gen.nursery.bases_at_least(lo),
                gen.marker == gen0.marker,
                gen.next_base == gen0.next_base,
                gen.post_block_count == gen0.post_block_count,
                gen.destructors_run >= gen0.destructors_run,
                gen.roots@.len() == gen0.roots@.len(),
                forall|i: int|
                    0 <= i < gen0.roots@.len() && (#[trigger] gen.roots@[i]) is Some ==> gen0.roots@[i] is Some && gen.roots@[i]->Some_0.ptr == gen0.roots@[i]->Some_0.ptr && gen.roots@[i]->Some_0.type_id == gen0.roots@[i]->Some_0.type_id && gen.roots@[i]->Some_0.ref_count <= gen0.roots@[i]->Some_0.ref_count,
            decreases cap - k,
        {
            proof {
                assert(h.slot_addr(k as int) == h.bottom + h.info.size as int * (k as int));
                h.lemma_slot_addr_mono(k as int, h.capacity as int);
                assert(h.slot_addr(h.capacity as int) <= h.base + BLOCK_SIZE) by {
                    assert(h.info.size as int * (h.capacity as int) <= h.info.size as int * (
                    h.capacity as int + 1)) by (nonlinear_arith)
                        requires
                            1 <= h.info.size as int,
                    ;
                }
            }
            let addr = h.bottom + size * k;
            proof {
                assert(h.is_slot(addr)) by {
                    assert(addr == h.slot_addr(k as int));
                }
                h.lemma_slot_bounds(addr);
            }
            let st = h.evaced.get(addr);
            let skip = match st {
                Some(ObjectStatus::Moved(_)) => true,
                Some(ObjectStatus::Dropped) => true,
                _ => false,
            };
            if !skip {
                // the object never reached to-space: run its destructor
                let ghost genq = *gen;
                if gen.destructors_run < usize::MAX {
                    gen.destructors_run = gen.destructors_run + 1;
                }
                proof {
                    assert forall|x: usize| #[trigger] gen.status_ok(x) by {
                        assert(genq.status_ok(x));
                    }
                }
                let ghost drq = gen.destructors_run;
                let ghost hmid = h;
                let mut w: usize = 0;
                while w < size
                    invariant
                        w <= size,
                        size == h.info.size,
                        h == hmid,
                        gen.destructors_run == drq,
                        h.wf(),
                        h.is_slot(addr),
                        addr - h.base + size <= h.mem@.len(),
                        forall|x: usize| #[trigger] gen.status_ok(x),
                        gen.nursery.wf(),
                        1 <= gen.block_count,
                        gen.block_count == gen0.block_count,
                        gen.nursery.blocks@.len() == gen0.nursery.blocks@.len(),
                        forall|x: usize| #[trigger] gen.nursery.valid_obj(x) == gen0.nursery.valid_obj(x),
                        forall|x: usize|
                            #[trigger] gen0.nursery.valid_obj(x) ==> gen.nursery.obj_info(x) == gen0.nursery.obj_info(x) && gen.nursery.obj_words(x) == gen0.nursery.obj_words(x),
                        forall|m: bool| gen0.nursery.marked_all(m) ==> gen.nursery.marked_all(m),
                        forall|nb: int| gen0.nursery.bases_below(nb) ==> gen.nursery.bases_below(nb),
                        forall|lo: int| gen0.nursery.bases_at_least(lo) ==> gen.nursery.bases_at_least(lo),
                        gen.marker == gen0.marker,
                        gen.next_base == gen0.next_base,
                        gen.post_block_count == gen0.post_block_count,
                        gen.destructors_run >= gen0.destructors_run,
                        gen.roots@.len() == gen0.roots@.len(),
                        forall|i: int|
                            0 <= i < gen0.roots@.len() && (#[trigger] gen.roots@[i]) is Some ==> gen0.roots@[i] is Some && gen.roots@[i]->Some_0.ptr == gen0.roots@[i]->Some_0.ptr && gen.roots@[i]->Some_0.type_id == gen0.roots@[i]->Some_0.type_id && gen.roots@[i]->Some_0.ref_count <= gen0.roots@[i]->Some_0.ref_count,
                    decreases size - w,
                {
                    let mut ridx: usize = 0;
                    let mut is_root = false;
                    match &h.mem[addr - h.base + w] {
                        Word::Root(r) => {
                            is_root = true;
                            ridx = r.index();
                        },
                        _ => {},
                    }
                    if is_root {
                        let ghost genr = *gen;
                        root_drop_internal(gen, ridx, Ghost(gen0));
                        proof {
                            assert forall|x: usize| #[trigger] gen.nursery.valid_obj(x)
                                == gen0.nursery.valid_obj(x) by {
                                assert(gen.nursery.valid_obj(x) == genr.nursery.valid_obj(x));
                            }
                            assert forall|x: usize| #[trigger] gen0.nursery.valid_obj(
                                x,
                            ) implies gen.nursery.obj_info(x) == gen0.nursery.obj_info(x)
                                && gen.nursery.obj_words(x) == gen0.nursery.obj_words(x) by {
                                assert(genr.nursery.valid_obj(x));
                            }
                        }
                    }
                    w += 1;
                }
                let ghost hpre = h;
                h.evaced.set(addr, ObjectStatus::Dropped);
                proof {
                    Header::lemma_same_slots(hpre, h);
                    assert(h.wf()) by {
                        assert forall|q: usize| h.evaced@.contains_key(q) implies h.is_slot(
                            q,
                        ) by {
                            if q != addr {
                                assert(hpre.evaced@.contains_key(q));
                                assert(hpre.is_slot(q));
                            } else {
                                assert(hpre.is_slot(addr));
                            }
                        }
                    }
                }
            }
            proof {
                assert(addr == h0.slot_addr(k as int) as usize);
                assert(slot_dies(h0, k as int) == !skip);
                if !skip {
                    if gen0.destructors_run + block_drop_count(h0) <= usize::MAX {
                        lemma_dying_below_mono(h0, k as int + 1, h0.capacity as int);
                        lemma_dying_below_bounds(h0, k as int);
                    }
                }
                assert forall|j2: int|
                    #![trigger h0.slot_addr(j2)]
                    k as int + 1 <= j2 < h0.capacity as int implies h.evaced@.contains_key(
                    h0.slot_addr(j2) as usize,
                ) == h0.evaced@.contains_key(h0.slot_addr(j2) as usize) && (
                h0.evaced@.contains_key(h0.slot_addr(j2) as usize) ==> h.evaced@[h0.slot_addr(
                    j2,
                ) as usize] == h0.evaced@[h0.slot_addr(j2) as usize]) by {
                    let sa = h0.slot_addr(j2);
                    h0.lemma_slot_addr_mono(k as int, j2);
                    h0.lemma_slot_addr_mono(j2, h0.capacity as int);
                    assert(h0.info.size as int * (h0.capacity as int) <= h0.info.size as int * (
                    h0.capacity as int + 1)) by (nonlinear_arith)
                        requires
                            1 <= h0.info.size,
                    ;
                    assert(sa <= h0.base + BLOCK_SIZE);
                    assert(addr < sa);
                    assert((sa as usize) as int == sa);
                    assert(h0.slot_addr(j2) as usize != addr);
                }
            }
            k += 1;
        }
        proof {
            assert(block_drop_count(h0) == dying_below(h0, h0.capacity as int));
        }
    }
    let ghost genf = *gen;
    gen.block_count = gen.block_count - 1;
    proof {
        assert forall|x: usize| #[trigger] gen.status_ok(x) by {
            assert(genf.status_ok(x));
        }
    }
}

/// Releases one owning reference held by a dying word: the counterpart of
/// a root handle's disposal, run by the block sweep.
fn root_drop_internal(gen: &mut Generation, ridx: usize, Ghost(gen0): Ghost<Generation>)
    requires
        forall|x: usize| #[trigger] old(gen).status_ok(x),
        old(gen).nursery.wf(),
        old(gen).roots@.len() == gen0.roots@.len(),
        forall|i: int|
            0 <= i < gen0.roots@.len() && (#[trigger] old(gen).roots@[i]) is Some ==> gen0.roots@[i] is Some && old(gen).roots@[i]->Some_0.ptr == gen0.roots@[i]->Some_0.ptr && old(gen).roots@[i]->Some_0.type_id == gen0.roots@[i]->Some_0.type_id && old(gen).roots@[i]->Some_0.ref_count <= gen0.roots@[i]->Some_0.ref_count,
    ensures
        forall|x: usize| #[trigger] final(gen).status_ok(x),
        final(gen).nursery.wf(),
        final(gen).nursery.blocks@.len() == old(gen).nursery.blocks@.len(),
        forall|x: usize| #[trigger] final(gen).nursery.valid_obj(x) == old(gen).nursery.valid_obj(x),
        forall|x: usize|
            #[trigger] old(gen).nursery.valid_obj(x) ==> final(gen).nursery.obj_info(x) == old(gen).nursery.obj_info(x) && final(gen).nursery.obj_words(x) == old(gen).nursery.obj_words(x),
        forall|m: bool| old(gen).nursery.marked_all(m) ==> final(gen).nursery.marked_all(m),
        forall|nb: int| old(gen).nursery.bases_below(nb) ==> final(gen).nursery.bases_below(nb),
        forall|lo: int|
            old(gen).nursery.bases_at_least(lo) ==> final(gen).nursery.bases_at_least(lo),
        final(gen).marker == old(gen).marker,
        final(gen).next_base == old(gen).next_base,
        final(gen).block_count == old(gen).block_count,
        final(gen).post_block_count == old(gen).post_block_count,
        final(gen).destructors_run == old(gen).destructors_run,
        final(gen).roots@.len() == old(gen).roots@.len(),
        forall|i: int|
            0 <= i < gen0.roots@.len() && (#[trigger] final(gen).roots@[i]) is Some ==> gen0.roots@[i] is Some && final(gen).roots@[i]->Some_0.ptr == gen0.roots@[i]->Some_0.ptr && final(gen).roots@[i]->Some_0.type_id == gen0.roots@[i]->Some_0.type_id && final(gen).roots@[i]->Some_0.ref_count <= gen0.roots@[i]->Some_0.ref_count,
{
    let ghost genp = *gen;
    if ridx >= gen.roots.len() {
        return ;
    }
    match gen.roots[ridx] {
        Some(rec) => {
            if rec.ref_count > 1 {
                gen.roots[ridx] = Some(RootInner { ref_count: rec.ref_count - 1, ..rec });
                proof {
                    assert forall|x: usize| #[trigger] gen.status_ok(x) by {
                        assert(genp.status_ok(x));
                    }
                }
            } else {
                // remove the record's own entry, if it still owns one
                let mut drop_entry = false;
                match gen.nursery.status_at(rec.ptr) {
                    Some(ObjectStatus::Rooted(rj)) => {
                        if rj == ridx {
                            drop_entry = true;
                        }
                    },
                    _ => {},
                }
                if drop_entry {
                    gen.nursery.remove_status(rec.ptr);
                }
                gen.roots[ridx] = None;
                proof {
                    assert forall|x: usize| #[trigger] gen.status_ok(x) by {
                        assert(genp.status_ok(x));
                        if x != rec.ptr && gen.status_of(x) is Some {
                            assert(gen.status_of(x) == genp.status_of(x));
                            let rj = genp.status_of(x)->Some_0->Rooted_0;
                            if rj == ridx {
                                assert(genp.roots@[ridx as int]->Some_0.ptr == x);
                            }
                        }
                        if x == rec.ptr && gen.status_of(x) is Some {
                            assert(gen.status_of(x) == genp.status_of(x));
                            let rj = genp.status_of(x)->Some_0->Rooted_0;
                            assert(rj != ridx);
                        }
                    }
                }
            }
        },
        None => {},
    }
}


/// The destructors a whole space owes if nothing in it survives: one per
/// allocated slot of each block whose type needs dropping.
pub open spec fn needs_drop_slots(s: Seq<Header>) -> int
    decreases s.len(),
{
    if s.len() == 0 {
        0
    } else {
        needs_drop_slots(s.drop_last()) + if s.last().info.needs_drop {
            s.last().capacity as int - s.last().count as int
        } else {
            0int
        }
    }
}

/// The owed-destructor count of a space is never negative.
pub proof fn lemma_needs_drop_slots_nonneg(s: Seq<Header>)
    requires
        forall|i: int| 0 <= i < s.len() ==> (#[trigger] s[i]).count <= s[i].capacity,
    ensures
        0 <= needs_drop_slots(s),
    decreases s.len(),
{
    if s.len() > 0 {
        lemma_needs_drop_slots_nonneg(s.drop_last());
    }
}

/// What a completed collection guarantees: the heap is well-formed under
/// the flipped marker, the growth baseline is reset, no block survives
/// with no roots, and every root that was properly rooted and is still
/// live points at a faithful to-space copy of its old referent.
pub open spec fn collect_post(pre: Generation, post: Generation) -> bool {
    &&& post.wf()
    &&& post.marker == !pre.marker
    &&& post.post_block_count == post.block_count
    &&& post.roots@.len() == pre.roots@.len()
    &&& post.destructors_run >= pre.destructors_run
    &&& (pre.no_live_roots() ==> post.block_count == 0 && post.nursery.blocks@.len() == 0)
    &&& forall|i: int|
        0 <= i < post.roots@.len() && (#[trigger] post.roots@[i]) is Some ==> pre.roots@[i] is Some
            && post.roots@[i]->Some_0.type_id == pre.roots@[i]->Some_0.type_id
            && post.roots@[i]->Some_0.ref_count <= pre.roots@[i]->Some_0.ref_count
    &&& forall|i: usize|
        (i as int) < post.roots@.len() && (#[trigger] post.roots@[i as int]) is Some && pre.rooted(
            i,
        ) ==> post.valid_obj(post.roots@[i as int]->Some_0.ptr) && post.obj_info(
            post.roots@[i as int]->Some_0.ptr,
        ) == pre.obj_info(pre.roots@[i as int]->Some_0.ptr) && data_preserved(
            pre.obj_words(pre.roots@[i as int]->Some_0.ptr),
            post.obj_words(post.roots@[i as int]->Some_0.ptr),
        )
    &&& post.nursery.bases_at_least(pre.next_base as int)
    &&& pre.next_base <= post.next_base
    &&& (pre.no_live_roots() && pre.destructors_run + needs_drop_slots(pre.nursery.blocks@)
        <= usize::MAX ==> post.destructors_run == pre.destructors_run + needs_drop_slots(
        pre.nursery.blocks@,
    ))
    &&& forall|x: usize, k: int|
        #![trigger post.obj_words(x)[k]]
        post.valid_obj(x) && 0 <= k < post.obj_info(x).size as int && post.obj_words(x)[k]
            is Handle ==> post.valid_obj(post.obj_words(x)[k]->Handle_0.0) || !pre.valid_obj(
            post.obj_words(x)[k]->Handle_0.0,
        )
}


/// After one handle word is rewritten to the evacuation result, every
/// handle word of every to-space object is again queued, live, or stale.
#[verifier::rlimit(100)]
pub proof fn lemma_drain_word_handles(
    pre: Generation,
    genp: Generation,
    gene: Generation,
    g: Generation,
    oldp: Blocks,
    qpre: Seq<TraceAt>,
    q: Seq<TraceAt>,
    o: usize,
    k: usize,
    p: usize,
    np: usize,
    nh: Gc,
)
    requires
        pre.wf(),
        old_space_shape(pre, oldp),
        handles_ok(pre, genp, qpre),
        qpre.len() > 0,
        qpre[qpre.len() - 1].at == TraceTarget::Word(o, k),
        genp.nursery.valid_obj(o),
        (k as int) < genp.nursery.obj_info(o).size as int,
        genp.nursery.obj_words(o)[k as int] is Handle,
        p == genp.nursery.obj_words(o)[k as int]->Handle_0.0,
        nh.0 == np,
        // what the evacuation step guaranteed
        gene.nursery.wf(),
        qpre.subrange(0, qpre.len() - 1).is_prefix_of(q),
        forall|x: usize|
            #[trigger] genp.nursery.valid_obj(x) ==> gene.nursery.valid_obj(x)
                && gene.nursery.obj_info(x) == genp.nursery.obj_info(x)
                && gene.nursery.obj_words(x) == genp.nursery.obj_words(x),
        forall|x: usize|
            #[trigger] gene.nursery.valid_obj(x) ==> genp.nursery.valid_obj(x) || (oldp.valid_obj(
                p,
            ) && !(oldp.status_of(p) matches Some(ObjectStatus::Moved(_))) && x == np),
        oldp.valid_obj(p) ==> gene.nursery.valid_obj(np) && gene.nursery.obj_info(np)
            == pre.nursery.obj_info(p) && data_preserved(
            pre.nursery.obj_words(p),
            gene.nursery.obj_words(np),
        ),
        !oldp.valid_obj(p) ==> np == p && gene.nursery == genp.nursery,
        oldp.valid_obj(p) && !(oldp.status_of(p) matches Some(ObjectStatus::Moved(_))) ==> (
        forall|k2: int|
            0 <= k2 < pre.obj_info(p).size as int && (#[trigger] pre.obj_words(p)[k2]) is Handle
                ==> queued_word(q, np, k2)),
        // the write
        g == (Generation { nursery: g.nursery, ..gene }),
        g.nursery.valid_obj(o),
        g.nursery.obj_info(o) == gene.nursery.obj_info(o),
        g.nursery.obj_words(o) == gene.nursery.obj_words(o).update(k as int, Word::Handle(nh)),
        forall|x: usize| #[trigger] g.nursery.valid_obj(x) == gene.nursery.valid_obj(x),
        forall|x: usize|
            #[trigger] gene.nursery.valid_obj(x) && x != o ==> g.nursery.obj_info(x)
                == gene.nursery.obj_info(x) && g.nursery.obj_words(x) == gene.nursery.obj_words(
                x,
            ),
        g.nursery.obj_info(o) == genp.nursery.obj_info(o),
    ensures
        handles_ok(pre, g, q),
{

        assert(handles_ok(pre, g, q)) by {
            lemma_old_space_lookup(pre, oldp);
            assert forall|x: usize, k2: int|
                g.nursery.valid_obj(x) && 0 <= k2 < g.nursery.obj_info(x).size as int && (
                #[trigger] g.nursery.obj_words(x)[k2]) is Handle implies queued_word(
                q,
                x,
                k2,
            ) || g.nursery.valid_obj(g.nursery.obj_words(x)[k2]->Handle_0.0) || !pre.valid_obj(
                g.nursery.obj_words(x)[k2]->Handle_0.0,
            ) by {
                let tgt = g.nursery.obj_words(x)[k2]->Handle_0.0;
                if x == o && k2 == k {
                    // the word this step rewrote
                    lemma_obj_words_len(gene.nursery, o);
                    assert(g.nursery.obj_words(o) == gene.nursery.obj_words(o).update(
                        k as int,
                        Word::Handle(nh),
                    ));
                    assert(g.nursery.obj_words(x)[k2] == Word::Handle(nh));
                    assert(tgt == np);
                    if oldp.valid_obj(p) {
                        assert(gene.nursery.valid_obj(np));
                        assert(g.nursery.valid_obj(np));
                    } else {
                        assert(np == p);
                        if gene.nursery.valid_obj(p) {
                            assert(g.nursery.valid_obj(p));
                        } else {
                            assert(!pre.valid_obj(p));
                        }
                    }
                } else {
                    // untouched: the claim carries from before the pop
                    if x == np && oldp.valid_obj(p) && !(oldp.status_of(p) matches Some(
                        ObjectStatus::Moved(_),
                    )) && !genp.nursery.valid_obj(x) {
                        // a word of the fresh copy: its item is on the stack
                        lemma_old_space_lookup(pre, oldp);
                        lemma_obj_words_len(pre.nursery, p);
                        assert(data_preserved(
                            pre.nursery.obj_words(p),
                            gene.nursery.obj_words(np),
                        ));
                        if np == o {
                            lemma_obj_words_len(gene.nursery, np);
                            assert(g.nursery.obj_words(o) == gene.nursery.obj_words(o).update(
                                k as int,
                                Word::Handle(nh),
                            ));
                            assert(gene.nursery.obj_words(np)[k2] == g.nursery.obj_words(
                                np,
                            )[k2]);
                        } else {
                            assert(gene.nursery.obj_words(np) == g.nursery.obj_words(np));
                        }
                        assert(gene.nursery.obj_words(np)[k2] is Handle);
                        assert(pre.obj_words(p)[k2] is Handle);
                        assert(queued_word(q, np, k2));
                    } else {
                        assert(genp.nursery.valid_obj(x)) by {
                            assert(gene.nursery.valid_obj(x) == g.nursery.valid_obj(x));
                        }
                        assert(genp.nursery.obj_words(x) == gene.nursery.obj_words(x));
                        assert(gene.nursery.obj_words(x) == g.nursery.obj_words(x) || (x == o));
                        if x == o {
                            lemma_obj_words_len(gene.nursery, o);
                            assert(g.nursery.obj_words(o)[k2] == gene.nursery.obj_words(
                                o,
                            )[k2]);
                        }
                        assert(genp.nursery.obj_words(x)[k2] is Handle);
                        assert(queued_word(qpre, x, k2) || genp.nursery.valid_obj(
                            genp.nursery.obj_words(x)[k2]->Handle_0.0,
                        ) || !pre.valid_obj(genp.nursery.obj_words(x)[k2]->Handle_0.0));
                        if queued_word(qpre, x, k2) {
                            let t = choose|t: int|
                                0 <= t < qpre.len() && (#[trigger] qpre[t]).at
                                    == TraceTarget::Word(x, k2 as usize);
                            if t == qpre.len() - 1 {
                                assert(x == o && k2 == k);
                                assert(false);
                            }
                            assert(qpre.subrange(0, qpre.len() - 1).is_prefix_of(q));
                            assert(q[t] == qpre.subrange(0, qpre.len() - 1)[t]);
                            assert(queued_word(q, x, k2));
                        } else if genp.nursery.valid_obj(
                            genp.nursery.obj_words(x)[k2]->Handle_0.0,
                        ) {
                            assert(gene.nursery.valid_obj(
                                genp.nursery.obj_words(x)[k2]->Handle_0.0,
                            ));
                            assert(g.nursery.valid_obj(tgt));
                        }
                    }
                }
            }
        }
    
}

/// Processes one queued root-record item: evacuates the record's referent
/// and writes the to-space address back into the record.
#[verifier::rlimit(100)]
fn drain_root(
    gen: &mut Generation,
    old_b: &mut Blocks,
    to_trace: &mut Vec<TraceAt>,
    i: usize,
    fm: bool,
    Ghost(pre): Ghost<Generation>,
    Ghost(m0): Ghost<int>,
    Ghost(qpre): Ghost<Seq<TraceAt>>,
)
    requires
        evac_inv(pre, *old(gen), *old(old_b), fm, m0),
        budget_ok(pre, *old(gen), *old(old_b), m0),
        pre.next_base as int + (BLOCK_SIZE as int) * (m0 + 1) <= usize::MAX as int,
        pre.block_count as int + m0 + 4 <= usize::MAX as int,
        qpre.len() > 0,
        old(to_trace)@ == qpre.subrange(0, qpre.len() - 1),
        queue_ok(*old(gen), qpre),
        handles_ok(pre, *old(gen), qpre),
        forall|j: usize|
            #[trigger] pre.rooted(j) ==> queued_root(qpre, j) || root_updated(pre, *old(gen), j as int),
        qpre[qpre.len() - 1].at == TraceTarget::RootPtr(i),
        (i as int) < old(gen).roots@.len(),
        old(gen).roots@[i as int] is Some,
    ensures
        evac_inv(pre, *final(gen), *final(old_b), fm, m0),
        budget_ok(pre, *final(gen), *final(old_b), m0),
        queue_ok(*final(gen), final(to_trace)@),
        forall|j: usize|
            #[trigger] pre.rooted(j) ==> queued_root(final(to_trace)@, j) || root_updated(pre, *final(gen), j as int),
        mass_all(final(old_b).blocks@) <= mass_all(old(old_b).blocks@),
        (mass_all(final(old_b).blocks@) == mass_all(old(old_b).blocks@) && final(to_trace)@.len() <= qpre.len() - 1) || (mass_all(final(old_b).blocks@) <= mass_all(old(old_b).blocks@) - 1 && final(to_trace)@.len() <= qpre.len() + BLOCK_SIZE - 2),
        handles_ok(pre, *final(gen), final(to_trace)@),
{
    let ghost genp = *gen;
    let ghost oldp = *old_b;
    proof {
        assert(to_trace@ == qpre.subrange(0, qpre.len() - 1));
        assert forall|u: int| 0 <= u < to_trace@.len() implies target_ok(
            *gen,
            #[trigger] to_trace@[u],
        ) by {
            assert(qpre.subrange(0, qpre.len() - 1)[u] == qpre[u]);
            assert(target_ok(*gen, qpre[u]));
        }
        assert(target_ok(*gen, qpre[qpre.len() - 1]));
        assert(root_state_ok(pre, *gen, i as int));
        assert(pre.roots@[i as int] is Some);
        assert(!pre.no_live_roots());
        assert(handles_ok(pre, *gen, to_trace@)) by {
            assert forall|x: usize, k2: int|
                gen.nursery.valid_obj(x) && 0 <= k2 < gen.nursery.obj_info(x).size as int && (
                #[trigger] gen.nursery.obj_words(x)[k2]) is Handle implies queued_word(
                to_trace@,
                x,
                k2,
            ) || gen.nursery.valid_obj(gen.nursery.obj_words(x)[k2]->Handle_0.0) || !pre.valid_obj(
                gen.nursery.obj_words(x)[k2]->Handle_0.0,
            ) by {
                assert(queued_word(qpre, x, k2) || gen.nursery.valid_obj(
                    gen.nursery.obj_words(x)[k2]->Handle_0.0,
                ) || !pre.valid_obj(gen.nursery.obj_words(x)[k2]->Handle_0.0));
                if queued_word(qpre, x, k2) {
                    let t = choose|t: int|
                        0 <= t < qpre.len() && (#[trigger] qpre[t]).at == TraceTarget::Word(
                            x,
                            k2 as usize,
                        );
                    assert(qpre[t].at is Word);
                    assert(t != qpre.len() - 1);
                    assert(to_trace@ == qpre.subrange(0, qpre.len() - 1));
                    assert(qpre.subrange(0, qpre.len() - 1)[t] == qpre[t]);
                    assert(to_trace@[t].at == TraceTarget::Word(x, k2 as usize));
                    assert(queued_word(to_trace@, x, k2));
                }
            }
        }
    }
    let p = match gen.roots[i] {
        Some(rec) => rec.ptr,
        None => {
            proof {
                assert(false);
            }
            return ;
        },
    };
    let np = evac(gen, old_b, to_trace, p, fm, Ghost(pre), Ghost(m0));
    let ghost gene = *gen;
    set_root_ptr(gen, i, np);
    proof {
        assert(qpre.subrange(0, qpre.len() - 1).is_prefix_of(to_trace@));
        assert forall|u: int| 0 <= u < qpre.len() - 1 implies #[trigger] to_trace@[u]
            == qpre[u] by {
            assert(qpre.subrange(0, qpre.len() - 1)[u] == qpre[u]);
        }
        // the record keeps naming its entry: any entry for `i`
        // already points at `np`
        assert forall|x: usize| #[trigger] gen.status_ok(x) by {
            assert(gene.status_ok(x));
            if gen.status_of(x) is Some {
                let rj = gen.status_of(x)->Some_0->Rooted_0;
                if rj == i {
                    assert(gene.roots@[i as int]->Some_0.ptr == x);
                    assert(gene.nursery.valid_obj(x));
                    if !(x == np) {
                        if gene.roots@[i as int]->Some_0.ptr == p {
                            // the record still held `p`, so `p` is
                            // a to-space address and came back as is
                            if oldp.valid_obj(p) {
                                lemma_spaces_disjoint(pre, gene, oldp, p);
                                assert(false);
                            }
                            assert(np == p);
                            assert(false);
                        } else {
                            assert(oldp.status_of(p) == Some(
                                ObjectStatus::Rooted(i),
                            ) && gene.roots@[i as int]->Some_0.ptr == np);
                            assert(false);
                        }
                    }
                }
            }
        }
        assert forall|x: usize|
            match #[trigger] (*old_b).status_of(x) {
                Some(st) => match st {
                    ObjectStatus::Moved(n) => gen.nursery.valid_obj(n)
                        && gen.nursery.obj_info(n) == pre.nursery.obj_info(x)
                        && data_preserved(
                        pre.nursery.obj_words(x),
                        gen.nursery.obj_words(n),
                    ) && pre.nursery.valid_obj(x),
                    ObjectStatus::Rooted(rj) => pre.status_of(x) == Some(
                        ObjectStatus::Rooted(rj),
                    ) && (rj as int) < gen.roots@.len() && gen.roots@[rj as int] is Some
                        && gen.roots@[rj as int]->Some_0.ptr == x,
                    ObjectStatus::Dropped => false,
                },
                None => true,
            } by {
            if (*old_b).status_of(x) is Some {
                match (*old_b).status_of(x)->Some_0 {
                    ObjectStatus::Rooted(rj) => {
                        if rj == i {
                            // the entry says the record still points
                            // at this from-space slot, so the write
                            // stored the value it already held
                            assert(gene.roots@[i as int]->Some_0.ptr == x);
                            assert(oldp.status_of(x) == Some(ObjectStatus::Rooted(i)));
                            if gene.roots@[i as int]->Some_0.ptr == p {
                                assert(x == p);
                                assert(gene.roots@[i as int]->Some_0.ptr == np);
                                assert(x == np);
                            } else {
                                assert(oldp.status_of(p) == Some(
                                    ObjectStatus::Rooted(i),
                                ) && gene.roots@[i as int]->Some_0.ptr == np);
                                assert(x == np);
                            }
                        }
                    },
                    _ => {},
                }
            }
        }
        assert forall|j: int|
            0 <= j < gen.roots@.len() implies #[trigger] root_state_ok(
            pre,
            *gen,
            j,
        ) by {
            assert(root_state_ok(pre, gene, j));
            if j == i as int {
                if oldp.valid_obj(p) {
                    assert(root_state_ok(pre, genp, j));
                    assert(genp.roots@[j]->Some_0.ptr == p);
                    if !(p == pre.roots@[j]->Some_0.ptr) {
                        assert(root_updated(pre, genp, j));
                        assert(genp.nursery.valid_obj(p));
                        lemma_spaces_disjoint(pre, genp, oldp, p);
                        assert(false);
                    }
                    lemma_old_space_lookup(pre, oldp);
                    assert(pre.valid_obj(pre.roots@[j]->Some_0.ptr));
                    assert(gen.roots@[j]->Some_0.ptr == np);
                    assert(gene.nursery.valid_obj(np));
                    assert(gene.nursery.obj_info(np) == pre.nursery.obj_info(p));
                    assert(data_preserved(
                        pre.nursery.obj_words(p),
                        gene.nursery.obj_words(np),
                    ));
                    assert(root_updated(pre, *gen, j));
                } else {
                    assert(np == p);
                    assert(gen.roots@ == gene.roots@.update(
                        j,
                        Some(RootInner { ptr: np, ..gene.roots@[j]->Some_0 }),
                    ));
                    if !(gen.roots@[j]->Some_0.ptr == pre.roots@[j]->Some_0.ptr) {
                        assert(gene.roots@[j]->Some_0.ptr == p);
                        assert(root_updated(pre, gene, j));
                        assert(root_updated(pre, *gen, j));
                    }
                }
            } else {
                if gen.roots@[j] is Some && !(gen.roots@[j]->Some_0.ptr
                    == pre.roots@[j]->Some_0.ptr) {
                    assert(root_updated(pre, gene, j));
                }
            }
        }
        assert forall|u: int| 0 <= u < to_trace@.len() implies target_ok(
            *gen,
            #[trigger] to_trace@[u],
        ) by {
            assert(target_ok(gene, to_trace@[u]));
        }
        assert(evac_inv(pre, *gen, (*old_b), fm, m0));
        // every properly rooted record is queued or done
        assert forall|j: usize| #[trigger] pre.rooted(j) implies queued_root(
            to_trace@,
            j,
        ) || root_updated(pre, *gen, j as int) by {
            if queued_root(qpre, j) {
                let u = choose|u: int|
                    0 <= u < qpre.len() && (#[trigger] qpre[u]).at
                        == TraceTarget::RootPtr(j);
                if u < qpre.len() - 1 {
                    if to_trace@.len() >= qpre.len() - 1 {
                        assert(to_trace@[u].at == TraceTarget::RootPtr(j));
                        assert(queued_root(to_trace@, j));
                    } else {
                        assert(false);
                    }
                } else {
                    // the popped item was this root: it is now done
                    assert(j == i);
                    assert(root_updated(pre, *gen, j as int)) by {
                        assert(pre.rooted(j));
                        if oldp.valid_obj(p) {
                            assert(root_state_ok(pre, genp, i as int));
                            if !(p == pre.roots@[i as int]->Some_0.ptr) {
                                assert(root_updated(pre, genp, i as int));
                                assert(genp.nursery.valid_obj(p));
                                lemma_spaces_disjoint(pre, genp, oldp, p);
                                assert(false);
                            }
                            lemma_old_space_lookup(pre, oldp);
                            assert(gen.roots@[i as int]->Some_0.ptr == np);
                            assert(gene.nursery.valid_obj(np));
                            assert(gene.nursery.obj_info(np) == pre.nursery.obj_info(
                                p,
                            ));
                            assert(data_preserved(
                                pre.nursery.obj_words(p),
                                gene.nursery.obj_words(np),
                            ));
                            assert(root_updated(pre, *gen, i as int));
                        } else {
                            assert(root_state_ok(pre, genp, i as int));
                            if genp.roots@[i as int]->Some_0.ptr
                                == pre.roots@[i as int]->Some_0.ptr {
                                assert(pre.status_of(p) == Some(
                                    ObjectStatus::Rooted(i),
                                ));
                                assert(pre.status_ok(p));
                                assert(pre.nursery.valid_obj(p));
                                lemma_old_space_lookup(pre, oldp);
                                assert(oldp.valid_obj(p));
                                assert(false);
                            } else {
                                assert(root_updated(pre, genp, i as int));
                                assert(np == p);
                                assert(root_updated(pre, *gen, i as int));
                            }
                        }
                    }
                }
            } else {
                assert(root_updated(pre, genp, j as int));
                assert(root_updated(pre, gene, j as int)) by {
                    assert(genp.nursery.valid_obj(genp.roots@[j as int]->Some_0.ptr));
                    assert(gene.roots@[j as int]->Some_0.ptr == genp.roots@[j as int]->Some_0.ptr
                        || root_updated(pre, gene, j as int));
                }
                if j == i {
                    assert(gene.nursery.valid_obj(gene.roots@[j as int]->Some_0.ptr));
                    if !oldp.valid_obj(p) {
                        assert(np == p);
                    }
                    assert(root_updated(pre, *gen, j as int));
                } else {
                    assert(root_updated(pre, *gen, j as int));
                }
            }
        }
    }

    proof {
        assert(handles_ok(pre, *gen, to_trace@)) by {
            assert(handles_ok(pre, gene, to_trace@));
            assert forall|x: usize, k2: int|
                gen.nursery.valid_obj(x) && 0 <= k2 < gen.nursery.obj_info(x).size as int && (
                #[trigger] gen.nursery.obj_words(x)[k2]) is Handle implies queued_word(
                to_trace@,
                x,
                k2,
            ) || gen.nursery.valid_obj(gen.nursery.obj_words(x)[k2]->Handle_0.0) || !pre.valid_obj(
                gen.nursery.obj_words(x)[k2]->Handle_0.0,
            ) by {
                assert(gen.nursery == gene.nursery);
            }
        }
    }

}

/// Processes one queued handle-word item: evacuates the referent of the
/// handle held in word `k` of the to-space object at `o`, then rewrites
/// the word.
#[verifier::rlimit(100)]
fn drain_word(
    gen: &mut Generation,
    old_b: &mut Blocks,
    to_trace: &mut Vec<TraceAt>,
    o: usize,
    k: usize,
    fm: bool,
    Ghost(pre): Ghost<Generation>,
    Ghost(m0): Ghost<int>,
    Ghost(qpre): Ghost<Seq<TraceAt>>,
)
    requires
        evac_inv(pre, *old(gen), *old(old_b), fm, m0),
        budget_ok(pre, *old(gen), *old(old_b), m0),
        pre.next_base as int + (BLOCK_SIZE as int) * (m0 + 1) <= usize::MAX as int,
        pre.block_count as int + m0 + 4 <= usize::MAX as int,
        qpre.len() > 0,
        old(to_trace)@ == qpre.subrange(0, qpre.len() - 1),
        queue_ok(*old(gen), qpre),
        handles_ok(pre, *old(gen), qpre),
        forall|j: usize|
            #[trigger] pre.rooted(j) ==> queued_root(qpre, j) || root_updated(pre, *old(gen), j as int),
        qpre[qpre.len() - 1].at == TraceTarget::Word(o, k),
    ensures
        evac_inv(pre, *final(gen), *final(old_b), fm, m0),
        budget_ok(pre, *final(gen), *final(old_b), m0),
        queue_ok(*final(gen), final(to_trace)@),
        forall|j: usize|
            #[trigger] pre.rooted(j) ==> queued_root(final(to_trace)@, j) || root_updated(pre, *final(gen), j as int),
        mass_all(final(old_b).blocks@) <= mass_all(old(old_b).blocks@),
        (mass_all(final(old_b).blocks@) == mass_all(old(old_b).blocks@) && final(to_trace)@.len() <= qpre.len() - 1) || (mass_all(final(old_b).blocks@) <= mass_all(old(old_b).blocks@) - 1 && final(to_trace)@.len() <= qpre.len() + BLOCK_SIZE - 2),
        handles_ok(pre, *final(gen), final(to_trace)@),
{
    let ghost genp = *gen;
    let ghost oldp = *old_b;
    proof {
        assert(to_trace@ == qpre.subrange(0, qpre.len() - 1));
        assert forall|u: int| 0 <= u < to_trace@.len() implies target_ok(
            *gen,
            #[trigger] to_trace@[u],
        ) by {
            assert(qpre.subrange(0, qpre.len() - 1)[u] == qpre[u]);
            assert(target_ok(*gen, qpre[u]));
        }
        assert(target_ok(*gen, qpre[qpre.len() - 1]));
        assert(gen.nursery.valid_obj(o));
        assert(gen.nursery.has_base(base_of(o)));
        assert(gen.nursery.blocks@.len() > 0);
        assert(!pre.no_live_roots());
    }
    let p = match gen.nursery.read_word(o, k) {
        Some(w) => match w {
            Word::Handle(hh) => hh.0,
            _ => {
                proof {
                    assert(false);
                }
                return ;
            },
        },
        None => {
            proof {
                assert(false);
            }
            return ;
        },
    };
    let np = evac(gen, old_b, to_trace, p, fm, Ghost(pre), Ghost(m0));
    let ghost gene = *gen;
    let nh = crate::gc::Gc::new(np);
    gen.nursery.write_word_at(o, k, Word::Handle(nh));
    proof {
        assert forall|x: usize| #[trigger] gen.status_ok(x) by {
            assert(gene.status_ok(x));
            if gen.status_of(x) is Some {
                assert(gen.status_of(x) == gene.status_of(x));
            }
        }
        assert forall|x: usize|
            match #[trigger] (*old_b).status_of(x) {
                Some(st) => match st {
                    ObjectStatus::Moved(n) => gen.nursery.valid_obj(n)
                        && gen.nursery.obj_info(n) == pre.nursery.obj_info(x)
                        && data_preserved(
                        pre.nursery.obj_words(x),
                        gen.nursery.obj_words(n),
                    ) && pre.nursery.valid_obj(x),
                    ObjectStatus::Rooted(rj) => pre.status_of(x) == Some(
                        ObjectStatus::Rooted(rj),
                    ) && (rj as int) < gen.roots@.len() && gen.roots@[rj as int] is Some
                        && gen.roots@[rj as int]->Some_0.ptr == x,
                    ObjectStatus::Dropped => false,
                },
                None => true,
            } by {
            if (*old_b).status_of(x) is Some {
                match (*old_b).status_of(x)->Some_0 {
                    ObjectStatus::Moved(n) => {
                        assert(gene.nursery.valid_obj(n));
                        if n == o {
                            lemma_obj_words_len(gene.nursery, n);
                            assert(gene.nursery.obj_words(o)[k as int] is Handle);
                            lemma_data_preserved_update(
                                pre.nursery.obj_words(x),
                                gene.nursery.obj_words(n),
                                k as int,
                                Word::Handle(nh),
                            );
                            assert(gen.nursery.obj_words(n)
                                == gene.nursery.obj_words(n).update(
                                k as int,
                                Word::Handle(nh),
                            ));
                        } else {
                            assert(gen.nursery.obj_words(n) == gene.nursery.obj_words(
                                n,
                            ));
                        }
                    },
                    _ => {},
                }
            }
        }
        assert forall|j: int|
            0 <= j < gen.roots@.len() implies #[trigger] root_state_ok(
            pre,
            *gen,
            j,
        ) by {
            assert(root_state_ok(pre, gene, j));
            if gen.roots@[j] is Some && !(gen.roots@[j]->Some_0.ptr
                == pre.roots@[j]->Some_0.ptr) {
                assert(root_updated(pre, gene, j));
                let rp = gen.roots@[j]->Some_0.ptr;
                if rp == o {
                    lemma_obj_words_len(gene.nursery, rp);
                    assert(gene.nursery.obj_words(o)[k as int] is Handle);
                    lemma_data_preserved_update(
                        pre.obj_words(pre.roots@[j]->Some_0.ptr),
                        gene.nursery.obj_words(rp),
                        k as int,
                        Word::Handle(nh),
                    );
                }
                assert(root_updated(pre, *gen, j));
            }
        }
        assert forall|u: int| 0 <= u < to_trace@.len() implies target_ok(
            *gen,
            #[trigger] to_trace@[u],
        ) by {
            assert(target_ok(gene, to_trace@[u]));
            match to_trace@[u].at {
                TraceTarget::Word(o2, k2) => {
                    assert(gene.nursery.valid_obj(o2));
                    if o2 == o {
                        lemma_obj_words_len(gene.nursery, o2);
                        assert(gen.nursery.obj_words(o2)
                            == gene.nursery.obj_words(o2).update(
                            k as int,
                            Word::Handle(nh),
                        ));
                        if k2 == k {
                            assert(gen.nursery.obj_words(o2)[k2 as int]
                                == Word::Handle(nh));
                        } else {
                            assert(gen.nursery.obj_words(o2)[k2 as int]
                                == gene.nursery.obj_words(o2)[k2 as int]);
                        }
                    } else {
                        assert(gen.nursery.obj_words(o2) == gene.nursery.obj_words(
                            o2,
                        ));
                    }
                },
                TraceTarget::RootPtr(_) => {},
            }
        }
        assert(evac_inv(pre, *gen, (*old_b), fm, m0));
        assert forall|j: usize| #[trigger] pre.rooted(j) implies queued_root(
            to_trace@,
            j,
        ) || root_updated(pre, *gen, j as int) by {
            if queued_root(qpre, j) {
                let u = choose|u: int|
                    0 <= u < qpre.len() && (#[trigger] qpre[u]).at
                        == TraceTarget::RootPtr(j);
                assert(u < qpre.len() - 1);
                assert(qpre.subrange(0, qpre.len() - 1).is_prefix_of(to_trace@)) by {
                    if !(to_trace@ == qpre.subrange(0, qpre.len() - 1)) {
                    } else {
                        assert(qpre.subrange(0, qpre.len() - 1).is_prefix_of(
                            qpre.subrange(0, qpre.len() - 1),
                        ));
                    }
                }
                assert(to_trace@[u] == qpre.subrange(0, qpre.len() - 1)[u]);
                assert(to_trace@[u].at == TraceTarget::RootPtr(j));
                assert(queued_root(to_trace@, j));
            } else {
                assert(root_updated(pre, genp, j as int));
                assert(root_updated(pre, gene, j as int)) by {
                    assert(genp.nursery.valid_obj(genp.roots@[j as int]->Some_0.ptr));
                }
                let rp = gene.roots@[j as int]->Some_0.ptr;
                if rp == o {
                    lemma_obj_words_len(gene.nursery, rp);
                    assert(gene.nursery.obj_words(o)[k as int] is Handle);
                    lemma_data_preserved_update(
                        pre.obj_words(pre.roots@[j as int]->Some_0.ptr),
                        gene.nursery.obj_words(rp),
                        k as int,
                        Word::Handle(nh),
                    );
                }
                assert(root_updated(pre, *gen, j as int));
            }
        }
    }


    proof {
        lemma_old_space_lookup(pre, oldp);
        lemma_drain_word_handles(
            pre,
            genp,
            gene,
            *gen,
            oldp,
            qpre,
            to_trace@,
            o,
            k,
            p,
            np,
            nh,
        );
    }

}

/// The collection pass: flips the marker, seizes the nursery as
/// from-space, seeds the work stack with every rooted entry, drains it —
/// copying live objects into to-space and rewriting every managed pointer
/// — and frees the from-space blocks, running the destructors of objects
/// that did not survive.
#[verifier::rlimit(100)]
pub fn run_evac(gen: &mut Generation)
    requires
        old(gen).wf(),
        old(gen).collect_room(),
    ensures
        final(gen).wf(),
        collect_post(*old(gen), *final(gen)),
{
    let ghost pre = *old(gen);
    let fm = gen.marker;
    gen.marker = !fm;
    let mut old_nursery = Blocks::new();
    core::mem::swap(&mut gen.nursery, &mut old_nursery);
    let ghost m0 = mass_all(old_nursery.blocks@);
    proof {
        lemma_mass_all_bounds(old_nursery.blocks@);
        assert(2 * (BLOCK_SIZE as int) * old_nursery.blocks@.len() == 2 * (BLOCK_SIZE as int) * (
        pre.block_count as int)) by (nonlinear_arith)
            requires
                old_nursery.blocks@.len() == pre.block_count as int,
        ;
        assert(m0 <= 2 * (BLOCK_SIZE as int) * (pre.block_count as int));
        assert forall|x: usize| #[trigger] gen.status_ok(x) by {
            assert(gen.status_of(x) is None);
        }
        assert forall|x: usize|
            match #[trigger] old_nursery.status_of(x) {
                Some(st) => match st {
                    ObjectStatus::Moved(n) => gen.nursery.valid_obj(n) && gen.nursery.obj_info(n)
                        == pre.nursery.obj_info(x) && data_preserved(
                        pre.nursery.obj_words(x),
                        gen.nursery.obj_words(n),
                    ) && pre.nursery.valid_obj(x),
                    ObjectStatus::Rooted(ri) => pre.status_of(x) == Some(ObjectStatus::Rooted(ri))
                        && (ri as int) < gen.roots@.len() && gen.roots@[ri as int] is Some
                        && gen.roots@[ri as int]->Some_0.ptr == x,
                    ObjectStatus::Dropped => false,
                },
                None => true,
            } by {
            if old_nursery.status_of(x) is Some {
                assert(pre.status_of(x) == old_nursery.status_of(x));
                assert(pre.status_ok(x));
            }
        }
        assert forall|i: int| 0 <= i < gen.roots@.len() implies #[trigger] root_state_ok(
            pre,
            *gen,
            i,
        ) by {}
        assert(evac_inv(pre, *gen, old_nursery, fm, m0));
        assert(budget_ok(pre, *gen, old_nursery, m0));
    }
    let ghost gflip = *gen;

    // seed: one work item per rooted entry of the from-space
    let mut to_trace: Vec<TraceAt> = Vec::new();
    let nblocks = old_nursery.blocks.len();
    let mut bi: usize = 0;
    while bi < nblocks
        invariant
            bi <= nblocks,
            nblocks == old_nursery.blocks@.len(),
            *gen == gflip,
            old_nursery.blocks@ == pre.nursery.blocks@,
            pre.no_live_roots() ==> to_trace@.len() == 0,
            old_nursery.wf(),
            evac_inv(pre, *gen, old_nursery, fm, m0),
            budget_ok(pre, *gen, old_nursery, m0),
            queue_ok(*gen, to_trace@),
            forall|bj: int, ej: int|
                0 <= bj < bi && 0 <= ej < old_nursery.blocks@[bj].evaced.entries@.len() && (
                #[trigger] old_nursery.blocks@[bj].evaced.entries@[ej]).1 is Rooted ==> queued_root(
                    to_trace@,
                    old_nursery.blocks@[bj].evaced.entries@[ej].1->Rooted_0,
                ),
        decreases nblocks - bi,
    {
        let nentries = old_nursery.blocks[bi].evaced.entries.len();
        let mut ei: usize = 0;
        while ei < nentries
            invariant
                bi < nblocks,
                ei <= nentries,
                nblocks == old_nursery.blocks@.len(),
                nentries == old_nursery.blocks@[bi as int].evaced.entries@.len(),
                *gen == gflip,
                old_nursery.blocks@ == pre.nursery.blocks@,
                pre.no_live_roots() ==> to_trace@.len() == 0,
                old_nursery.wf(),
                evac_inv(pre, *gen, old_nursery, fm, m0),
                budget_ok(pre, *gen, old_nursery, m0),
                queue_ok(*gen, to_trace@),
                forall|bj: int, ej: int|
                    0 <= bj < bi && 0 <= ej < old_nursery.blocks@[bj].evaced.entries@.len() && (
                    #[trigger] old_nursery.blocks@[bj].evaced.entries@[ej]).1 is Rooted
                        ==> queued_root(
                        to_trace@,
                        old_nursery.blocks@[bj].evaced.entries@[ej].1->Rooted_0,
                    ),
                forall|ej: int|
                    0 <= ej < ei && (#[trigger] old_nursery.blocks@[bi as int].evaced.entries@[ej]).1
                        is Rooted ==> queued_root(
                        to_trace@,
                        old_nursery.blocks@[bi as int].evaced.entries@[ej].1->Rooted_0,
                    ),
            decreases nentries - ei,
        {
            let entry = old_nursery.blocks[bi].evaced.entries[ei];
            match entry.1 {
                ObjectStatus::Rooted(ri) => {
                    proof {
                        lemma_entry_status(old_nursery, bi as int, ei as int);
                        assert(old_nursery.status_of(entry.0) == Some(ObjectStatus::Rooted(ri)));
                        if pre.no_live_roots() {
                            assert(gen.roots@[ri as int] is Some);
                            assert(root_state_ok(pre, *gen, ri as int));
                            assert(pre.roots@[ri as int] is Some);
                            assert(false);
                        }
                    }
                    let ghost q0 = to_trace@;
                    to_trace.push(TraceAt { at: TraceTarget::RootPtr(ri) });
                    proof {
                        assert(target_ok(*gen, TraceAt { at: TraceTarget::RootPtr(ri) }));
                        assert forall|t: int| 0 <= t < to_trace@.len() implies target_ok(
                            *gen,
                            #[trigger] to_trace@[t],
                        ) by {
                            if t < to_trace@.len() - 1 {
                                assert(target_ok(*gen, q0[t]));
                            }
                        }
                        assert(to_trace@[to_trace@.len() - 1].at == TraceTarget::RootPtr(ri));
                        assert forall|bj: int, ej: int|
                            0 <= bj < bi && 0 <= ej
                                < old_nursery.blocks@[bj].evaced.entries@.len() && (
                            #[trigger] old_nursery.blocks@[bj].evaced.entries@[ej]).1
                                is Rooted implies queued_root(
                            to_trace@,
                            old_nursery.blocks@[bj].evaced.entries@[ej].1->Rooted_0,
                        ) by {
                            let r2 = old_nursery.blocks@[bj].evaced.entries@[ej].1->Rooted_0;
                            assert(queued_root(q0, r2));
                            let t = choose|t: int|
                                0 <= t < q0.len() && (#[trigger] q0[t]).at == TraceTarget::RootPtr(
                                    r2,
                                );
                            assert(to_trace@[t].at == TraceTarget::RootPtr(r2));
                        }
                        assert forall|ej: int|
                            0 <= ej < ei + 1 && (
                            #[trigger] old_nursery.blocks@[bi as int].evaced.entries@[ej]).1
                                is Rooted implies queued_root(
                            to_trace@,
                            old_nursery.blocks@[bi as int].evaced.entries@[ej].1->Rooted_0,
                        ) by {
                            let r2 = old_nursery.blocks@[bi as int].evaced.entries@[ej].1->Rooted_0;
                            if ej < ei {
                                assert(queued_root(q0, r2));
                                let t = choose|t: int|
                                    0 <= t < q0.len() && (#[trigger] q0[t]).at
                                        == TraceTarget::RootPtr(r2);
                                assert(to_trace@[t].at == TraceTarget::RootPtr(r2));
                            } else {
                                assert(to_trace@[to_trace@.len() - 1].at == TraceTarget::RootPtr(
                                    r2,
                                ));
                            }
                        }
                    }
                },
                _ => {},
            }
            ei += 1;
        }
        bi += 1;
    }
    proof {
        assert forall|i: usize| #[trigger] pre.rooted(i) implies queued_root(to_trace@, i)
            || root_updated(pre, *gen, i as int) by {
            let p = pre.roots@[i as int]->Some_0.ptr;
            assert(pre.status_of(p) == Some(ObjectStatus::Rooted(i)));
            assert(pre.nursery.has_base(base_of(p)));
            let bj = pre.nursery.index_of_base(base_of(p));
            assert(old_nursery.blocks@[bj].evaced == pre.nursery.blocks@[bj].evaced);
            let e = old_nursery.blocks@[bj].evaced.entries@;
            assert(pre.nursery.blocks@[bj].evaced@.contains_key(p));
            crate::root::lemma_map_of_contains(e, p);
            let ej = choose|t: int| 0 <= t < e.len() && (#[trigger] e[t]).0 == p;
            crate::root::lemma_map_of_index(e, ej);
            assert(e[ej].1 == ObjectStatus::Rooted(i));
            assert(queued_root(to_trace@, e[ej].1->Rooted_0));
        }
    }

    proof {
        assert(handles_ok(pre, *gen, to_trace@)) by {
            assert forall|x: usize, k2: int|
                gen.nursery.valid_obj(x) && 0 <= k2 < gen.nursery.obj_info(x).size as int && (
                #[trigger] gen.nursery.obj_words(x)[k2]) is Handle implies queued_word(
                to_trace@,
                x,
                k2,
            ) || gen.nursery.valid_obj(gen.nursery.obj_words(x)[k2]->Handle_0.0) || !pre.valid_obj(
                gen.nursery.obj_words(x)[k2]->Handle_0.0,
            ) by {
                assert(gen.nursery.blocks@.len() == 0);
                assert(!gen.nursery.valid_obj(x));
            }
        }
    }

    // drain: copy and rewrite until no work is left
    while to_trace.len() > 0
        invariant
            evac_inv(pre, *gen, old_nursery, fm, m0),
            budget_ok(pre, *gen, old_nursery, m0),
            queue_ok(*gen, to_trace@),
            pre.next_base as int + (BLOCK_SIZE as int) * (m0 + 1) <= usize::MAX as int,
            pre.block_count as int + m0 + 4 <= usize::MAX as int,
            forall|i: usize|
                #[trigger] pre.rooted(i) ==> queued_root(to_trace@, i) || root_updated(
                    pre,
                    *gen,
                    i as int,
                ),
            pre.no_live_roots() ==> to_trace@.len() == 0 && old_nursery.blocks@
                == pre.nursery.blocks@ && gen.destructors_run == pre.destructors_run,
            handles_ok(pre, *gen, to_trace@),
        decreases mass_all(old_nursery.blocks@) * (BLOCK_SIZE as int) + to_trace@.len(),
    {
        proof {
            lemma_mass_all_bounds(old_nursery.blocks@);
        }
        let ghost qpre = to_trace@;
        let ghost masspre = mass_all(old_nursery.blocks@);
        let t = match to_trace.pop() {
            Some(t) => t,
            None => {
                proof {
                    assert(false);
                }
                return ;
            },
        };
        proof {
            assert(target_ok(*gen, qpre[qpre.len() - 1]));
            assert(t == qpre[qpre.len() - 1]);
        }
        match t.at {
            TraceTarget::RootPtr(i) => {
                proof {
                    assert(root_state_ok(pre, *gen, i as int));
                }
                drain_root(gen, &mut old_nursery, &mut to_trace, i, fm, Ghost(pre), Ghost(m0), Ghost(qpre));
            },
            TraceTarget::Word(o, k) => {
                drain_word(gen, &mut old_nursery, &mut to_trace, o, k, fm, Ghost(pre), Ghost(m0), Ghost(qpre));
            },
        }
        proof {
            lemma_mass_all_bounds(old_nursery.blocks@);
            let m1 = masspre;
            let m2 = mass_all(old_nursery.blocks@);
            let bs = BLOCK_SIZE as int;
            if m2 <= m1 - 1 {
                assert(m2 * bs <= (m1 - 1) * bs) by (nonlinear_arith)
                    requires
                        m2 <= m1 - 1,
                        bs >= 0,
                ;
                assert((m1 - 1) * bs == m1 * bs - bs) by (nonlinear_arith);
            } else {
                assert(m2 * bs <= m1 * bs) by (nonlinear_arith)
                    requires
                        m2 <= m1,
                        bs >= 0,
                ;
            }
        }
    }
    let ghost gdrain = *gen;
    proof {
        assert forall|i: usize| #[trigger] pre.rooted(i) implies root_updated(
            pre,
            *gen,
            i as int,
        ) by {
            assert(!queued_root(to_trace@, i));
        }
    }

    proof {
        assert forall|i: int|
            0 <= i < pre.roots@.len() && (#[trigger] gen.roots@[i]) is Some implies pre.roots@[i] is Some && gen.roots@[i]->Some_0.type_id == pre.roots@[i]->Some_0.type_id && gen.roots@[i]->Some_0.ref_count <= pre.roots@[i]->Some_0.ref_count by {
            assert(root_state_ok(pre, *gen, i));
        }
        assert forall|i: usize|
            #[trigger] pre.rooted(i) && gen.roots@[i as int] is Some implies gen.nursery.valid_obj(
            gen.roots@[i as int]->Some_0.ptr,
        ) && gen.nursery.obj_info(gen.roots@[i as int]->Some_0.ptr) == pre.obj_info(
            pre.roots@[i as int]->Some_0.ptr,
        ) && data_preserved(
            pre.obj_words(pre.roots@[i as int]->Some_0.ptr),
            gen.nursery.obj_words(gen.roots@[i as int]->Some_0.ptr),
        ) by {
            assert(root_updated(pre, *gen, i as int));
        }
        assert forall|j: int|
            0 <= j < old_nursery.blocks@.len() implies (#[trigger] old_nursery.blocks@[j]).wf() by {}
    }

    proof {
        assert forall|x: usize, k2: int|
            gen.nursery.valid_obj(x) && 0 <= k2 < gen.nursery.obj_info(x).size as int && (
            #[trigger] gen.nursery.obj_words(x)[k2]) is Handle implies gen.nursery.valid_obj(
            gen.nursery.obj_words(x)[k2]->Handle_0.0,
        ) || !pre.valid_obj(gen.nursery.obj_words(x)[k2]->Handle_0.0) by {
            assert(!queued_word(to_trace@, x, k2));
        }
    }
    proof {
        if pre.no_live_roots() {
            assert(old_nursery.blocks@ =~= pre.nursery.blocks@.subrange(
                0,
                old_nursery.blocks@.len() as int,
            ));
            assert forall|j: int|
                0 <= j < old_nursery.blocks@.len() implies (#[trigger] old_nursery.blocks@[j]).evaced.entries@.len()
                == 0 by {
                if old_nursery.blocks@[j].evaced.entries@.len() > 0 {
                    lemma_entry_status(old_nursery, j, 0);
                    let key = old_nursery.blocks@[j].evaced.entries@[0].0;
                    assert(old_nursery.status_of(key) is Some);
                    let rj = old_nursery.status_of(key)->Some_0->Rooted_0;
                    assert(gen.roots@[rj as int] is Some);
                    assert(root_state_ok(pre, *gen, rj as int));
                    assert(pre.roots@[rj as int] is Some);
                    assert(false);
                }
            }
        }
    }

    // free the from-space, running the destructors of what did not survive
    while old_nursery.blocks.len() > 0
        invariant
            forall|x: usize| #[trigger] gen.status_ok(x),
            gen.nursery.wf(),
            gen.nursery.marked_all(!fm),
            gen.nursery.bases_below(gen.next_base as int),
            gen.nursery.bases_at_least(pre.next_base as int),
            pre.next_base <= gen.next_base,
            gen.next_base % BLOCK_SIZE == 0,
            BLOCK_SIZE <= gen.next_base,
            gen.marker == !fm,
            gen.block_count == old_nursery.blocks@.len() + gen.nursery.blocks@.len(),
            gen.post_block_count == pre.post_block_count,
            gen.destructors_run >= pre.destructors_run,
            gen.roots@.len() == pre.roots@.len(),
            forall|j: int| 0 <= j < old_nursery.blocks@.len() ==> (#[trigger] old_nursery.blocks@[j]).wf(),
            old_nursery.blocks@.len() <= pre.nursery.blocks@.len(),
            pre.no_live_roots() ==> old_nursery.blocks@ == pre.nursery.blocks@.subrange(
                0,
                old_nursery.blocks@.len() as int,
            ) && (forall|j: int|
                0 <= j < old_nursery.blocks@.len() ==> (#[trigger] old_nursery.blocks@[j]).evaced.entries@.len()
                    == 0) && (pre.destructors_run + needs_drop_slots(pre.nursery.blocks@)
                <= usize::MAX ==> gen.destructors_run + needs_drop_slots(old_nursery.blocks@)
                == pre.destructors_run + needs_drop_slots(pre.nursery.blocks@)),
            forall|i: int|
                0 <= i < pre.roots@.len() && (#[trigger] gen.roots@[i]) is Some ==> pre.roots@[i] is Some && gen.roots@[i]->Some_0.type_id == pre.roots@[i]->Some_0.type_id && gen.roots@[i]->Some_0.ref_count <= pre.roots@[i]->Some_0.ref_count,
            forall|i: usize|
                #[trigger] pre.rooted(i) && gen.roots@[i as int] is Some ==> gen.nursery.valid_obj(
                    gen.roots@[i as int]->Some_0.ptr,
                ) && gen.nursery.obj_info(gen.roots@[i as int]->Some_0.ptr) == pre.obj_info(
                    pre.roots@[i as int]->Some_0.ptr,
                ) && data_preserved(
                    pre.obj_words(pre.roots@[i as int]->Some_0.ptr),
                    gen.nursery.obj_words(gen.roots@[i as int]->Some_0.ptr),
                ),
            pre.no_live_roots() ==> gen.nursery.blocks@.len() == 0,
            forall|x: usize, k: int|
                #![trigger gen.nursery.obj_words(x)[k]]
                gen.nursery.valid_obj(x) && 0 <= k < gen.nursery.obj_info(x).size as int
                    && gen.nursery.obj_words(x)[k] is Handle ==> gen.nursery.valid_obj(
                    gen.nursery.obj_words(x)[k]->Handle_0.0,
                ) || !pre.valid_obj(gen.nursery.obj_words(x)[k]->Handle_0.0),
        decreases old_nursery.blocks@.len(),
    {
        let ghost genf = *gen;
        let ghost genf_oldb = old_nursery;
        let h = match old_nursery.blocks.pop() {
            Some(h) => h,
            None => {
                proof {
                    assert(false);
                }
                return ;
            },
        };
        let ghost oldrem = old_nursery.blocks@;
        proof {
            if pre.no_live_roots() {
                // every table is empty, so the freed block owes exactly one
                // destructor per allocated slot when its type needs dropping
                let fl = genf_oldb.blocks@.len() as int;
                assert(fl <= pre.nursery.blocks@.len());
                assert(h == genf_oldb.blocks@[fl - 1]);
                assert(h.evaced.entries@.len() == 0);
                if h.info.needs_drop {
                    lemma_dying_below_empty(h, h.capacity as int);
                    assert(block_drop_count(h) == h.capacity as int - h.count as int);
                }
                assert(oldrem == genf_oldb.blocks@.subrange(0, fl - 1));
                assert(needs_drop_slots(genf_oldb.blocks@) == needs_drop_slots(oldrem) + if h.info.needs_drop {
                    h.capacity as int - h.count as int
                } else {
                    0int
                }) by {
                    assert(genf_oldb.blocks@.drop_last() =~= oldrem);
                }
                assert(genf_oldb.blocks@ == pre.nursery.blocks@.subrange(0, fl));
                assert forall|ii: int|
                    0 <= ii < fl - 1 implies oldrem[ii] == pre.nursery.blocks@.subrange(
                    0,
                    fl - 1,
                )[ii] by {
                    assert(genf_oldb.blocks@.subrange(0, fl - 1)[ii] == genf_oldb.blocks@[ii]);
                    assert(oldrem[ii] == genf_oldb.blocks@[ii]);
                    assert(pre.nursery.blocks@.subrange(0, fl)[ii] == pre.nursery.blocks@[ii]);
                    assert(genf_oldb.blocks@[ii] == pre.nursery.blocks@[ii]);
                    assert(pre.nursery.blocks@.subrange(0, fl - 1)[ii]
                        == pre.nursery.blocks@[ii]);
                }
                assert(oldrem =~= pre.nursery.blocks@.subrange(0, fl - 1));
                if pre.destructors_run + needs_drop_slots(pre.nursery.blocks@) <= usize::MAX {
                    assert(genf.destructors_run + needs_drop_slots(genf_oldb.blocks@)
                        == pre.destructors_run + needs_drop_slots(pre.nursery.blocks@));
                    lemma_needs_drop_slots_nonneg(oldrem);
                    assert(genf.destructors_run + block_drop_count(h) <= usize::MAX || !h.info.needs_drop);
                }
            }
        }
        free_block(gen, h);
        proof {
            if pre.no_live_roots() && pre.destructors_run + needs_drop_slots(
                pre.nursery.blocks@,
            ) <= usize::MAX {
                if h.info.needs_drop {
                    assert(gen.destructors_run == genf.destructors_run + block_drop_count(h));
                } else {
                    assert(gen.destructors_run == genf.destructors_run);
                }
                assert(old_nursery.blocks@ == oldrem);
                assert(gen.destructors_run + needs_drop_slots(old_nursery.blocks@)
                    == pre.destructors_run + needs_drop_slots(pre.nursery.blocks@));
            }
        }
        proof {
            assert forall|i: usize| #[trigger] pre.rooted(i) && gen.roots@[i as int] is Some implies gen.nursery.valid_obj(
                gen.roots@[i as int]->Some_0.ptr,
            ) && gen.nursery.obj_info(gen.roots@[i as int]->Some_0.ptr) == pre.obj_info(
                pre.roots@[i as int]->Some_0.ptr,
            ) && data_preserved(
                pre.obj_words(pre.roots@[i as int]->Some_0.ptr),
                gen.nursery.obj_words(gen.roots@[i as int]->Some_0.ptr),
            ) by {
                assert(genf.roots@[i as int] is Some);
                assert(gen.roots@[i as int]->Some_0.ptr == genf.roots@[i as int]->Some_0.ptr);
                assert(genf.nursery.valid_obj(genf.roots@[i as int]->Some_0.ptr));
            }
            assert forall|x: usize, k2: int|
                gen.nursery.valid_obj(x) && 0 <= k2 < gen.nursery.obj_info(x).size as int && (
                #[trigger] gen.nursery.obj_words(x)[k2]) is Handle implies gen.nursery.valid_obj(
                gen.nursery.obj_words(x)[k2]->Handle_0.0,
            ) || !pre.valid_obj(gen.nursery.obj_words(x)[k2]->Handle_0.0) by {
                assert(genf.nursery.valid_obj(x));
                assert(genf.nursery.obj_words(x) == gen.nursery.obj_words(x));
                assert(genf.nursery.obj_info(x) == gen.nursery.obj_info(x));
                if genf.nursery.valid_obj(genf.nursery.obj_words(x)[k2]->Handle_0.0) {
                    assert(gen.nursery.valid_obj(gen.nursery.obj_words(x)[k2]->Handle_0.0));
                }
            }
        }
    }
    let ghost genz = *gen;
    gen.post_block_count = gen.block_count;
    proof {
        assert forall|x: usize| #[trigger] gen.status_ok(x) by {
            assert(genz.status_ok(x));
        }
        assert(gen.wf());
        assert(collect_post(pre, *gen));
    }
}

} // verus!
