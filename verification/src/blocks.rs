//! Fixed-size, size-aligned blocks: the block header, its allocation
//! arithmetic, and the per-generation collection of blocks.

use vstd::arithmetic::div_mod::{
    lemma_add_mod_noop, lemma_fundamental_div_mod, lemma_mod_self_0, lemma_small_mod,
};
use vstd::arithmetic::mul::lemma_mul_inequality;
use vstd::prelude::*;

use crate::gc::Word;
use crate::root::StatusTable;
use crate::{GcInfo, BLOCK_SIZE, HEADER_RESERVE};

verus! {

/// Value every intact block header carries, to catch corruption.
pub const HEADER_CHECKSUM: u64 = 0x5ca1_ab1e_0ddb_a11;

/// The base address of the block that contains an address: the address with
/// its low bits masked off, since blocks are `BLOCK_SIZE`-aligned.
pub open spec fn base_of(a: usize) -> usize {
    (a - (a as int % BLOCK_SIZE as int)) as usize
}

/// The header of one block. It owns the block's words, the remaining free
/// slot count, the two bounds of the allocation region — allocation
/// proceeds by decrementing `current` one slot at a time — and the status
/// table for rooted, moved and dropped slots.
pub struct Header {
    /// Descriptor of every object in this block.
    pub info: GcInfo,
    /// The collection cohort this block belongs to.
    pub marked: bool,
    /// Remaining free slots.
    pub count: u16,
    /// Slots carved out of the block when it was made.
    pub capacity: u16,
    /// Base address: a nonzero multiple of `BLOCK_SIZE`.
    pub base: usize,
    /// First slot address; slots sit at `bottom + size * j`.
    pub bottom: usize,
    /// Lowest allocated slot address; equals `bottom + size * count`.
    pub current: usize,
    /// The block's words, indexed by `address - base`.
    pub mem: Vec<Word>,
    /// Status of rooted, moved and dropped slots; plain objects have no
    /// entry.
    pub evaced: StatusTable,
    /// Integrity checksum.
    pub checksum: u64,
}

impl Header {
    /// Structural well-formedness: the allocation bounds are consistent,
    /// the memory covers the block, and every status entry is keyed by an
    /// allocated slot.
    pub open spec fn wf(self) -> bool {
        &&& self.info.wf()
        &&& self.base % BLOCK_SIZE == 0
        &&& BLOCK_SIZE <= self.base
        &&& self.base + BLOCK_SIZE <= usize::MAX
        &&& self.mem@.len() == BLOCK_SIZE
        &&& self.base < self.bottom
        &&& self.base + HEADER_RESERVE <= self.bottom
        &&& self.bottom as int % self.info.align as int == 0
        &&& 1 <= self.capacity
        &&& self.count <= self.capacity
        &&& self.current == self.bottom + self.info.size as int * self.count as int
        &&& self.bottom + self.info.size as int * (self.capacity as int + 1) <= self.base
            + BLOCK_SIZE
        &&& self.checksum == HEADER_CHECKSUM
        &&& self.evaced.wf()
        &&& forall|k: usize| self.evaced@.contains_key(k) ==> self.is_slot(k)
    }

    /// The address of slot `j`.
    pub open spec fn slot_addr(self, j: int) -> int {
        self.bottom + self.info.size as int * j
    }

    /// `a` is the address of an allocated slot of this block.
    pub open spec fn is_slot(self, a: usize) -> bool {
        exists|j: int|
            self.count as int <= j < self.capacity as int && a == #[trigger] self.slot_addr(j)
    }

    /// The words of the object allocated at `a`.
    pub open spec fn obj_words(self, a: usize) -> Seq<Word> {
        self.mem@.subrange(a - self.base, a - self.base + self.info.size as int)
    }

    /// Bounds every allocated slot satisfies.
    pub proof fn lemma_slot_bounds(self, a: usize)
        requires
            self.wf(),
            self.is_slot(a),
        ensures
            self.base < self.bottom <= self.current <= a,
            a + self.info.size <= self.base + BLOCK_SIZE,
            base_of(a) == self.base,
    {
        let size = self.info.size as int;
        let j = choose|j: int|
            self.count as int <= j < self.capacity as int && a == #[trigger] self.slot_addr(j);
        lemma_mul_inequality(self.count as int, j, size);
        lemma_mul_inequality(j + 1, self.capacity as int, size);
        assert(a + size <= self.bottom + size * (self.capacity as int)) by {
            assert(size * j + size == size * (j + 1)) by (nonlinear_arith);
        }
        assert(size * (self.capacity as int) <= size * (self.capacity as int + 1))
            by (nonlinear_arith)
            requires
                size >= 1,
        ;
        assert(self.current <= a) by {
            assert(size * (self.count as int) <= size * j) by {
                lemma_mul_inequality(self.count as int, j, size);
            }
        }
        Self::lemma_base_recovery(self.base, a);
    }

    /// Every allocated slot is aligned to the block's descriptor: the
    /// first slot is, and slot size is a multiple of the alignment.
    pub proof fn lemma_slot_aligned(self, a: usize)
        requires
            self.wf(),
            self.is_slot(a),
        ensures
            a as int % self.info.align as int == 0,
    {
        let al = self.info.align as int;
        let sz = self.info.size as int;
        let j = choose|j: int|
            self.count as int <= j < self.capacity as int && a == #[trigger] self.slot_addr(j);
        let m = sz / al;
        let qb = self.bottom as int / al;
        vstd::arithmetic::div_mod::lemma_fundamental_div_mod(sz, al);
        vstd::arithmetic::div_mod::lemma_fundamental_div_mod(self.bottom as int, al);
        assert(a == al * (qb + m * j)) by (nonlinear_arith)
            requires
                a == self.bottom + sz * j,
                sz == al * m + sz % al,
                sz % al == 0,
                self.bottom as int == al * qb + self.bottom as int % al,
                self.bottom as int % al == 0,
        ;
        vstd::arithmetic::div_mod::lemma_mod_multiples_basic(qb + m * j, al);
        assert(al * (qb + m * j) == (qb + m * j) * al) by (nonlinear_arith);
    }

    /// An address inside an aligned block recovers the block's base by
    /// masking.
    pub proof fn lemma_base_recovery(base: usize, a: usize)
        requires
            base % BLOCK_SIZE == 0,
            base <= a < base + BLOCK_SIZE,
        ensures
            base_of(a) == base,
    {
        let bs = BLOCK_SIZE as int;
        let off = a as int - base as int;
        lemma_add_mod_noop(base as int, off, bs);
        lemma_small_mod(off as nat, bs as nat);
        lemma_mod_self_0(bs);
        assert((base as int + off) % bs == off);
    }

    /// Slot addresses grow with the slot index.
    pub proof fn lemma_slot_addr_mono(self, j1: int, j2: int)
        requires
            1 <= self.info.size,
            j1 < j2,
        ensures
            self.slot_addr(j1) + self.info.size <= self.slot_addr(j2),
    {
        let sz = self.info.size as int;
        assert(sz * j1 + sz <= sz * j2) by (nonlinear_arith)
            requires
                1 <= sz,
                j1 < j2,
        ;
    }

    /// Two headers that share the allocation bounds share their slots.
    pub proof fn lemma_same_slots(h1: Header, h2: Header)
        requires
            h2.count == h1.count,
            h2.capacity == h1.capacity,
            h2.bottom == h1.bottom,
            h2.info == h1.info,
        ensures
            forall|a: usize| h1.is_slot(a) == h2.is_slot(a),
    {
        assert forall|a: usize| h1.is_slot(a) == h2.is_slot(a) by {
            if h1.is_slot(a) {
                let j = choose|j: int|
                    h1.count as int <= j < h1.capacity as int && a == #[trigger] h1.slot_addr(j);
                assert(h2.slot_addr(j) == h1.slot_addr(j));
                assert(h2.is_slot(a));
            }
            if h2.is_slot(a) {
                let j = choose|j: int|
                    h2.count as int <= j < h2.capacity as int && a == #[trigger] h2.slot_addr(j);
                assert(h1.slot_addr(j) == h2.slot_addr(j));
                assert(h1.is_slot(a));
            }
        }
    }

    /// Distinct allocated slots do not overlap.
    pub proof fn lemma_slots_disjoint(self, a: usize, x: usize)
        requires
            self.wf(),
            self.is_slot(a),
            self.is_slot(x),
            a != x,
        ensures
            x + self.info.size <= a || a + self.info.size <= x,
    {
        let ja = choose|j: int|
            self.count as int <= j < self.capacity as int && a == #[trigger] self.slot_addr(j);
        let jx = choose|j: int|
            self.count as int <= j < self.capacity as int && x == #[trigger] self.slot_addr(j);
        if ja < jx {
            self.lemma_slot_addr_mono(ja, jx);
        } else if jx < ja {
            self.lemma_slot_addr_mono(jx, ja);
        }
    }

    /// `post` is `pre` after zero or more slot allocations: everything but
    /// the allocation bound is unchanged, and allocated slots only grow.
    pub open spec fn alloc_framed(pre: Header, post: Header) -> bool {
        &&& post.info == pre.info
        &&& post.marked == pre.marked
        &&& post.base == pre.base
        &&& post.bottom == pre.bottom
        &&& post.capacity == pre.capacity
        &&& post.mem == pre.mem
        &&& post.evaced == pre.evaced
        &&& post.checksum == pre.checksum
        &&& post.count <= pre.count
        &&& forall|x: usize| pre.is_slot(x) ==> post.is_slot(x)
    }

    /// Makes the header of a fresh block over the aligned region starting
    /// at `base`: computes the first usable slot (aligned down, plus a
    /// reserved fringe of ten slots), the slot capacity, and the initial
    /// allocation bound.
    pub fn new_raw(info: GcInfo, base: usize, marked: bool) -> (h: Header)
        requires
            info.wf(),
            base % BLOCK_SIZE == 0,
            BLOCK_SIZE <= base,
            base + BLOCK_SIZE <= usize::MAX,
        ensures
            h.wf(),
            h.info == info,
            h.base == base,
            h.marked == marked,
            h.count == h.capacity,
            2 <= h.count,
            h.evaced@ == Map::<usize, crate::root::ObjectStatus>::empty(),
            h.evaced.entries@.len() == 0,
            h.bottom as int % info.align as int == 0,
            base + HEADER_RESERVE <= h.bottom,
    {
        let size = info.size as usize;
        let align = info.align as usize;

        let reserve_end = base + HEADER_RESERVE;
        proof {
            let re = reserve_end as int;
            let al = align as int;
            let q = re / al;
            let m = re % al;
            lemma_fundamental_div_mod(re, al);
            assert(q * al <= re && re < q * al + al) by (nonlinear_arith)
                requires
                    1 <= al,
                    re == al * q + m,
                    0 <= m,
                    m < al,
            ;
        }
        let aligned = (reserve_end / align) * align;
        let bottom = aligned + size * 10;

        let avail = BLOCK_SIZE - (bottom - base);
        proof {
            assert(avail >= 3 * size);
            let av = avail as int;
            let sz = size as int;
            let q = av / sz;
            let m = av % sz;
            lemma_fundamental_div_mod(av, sz);
            assert(3 <= q && q * sz <= av && q <= av) by (nonlinear_arith)
                requires
                    1 <= sz,
                    3 * sz <= av,
                    av == sz * q + m,
                    0 <= m,
                    m < sz,
            ;
        }
        let cap = avail / size - 1;
        proof {
            assert((cap + 1) * (size as int) <= avail);
            assert(cap < BLOCK_SIZE);
            let sz = size as int;
            assert(sz * cap + sz <= avail) by (nonlinear_arith)
                requires
                    (cap + 1) * sz <= avail,
            ;
        }
        let current = bottom + size * cap;

        let mut mem: Vec<Word> = Vec::new();
        let mut i: usize = 0;
        while i < BLOCK_SIZE
            invariant
                mem@.len() == i,
                i <= BLOCK_SIZE,
            decreases BLOCK_SIZE - i,
        {
            mem.push(Word::Int(0));
            i += 1;
        }

        proof {
            let sz = size as int;
            assert(sz * (cap as int + 1) == sz * (cap as int) + sz) by (nonlinear_arith);
            let al = align as int;
            let re = reserve_end as int;
            let q = re / al;
            let m = sz / al;
            vstd::arithmetic::div_mod::lemma_fundamental_div_mod(sz, al);
            assert(bottom as int == al * (q + 10 * m)) by (nonlinear_arith)
                requires
                    bottom == q * al + sz * 10,
                    sz == al * m + sz % al,
                    sz % al == 0,
            ;
            vstd::arithmetic::div_mod::lemma_mod_multiples_basic(q + 10 * m, al);
            assert(al * (q + 10 * m) == (q + 10 * m) * al) by (nonlinear_arith);
            assert(bottom as int % al == 0);
            assert(al <= sz) by (nonlinear_arith)
                requires
                    sz == al * m,
                    1 <= sz,
                    1 <= al,
            ;
            assert(reserve_end <= bottom);
        }
        Header {
            info,
            marked,
            count: cap as u16,
            capacity: cap as u16,
            base,
            bottom,
            current,
            mem,
            evaced: StatusTable::new(),
            checksum: HEADER_CHECKSUM,
        }
    }

    /// Takes the next slot, moving `current` down one slot size, or reports
    /// that the block is out of space.
    pub fn alloc_slot(&mut self) -> (r: Option<usize>)
        requires
            old(self).wf(),
        ensures
            final(self).wf(),
            final(self).info == old(self).info,
            final(self).marked == old(self).marked,
            final(self).base == old(self).base,
            final(self).bottom == old(self).bottom,
            final(self).capacity == old(self).capacity,
            final(self).mem == old(self).mem,
            final(self).evaced == old(self).evaced,
            match r {
                Some(a) => {
                    &&& 2 <= old(self).count
                    &&& final(self).count == old(self).count - 1
                    &&& a == final(self).current
                    &&& final(self).is_slot(a)
                    &&& !old(self).is_slot(a)
                    &&& forall|k: usize| old(self).is_slot(k) ==> final(self).is_slot(k)
                },
                None => *final(self) == *old(self) && old(self).count < 2,
            },
    {
        let size = self.info.size as usize;
        proof {
            assert(self.info.size as int * self.count as int >= 0) by (nonlinear_arith)
                requires
                    self.info.size >= 0,
                    self.count >= 0,
            ;
        }
        let next = self.current - size;
        if next > self.bottom {
            proof {
                assert(2 <= self.count) by (nonlinear_arith)
                    requires
                        1 <= self.info.size,
                        self.info.size as int * self.count as int > self.info.size as int,
                ;
            }
            self.current = next;
            self.count = self.count - 1;
            proof {
                let size = self.info.size as int;
                assert(next == self.bottom + size * (self.count as int)) by (nonlinear_arith)
                    requires
                        next == self.bottom + size * (self.count as int + 1) - size,
                ;
                assert(next == self.slot_addr(self.count as int));
                assert(self.is_slot(next as usize));
                assert forall|k: usize| old(self).is_slot(k) implies self.is_slot(k) by {
                    let j = choose|j: int|
                        old(self).count as int <= j < old(self).capacity as int && k == #[trigger] old(self).slot_addr(j);
                    assert(self.slot_addr(j) == old(self).slot_addr(j));
                    assert(self.count as int <= j < self.capacity as int);
                }
                assert forall|j: int|
                    old(self).count as int <= j < old(self).capacity as int implies #[trigger] old(self).slot_addr(j) != next by {
                    assert(old(self).slot_addr(self.count as int) == next);
                    if (self.count as int) < j {
                        old(self).lemma_slot_addr_mono(self.count as int, j);
                    }
                }
            }
            Some(next)
        } else {
            proof {
                let ghost c = self.count as int;
                let ghost sz = self.info.size as int;
                assert(c < 2) by (nonlinear_arith)
                    requires
                        1 <= sz,
                        sz * c <= sz,
                        0 <= c,
                ;
            }
            None
        }
    }

    /// Recovers the base of the block containing `ptr` by clearing the low
    /// bits.
    pub fn from_ptr(ptr: usize) -> (base: usize)
        ensures
            base == base_of(ptr),
    {
        let offset = ptr % BLOCK_SIZE;
        ptr - offset
    }

    /// Whether the header's integrity checksum is intact; true on every
    /// well-formed header.
    pub fn checksum(header: &Header) -> (ok: bool)
        ensures
            ok == (header.checksum == HEADER_CHECKSUM),
            header.wf() ==> ok,
    {
        header.checksum == HEADER_CHECKSUM
    }

    /// Whether `a` is the address of an allocated slot, decided
    /// arithmetically.
    pub fn slot_check(&self, a: usize) -> (b: bool)
        requires
            self.wf(),
        ensures
            b == self.is_slot(a),
    {
        let size = self.info.size as usize;
        if a < self.current {
            proof {
                assert forall|j: int|
                    self.count as int <= j < self.capacity as int implies #[trigger] self.slot_addr(
                        j,
                    ) != a by {
                    assert(self.slot_addr(self.count as int) == self.current);
                    if (self.count as int) < j {
                        self.lemma_slot_addr_mono(self.count as int, j);
                    }
                }
            }
            return false;
        }
        proof {
            assert(size * (self.capacity as int) <= size * (self.capacity as int + 1))
                by (nonlinear_arith)
                requires
                    1 <= size,
            ;
        }
        let top = self.bottom + size * (self.capacity as usize);
        if a >= top {
            proof {
                assert forall|j: int|
                    self.count as int <= j < self.capacity as int implies #[trigger] self.slot_addr(
                        j,
                    ) != a by {
                    assert(self.slot_addr(self.capacity as int) == top);
                    self.lemma_slot_addr_mono(j, self.capacity as int);
                }
            }
            return false;
        }
        let off = a - self.bottom;
        if off % size == 0 {
            proof {
                let sz = size as int;
                let offi = off as int;
                let j = offi / sz;
                let m = offi % sz;
                lemma_fundamental_div_mod(offi, sz);
                assert(a == self.slot_addr(j));
                assert(sz * (self.count as int) <= offi);
                assert(offi < sz * (self.capacity as int));
                assert(self.count as int <= j && j < self.capacity as int) by (nonlinear_arith)
                    requires
                        1 <= sz,
                        offi == sz * j,
                        sz * (self.count as int) <= offi,
                        offi < sz * (self.capacity as int),
                ;
                assert(self.is_slot(a));
            }
            true
        } else {
            proof {
                let sz = size as int;
                assert forall|j: int|
                    self.count as int <= j < self.capacity as int implies #[trigger] self.slot_addr(
                        j,
                    ) != a by {
                    if self.slot_addr(j) == a {
                        vstd::arithmetic::div_mod::lemma_mod_multiples_basic(j, sz);
                        assert(sz * j == j * sz) by (nonlinear_arith);
                        assert((a - self.bottom) as int % sz == 0);
                    }
                }
            }
            false
        }
    }

    /// Moves a value's words into the slot at `a`.
    pub fn write_obj(&mut self, a: usize, value: Vec<Word>)
        requires
            old(self).wf(),
            old(self).is_slot(a),
            value@.len() == old(self).info.size as int,
        ensures
            final(self).wf(),
            *final(self) == (Header { mem: final(self).mem, ..*old(self) }),
            final(self).mem@.len() == old(self).mem@.len(),
            final(self).obj_words(a) == value@,
            forall|x: int|
                0 <= x < final(self).mem@.len() && !(a - old(self).base <= x < a - old(self).base
                    + old(self).info.size as int) ==> final(self).mem@[x] == old(self).mem@[x],
    {
        proof {
            self.lemma_slot_bounds(a);
        }
        let off = a - self.base;
        let size = self.info.size as usize;
        let ghost v0 = value@;
        let mut value = value;
        let mut k: usize = 0;
        while k < size
            invariant
                k <= size,
                size == self.info.size,
                value@.len() == size - k,
                old(self).wf(),
                old(self).is_slot(a),
                off == a - self.base,
                off + size <= self.mem@.len(),
                *self == (Header { mem: self.mem, ..*old(self) }),
                self.mem@.len() == old(self).mem@.len(),
                v0.len() == size,
                forall|x: int| off <= x < off + k ==> self.mem@[x] == v0[x - off],
                forall|x: int|
                    0 <= x < self.mem@.len() && !(off <= x < off + k) ==> self.mem@[x] == old(self).mem@[x],
                value@ == v0.skip(k as int),
            decreases size - k,
        {
            let w = value.remove(0);
            proof {
                assert(v0.skip(k as int)[0] == v0[k as int]);
                assert(v0.skip(k as int).remove(0) =~= v0.skip(k as int + 1));
            }
            self.mem[off + k] = w;
            k += 1;
        }
        proof {
            assert(self.obj_words(a) =~= v0);
            Self::lemma_same_slots(*old(self), *self);
        }
    }

    /// Writes a single word of the object at `a`.
    pub fn write_word(&mut self, a: usize, k: usize, w: Word)
        requires
            old(self).wf(),
            old(self).is_slot(a),
            (k as int) < old(self).info.size as int,
        ensures
            final(self).wf(),
            *final(self) == (Header { mem: final(self).mem, ..*old(self) }),
            final(self).mem@.len() == old(self).mem@.len(),
            final(self).obj_words(a) == old(self).obj_words(a).update(k as int, w),
            forall|x: int|
                0 <= x < final(self).mem@.len() && x != a - old(self).base + k ==> final(self).mem@[x] == old(self).mem@[x],
    {
        proof {
            self.lemma_slot_bounds(a);
        }
        let off = a - self.base;
        self.mem[off + k] = w;
        proof {
            assert(self.obj_words(a) =~= old(self).obj_words(a).update(k as int, w));
            Self::lemma_same_slots(*old(self), *self);
        }
    }
}

/// The blocks of one space, with a reference count kept for the
/// generation handles that share it.
pub struct Blocks {
    /// Every live block of this space.
    pub blocks: Vec<Header>,
    /// Count of extra owners of this space. The heap here has a single
    /// explicit owner, so the count stays zero; it is kept so a sharing
    /// front end has a place to put its accounting.
    pub ref_count: usize,
}

impl Blocks {
    /// All headers well-formed, with pairwise distinct bases.
    pub open spec fn wf(self) -> bool {
        &&& forall|i: int| 0 <= i < self.blocks@.len() ==> (#[trigger] self.blocks@[i]).wf()
        &&& forall|i: int, j: int|
            0 <= i < j < self.blocks@.len() ==> (#[trigger] self.blocks@[i]).base != (
            #[trigger] self.blocks@[j]).base
    }

    /// Every block carries marker `m`.
    pub open spec fn marked_all(self, m: bool) -> bool {
        forall|i: int| 0 <= i < self.blocks@.len() ==> (#[trigger] self.blocks@[i]).marked == m
    }

    /// Every block lies below address `nb`.
    pub open spec fn bases_below(self, nb: int) -> bool {
        forall|i: int|
            0 <= i < self.blocks@.len() ==> (#[trigger] self.blocks@[i]).base + BLOCK_SIZE <= nb
    }

    /// Every block lies at or above address `lo`.
    pub open spec fn bases_at_least(self, lo: int) -> bool {
        forall|i: int| 0 <= i < self.blocks@.len() ==> lo <= (#[trigger] self.blocks@[i]).base
    }

    /// Some block starts at `b`.
    pub open spec fn has_base(self, b: usize) -> bool {
        exists|i: int| 0 <= i < self.blocks@.len() && (#[trigger] self.blocks@[i]).base == b
    }

    /// The index of the block starting at `b`.
    pub open spec fn index_of_base(self, b: usize) -> int {
        choose|i: int| 0 <= i < self.blocks@.len() && (#[trigger] self.blocks@[i]).base == b
    }

    /// `a` is an allocated slot of some block of this space.
    pub open spec fn valid_obj(self, a: usize) -> bool {
        self.has_base(base_of(a)) && self.blocks@[self.index_of_base(base_of(a))].is_slot(a)
    }

    /// The descriptor of the block that holds `a`.
    pub open spec fn obj_info(self, a: usize) -> GcInfo {
        self.blocks@[self.index_of_base(base_of(a))].info
    }

    /// The words of the object at `a`.
    pub open spec fn obj_words(self, a: usize) -> Seq<Word> {
        self.blocks@[self.index_of_base(base_of(a))].obj_words(a)
    }

    /// The status entry at `a` in the block that holds it, if any.
    pub open spec fn status_of(self, a: usize) -> Option<crate::root::ObjectStatus> {
        if self.has_base(base_of(a)) {
            let h = self.blocks@[self.index_of_base(base_of(a))];
            if h.evaced@.contains_key(a) {
                Some(h.evaced@[a])
            } else {
                None
            }
        } else {
            None
        }
    }

    /// An empty space.
    pub fn new() -> (b: Blocks)
        ensures
            b.wf(),
            b.blocks@.len() == 0,
            b.ref_count == 0,
    {
        Blocks { blocks: Vec::new(), ref_count: 0 }
    }

    /// Finds the block starting at `b`.
    pub fn find_base(&self, b: usize) -> (r: Option<usize>)
        requires
            self.wf(),
        ensures
            match r {
                Some(i) => i < self.blocks@.len() && self.blocks@[i as int].base == b
                    && self.has_base(b) && self.index_of_base(b) == i,
                None => !self.has_base(b),
            },
    {
        let n = self.blocks.len();
        let mut i: usize = 0;
        while i < n
            invariant
                i <= n,
                n == self.blocks@.len(),
                self.wf(),
                forall|j: int| 0 <= j < i ==> (#[trigger] self.blocks@[j]).base != b,
            decreases n - i,
        {
            if self.blocks[i].base == b {
                proof {
                    let w = self.index_of_base(b);
                    assert(0 <= w < self.blocks@.len() && self.blocks@[w].base == b);
                    assert(w == i);
                }
                return Some(i);
            }
            i += 1;
        }
        None
    }

    /// Serves or creates a block for `info` and takes a slot from it: the
    /// last block holding objects of `info` is tried first, and a fresh
    /// block is carved at `*next_base` on overflow. Every object that was
    /// valid stays exactly as it was; the result is a fresh slot in a block
    /// whose descriptor is `info`.
    pub fn allocate(&mut self, info: GcInfo, marker: bool, next_base: &mut usize) -> (a: usize)
        requires
            old(self).wf(),
            info.wf(),
            old(self).marked_all(marker),
            old(self).bases_below(*old(next_base) as int),
            *old(next_base) % BLOCK_SIZE == 0,
            BLOCK_SIZE <= *old(next_base),
            *old(next_base) + BLOCK_SIZE <= usize::MAX,
        ensures
            final(self).wf(),
            final(self).ref_count == old(self).ref_count,
            final(self).marked_all(marker),
            old(self).blocks@.len() <= final(self).blocks@.len() <= old(self).blocks@.len() + 1,
            *old(next_base) <= *final(next_base) <= *old(next_base) + BLOCK_SIZE,
            *final(next_base) % BLOCK_SIZE == 0,
            final(self).blocks@.len() > old(self).blocks@.len() ==> *final(next_base) == *old(next_base) + BLOCK_SIZE,
            final(self).blocks@.len() == old(self).blocks@.len() ==> *final(next_base) == *old(next_base),
            final(self).bases_below(*final(next_base) as int),
            forall|lo: int|
                old(self).bases_at_least(lo) && lo <= *old(next_base) ==> final(self).bases_at_least(lo),
            forall|j: int|
                0 <= j < old(self).blocks@.len() ==> Header::alloc_framed(
                    old(self).blocks@[j],
                    #[trigger] final(self).blocks@[j],
                ),
            forall|j: int|
                old(self).blocks@.len() <= j < final(self).blocks@.len() ==> (
                #[trigger] final(self).blocks@[j]).base == *old(next_base) && final(self).blocks@[j].info == info && final(self).blocks@[j].marked == marker && final(self).blocks@[j].evaced@ == Map::<usize, crate::root::ObjectStatus>::empty(),
            forall|b: usize|
                old(self).has_base(b) ==> #[trigger] final(self).has_base(b) && final(self).index_of_base(b) == old(self).index_of_base(b),
            final(self).valid_obj(a),
            !old(self).valid_obj(a),
            final(self).obj_info(a) == info,
            final(self).obj_words(a).len() == info.size,
            final(self).status_of(a) is None,
            a as int % info.align as int == 0,
            BLOCK_SIZE < a,
            forall|x: usize| #[trigger] final(self).valid_obj(x) ==> old(self).valid_obj(x) || x == a,
            forall|x: usize| #[trigger] final(self).status_of(x) == old(self).status_of(x),
            forall|x: usize|
                #[trigger] old(self).valid_obj(x) ==> final(self).valid_obj(x) && final(self).obj_info(x) == old(self).obj_info(x) && final(self).obj_words(x) == old(self).obj_words(x) && x != a,
    {
        let ghost pre = *self;
        let n = self.blocks.len();
        let mut sel: usize = n;
        let mut i: usize = n;
        while i > 0 && sel == n
            invariant
                0 <= i <= n,
                n == self.blocks@.len(),
                *self == pre,
                sel == n || (sel < n && self.blocks@[sel as int].info == info),
            decreases i,
        {
            i = i - 1;
            if self.blocks[i].info == info {
                sel = i;
            }
        }
        if sel < n {
            let h = &mut self.blocks[sel];
            proof {
                assert(pre.blocks@[sel as int].wf());
            }
            let got = h.alloc_slot();
            match got {
                Some(a) => {
                    proof {
                        let si = sel as int;
                        let hpre = pre.blocks@[si];
                        let hpost = self.blocks@[si];
                        assert(self.blocks@ =~= pre.blocks@.update(si, hpost));
                        assert(self.wf());
                        Blocks::lemma_lookup_preserved(pre, *self, si);
                        hpost.lemma_slot_bounds(a);
                        hpost.lemma_slot_aligned(a);
                        assert(self.valid_obj(a) && self.obj_info(a) == info) by {
                            assert(self.has_base(hpost.base));
                            assert(self.index_of_base(hpost.base) == si);
                        }
                        assert(!pre.valid_obj(a)) by {
                            if pre.valid_obj(a) {
                                assert(pre.index_of_base(base_of(a)) == si);
                                assert(hpre.is_slot(a));
                            }
                        }
                        assert(self.status_of(a) is None) by {
                            if hpost.evaced@.contains_key(a) {
                                assert(hpre.is_slot(a));
                            }
                        }
                        assert forall|x: usize| #[trigger] self.status_of(x) == pre.status_of(
                            x,
                        ) by {
                            if pre.has_base(base_of(x)) {
                                let bi = pre.index_of_base(base_of(x));
                                assert(self.blocks@[bi].evaced == pre.blocks@[bi].evaced);
                            }
                        }
                        assert forall|x: usize| #[trigger] pre.valid_obj(x) implies self.valid_obj(
                            x,
                        ) && self.obj_info(x) == pre.obj_info(x) && self.obj_words(x)
                            == pre.obj_words(x) && x != a by {
                            let bi = pre.index_of_base(base_of(x));
                            if bi == si {
                                assert(hpre.is_slot(x));
                                assert(hpost.is_slot(x));
                                assert(x != a);
                            }
                        }
                        assert forall|x: usize| #[trigger] self.valid_obj(x) implies pre.valid_obj(
                            x,
                        ) || x == a by {
                            let bi = self.index_of_base(base_of(x));
                            if bi == si && x != a {
                                let j = choose|j: int|
                                    hpost.count as int <= j < hpost.capacity as int && x == (
                                    #[trigger] hpost.slot_addr(j));
                                if j > hpost.count as int {
                                    assert(hpre.slot_addr(j) == hpost.slot_addr(j));
                                    assert(hpre.is_slot(x));
                                } else {
                                    assert(x == a);
                                }
                            }
                        }
                        assert(self.obj_words(a).len() == info.size);
                    }
                    return a;
                },
                None => {
                    proof {
                        assert(self.blocks@ =~= pre.blocks@);
                        assert(self.ref_count == pre.ref_count);
                    }
                },
            }
        }
        let b = *next_base;
        *next_base = b + BLOCK_SIZE;
        let mut h = Header::new_raw(info, b, marker);
        let got = h.alloc_slot();
        match got {
            Some(a) => {
                proof {
                    assert(h.wf());
                }
                self.blocks.push(h);
                proof {
                    let n2 = pre.blocks@.len() as int;
                    let hp = self.blocks@[n2];
                    assert(!pre.has_base(b)) by {
                        if pre.has_base(b) {
                            let j = pre.index_of_base(b);
                            assert(pre.blocks@[j].base + BLOCK_SIZE <= b);
                        }
                    }
                    assert(self.wf()) by {
                        assert forall|p: int, q: int|
                            0 <= p < q < self.blocks@.len() implies (#[trigger] self.blocks@[p]).base
                            != (#[trigger] self.blocks@[q]).base by {
                            if q == n2 && pre.has_base(self.blocks@[p].base) {
                            }
                            if q == n2 {
                                assert(pre.blocks@[p].base + BLOCK_SIZE <= b);
                            }
                        }
                    }
                    Blocks::lemma_lookup_append(pre, *self);
                    hp.lemma_slot_bounds(a);
                    hp.lemma_slot_aligned(a);
                    assert(base_of(a) == b);
                    assert(self.valid_obj(a) && self.obj_info(a) == info) by {
                        assert(self.index_of_base(b) == n2);
                    }
                    assert(!pre.valid_obj(a)) by {
                        if pre.valid_obj(a) {
                            assert(pre.has_base(b));
                        }
                    }
                    assert(self.status_of(a) is None);
                    assert forall|x: usize| #[trigger] self.status_of(x) == pre.status_of(x) by {
                        if pre.has_base(base_of(x)) {
                            let bi = pre.index_of_base(base_of(x));
                            assert(self.blocks@[bi] == pre.blocks@[bi]);
                        } else if self.has_base(base_of(x)) {
                            assert(base_of(x) == b);
                        }
                    }
                    assert forall|x: usize| #[trigger] pre.valid_obj(x) implies self.valid_obj(x)
                        && self.obj_info(x) == pre.obj_info(x) && self.obj_words(x)
                        == pre.obj_words(x) && x != a by {
                        let bi = pre.index_of_base(base_of(x));
                        assert(self.blocks@[bi] == pre.blocks@[bi]);
                        if x == a {
                            assert(pre.has_base(b));
                        }
                    }
                    assert forall|x: usize| #[trigger] self.valid_obj(x) implies pre.valid_obj(x)
                        || x == a by {
                        let bi = self.index_of_base(base_of(x));
                        if bi == n2 && x != a {
                            let j = choose|j: int|
                                hp.count as int <= j < hp.capacity as int && x == (
                                #[trigger] hp.slot_addr(j));
                            assert(hp.count as int == hp.capacity as int - 1);
                            assert(x == a);
                        }
                        if bi < n2 {
                            assert(pre.blocks@[bi] == self.blocks@[bi]);
                            assert(pre.has_base(base_of(x)));
                            assert(pre.index_of_base(base_of(x)) == bi);
                        }
                    }
                    assert(self.obj_words(a).len() == info.size);
                }
                a
            },
            None => {
                proof {
                    assert(false);
                }
                0
            },
        }
    }

    /// Moves a value's words into the object slot at `a`, leaving every
    /// other object and every status table untouched.
    pub fn write_obj_at(&mut self, a: usize, value: Vec<Word>)
        requires
            old(self).wf(),
            old(self).valid_obj(a),
            value@.len() == old(self).obj_info(a).size as int,
        ensures
            final(self).wf(),
            final(self).ref_count == old(self).ref_count,
            final(self).blocks@.len() == old(self).blocks@.len(),
            forall|j: int|
                0 <= j < old(self).blocks@.len() ==> (#[trigger] final(self).blocks@[j]) == (Header {
                    mem: final(self).blocks@[j].mem,
                    ..old(self).blocks@[j]
                }),
            forall|m: bool| old(self).marked_all(m) ==> final(self).marked_all(m),
            forall|nb: int| old(self).bases_below(nb) ==> final(self).bases_below(nb),
            forall|lo: int| old(self).bases_at_least(lo) ==> final(self).bases_at_least(lo),
            forall|b: usize|
                #[trigger] final(self).has_base(b) == old(self).has_base(b) && (old(self).has_base(
                    b,
                ) ==> final(self).index_of_base(b) == old(self).index_of_base(b)),
            final(self).valid_obj(a),
            final(self).obj_info(a) == old(self).obj_info(a),
            final(self).obj_words(a) == value@,
            final(self).status_of(a) == old(self).status_of(a),
            forall|x: usize| #[trigger] final(self).status_of(x) == old(self).status_of(x),
            forall|x: usize|
                #[trigger] old(self).valid_obj(x) && x != a ==> final(self).valid_obj(x) && final(self).obj_info(x) == old(self).obj_info(x) && final(self).obj_words(x) == old(self).obj_words(x),
            forall|x: usize| #[trigger] final(self).valid_obj(x) ==> old(self).valid_obj(x),
    {
        let ghost pre = *self;
        let base = Header::from_ptr(a);
        proof {
            pre.blocks@[pre.index_of_base(base_of(a))].lemma_slot_bounds(a);
        }
        let found = self.find_base(base);
        match found {
            Some(i) => {
                let h = &mut self.blocks[i];
                proof {
                    assert(pre.index_of_base(base_of(a)) == i);
                    assert(pre.blocks@[i as int].is_slot(a));
                }
                h.write_obj(a, value);
                proof {
                    let si = i as int;
                    let hpre = pre.blocks@[si];
                    let hpost = self.blocks@[si];
                    assert(self.blocks@ =~= pre.blocks@.update(si, hpost));
                    assert(self.wf());
                    Blocks::lemma_lookup_preserved(pre, *self, si);
                    Header::lemma_same_slots(hpre, hpost);
                    assert(self.obj_words(a) == value@);
                    assert forall|x: usize| #[trigger] pre.valid_obj(x) && x != a implies self.valid_obj(
                        x,
                    ) && self.obj_info(x) == pre.obj_info(x) && self.obj_words(x)
                        == pre.obj_words(x) && self.status_of(x) == pre.status_of(x) by {
                        let bi = pre.index_of_base(base_of(x));
                        if bi == si {
                            hpre.lemma_slots_disjoint(a, x);
                            hpre.lemma_slot_bounds(x);
                            assert(self.obj_words(x) =~= pre.obj_words(x));
                        }
                    }
                    assert forall|x: usize| #[trigger] self.valid_obj(x) implies pre.valid_obj(
                        x,
                    ) by {
                        let bi = self.index_of_base(base_of(x));
                        if bi == si {
                            assert(hpre.is_slot(x));
                        }
                    }
                }
            },
            None => {
                proof {
                    assert(false);
                }
            },
        }
    }

    /// Reads the status entry for `a`, if its block is here and has one.
    pub fn status_at(&self, a: usize) -> (r: Option<crate::root::ObjectStatus>)
        requires
            self.wf(),
        ensures
            r == self.status_of(a),
    {
        let base = Header::from_ptr(a);
        let found = self.find_base(base);
        match found {
            Some(i) => {
                let h = &self.blocks[i];
                h.evaced.get(a)
            },
            None => None,
        }
    }

    /// Reads word `k` of the object at `a`, if `a` is a live object here
    /// and `k` is within it.
    pub fn read_word(&self, a: usize, k: usize) -> (r: Option<&Word>)
        requires
            self.wf(),
        ensures
            match r {
                Some(w) => self.valid_obj(a) && (k as int) < self.obj_info(a).size as int && *w
                    == self.obj_words(a)[k as int],
                None => !(self.valid_obj(a) && (k as int) < self.obj_info(a).size as int),
            },
    {
        let base = Header::from_ptr(a);
        let found = self.find_base(base);
        match found {
            Some(i) => {
                let h = &self.blocks[i];
                if h.slot_check(a) && k < h.info.size as usize {
                    proof {
                        h.lemma_slot_bounds(a);
                    }
                    Some(&h.mem[a - h.base + k])
                } else {
                    proof {
                        if self.valid_obj(a) {
                            assert(self.index_of_base(base_of(a)) == i);
                        }
                    }
                    None
                }
            },
            None => {
                proof {
                    if self.valid_obj(a) {
                        assert(self.has_base(base_of(a)));
                    }
                }
                None
            },
        }
    }

    /// Writes a single word of the object at `a`, leaving every other
    /// object and every status table untouched.
    pub fn write_word_at(&mut self, a: usize, k: usize, w: Word)
        requires
            old(self).wf(),
            old(self).valid_obj(a),
            (k as int) < old(self).obj_info(a).size as int,
            !(old(self).obj_words(a)[k as int] is Root),
        ensures
            final(self).wf(),
            final(self).ref_count == old(self).ref_count,
            final(self).blocks@.len() == old(self).blocks@.len(),
            forall|j: int|
                0 <= j < old(self).blocks@.len() ==> (#[trigger] final(self).blocks@[j]) == (Header {
                    mem: final(self).blocks@[j].mem,
                    ..old(self).blocks@[j]
                }),
            forall|m: bool| old(self).marked_all(m) ==> final(self).marked_all(m),
            forall|nb: int| old(self).bases_below(nb) ==> final(self).bases_below(nb),
            forall|lo: int| old(self).bases_at_least(lo) ==> final(self).bases_at_least(lo),
            forall|b: usize|
                #[trigger] final(self).has_base(b) == old(self).has_base(b) && (old(self).has_base(
                    b,
                ) ==> final(self).index_of_base(b) == old(self).index_of_base(b)),
            final(self).valid_obj(a),
            final(self).obj_info(a) == old(self).obj_info(a),
            final(self).obj_words(a) == old(self).obj_words(a).update(k as int, w),
            forall|x: usize| #[trigger] final(self).status_of(x) == old(self).status_of(x),
            forall|x: usize|
                #[trigger] old(self).valid_obj(x) && x != a ==> final(self).valid_obj(x) && final(self).obj_info(x) == old(self).obj_info(x) && final(self).obj_words(x) == old(self).obj_words(x),
            forall|x: usize| #[trigger] final(self).valid_obj(x) ==> old(self).valid_obj(x),
    {
        let ghost pre = *self;
        let base = Header::from_ptr(a);
        proof {
            pre.blocks@[pre.index_of_base(base_of(a))].lemma_slot_bounds(a);
        }
        let found = self.find_base(base);
        match found {
            Some(i) => {
                let h = &mut self.blocks[i];
                proof {
                    assert(pre.index_of_base(base_of(a)) == i);
                    assert(pre.blocks@[i as int].is_slot(a));
                }
                h.write_word(a, k, w);
                proof {
                    let si = i as int;
                    let hpre = pre.blocks@[si];
                    let hpost = self.blocks@[si];
                    assert(self.blocks@ =~= pre.blocks@.update(si, hpost));
                    assert(self.wf());
                    Blocks::lemma_lookup_preserved(pre, *self, si);
                    Header::lemma_same_slots(hpre, hpost);
                    assert(self.obj_words(a) == pre.obj_words(a).update(k as int, w));
                    assert forall|x: usize| #[trigger] self.status_of(x) == pre.status_of(x) by {
                        if pre.has_base(base_of(x)) {
                            let bi = pre.index_of_base(base_of(x));
                            assert(self.blocks@[bi].evaced == pre.blocks@[bi].evaced);
                        }
                    }
                    assert forall|x: usize| #[trigger] pre.valid_obj(x) && x != a implies self.valid_obj(
                        x,
                    ) && self.obj_info(x) == pre.obj_info(x) && self.obj_words(x)
                        == pre.obj_words(x) by {
                        let bi = pre.index_of_base(base_of(x));
                        if bi == si {
                            hpre.lemma_slots_disjoint(a, x);
                            hpre.lemma_slot_bounds(x);
                            assert(self.obj_words(x) =~= pre.obj_words(x));
                        }
                    }
                    assert forall|x: usize| #[trigger] self.valid_obj(x) implies pre.valid_obj(
                        x,
                    ) by {
                        let bi = self.index_of_base(base_of(x));
                        if bi == si {
                            assert(hpre.is_slot(x));
                        }
                    }
                }
            },
            None => {
                proof {
                    assert(false);
                }
            },
        }
    }

    /// The descriptor of the block holding the live object at `a`.
    pub fn info_at(&self, a: usize) -> (r: Option<GcInfo>)
        requires
            self.wf(),
        ensures
            match r {
                Some(i) => self.valid_obj(a) && i == self.obj_info(a),
                None => !self.valid_obj(a),
            },
    {
        let base = Header::from_ptr(a);
        match self.find_base(base) {
            Some(i) => {
                let h = &self.blocks[i];
                if h.slot_check(a) {
                    Some(h.info)
                } else {
                    proof {
                        if self.valid_obj(a) {
                            assert(self.index_of_base(base_of(a)) == i);
                        }
                    }
                    None
                }
            },
            None => {
                proof {
                    if self.valid_obj(a) {
                        assert(self.has_base(base_of(a)));
                    }
                }
                None
            },
        }
    }

    /// Copies out the words of the object at `a`, as the evacuator's
    /// verbatim copy does.
    pub(crate) fn copy_obj_words(&self, a: usize) -> (r: Vec<Word>)
        requires
            self.wf(),
            self.valid_obj(a),
        ensures
            r@ == self.obj_words(a),
            r@.len() == self.obj_info(a).size as int,
    {
        let base = Header::from_ptr(a);
        proof {
            self.blocks@[self.index_of_base(base_of(a))].lemma_slot_bounds(a);
        }
        match self.find_base(base) {
            Some(i) => {
                let h = &self.blocks[i];
                proof {
                    assert(self.index_of_base(base_of(a)) == i);
                }
                let size = h.info.size as usize;
                let off = a - h.base;
                let mut out: Vec<Word> = Vec::new();
                let mut k: usize = 0;
                while k < size
                    invariant
                        k <= size,
                        size == h.info.size,
                        off == a - h.base,
                        off + size <= h.mem@.len(),
                        h == self.blocks@[self.index_of_base(base_of(a))],
                        self.wf(),
                        self.valid_obj(a),
                        out@.len() == k,
                        forall|x: int| 0 <= x < k ==> out@[x] == h.mem@[off + x],
                    decreases size - k,
                {
                    let w = h.mem[off + k].copied();
                    out.push(w);
                    k += 1;
                }
                proof {
                    assert(out@ =~= self.obj_words(a));
                }
                out
            },
            None => {
                proof {
                    assert(false);
                }
                Vec::new()
            },
        }
    }

    /// Sets the status entry for the object slot at `a`.
    pub fn set_status(&mut self, a: usize, st: crate::root::ObjectStatus)
        requires
            old(self).wf(),
            old(self).valid_obj(a),
        ensures
            final(self).wf(),
            final(self).ref_count == old(self).ref_count,
            final(self).blocks@.len() == old(self).blocks@.len(),
            forall|j: int|
                0 <= j < old(self).blocks@.len() ==> (#[trigger] final(self).blocks@[j]) == (Header {
                    evaced: final(self).blocks@[j].evaced,
                    ..old(self).blocks@[j]
                }),
            forall|m: bool| old(self).marked_all(m) ==> final(self).marked_all(m),
            forall|nb: int| old(self).bases_below(nb) ==> final(self).bases_below(nb),
            forall|lo: int| old(self).bases_at_least(lo) ==> final(self).bases_at_least(lo),
            forall|b: usize|
                #[trigger] final(self).has_base(b) == old(self).has_base(b) && (old(self).has_base(
                    b,
                ) ==> final(self).index_of_base(b) == old(self).index_of_base(b)),
            final(self).status_of(a) == Some(st),
            forall|x: usize| x != a ==> final(self).status_of(x) == old(self).status_of(x),
            forall|x: usize|
                #[trigger] old(self).valid_obj(x) ==> final(self).valid_obj(x) && final(self).obj_info(x) == old(self).obj_info(x) && final(self).obj_words(x) == old(self).obj_words(x),
            forall|x: usize| #[trigger] final(self).valid_obj(x) ==> old(self).valid_obj(x),
            ({
                let bi = old(self).index_of_base(base_of(a));
                let epre = old(self).blocks@[bi].evaced.entries@;
                let epost = final(self).blocks@[bi].evaced.entries@;
                (exists|i: int|
                    0 <= i < epre.len() && (#[trigger] epre[i]).0 == a && epost == epre.update(
                        i,
                        (a, st),
                    )) || (old(self).status_of(a) is None && epost == epre.push((a, st)))
            }),
            forall|j: int|
                0 <= j < old(self).blocks@.len() && j != old(self).index_of_base(base_of(a))
                    ==> (#[trigger] final(self).blocks@[j]).evaced.entries@ == old(self).blocks@[j].evaced.entries@,
    {
        let ghost pre = *self;
        proof {
            pre.blocks@[pre.index_of_base(base_of(a))].lemma_slot_bounds(a);
        }
        let base = Header::from_ptr(a);
        let found = self.find_base(base);
        match found {
            Some(i) => {
                let h = &mut self.blocks[i];
                h.evaced.set(a, st);
                proof {
                    let si = i as int;
                    let hpre = pre.blocks@[si];
                    let hpost = self.blocks@[si];
                    assert(self.blocks@ =~= pre.blocks@.update(si, hpost));
                    assert(hpost.wf()) by {
                        Header::lemma_same_slots(hpre, hpost);
                    }
                    assert(self.wf());
                    Blocks::lemma_lookup_preserved(pre, *self, si);
                    Header::lemma_same_slots(hpre, hpost);
                    assert(self.status_of(a) == Some(st));
                    assert forall|x: usize| x != a implies final(self).status_of(x)
                        == pre.status_of(x) by {
                        if pre.has_base(base_of(x)) {
                            let bi = pre.index_of_base(base_of(x));
                            assert(self.blocks@[bi].evaced@.contains_key(x) == pre.blocks@[bi].evaced@.contains_key(
                                x,
                            ));
                        }
                    }
                    assert forall|x: usize| #[trigger] pre.valid_obj(x) implies self.valid_obj(x)
                        && self.obj_info(x) == pre.obj_info(x) && self.obj_words(x)
                        == pre.obj_words(x) by {
                        let bi = pre.index_of_base(base_of(x));
                        assert(self.obj_words(x) =~= pre.obj_words(x));
                    }
                    assert forall|x: usize| #[trigger] self.valid_obj(x) implies pre.valid_obj(
                        x,
                    ) by {
                        let bi = self.index_of_base(base_of(x));
                    }
                }
            },
            None => {
                proof {
                    assert(false);
                }
            },
        }
    }

    /// Removes the status entry for `a`, if its block is here; does nothing
    /// otherwise.
    pub fn remove_status(&mut self, a: usize)
        requires
            old(self).wf(),
        ensures
            final(self).wf(),
            final(self).ref_count == old(self).ref_count,
            final(self).blocks@.len() == old(self).blocks@.len(),
            forall|j: int|
                0 <= j < old(self).blocks@.len() ==> (#[trigger] final(self).blocks@[j]) == (Header {
                    evaced: final(self).blocks@[j].evaced,
                    ..old(self).blocks@[j]
                }),
            forall|m: bool| old(self).marked_all(m) ==> final(self).marked_all(m),
            forall|nb: int| old(self).bases_below(nb) ==> final(self).bases_below(nb),
            forall|lo: int| old(self).bases_at_least(lo) ==> final(self).bases_at_least(lo),
            forall|b: usize|
                #[trigger] final(self).has_base(b) == old(self).has_base(b) && (old(self).has_base(
                    b,
                ) ==> final(self).index_of_base(b) == old(self).index_of_base(b)),
            final(self).status_of(a) is None,
            forall|x: usize| x != a ==> final(self).status_of(x) == old(self).status_of(x),
            forall|x: usize|
                #[trigger] old(self).valid_obj(x) ==> final(self).valid_obj(x) && final(self).obj_info(x) == old(self).obj_info(x) && final(self).obj_words(x) == old(self).obj_words(x),
            forall|x: usize| #[trigger] final(self).valid_obj(x) ==> old(self).valid_obj(x),
            old(self).status_of(a) is None ==> forall|j: int|
                0 <= j < old(self).blocks@.len() ==> (#[trigger] final(self).blocks@[j]).evaced.entries@ == old(self).blocks@[j].evaced.entries@,
            old(self).status_of(a) is Some ==> ({
                let bi = old(self).index_of_base(base_of(a));
                let epre = old(self).blocks@[bi].evaced.entries@;
                let epost = final(self).blocks@[bi].evaced.entries@;
                exists|i: int|
                    0 <= i < epre.len() && (#[trigger] epre[i]).0 == a && epost == epre.remove(i)
            }),
            forall|j: int|
                0 <= j < old(self).blocks@.len() && j != old(self).index_of_base(base_of(a))
                    ==> (#[trigger] final(self).blocks@[j]).evaced.entries@ == old(self).blocks@[j].evaced.entries@,
    {
        let ghost pre = *self;
        let base = Header::from_ptr(a);
        let found = self.find_base(base);
        match found {
            Some(i) => {
                let h = &mut self.blocks[i];
                h.evaced.remove(a);
                proof {
                    let si = i as int;
                    let hpre = pre.blocks@[si];
                    let hpost = self.blocks@[si];
                    assert(self.blocks@ =~= pre.blocks@.update(si, hpost));
                    assert(hpost.wf()) by {
                        Header::lemma_same_slots(hpre, hpost);
                    }
                    assert(self.wf());
                    Blocks::lemma_lookup_preserved(pre, *self, si);
                    Header::lemma_same_slots(hpre, hpost);
                    assert(self.status_of(a) is None);
                    assert forall|x: usize| x != a implies final(self).status_of(x)
                        == pre.status_of(x) by {
                        if pre.has_base(base_of(x)) {
                            let bi = pre.index_of_base(base_of(x));
                            assert(self.blocks@[bi].evaced@.contains_key(x) == pre.blocks@[bi].evaced@.contains_key(
                                x,
                            ));
                        }
                    }
                    assert forall|x: usize| #[trigger] pre.valid_obj(x) implies self.valid_obj(x)
                        && self.obj_info(x) == pre.obj_info(x) && self.obj_words(x)
                        == pre.obj_words(x) by {
                        let bi = pre.index_of_base(base_of(x));
                        assert(self.obj_words(x) =~= pre.obj_words(x));
                    }
                    assert forall|x: usize| #[trigger] self.valid_obj(x) implies pre.valid_obj(
                        x,
                    ) by {
                        let bi = self.index_of_base(base_of(x));
                    }
                    assert(pre.index_of_base(base_of(a)) == si);
                    if pre.status_of(a) is None {
                        assert(!hpre.evaced@.contains_key(a));
                        crate::root::lemma_map_of_contains(hpre.evaced.entries@, a);
                        assert(hpost.evaced.entries@ == hpre.evaced.entries@);
                    }
                }
            },
            None => {},
        }
    }

    /// Replacing one block while keeping its base leaves every lookup in
    /// place.
    pub proof fn lemma_lookup_preserved(pre: Blocks, post: Blocks, i: int)
        requires
            pre.wf(),
            post.wf(),
            post.blocks@.len() == pre.blocks@.len(),
            0 <= i < pre.blocks@.len(),
            forall|j: int|
                0 <= j < pre.blocks@.len() && j != i ==> post.blocks@[j] == pre.blocks@[j],
            post.blocks@[i].base == pre.blocks@[i].base,
        ensures
            forall|b: usize| #[trigger] post.has_base(b) == pre.has_base(b),
            forall|b: usize|
                pre.has_base(b) ==> #[trigger] post.index_of_base(b) == pre.index_of_base(b),
    {
        assert forall|b: usize| #[trigger] post.has_base(b) == pre.has_base(b) by {
            if pre.has_base(b) {
                let j = choose|j: int|
                    0 <= j < pre.blocks@.len() && (#[trigger] pre.blocks@[j]).base == b;
                assert(post.blocks@[j].base == b);
            }
            if post.has_base(b) {
                let j = choose|j: int|
                    0 <= j < post.blocks@.len() && (#[trigger] post.blocks@[j]).base == b;
                assert(pre.blocks@[j].base == b);
            }
        }
        assert forall|b: usize| pre.has_base(b) implies #[trigger] post.index_of_base(b)
            == pre.index_of_base(b) by {
            let j1 = pre.index_of_base(b);
            assert(0 <= j1 < pre.blocks@.len() && pre.blocks@[j1].base == b);
            assert(post.has_base(b));
            let j2 = post.index_of_base(b);
            assert(0 <= j2 < post.blocks@.len() && post.blocks@[j2].base == b);
            assert(pre.blocks@[j2].base == b);
            if j1 != j2 {
                assert(pre.blocks@[j1].base != pre.blocks@[j2].base);
            }
        }
    }

    /// Appending a block with a fresh base leaves every existing lookup in
    /// place and adds the new one.
    pub proof fn lemma_lookup_append(pre: Blocks, post: Blocks)
        requires
            pre.wf(),
            post.wf(),
            post.blocks@.len() == pre.blocks@.len() + 1,
            forall|j: int| 0 <= j < pre.blocks@.len() ==> post.blocks@[j] == pre.blocks@[j],
            !pre.has_base(post.blocks@[post.blocks@.len() - 1].base),
        ensures
            forall|b: usize| pre.has_base(b) ==> #[trigger] post.has_base(b),
            forall|b: usize|
                pre.has_base(b) ==> #[trigger] post.index_of_base(b) == pre.index_of_base(b),
            post.has_base(post.blocks@[post.blocks@.len() - 1].base),
            post.index_of_base(post.blocks@[post.blocks@.len() - 1].base) == pre.blocks@.len(),
            forall|b: usize|
                #[trigger] post.has_base(b) ==> pre.has_base(b) || b == post.blocks@[post.blocks@.len()
                    - 1].base,
    {
        let n = pre.blocks@.len() as int;
        let nb = post.blocks@[n].base;
        assert forall|b: usize| pre.has_base(b) implies #[trigger] post.has_base(b) by {
            let j = choose|j: int|
                0 <= j < pre.blocks@.len() && (#[trigger] pre.blocks@[j]).base == b;
            assert(post.blocks@[j].base == b);
        }
        assert forall|b: usize| pre.has_base(b) implies #[trigger] post.index_of_base(b)
            == pre.index_of_base(b) by {
            let j1 = pre.index_of_base(b);
            assert(0 <= j1 < pre.blocks@.len() && pre.blocks@[j1].base == b);
            assert(post.blocks@[j1].base == b);
            let j2 = post.index_of_base(b);
            assert(0 <= j2 < post.blocks@.len() && post.blocks@[j2].base == b);
            if j2 == n {
                assert(pre.has_base(nb));
            }
            assert(pre.blocks@[j2].base == b);
            if j1 != j2 {
                assert(pre.blocks@[j1].base != pre.blocks@[j2].base);
            }
        }
        assert(post.blocks@[n].base == nb);
        assert(post.has_base(nb));
        let w = post.index_of_base(nb);
        assert(0 <= w < post.blocks@.len() && post.blocks@[w].base == nb);
        if w != n {
            assert(pre.blocks@[w].base == nb);
            assert(pre.has_base(nb));
        }
        assert forall|b: usize| #[trigger] post.has_base(b) implies pre.has_base(b) || b == nb by {
            let j = choose|j: int|
                0 <= j < post.blocks@.len() && (#[trigger] post.blocks@[j]).base == b;
            if j < n {
                assert(pre.blocks@[j].base == b);
            }
        }
    }
}

} // verus!
