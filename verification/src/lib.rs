//! A thread-local, two-space copying garbage collector, modelled over an
//! explicit heap.
//!
//! Managed memory is represented as fixed-size, size-aligned blocks carved
//! out of an abstract address space: an address is a plain `usize`, a block
//! is a [`blocks::Header`] owning its words, and an object is a run of
//! [`gc::Word`]s inside a block. On this model the whole collector is
//! verified: the block allocator, the root registry with its reference
//! counts, and the evacuation pass that copies live objects into a fresh
//! to-space and rewrites every pointer.

use vstd::prelude::*;

pub mod blocks;
pub mod gc;
pub mod generation;
pub mod internals;
pub mod laws;
pub mod root;

verus! {

/// Size of a block in words. Every block starts at an address that is a
/// multiple of `BLOCK_SIZE`, so the block that contains an interior address
/// is found by masking off the low `HEADER_ALIGNMENT_BITS` bits.
pub const HEADER_ALIGNMENT_BITS: usize = 13;

/// `1 << HEADER_ALIGNMENT_BITS`.
pub const BLOCK_SIZE: usize = 8192;

/// Words at the start of every block reserved for its header.
pub const HEADER_RESERVE: usize = 64;

/// Errors surfaced to callers. Allocation failure cannot arise here: the
/// functions that carve new blocks state in `requires` that address space
/// remains.
#[derive(Clone, Copy, PartialEq, Eq, Structural, Debug)]
pub enum GcError {
    /// A root was projected to a type whose descriptor does not match the
    /// descriptor of the block that holds the referent.
    TypeMismatch,
}

/// Runtime descriptor of a managed type: object size and alignment in
/// words, whether the destructor must run when an object dies, and a
/// canonical identity, standing in for the address of the type's trace
/// function.
#[derive(Clone, Copy, PartialEq, Eq, Structural, Debug)]
pub struct GcInfo {
    /// Object size in words. At least 1.
    pub size: u16,
    /// Object alignment in words. At least 1, at most `HEADER_RESERVE`.
    pub align: u16,
    /// True when dying objects of this type must have their destructor run.
    pub needs_drop: bool,
    /// Canonical identity of the described type.
    pub type_id: u64,
}

impl GcInfo {
    /// A descriptor the block allocator can serve: the object fits a block
    /// with room to spare for the header reserve, the alignment gap and the
    /// reserved fringe of ten slots, leaving at least two free slots; the
    /// size is a multiple of the alignment, as a type's size always is, so
    /// every slot of a block that starts aligned stays aligned.
    pub open spec fn wf(self) -> bool {
        &&& 1 <= self.size
        &&& 1 <= self.align <= HEADER_RESERVE
        &&& self.size as int % self.align as int == 0
        &&& HEADER_RESERVE + 13 * (self.size as int) <= BLOCK_SIZE
    }

    /// Builds a descriptor, checking the block allocator's limits.
    pub fn new(size: u16, align: u16, needs_drop: bool, type_id: u64) -> (r: Option<GcInfo>)
        ensures
            match r {
                Some(info) => info.wf() && info == (GcInfo { size, align, needs_drop, type_id }),
                None => !(GcInfo { size, align, needs_drop, type_id }).wf(),
            },
    {
        if 1 <= size && 1 <= align && align as usize <= HEADER_RESERVE && size % align == 0
            && HEADER_RESERVE + 13 * (size as usize) <= BLOCK_SIZE {
            Some(GcInfo { size, align, needs_drop, type_id })
        } else {
            None
        }
    }
}

/// Canonical identity of a managed type, extracted from its descriptor.
#[derive(Clone, Copy, PartialEq, Eq, Structural, Debug)]
pub struct GcTypeId(pub u64);

impl From<&GcInfo> for GcTypeId {
    fn from(info: &GcInfo) -> (r: GcTypeId) {
        GcTypeId(info.type_id)
    }
}

impl vstd::std_specs::convert::FromSpecImpl<&GcInfo> for GcTypeId {
    open spec fn obeys_from_spec() -> bool {
        true
    }

    open spec fn from_spec(info: &GcInfo) -> GcTypeId {
        GcTypeId(info.type_id)
    }
}

} // verus!
