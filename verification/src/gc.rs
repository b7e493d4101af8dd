//! Scoped handles and the word-level representation of managed values.

use vstd::prelude::*;

use crate::root::Root;

verus! {

/// Prevents construction of [`Gc`] outside this crate: `P` can be matched
/// against, but only the library can make one.
#[derive(Clone, Copy, Debug)]
pub struct P(());

/// A scoped handle: a non-owning reference to a managed object, carrying
/// the object's address. Cheap to copy. Construction is privileged; a
/// handle is only obtained from the allocator or from projecting a root,
/// and it goes stale when a collection runs.
#[derive(Clone, Copy, Debug)]
pub struct Gc(pub usize, pub P);

impl Gc {
    pub(crate) fn new(addr: usize) -> (h: Gc)
        ensures
            h.0 == addr,
    {
        Gc(addr, P(()))
    }

    /// The address of the referent.
    pub fn as_ptr(self) -> (a: usize)
        ensures
            a == self.0,
    {
        self.0
    }
}

/// One word of a managed object. An object of size `n` is a run of `n`
/// words inside a block. `Handle` words are the managed references a trace
/// visits; `Root` words hold an owning root handle whose record lives in
/// the root registry; the other variants are opaque payload.
pub enum Word {
    /// Plain integer payload.
    Int(u64),
    /// Plain string payload.
    Text(String),
    /// A managed reference to another object: the evacuator rewrites it.
    Handle(Gc),
    /// An owning root handle stored inside a managed value.
    Root(Root),
}

impl Word {
    /// Duplicates the word, as the evacuator's byte copy does. Only the
    /// library may duplicate an owning `Root` word this way; the pass that
    /// copies an object transfers ownership of its root words to the copy,
    /// and the original is never dropped once moved.
    pub(crate) fn copied(&self) -> (w: Word)
        ensures
            w == *self,
    {
        match self {
            Word::Int(v) => Word::Int(*v),
            Word::Text(s) => Word::Text(s.clone()),
            Word::Handle(h) => Word::Handle(*h),
            Word::Root(r) => Word::Root(r.duplicate()),
        }
    }
}

} // verus!
