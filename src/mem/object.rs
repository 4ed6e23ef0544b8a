use vstd::prelude::*;

verus! {

/// A handle on an object: its address and the size of the arenas it may
/// live in.
pub struct Object {
    address: usize,
    arena_size: usize,
}

impl Object {
    pub closed spec fn address(&self) -> usize {
        self.address
    }

    pub closed spec fn arena_size(&self) -> usize {
        self.arena_size
    }

    pub fn new(address: usize, arena_size: usize) -> (r: Object)
        ensures
            r.address() == address,
            r.arena_size() == arena_size,
    {
        Object { address: address, arena_size: arena_size }
    }

    /// Reserved for locating the object's arena; no arena is looked up
    /// yet, and the answer is always zero.
    pub fn get_arena_address(&self) -> (r: usize)
        ensures
            r == 0,
    {
        0
    }
}

} // verus!
