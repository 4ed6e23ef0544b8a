use std::collections::HashSet;
use vstd::prelude::*;
use vstd::std_specs::iter::IteratorSpec;

use crate::mem::arena::arena_base_of;
use crate::mem::arena::cell_of;
use crate::mem::arena::cells_needed;
use crate::mem::arena::is_object_cell;
use crate::mem::arena::lemma_cell_address_inverse;
use crate::mem::arena::Arena;
use crate::mem::arena::BlockType;
use crate::mem::arena::ARENA_MAX_OBJECT_MEMORY;
use crate::mem::arena::ARENA_SIZE;
use crate::mem::arena::CELL_SIZE;
use crate::mem::arena::MAX_CELL_ID;
use crate::util::memutil::MemoryError;

verus! {

/// What the embedder tells the collector about its objects.
pub trait GCTypeInformation {
    /// The addresses that the object at `address` refers to. An
    /// implementation overrides this with what its objects hold; the default
    /// describes objects without references.
    closed spec fn references(&self, address: usize) -> Seq<usize> {
        Seq::empty()
    }

    /// Enumerates the addresses that the object at `address` refers to. The
    /// answer depends on the object's contents alone, which the collector
    /// never changes.
    fn get_references(&self, address: usize) -> (r: Vec<usize>)
        ensures
            r@ == self.references(address),
    ;

    /// Reserved for an incremental collector; unused here.
    fn is_gray(&self, address: usize) -> bool;

    /// Reserved for an incremental collector; unused here.
    fn mark_gray(&self, address: usize);

    /// Reserved for an incremental collector; unused here.
    fn clear_gray(&self, address: usize);
}

/// Adds `x` to `visited`; whether it was absent.
fn visit(visited: &mut HashSet<usize>, x: usize) -> (r: bool)
    ensures
        final(visited)@ == old(visited)@.insert(x),
        r == !old(visited)@.contains(x),
{
    broadcast use vstd::std_specs::hash::group_hash_axioms;

    visited.insert(x)
}

/// A stop-the-world mark-and-sweep collector over one arena, which is
/// registered lazily, with a set of root addresses.
pub struct GC<T: GCTypeInformation> {
    root_references: HashSet<usize>,
    arena: Option<Arena>,
    type_information: T,
}

impl<T: GCTypeInformation> GC<T> {
    /// The root set.
    pub closed spec fn roots(&self) -> Set<usize> {
        self.root_references@
    }

    /// The arena, once one is registered.
    pub closed spec fn arena(&self) -> Option<Arena> {
        self.arena
    }

    /// The embedder's description of its objects.
    pub closed spec fn info(&self) -> T {
        self.type_information
    }

    pub closed spec fn wf(&self) -> bool {
        &&& self.arena matches Some(a) ==> {
            &&& a.wf()
            &&& forall|c: int| is_object_cell(c) ==> #[trigger] a.state(c) != BlockType::Black
        }
    }

    /// `address` is non-zero and falls in an object cell of the arena whose
    /// state is `White` or `Black`.
    pub open spec fn is_valid(&self, address: usize) -> bool {
        &&& address != 0
        &&& self.arena() is Some
        &&& self.arena().unwrap().base() == arena_base_of(address as int)
        &&& is_object_cell(cell_of(address as int))
        &&& {
            let st = self.arena().unwrap().state(cell_of(address as int));
            st == BlockType::White || st == BlockType::Black
        }
    }

    /// `address` is the address of an object: valid, and the start of its
    /// head cell.
    pub open spec fn is_object(&self, address: usize) -> bool {
        self.is_valid(address) && address % CELL_SIZE == 0
    }

    /// `p` leads from a root to its last element, through valid addresses,
    /// each referred to by the one before it.
    pub open spec fn is_path(&self, p: Seq<usize>) -> bool {
        &&& p.len() >= 1
        &&& self.roots().contains(p[0])
        &&& forall|i: int| 0 <= i < p.len() ==> self.is_valid(#[trigger] p[i])
        &&& forall|i: int|
            0 <= i < p.len() - 1 ==> self.info().references(#[trigger] p[i]).contains(p[i + 1])
    }

    /// The valid address `address` can be reached from a root.
    pub open spec fn reachable(&self, address: usize) -> bool {
        exists|p: Seq<usize>| #[trigger] self.is_path(p) && p.last() == address
    }

    /// Some reachable address falls in cell `c` of the arena: the object
    /// whose head cell that is will be kept.
    pub open spec fn cell_reached(&self, c: int) -> bool {
        exists|x: usize| #[trigger] self.reachable(x) && cell_of(x as int) == c
    }

    /// The valid `address` falls in a head cell that is followed by `k - 1`
    /// `Extend` cells: the `k` cells of one object.
    pub open spec fn spans(&self, address: usize, k: int) -> bool {
        &&& self.is_valid(address)
        &&& k >= 1
        &&& cell_of(address as int) + k <= MAX_CELL_ID
        &&& forall|c: int|
            cell_of(address as int) < c < cell_of(address as int) + k
                ==> #[trigger] self.arena().unwrap().state(c) == BlockType::Extend
    }

    /// `self` is what a collection made of `before`: the roots, the
    /// embedder's description and the arena's place are as they were; an
    /// address stays valid exactly when it was valid and some reachable
    /// address fell in the same cell; an object with a reachable address in
    /// its head cell keeps all its cells; every cell of any other object is
    /// `Free`; free cells stay free; and no object cell is left `Black`.
    pub open spec fn collected_from(&self, before: &Self) -> bool {
        &&& self.roots() == before.roots()
        &&& self.info() == before.info()
        &&& self.arena() is Some <==> before.arena() is Some
        &&& self.arena() is Some ==> self.arena().unwrap().base() == before.arena().unwrap().base()
        &&& forall|a: usize| #[trigger] self.is_valid(a) == (before.is_valid(a) && before.cell_reached(cell_of(a as int)))
        &&& forall|a: usize, k: int|
            #[trigger] before.spans(a, k) && !before.cell_reached(cell_of(a as int)) ==> forall|c: int|
                cell_of(a as int) <= c < cell_of(a as int) + k ==> #[trigger] self.arena().unwrap().state(c) == BlockType::Free
        &&& forall|a: usize, k: int| #[trigger] before.spans(a, k) && before.cell_reached(cell_of(a as int)) ==> self.spans(a, k)
        &&& forall|c: int|
            is_object_cell(c) && before.arena().unwrap().state(c) == BlockType::Free
                ==> #[trigger] self.arena().unwrap().state(c) == BlockType::Free
        &&& self.arena() is Some ==> forall|c: int|
            is_object_cell(c) ==> #[trigger] self.arena().unwrap().state(c) != BlockType::Black
    }

    /// A collector with no roots and no arena yet.
    pub fn new(type_information: T) -> (r: GC<T>)
        ensures
            r.wf(),
            r.roots() == Set::<usize>::empty(),
            r.arena() is None,
            r.info() == type_information,
    {
        GC { root_references: HashSet::new(), arena: None, type_information: type_information }
    }

    /// The embedder's type information, for it to update when object fields
    /// change between collections. Roots and arena are left as they are.
    pub fn type_information_mut(&mut self) -> (r: &mut T)
        ensures
            final(self).roots() == old(self).roots(),
            final(self).arena() == old(self).arena(),
            final(self).wf() == old(self).wf(),
            *r == old(self).info(),
            final(self).info() == *final(r),
    {
        &mut self.type_information
    }

    /// Whether no arena is registered yet, so that one must be reserved
    /// before the first allocation.
    pub fn needs_arena(&self) -> (r: bool)
        ensures
            r == (self.arena() is None),
    {
        self.arena.is_none()
    }

    /// Registers an arena laid out in a region of `2 * ARENA_SIZE` bytes
    /// that the system allocator returned at `raw_region` (zero when it
    /// refused), with every object cell `Free`. Returns the arena's base.
    pub fn add_arena(&mut self, raw_region: usize) -> (r: Result<usize, MemoryError>)
        requires
            old(self).wf(),
            old(self).arena() is None,
        ensures
            final(self).wf(),
            final(self).roots() == old(self).roots(),
            final(self).info() == old(self).info(),
            r is Ok <==> (raw_region != 0 && raw_region + 2 * crate::mem::arena::ARENA_SIZE <= usize::MAX),
            r is Err ==> r == Err::<usize, MemoryError>(MemoryError::OutOfMemory) && final(self).arena() is None,
            r matches Ok(base) ==> {
                &&& final(self).arena() is Some
                &&& final(self).arena().unwrap().base() == base
                &&& final(self).arena().unwrap().raw_base() == raw_region
                &&& base % crate::mem::arena::ARENA_SIZE == 0
                &&& raw_region <= base < raw_region + crate::mem::arena::ARENA_SIZE
                &&& forall|c: int| is_object_cell(c) ==> #[trigger] final(self).arena().unwrap().state(c) == BlockType::Free
            },
    {
        match Arena::new(raw_region) {
            Err(e) => Err(e),
            Ok(arena) => {
                let mut arena = arena;
                arena.initialize();
                let base = arena.get_arena_address();
                self.arena = Some(arena);
                Ok(base)
            },
        }
    }

    /// Unregisters the arena, handing back the pointer that the system
    /// allocator returned for it, which must then be released. `None` when
    /// no arena is registered.
    pub fn release_arena(&mut self) -> (r: Option<usize>)
        requires
            old(self).wf(),
        ensures
            final(self).wf(),
            final(self).arena() is None,
            final(self).roots() == old(self).roots(),
            final(self).info() == old(self).info(),
            r is Some <==> old(self).arena() is Some,
            r matches Some(raw) ==> raw == old(self).arena().unwrap().raw_base(),
    {
        match self.arena.take() {
            None => None,
            Some(arena) => Some(arena.free()),
        }
    }

    /// First-fit allocation of `size` bytes in the arena. Returns the new
    /// object's address, or `None` when no arena is registered or no run of
    /// free cells is long enough.
    pub fn allocate(&mut self, size: usize) -> (r: Option<usize>)
        requires
            old(self).wf(),
        ensures
            final(self).wf(),
            final(self).roots() == old(self).roots(),
            final(self).info() == old(self).info(),
            final(self).arena() is Some <==> old(self).arena() is Some,
            r is Some <==> (old(self).arena() is Some && size <= ARENA_MAX_OBJECT_MEMORY && exists|s: int|
                old(self).arena().unwrap().is_free_run(s, cells_needed(size as int))),
            old(self).arena() is Some ==> {
                &&& final(self).arena().unwrap().base() == old(self).arena().unwrap().base()
                &&& final(self).arena().unwrap().allocated(&old(self).arena().unwrap(), size as int, r)
            },
            r matches Some(address) ==> {
                &&& address % CELL_SIZE == 0
                &&& arena_base_of(address as int) == old(self).arena().unwrap().base()
                &&& final(self).is_object(address)
                &&& !old(self).is_valid(address)
            },
    {
        let taken = self.arena.take();
        match taken {
            None => None,
            Some(arena) => {
                let mut arena = arena;
                let ghost before = arena;
                let r = arena.allocate_fit(size);
                self.arena = Some(arena);
                proof {
                    if let Some(address) = r {
                        let s = (address - before.base()) / CELL_SIZE as int;
                        lemma_cell_address_inverse(&before, s);
                    }
                }
                r
            },
        }
    }

    /// Whether `address` is non-zero and falls in a `White` or `Black` cell
    /// of the arena.
    pub fn is_address_valid(&self, address: usize) -> (r: bool)
        requires
            self.wf(),
        ensures
            r == self.is_valid(address),
    {
        if address == 0 {
            return false;
        }
        match self.get_containing_arena(address) {
            None => false,
            Some(arena) => {
                let cell = arena.get_cell_id(address);
                match arena.get_cell_state(cell) {
                    Some(BlockType::White) => true,
                    Some(BlockType::Black) => true,
                    Some(_) => false,
                    None => {
                        assert(!is_object_cell(cell as int));
                        false
                    },
                }
            },
        }
    }

    /// Adds `address` to the root set; returns whether it was absent.
    pub fn add_root(&mut self, address: usize) -> (r: bool)
        requires
            old(self).wf(),
        ensures
            final(self).wf(),
            final(self).roots() == old(self).roots().insert(address),
            r == !old(self).roots().contains(address),
            final(self).arena() == old(self).arena(),
            final(self).info() == old(self).info(),
    {
        broadcast use vstd::std_specs::hash::group_hash_axioms;

        self.root_references.insert(address)
    }

    /// Removes `address` from the root set; returns whether it was present.
    pub fn remove_root(&mut self, address: usize) -> (r: bool)
        requires
            old(self).wf(),
        ensures
            final(self).wf(),
            final(self).roots() == old(self).roots().remove(address),
            r == old(self).roots().contains(address),
            final(self).arena() == old(self).arena(),
            final(self).info() == old(self).info(),
    {
        broadcast use vstd::std_specs::hash::group_hash_axioms;

        self.root_references.remove(&address)
    }

    /// Marks every object reachable from a root, then sweeps: survivors stay
    /// allocated, and every cell of every other object is freed.
    pub fn collect(&mut self)
        requires
            old(self).wf(),
        ensures
            final(self).wf(),
            final(self).collected_from(old(self)),
    {
        let ghost g = *self;
        let taken = self.arena.take();
        match taken {
            None => {
                assert forall|a: usize, k: int| #[trigger] g.spans(a, k) && !g.cell_reached(cell_of(a as int)) implies forall|c: int|
                    cell_of(a as int) <= c < cell_of(a as int) + k ==> #[trigger] self.arena().unwrap().state(c) == BlockType::Free by {
                }
                assert forall|a: usize, k: int| #[trigger] g.spans(a, k) && g.cell_reached(cell_of(a as int)) implies self.spans(a, k) by {
                }
            },
            Some(arena) => {
                let mut arena = arena;
                let ghost a0 = arena;
                self.mark(&mut arena, Ghost(g));
                let ghost m = arena;
                arena.sweep();
                self.arena = Some(arena);
                proof {
                    let a1 = arena;
                    assert forall|c: int| is_object_cell(c) implies #[trigger] a1.state(c) != BlockType::Black by {
                        assert(a1.state(c) == m.swept_state(c));
                    }
                    assert forall|a: usize| #[trigger] self.is_valid(a) == (g.is_valid(a) && g.cell_reached(cell_of(a as int))) by {
                        let c = cell_of(a as int);
                        if a != 0 && a1.base() == arena_base_of(a as int) && is_object_cell(c) {
                            assert(crate::mem::arena::in_state_range(c));
                            assert(a1.state(c) == m.swept_state(c));
                            assert(a0.state(c) != BlockType::Black);
                        }
                    }
                    assert forall|a: usize, k: int| #[trigger] g.spans(a, k) && !g.cell_reached(cell_of(a as int)) implies forall|c: int|
                        cell_of(a as int) <= c < cell_of(a as int) + k ==> #[trigger] self.arena().unwrap().state(c) == BlockType::Free by {
                        let h = cell_of(a as int);
                        assert(crate::mem::arena::in_state_range(h));
                        assert(a0.state(h) != BlockType::Black);
                        assert(m.state(h) == BlockType::White);
                        assert forall|c: int| h < c < h + k implies #[trigger] m.state(c) == BlockType::Extend by {
                            assert(crate::mem::arena::in_state_range(c));
                            assert(a0.state(c) == BlockType::Extend);
                        }
                        m.lemma_sweep_object(h, k);
                        assert forall|c: int| h <= c < h + k implies #[trigger] a1.state(c) == BlockType::Free by {
                            assert(a1.state(c) == m.swept_state(c));
                        }
                    }
                    assert forall|a: usize, k: int| #[trigger] g.spans(a, k) && g.cell_reached(cell_of(a as int)) implies self.spans(a, k) by {
                        let h = cell_of(a as int);
                        assert(crate::mem::arena::in_state_range(h));
                        assert(m.state(h) == BlockType::Black);
                        assert forall|c: int| h < c < h + k implies #[trigger] m.state(c) == BlockType::Extend by {
                            assert(crate::mem::arena::in_state_range(c));
                            assert(a0.state(c) == BlockType::Extend);
                        }
                        m.lemma_sweep_object(h, k);
                        assert forall|c: int| h < c < h + k implies #[trigger] a1.state(c) == BlockType::Extend by {
                            assert(a1.state(c) == m.swept_state(c));
                        }
                        assert(a1.state(h) == m.swept_state(h));
                        assert(self.is_valid(a));
                    }
                    assert forall|c: int| is_object_cell(c) && g.arena().unwrap().state(c) == BlockType::Free
                        implies #[trigger] self.arena().unwrap().state(c) == BlockType::Free by {
                        assert(crate::mem::arena::in_state_range(c));
                        assert(a1.state(c) == m.swept_state(c));
                    }
                }
            },
        }
    }

    /// Blackens the cell of every address reachable from a root in `g`, the
    /// collector as it was before its arena was taken out to be marked. The
    /// references of each valid address are enumerated once.
    #[verifier::rlimit(60)]
    fn mark(&self, arena: &mut Arena, g: Ghost<GC<T>>)
        requires
            g@.wf(),
            g@.arena() == Some(*old(arena)),
            g@.roots() == self.roots(),
            g@.info() == self.info(),
        ensures
            final(arena).wf(),
            final(arena).base() == old(arena).base(),
            final(arena).raw_base() == old(arena).raw_base(),
            forall|c: int| #[trigger] crate::mem::arena::in_state_range(c) ==> final(arena).state(c) == if is_object_cell(c)
                && old(arena).state(c) == BlockType::White && g@.cell_reached(c) {
                BlockType::Black
            } else {
                old(arena).state(c)
            },
    {
        let ghost g = g@;
        let ghost a0 = *arena;
        let ghost base = a0.base();
        let mut stack = self.root_list();
        assert forall|r: usize| g.roots().contains(r) implies stack@.contains(r) by {
            assert(stack@.to_set().contains(r));
        }
        assert forall|r: usize| g.roots().contains(r) && g.is_valid(r) implies g.reachable(r) by {
            assert(g.is_path(seq![r]));
        }
        let mut visited: HashSet<usize> = HashSet::new();
        let ghost mut seen: Set<int> = Set::empty();
        while stack.len() > 0
            invariant
                g.wf(),
                g.arena() == Some(a0),
                g.info() == self.info(),
                a0.base() == base,
                arena.wf(),
                arena.base() == base,
                arena.raw_base() == a0.raw_base(),
                forall|c: int| #[trigger] crate::mem::arena::in_state_range(c) ==> (arena.state(c) == a0.state(c) || (
                    is_object_cell(c) && a0.state(c) == BlockType::White && arena.state(c) == BlockType::Black
                    && g.cell_reached(c))),
                forall|x: usize| #[trigger] visited@.contains(x) ==> g.is_valid(x) && g.reachable(x)
                    && arena.state(cell_of(x as int)) == BlockType::Black,
                forall|x: usize| #[trigger] visited@.contains(x) <==> seen.contains(x as int),
                seen.subset_of(vstd::set_lib::set_int_range(base as int, base + ARENA_SIZE)),
                forall|j: int| 0 <= j < stack@.len() && g.is_valid(#[trigger] stack@[j]) ==> g.reachable(stack@[j]),
                forall|r: usize| #[trigger] g.roots().contains(r) && g.is_valid(r) ==> (visited@.contains(r)
                    || stack@.contains(r)),
                forall|x: usize, r: usize| #[trigger] g.info().references(x).contains(r) && visited@.contains(x) && g.is_valid(r)
                    ==> (visited@.contains(r) || stack@.contains(r)),
            decreases ARENA_SIZE - seen.len(), stack@.len(),
        {
            proof {
                vstd::set_lib::lemma_int_range(base as int, base + ARENA_SIZE);
                vstd::set_lib::lemma_len_subset(seen, vstd::set_lib::set_int_range(base as int, base + ARENA_SIZE));
            }
            let ghost before = *arena;
            let ghost stack0 = stack@;
            let ghost visited0 = visited@;
            let x = stack.pop().unwrap();
            assert(stack0 == stack@.push(x));
            assert(stack0[stack0.len() - 1] == x);
            let cell = arena.get_cell_id(x);
            let mut valid = false;
            if x != 0 && Arena::get_arena_address_from_object_address(x) == arena.get_arena_address() {
                valid = matches!(arena.get_cell_state(cell), Some(BlockType::White) | Some(BlockType::Black));
            }
            let mut first = false;
            if valid {
                assert(crate::mem::arena::in_state_range(cell as int));
                first = visit(&mut visited, x);
            }
            if first {
                proof {
                    assert(g.is_valid(x));
                    assert(g.reachable(x));
                    let s = seen;
                    seen = seen.insert(x as int);
                    assert(x as int - x as int % 1048576 == base);
                    assert(!s.contains(x as int));
                    assert(seen.len() == s.len() + 1);
                    assert(seen.subset_of(vstd::set_lib::set_int_range(base as int, base + ARENA_SIZE)));
                    vstd::set_lib::lemma_len_subset(seen, vstd::set_lib::set_int_range(base as int, base + ARENA_SIZE));
                }
                arena.set_cell_state(cell, BlockType::Black);
                let mut refs = self.type_information.get_references(x);
                let ghost refs0 = refs@;
                let ghost popped = stack@;
                stack.append(&mut refs);
                proof {
                    assert(stack@ == popped + refs0);
                    let p = choose|p: Seq<usize>| #[trigger] g.is_path(p) && p.last() == x;
                    assert forall|c: int| #[trigger] crate::mem::arena::in_state_range(c) implies (arena.state(c) == a0.state(c) || (
                        is_object_cell(c) && a0.state(c) == BlockType::White && arena.state(c) == BlockType::Black
                        && g.cell_reached(c))) by {
                        assert(before.state(c) == a0.state(c) || (is_object_cell(c) && a0.state(c) == BlockType::White
                            && before.state(c) == BlockType::Black && g.cell_reached(c)));
                        if c == cell as int {
                            assert(g.reachable(x) && cell_of(x as int) == c);
                        }
                    }
                    assert forall|y: usize| #[trigger] visited@.contains(y) implies g.is_valid(y) && g.reachable(y)
                        && arena.state(cell_of(y as int)) == BlockType::Black by {
                        if y != x {
                            assert(visited0.contains(y));
                            assert(crate::mem::arena::in_state_range(cell_of(y as int)));
                        }
                    }
                    assert forall|j: int| 0 <= j < stack@.len() && g.is_valid(#[trigger] stack@[j]) implies g.reachable(stack@[j]) by {
                        if j >= popped.len() {
                            let r = stack@[j];
                            assert(refs0[j - popped.len()] == r);
                            let q = p.push(r);
                            assert(q[q.len() - 2] == x);
                            assert(g.is_path(q));
                        } else {
                            assert(stack0[j] == stack@[j]);
                        }
                    }
                    assert forall|r: usize| #[trigger] g.roots().contains(r) && g.is_valid(r) implies (visited@.contains(r)
                        || stack@.contains(r)) by {
                        if r != x && !visited0.contains(r) {
                            let j = choose|j: int| 0 <= j < stack0.len() && stack0[j] == r;
                            assert(stack@[j] == r);
                        }
                    }
                    assert forall|y: usize, r: usize| #[trigger] g.info().references(y).contains(r) && visited@.contains(y) && g.is_valid(r)
                        implies (visited@.contains(r) || stack@.contains(r)) by {
                        if y == x {
                            let j = choose|j: int| 0 <= j < refs0.len() && refs0[j] == r;
                            assert(stack@[popped.len() + j] == r);
                        } else if r != x && !visited0.contains(r) {
                            let j = choose|j: int| 0 <= j < stack0.len() && stack0[j] == r;
                            assert(stack@[j] == r);
                        }
                    }
                }
            } else {
                proof {
                    assert forall|j: int| 0 <= j < stack@.len() && g.is_valid(#[trigger] stack@[j]) implies g.reachable(stack@[j]) by {
                        assert(stack0[j] == stack@[j]);
                    }
                    if g.is_valid(x) {
                        assert(crate::mem::arena::in_state_range(cell as int));
                        assert(valid);
                        assert(visited@.contains(x));
                    }
                    assert forall|r: usize| #[trigger] g.roots().contains(r) && g.is_valid(r) implies (visited@.contains(r)
                        || stack@.contains(r)) by {
                        if r != x && !visited@.contains(r) {
                            let j = choose|j: int| 0 <= j < stack0.len() && stack0[j] == r;
                            assert(stack@[j] == r);
                        }
                    }
                    assert forall|y: usize, r: usize| #[trigger] g.info().references(y).contains(r) && visited@.contains(y) && g.is_valid(r)
                        implies (visited@.contains(r) || stack@.contains(r)) by {
                        if r != x && !visited@.contains(r) {
                            let j = choose|j: int| 0 <= j < stack0.len() && stack0[j] == r;
                            assert(stack@[j] == r);
                        }
                    }
                }
            }
        }
        proof {
            assert forall|c: int| #[trigger] crate::mem::arena::in_state_range(c) implies arena.state(c) == if is_object_cell(c)
                && a0.state(c) == BlockType::White && g.cell_reached(c) {
                BlockType::Black
            } else {
                a0.state(c)
            } by {
                if is_object_cell(c) && a0.state(c) == BlockType::White && g.cell_reached(c) {
                    let x = choose|x: usize| #[trigger] g.reachable(x) && cell_of(x as int) == c;
                    let p = choose|p: Seq<usize>| #[trigger] g.is_path(p) && p.last() == x;
                    self.lemma_path_visited(visited@, g, p, p.len() - 1);
                }
            }
        }
    }

    /// The roots, each once, in the order the set yields them.
    fn root_list(&self) -> (r: Vec<usize>)
        ensures
            r@.to_set() == self.roots(),
    {
        broadcast use vstd::std_specs::hash::group_hash_axioms;

        let ghost keys = vstd::std_specs::hash::spec_hash_keys_iter(&self.root_references).remaining().unref();
        let mut list: Vec<usize> = Vec::new();
        for root in it: self.root_references.iter()
            invariant
                it.seq().unref() == keys,
                list@ == keys.take(it.index()),
        {
            proof {
                assert(keys.take(it.index() + 1) =~= keys.take(it.index()).push(*root));
            }
            list.push(*root);
        }
        assert(list@ =~= keys);
        list
    }

    /// Once nothing is left to visit, every address on a path from a root
    /// has been visited.
    proof fn lemma_path_visited(&self, visited: Set<usize>, g: GC<T>, p: Seq<usize>, i: int)
        requires
            g.is_path(p),
            0 <= i < p.len(),
            forall|r: usize| #[trigger] g.roots().contains(r) && g.is_valid(r) ==> visited.contains(r),
            forall|x: usize, r: usize| #[trigger] g.info().references(x).contains(r) && visited.contains(x) && g.is_valid(r)
                ==> visited.contains(r),
        ensures
            visited.contains(p[i]),
        decreases i,
    {
        if i > 0 {
            self.lemma_path_visited(visited, g, p, i - 1);
            assert(g.info().references(p[i - 1]).contains(p[i]));
            assert(g.is_valid(p[i]));
        } else {
            assert(g.is_valid(p[0]));
        }
    }

    /// A prefix of a path from a root is a path from a root.
    proof fn lemma_path_prefix(&self, p: Seq<usize>, n: int)
        requires
            self.is_path(p),
            1 <= n <= p.len(),
        ensures
            self.is_path(p.subrange(0, n)),
            self.reachable(p[n - 1]),
    {
        let q = p.subrange(0, n);
        assert(q[0] == p[0]);
        assert forall|i: int| 0 <= i < q.len() implies self.is_valid(#[trigger] q[i]) by {
            assert(q[i] == p[i]);
        }
        assert forall|i: int| 0 <= i < q.len() - 1 implies self.info().references(#[trigger] q[i]).contains(q[i + 1]) by {
            assert(q[i] == p[i] && q[i + 1] == p[i + 1]);
        }
        assert(q.last() == p[n - 1]);
    }

    /// A valid root stays valid across a collection.
    pub proof fn lemma_collect_keeps_roots(before: &Self, after: &Self, a: usize)
        requires
            after.collected_from(before),
            before.roots().contains(a),
            before.is_valid(a),
        ensures
            after.is_valid(a),
    {
        assert(before.is_path(seq![a]));
        Self::lemma_collect_keeps_reachable(before, after, a);
    }

    /// An address reachable from a root stays valid across a collection.
    pub proof fn lemma_collect_keeps_reachable(before: &Self, after: &Self, a: usize)
        requires
            after.collected_from(before),
            before.reachable(a),
        ensures
            after.is_valid(a),
    {
        let p = choose|p: Seq<usize>| #[trigger] before.is_path(p) && p.last() == a;
        assert(before.is_valid(p[p.len() - 1]));
        assert(before.cell_reached(cell_of(a as int)));
    }

    /// An object whose cells no reachable address falls in is reclaimed by a
    /// collection: no address in its head cell stays valid, and all `k`
    /// cells it occupied, its head and its `Extend` cells, are `Free`.
    pub proof fn lemma_collect_reclaims_unreachable(before: &Self, after: &Self, a: usize, k: int)
        requires
            after.collected_from(before),
            before.spans(a, k),
            !before.cell_reached(cell_of(a as int)),
        ensures
            forall|b: usize| cell_of(b as int) == cell_of(a as int) ==> !#[trigger] after.is_valid(b),
            forall|c: int| cell_of(a as int) <= c < cell_of(a as int) + k ==> #[trigger] after.arena().unwrap().state(c) == BlockType::Free,
    {
        assert forall|b: usize| cell_of(b as int) == cell_of(a as int) implies !#[trigger] after.is_valid(b) by {
            assert(after.is_valid(b) == (before.is_valid(b) && before.cell_reached(cell_of(b as int))));
        }
    }

    /// A second collection with nothing changed in between leaves the
    /// validity of every address as the first one left it.
    pub proof fn lemma_collect_idempotent(first: &Self, second: &Self, third: &Self)
        requires
            second.collected_from(first),
            third.collected_from(second),
        ensures
            forall|a: usize| #[trigger] third.is_valid(a) == second.is_valid(a),
    {
        assert forall|a: usize| #[trigger] third.is_valid(a) == second.is_valid(a) by {
            let c = cell_of(a as int);
            if second.is_valid(a) {
                assert(first.cell_reached(c));
                let x = choose|x: usize| #[trigger] first.reachable(x) && cell_of(x as int) == c;
                let p = choose|p: Seq<usize>| #[trigger] first.is_path(p) && p.last() == x;
                assert forall|i: int| 0 <= i < p.len() implies second.is_valid(#[trigger] p[i]) by {
                    first.lemma_path_prefix(p, i + 1);
                    assert(first.is_valid(p[i]));
                    assert(first.cell_reached(cell_of(p[i] as int)));
                }
                assert(second.is_path(p));
                assert(second.reachable(x));
                assert(second.cell_reached(c));
                assert(third.is_valid(a) == (second.is_valid(a) && second.cell_reached(c)));
            }
        }
    }

    /// The arena that holds `address`, if it is registered.
    fn get_containing_arena(&self, address: usize) -> (r: Option<&Arena>)
        ensures
            r is Some <==> (self.arena() is Some && self.arena().unwrap().base() == arena_base_of(address as int)),
            r matches Some(a) ==> *a == self.arena().unwrap(),
    {
        let base = Arena::get_arena_address_from_object_address(address);
        match &self.arena {
            Some(arena) => {
                if arena.get_arena_address() == base {
                    Some(arena)
                } else {
                    None
                }
            },
            None => None,
        }
    }
}

} // verus!
