use vstd::prelude::*;

use crate::util::memutil;
use crate::util::memutil::MemoryError;

verus! {

pub type CellId = usize;

pub type Word = u32;

/// Size and alignment of an arena: 1 MiB.
pub const ARENA_SIZE: usize = 1048576;

/// Size of a cell, the allocation quantum.
pub const CELL_SIZE: usize = 16;

/// Low bits of an address that give its offset inside its arena.
pub const ARENA_CELL_MASK: usize = 1048575;

/// Bytes at the start of an arena whose cells are given over to the bitmaps.
pub const ARENA_METADATA_SIZE: usize = 16384;

/// The largest object an arena can hold.
pub const ARENA_MAX_OBJECT_MEMORY: usize = 1032192;

/// The first cell that can hold an object.
pub const MIN_CELL_ID: usize = 1024;

/// One past the last cell of an arena.
pub const MAX_CELL_ID: usize = 65536;

/// Cells per bitmap word.
pub const BLOCKSET_BITS: usize = 32;

const BLOCKSET_MASK: usize = 31;

/// First bitmap word that covers object storage.
const MIN_BLOCK_WORD: usize = 32;

/// One past the last bitmap word that covers object storage.
const MAX_BLOCK_WORD: usize = 2048;

/// Words in each bitmap: one per 32 cells, and one more for the bit of the
/// one-past-the-end cell, which the range rule of the state accessors admits.
const BITMAP_WORDS: usize = 2049;

/// Cells that the bitmaps hold a bit for: every bit of every word belongs
/// to one of them.
pub const BITMAP_CELLS: usize = 65568;

/// The state of a cell, spelled by its (block, mark) bits.
#[derive(PartialEq, Eq, Debug, Structural, Clone, Copy)]
pub enum BlockType {
    /// (0, 0): a later cell of a multi-cell object.
    Extend,
    /// (0, 1): available for allocation.
    Free,
    /// (1, 0): head of an object not reached in this cycle.
    White,
    /// (1, 1): head of an object reached in this cycle.
    Black,
}

/// Bit `p` of `w`.
pub open spec fn bit_of(w: u32, p: u32) -> bool {
    (w >> p) & 1u32 == 1u32
}

/// The state that a (block, mark) pair of bits spells.
pub open spec fn decode(block: bool, mark: bool) -> BlockType {
    if block {
        if mark {
            BlockType::Black
        } else {
            BlockType::White
        }
    } else {
        if mark {
            BlockType::Free
        } else {
            BlockType::Extend
        }
    }
}

/// Cells whose state the accessors read and write.
pub open spec fn in_state_range(c: int) -> bool {
    MIN_CELL_ID <= c <= MAX_CELL_ID
}

/// Cells that the bitmaps describe, the reserved ones below
/// `MIN_CELL_ID` included.
pub open spec fn in_bitmap(c: int) -> bool {
    0 <= c < BITMAP_CELLS
}

/// Cells that can hold objects.
pub open spec fn is_object_cell(c: int) -> bool {
    MIN_CELL_ID <= c < MAX_CELL_ID
}

/// The number of cells that an object of `size` bytes occupies.
pub open spec fn cells_for(size: int) -> int {
    (size + CELL_SIZE - 1) / CELL_SIZE as int
}

/// The base of the arena that holds `address`: its low 20 bits cleared.
pub open spec fn arena_base_of(address: int) -> int {
    address - address % ARENA_SIZE as int
}

/// The cell of its arena that `address` falls in.
pub open spec fn cell_of(address: int) -> int {
    (address % ARENA_SIZE as int) / CELL_SIZE as int
}

proof fn lemma_set_bit(w: u32, p: u32, q: u32)
    by (bit_vector)
    requires
        p < 32,
        q < 32,
    ensures
        ((w | (1u32 << p)) >> q) & 1u32 == 1u32 <==> (q == p || (w >> q) & 1u32 == 1u32),
{
}

proof fn lemma_clear_bit(w: u32, p: u32, q: u32)
    by (bit_vector)
    requires
        p < 32,
        q < 32,
    ensures
        ((w & !(1u32 << p)) >> q) & 1u32 == 1u32 <==> (q != p && (w >> q) & 1u32 == 1u32),
{
}

proof fn lemma_read_bit(w: u32, p: u32)
    by (bit_vector)
    requires
        p < 32,
    ensures
        (w & (1u32 << p)) >> p == (w >> p) & 1u32,
        (w >> p) & 1u32 <= 1,
{
}

proof fn lemma_all_bits(p: u32)
    by (bit_vector)
    requires
        p < 32,
    ensures
        (0u32 >> p) & 1u32 == 0u32,
        (0xFFFF_FFFFu32 >> p) & 1u32 == 1u32,
{
}

proof fn lemma_word_position(c: usize)
    by (bit_vector)
    ensures
        c & 31 == c % 32,
        c >> 5 == c / 32,
{
}

proof fn lemma_address_bits(address: usize)
    by (bit_vector)
    ensures
        address & !1048575usize == address - address % 1048576,
        (address & 1048575usize) >> 4 == (address % 1048576) / 16,
{
}

/// A 1 MiB region aligned to 1 MiB, divided into 16-byte cells.
///
/// The state of each cell is held in two bitmaps, a block bitmap and a mark
/// bitmap, of one bit per cell in 32-bit words: cell `c` has bit `c % 32` of
/// word `c / 32`. Together the two bitmaps take the first 1/64 of the region,
/// so cells below `MIN_CELL_ID` never hold objects.
#[derive(Debug)]
pub struct Arena {
    actual_address: usize,
    address: usize,
    block_words: Vec<Word>,
    mark_words: Vec<Word>,
}

impl Arena {
    /// The arena's base: its identity, and the start of its cells.
    pub closed spec fn base(&self) -> usize {
        self.address
    }

    /// The pointer that the system allocator returned for this arena.
    pub closed spec fn raw_base(&self) -> usize {
        self.actual_address
    }

    /// The state of cell `c`, for `c` in the state range.
    pub closed spec fn state(&self, c: int) -> BlockType {
        decode(
            bit_of(self.block_words@[c / 32], (c % 32) as u32),
            bit_of(self.mark_words@[c / 32], (c % 32) as u32),
        )
    }

    pub closed spec fn wf(&self) -> bool {
        &&& self.address % ARENA_SIZE == 0
        &&& self.address + ARENA_SIZE <= usize::MAX
        &&& self.actual_address <= self.address
        &&& self.block_words.len() == BITMAP_WORDS
        &&& self.mark_words.len() == BITMAP_WORDS
    }

    /// Lays an arena out in a region of `2 * ARENA_SIZE` bytes that the
    /// system allocator returned at `raw_region` (zero when it refused). All
    /// cells start as `Extend` until [`Arena::initialize`].
    pub fn new(raw_region: usize) -> (r: Result<Arena, MemoryError>)
        ensures
            r is Ok <==> (raw_region != 0 && raw_region + 2 * ARENA_SIZE <= usize::MAX),
            r is Err ==> r == Err::<Arena, MemoryError>(MemoryError::OutOfMemory),
            r matches Ok(a) ==> {
                &&& a.wf()
                &&& a.raw_base() == raw_region
                &&& a.base() % ARENA_SIZE == 0
                &&& raw_region <= a.base() < raw_region + ARENA_SIZE
                &&& forall|c: int| in_state_range(c) ==> #[trigger] a.state(c) == BlockType::Extend
            },
    {
        let region = memutil::aligned_region(raw_region, ARENA_SIZE, ARENA_SIZE);
        match region {
            Err(e) => Err(e),
            Ok((actual_address, address)) => {
                let block_words: Vec<Word> = vec![0u32; BITMAP_WORDS];
                let mark_words: Vec<Word> = vec![0u32; BITMAP_WORDS];
                let arena = Arena { actual_address, address, block_words, mark_words };
                assert forall|c: int| in_state_range(c) implies #[trigger] arena.state(c)
                    == BlockType::Extend by {
                    lemma_all_bits((c % 32) as u32);
                }
                Ok(arena)
            },
        }
    }

    /// The base of the arena that holds `address`.
    pub fn get_arena_address_from_object_address(address: usize) -> (r: usize)
        ensures
            r == arena_base_of(address as int),
    {
        proof {
            lemma_address_bits(address);
        }
        address & !ARENA_CELL_MASK
    }

    pub fn get_arena_address(&self) -> (r: usize)
        ensures
            r == self.base(),
    {
        self.address
    }

    /// Makes every cell that can hold an object `Free`: clears the block
    /// bitmap and sets the mark bitmap over the words that cover object
    /// storage. The words that cover the bitmaps themselves are left alone.
    pub fn initialize(&mut self)
        requires
            old(self).wf(),
        ensures
            final(self).wf(),
            final(self).base() == old(self).base(),
            final(self).raw_base() == old(self).raw_base(),
            forall|c: int| is_object_cell(c) ==> #[trigger] final(self).state(c) == BlockType::Free,
            forall|c: int| in_bitmap(c) && !is_object_cell(c) ==> #[trigger] final(self).state(c) == old(self).state(c),
    {
        let block_word: Word = 0;
        let mark_word: Word = 0xFFFF_FFFF;
        let ghost before = *self;
        for i in MIN_BLOCK_WORD..MAX_BLOCK_WORD
            invariant
                block_word == 0u32,
                mark_word == 0xFFFF_FFFFu32,
                self.wf(),
                self.base() == before.base(),
                self.raw_base() == before.raw_base(),
                forall|j: int| MIN_BLOCK_WORD <= j < i ==> self.block_words@[j] == 0u32 && self.mark_words@[j] == 0xFFFF_FFFFu32,
                forall|j: int| 0 <= j < BITMAP_WORDS && !(MIN_BLOCK_WORD <= j < i) ==> self.block_words@[j] == before.block_words@[j] && self.mark_words@[j] == before.mark_words@[j],
        {
            let first_cell_of_word = i * BLOCKSET_BITS;
            assert(first_cell_of_word as int / 32 == i);
            self.set_block_word(first_cell_of_word, block_word);
            self.set_mark_word(first_cell_of_word, mark_word);
        }
        assert forall|c: int| is_object_cell(c) implies #[trigger] self.state(c) == BlockType::Free by {
            lemma_all_bits((c % 32) as u32);
        }
        assert forall|c: int| in_bitmap(c) && !is_object_cell(c) implies #[trigger] self.state(c) == before.state(c) by {
            assert(c / 32 < 32 || c / 32 == 2048);
        }
    }

    pub fn get_first_cell(&self) -> (r: CellId)
        ensures
            r == MIN_CELL_ID,
    {
        MIN_CELL_ID
    }

    pub fn get_last_cell(&self) -> (r: CellId)
        ensures
            r == MAX_CELL_ID,
    {
        MAX_CELL_ID
    }

    /// Writes the two bits of `cell`, leaving every other bit as it was.
    /// Cells outside `[MIN_CELL_ID, MAX_CELL_ID]` are refused with `None`.
    pub fn set_cell_state(&mut self, cell: CellId, state: BlockType) -> (r: Option<()>)
        requires
            old(self).wf(),
        ensures
            final(self).wf(),
            final(self).base() == old(self).base(),
            final(self).raw_base() == old(self).raw_base(),
            r is Some <==> in_state_range(cell as int),
            r is None ==> *final(self) == *old(self),
            forall|c: int| in_bitmap(c) ==> #[trigger] final(self).state(c) == if r is Some && c == cell {
                state
            } else {
                old(self).state(c)
            },
    {
        if cell < MIN_CELL_ID {
            return None;
        }
        if cell > MAX_CELL_ID {
            return None;
        }
        let ghost before = *self;
        let position = self.get_bit_index(cell);
        let mut block_word = self.get_block_word(cell);
        let mut mark_word = self.get_mark_word(cell);
        let old_block = block_word;
        let old_mark = mark_word;
        let (block, mark) = match state {
            BlockType::Extend => (false, false),
            BlockType::Free => (false, true),
            BlockType::White => (true, false),
            BlockType::Black => (true, true),
        };
        if block {
            block_word = block_word | (1u32 << position as u32);
        } else {
            block_word = block_word & !(1u32 << position as u32);
        }
        if mark {
            mark_word = mark_word | (1u32 << position as u32);
        } else {
            mark_word = mark_word & !(1u32 << position as u32);
        }
        proof {
            assert forall|q: u32| q < 32 implies bit_of(block_word, q) == (if q == position as u32 { block } else { bit_of(old_block, q) })
                && bit_of(mark_word, q) == (if q == position as u32 { mark } else { bit_of(old_mark, q) }) by {
                lemma_set_bit(old_block, position as u32, q);
                lemma_clear_bit(old_block, position as u32, q);
                lemma_set_bit(old_mark, position as u32, q);
                lemma_clear_bit(old_mark, position as u32, q);
            }
        }
        self.set_block_word(cell, block_word);
        self.set_mark_word(cell, mark_word);
        proof {
            assert forall|c: int| in_bitmap(c) implies #[trigger] self.state(c) == if c == cell {
                state
            } else {
                before.state(c)
            } by {
                let q = (c % 32) as u32;
                assert(bit_of(block_word, q) == (if q == position as u32 { block } else { bit_of(old_block, q) }));
                assert(bit_of(mark_word, q) == (if q == position as u32 { mark } else { bit_of(old_mark, q) }));
                if c / 32 == cell / 32 && c != cell {
                    assert(c % 32 != cell % 32);
                }
            }
        }
        Some(())
    }

    /// Decodes the two bits of `cell`. Cells outside
    /// `[MIN_CELL_ID, MAX_CELL_ID]` are refused with `None`.
    pub fn get_cell_state(&self, cell: CellId) -> (r: Option<BlockType>)
        requires
            self.wf(),
        ensures
            r is Some <==> in_state_range(cell as int),
            r is Some ==> r == Some(self.state(cell as int)),
    {
        if cell < MIN_CELL_ID {
            return None;
        }
        if cell > MAX_CELL_ID {
            return None;
        }
        let position = self.get_bit_index(cell);
        let block_word = self.get_block_word(cell);
        let mark_word = self.get_mark_word(cell);
        let block = (block_word & (1u32 << position as u32)) >> position as u32;
        let mark = (mark_word & (1u32 << position as u32)) >> position as u32;
        proof {
            lemma_read_bit(block_word, position as u32);
            lemma_read_bit(mark_word, position as u32);
        }
        match block * 2 + mark {
            0 => Some(BlockType::Extend),
            1 => Some(BlockType::Free),
            2 => Some(BlockType::White),
            _ => Some(BlockType::Black),
        }
    }

    /// The cell that `address` falls in, within whichever arena holds it.
    /// Not checked against the range of object cells.
    pub fn get_cell_id(&self, address: usize) -> (r: CellId)
        ensures
            r == cell_of(address as int),
            r < MAX_CELL_ID,
    {
        proof {
            lemma_address_bits(address);
        }
        (address & ARENA_CELL_MASK) >> 4
    }

    /// The address of the first byte of `cell`.
    pub fn get_address(&self, cell: CellId) -> (r: usize)
        requires
            self.wf(),
            cell <= MAX_CELL_ID,
        ensures
            r == self.base() + CELL_SIZE * cell,
    {
        self.address + (CELL_SIZE * cell)
    }

    /// The number of cells that an object of `size` bytes occupies.
    fn get_cells_needed_to_store(&self, size: usize) -> (r: usize)
        ensures
            r == cells_for(size as int),
    {
        if size % CELL_SIZE > 0 {
            (size / CELL_SIZE) + 1
        } else {
            size / CELL_SIZE
        }
    }

    /// The word of the mark bitmap that holds the bit of `cell`.
    fn get_mark_word(&self, cell: CellId) -> (r: Word)
        requires
            self.wf(),
            cell <= MAX_CELL_ID,
        ensures
            r == self.mark_words@[cell as int / 32],
    {
        proof {
            lemma_word_position(cell);
        }
        self.mark_words[cell >> 5]
    }

    fn set_mark_word(&mut self, cell: CellId, word: Word)
        requires
            old(self).wf(),
            cell <= MAX_CELL_ID,
        ensures
            final(self).wf(),
            final(self).address == old(self).address,
            final(self).actual_address == old(self).actual_address,
            final(self).block_words == old(self).block_words,
            final(self).mark_words@ == old(self).mark_words@.update(cell as int / 32, word),
    {
        proof {
            lemma_word_position(cell);
        }
        self.mark_words.set(cell >> 5, word);
    }

    /// The word of the block bitmap that holds the bit of `cell`.
    fn get_block_word(&self, cell: CellId) -> (r: Word)
        requires
            self.wf(),
            cell <= MAX_CELL_ID,
        ensures
            r == self.block_words@[cell as int / 32],
    {
        proof {
            lemma_word_position(cell);
        }
        self.block_words[cell >> 5]
    }

    fn set_block_word(&mut self, cell: CellId, word: Word)
        requires
            old(self).wf(),
            cell <= MAX_CELL_ID,
        ensures
            final(self).wf(),
            final(self).address == old(self).address,
            final(self).actual_address == old(self).actual_address,
            final(self).mark_words == old(self).mark_words,
            final(self).block_words@ == old(self).block_words@.update(cell as int / 32, word),
    {
        proof {
            lemma_word_position(cell);
        }
        self.block_words.set(cell >> 5, word);
    }

    /// The position of the bit of `cell` within its word.
    fn get_bit_index(&self, cell: CellId) -> (r: usize)
        ensures
            r == cell % 32,
    {
        proof {
            lemma_word_position(cell);
        }
        cell & BLOCKSET_MASK
    }

    /// Cells `[start, start + n)` are object cells and all `Free`.
    pub open spec fn is_free_run(&self, start: int, n: int) -> bool {
        &&& MIN_CELL_ID <= start
        &&& start + n <= MAX_CELL_ID
        &&& forall|c: int| start <= c < start + n ==> #[trigger] self.state(c) == BlockType::Free
    }

    /// What `allocate_fit(size)` did to `before`, giving `self` and `r`:
    /// with `None`, nothing; with the address of cell `s`, `s` is the lowest
    /// start of a long enough free run, its first cell is now a `White` head
    /// and the others `Extend`.
    pub open spec fn allocated(&self, before: &Arena, size: int, r: Option<usize>) -> bool {
        &&& r is None ==> *self == *before
        &&& r matches Some(address) ==> {
            let s = (address - before.base()) / CELL_SIZE as int;
            let n = cells_needed(size);
            &&& address == before.base() + CELL_SIZE * s
            &&& before.is_free_run(s, n)
            &&& forall|t: int| MIN_CELL_ID <= t < s ==> !before.is_free_run(t, n)
            &&& forall|c: int| in_bitmap(c) ==> #[trigger] self.state(c) == if c == s {
                BlockType::White
            } else if s < c < s + n {
                BlockType::Extend
            } else {
                before.state(c)
            }
        }
    }

    /// First-fit allocation of `size` bytes: finds the lowest run of free
    /// cells long enough for the object (one cell for an empty object), makes
    /// its first cell a `White` head and the others `Extend`, and returns the
    /// head's address. Returns `None`, changing nothing, when `size` exceeds
    /// `ARENA_MAX_OBJECT_MEMORY` or no run fits.
    pub fn allocate_fit(&mut self, size: usize) -> (r: Option<usize>)
        requires
            old(self).wf(),
        ensures
            final(self).wf(),
            final(self).base() == old(self).base(),
            final(self).raw_base() == old(self).raw_base(),
            r is Some <==> (size <= ARENA_MAX_OBJECT_MEMORY && exists|s: int|
                old(self).is_free_run(s, cells_needed(size as int))),
            final(self).allocated(old(self), size as int, r),
    {
        if size > ARENA_MAX_OBJECT_MEMORY {
            return None;
        }
        let mut cells = self.get_cells_needed_to_store(size);
        if cells == 0 {
            cells = 1;
        }
        let ghost n = cells as int;
        assert(n == cells_needed(size as int));
        let mut run: usize = 0;
        let mut i: usize = MIN_CELL_ID;
        while i < MAX_CELL_ID && run < cells
            invariant
                self.wf(),
                1 <= cells <= MAX_CELL_ID,
                MIN_CELL_ID <= i <= MAX_CELL_ID,
                run <= cells,
                run <= i - MIN_CELL_ID,
                forall|c: int| i - run <= c < i ==> #[trigger] self.state(c) == BlockType::Free,
                forall|t: int| MIN_CELL_ID <= t < i - run ==> !self.is_free_run(t, cells as int),
            decreases MAX_CELL_ID - i,
        {
            let ghost prev_run = run;
            if matches!(self.get_cell_state(i), Some(BlockType::Free)) {
                run = run + 1;
            } else {
                run = 0;
                assert forall|t: int| MIN_CELL_ID <= t < i + 1 implies !self.is_free_run(t, cells as int) by {
                    if t >= i - prev_run && self.is_free_run(t, cells as int) {
                        if t + cells > i {
                            assert(self.state(i as int) == BlockType::Free);
                        }
                    }
                }
            }
            i = i + 1;
        }
        if run < cells {
            assert forall|t: int| !self.is_free_run(t, n) by {
                if MIN_CELL_ID <= t && t >= i - run && t + n <= MAX_CELL_ID {
                }
            }
            return None;
        }
        let start = i - cells;
        let ghost before = *self;
        assert(before.is_free_run(start as int, n));
        self.set_cell_state(start, BlockType::White);
        let mut k: usize = 1;
        while k < cells
            invariant
                self.wf(),
                self.base() == before.base(),
                self.raw_base() == before.raw_base(),
                1 <= k <= cells,
                start + cells <= MAX_CELL_ID,
                MIN_CELL_ID <= start,
                forall|c: int| in_bitmap(c) ==> #[trigger] self.state(c) == if c == start {
                    BlockType::White
                } else if start < c < start + k {
                    BlockType::Extend
                } else {
                    before.state(c)
                },
            decreases cells - k,
        {
            self.set_cell_state(start + k, BlockType::Extend);
            k = k + 1;
        }
        let address = self.get_address(start);
        assert((address - before.base()) / CELL_SIZE as int == start) by (nonlinear_arith)
            requires
                address == before.base() + CELL_SIZE * start,
        ;
        Some(address)
    }

    /// Whether the sweep, on reaching cell `c`, frees the `Extend` cells it
    /// meets: set by a `White` head, carried across `Extend` cells, cleared by
    /// a `Black` head or a `Free` cell.
    pub open spec fn clear_before(&self, c: int) -> bool
        decreases c - MIN_CELL_ID,
    {
        if c <= MIN_CELL_ID {
            false
        } else {
            match self.state(c - 1) {
                BlockType::Black => false,
                BlockType::White => true,
                BlockType::Extend => self.clear_before(c - 1),
                BlockType::Free => false,
            }
        }
    }

    /// The state of object cell `c` after a sweep of this arena: a `Black`
    /// head turns `White`, a `White` head is freed with the `Extend` cells
    /// that follow it, and everything else stays.
    pub open spec fn swept_state(&self, c: int) -> BlockType {
        match self.state(c) {
            BlockType::Black => BlockType::White,
            BlockType::White => BlockType::Free,
            BlockType::Extend => if self.clear_before(c) {
                BlockType::Free
            } else {
                BlockType::Extend
            },
            BlockType::Free => BlockType::Free,
        }
    }

    /// Sweeps the object cells in order: survivors' heads go from `Black` to
    /// `White`, and objects whose head is still `White` are freed, all their
    /// cells.
    pub fn sweep(&mut self)
        requires
            old(self).wf(),
        ensures
            final(self).wf(),
            final(self).base() == old(self).base(),
            final(self).raw_base() == old(self).raw_base(),
            forall|c: int| is_object_cell(c) ==> #[trigger] final(self).state(c) == old(self).swept_state(c),
            forall|c: int| in_bitmap(c) && !is_object_cell(c) ==> #[trigger] final(self).state(c) == old(self).state(c),
    {
        let ghost before = *self;
        let mut clear = false;
        let mut cell: usize = MIN_CELL_ID;
        while cell < MAX_CELL_ID
            invariant
                self.wf(),
                self.base() == before.base(),
                self.raw_base() == before.raw_base(),
                MIN_CELL_ID <= cell <= MAX_CELL_ID,
                clear == before.clear_before(cell as int),
                forall|c: int| MIN_CELL_ID <= c < cell ==> #[trigger] self.state(c) == before.swept_state(c),
                forall|c: int| in_bitmap(c) && !(MIN_CELL_ID <= c < cell) ==> #[trigger] self.state(c) == before.state(c),
            decreases MAX_CELL_ID - cell,
        {
            match self.get_cell_state(cell) {
                Some(BlockType::Black) => {
                    self.set_cell_state(cell, BlockType::White);
                    clear = false;
                },
                Some(BlockType::White) => {
                    self.set_cell_state(cell, BlockType::Free);
                    clear = true;
                },
                Some(BlockType::Extend) => {
                    if clear {
                        self.set_cell_state(cell, BlockType::Free);
                    }
                },
                _ => {
                    clear = false;
                },
            }
            cell = cell + 1;
        }
    }

    /// An object whose head is at `h` and whose `k - 1` later cells are
    /// `Extend` is swept as one: its later cells are freed exactly when its
    /// head is `White`.
    pub proof fn lemma_sweep_object(&self, h: int, k: int)
        requires
            is_object_cell(h),
            1 <= k,
            h + k <= MAX_CELL_ID,
            self.state(h) == BlockType::White || self.state(h) == BlockType::Black,
            forall|c: int| h < c < h + k ==> #[trigger] self.state(c) == BlockType::Extend,
        ensures
            forall|c: int| h < c < h + k ==> #[trigger] self.clear_before(c) == (self.state(h) == BlockType::White),
        decreases k,
    {
        if k > 1 {
            self.lemma_sweep_object(h, k - 1);
            let c = h + k - 1;
            assert(self.clear_before(c) == (self.state(h) == BlockType::White)) by {
                if k - 1 > 1 {
                    assert(self.state(c - 1) == BlockType::Extend);
                    assert(self.clear_before(c - 1) == (self.state(h) == BlockType::White));
                }
            }
        }
    }

    /// Bump allocation is not offered: always `None`.
    pub fn allocate_bump(&self, size: usize) -> (r: Option<usize>)
        ensures
            r is None,
    {
        None
    }

    /// Gives the arena up, handing back the pointer that the system
    /// allocator returned for it, which is what must be released.
    pub fn free(self) -> (r: usize)
        ensures
            r == self.raw_base(),
    {
        self.actual_address
    }
}

/// The number of cells that `allocate_fit` takes for an object of `size`
/// bytes: at least one, for the head.
pub open spec fn cells_needed(size: int) -> int {
    if size == 0 {
        1
    } else {
        cells_for(size)
    }
}

/// An address of a cell lies in that cell, in that arena, on a cell boundary.
pub proof fn lemma_cell_address_inverse(arena: &Arena, c: int)
    requires
        arena.wf(),
        0 <= c < MAX_CELL_ID,
    ensures
        cell_of(arena.base() + CELL_SIZE * c) == c,
        arena_base_of(arena.base() + CELL_SIZE * c) == arena.base(),
        (arena.base() + CELL_SIZE * c) % CELL_SIZE as int == 0,
{
    let b = arena.base() as int;
    let k = b / ARENA_SIZE as int;
    assert(b == ARENA_SIZE * k) by {
        vstd::arithmetic::div_mod::lemma_fundamental_div_mod(b, ARENA_SIZE as int);
    }
    assert((ARENA_SIZE * k + CELL_SIZE * c) % ARENA_SIZE as int == CELL_SIZE * c) by {
        vstd::arithmetic::div_mod::lemma_mod_multiples_vanish(k, CELL_SIZE * c, ARENA_SIZE as int);
        vstd::arithmetic::div_mod::lemma_small_mod((CELL_SIZE * c) as nat, ARENA_SIZE as nat);
    }
    assert((CELL_SIZE * c) / CELL_SIZE as int == c) by {
        vstd::arithmetic::div_mod::lemma_div_multiples_vanish(c, CELL_SIZE as int);
    }
    assert((ARENA_SIZE * k + CELL_SIZE * c) % CELL_SIZE as int == 0) by {
        assert(ARENA_SIZE * k + CELL_SIZE * c == CELL_SIZE * (65536 * k + c)) by (nonlinear_arith);
        vstd::arithmetic::div_mod::lemma_mod_multiples_basic(65536 * k + c, CELL_SIZE as int);
    }
}

} // verus!
