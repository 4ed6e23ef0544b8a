use arena_gc::mem::arena::Arena;
use arena_gc::mem::arena::BlockType;
use arena_gc::mem::arena::ARENA_SIZE;
use arena_gc::mem::object::Object;
use arena_gc::util::memutil::aligned_region;
use arena_gc::util::memutil::MemoryError;

/// A region of two arena sizes that stays allocated for the rest of the test.
fn fresh_region() -> usize {
    let storage: Vec<u8> = vec![0u8; 2 * ARENA_SIZE];
    let raw = storage.as_ptr() as usize;
    std::mem::forget(storage);
    raw
}

fn fresh_arena() -> Arena {
    let mut arena = Arena::new(fresh_region()).unwrap();
    arena.initialize();
    arena
}

#[test]
fn it_works() {
    let arena = fresh_arena();

    let addr = arena.get_address(6);
    let cell = arena.get_cell_id(addr);

    assert_eq!(6, cell);

    arena.free();
}

#[test]
fn it_allocates_space() {
    let mut arena = fresh_arena();

    let address = arena.allocate_fit(44).unwrap();
    let id = arena.get_cell_id(address);

    assert!(id > 0);

    arena.free();
}

#[test]
fn it_is_referencable_by_addresses() {
    let mut arena = fresh_arena();

    let address = arena.allocate_fit(44).unwrap();

    assert_eq!(Arena::get_arena_address_from_object_address(address), arena.get_arena_address());

    arena.free();
}

#[test]
fn new_arena_is_aligned_inside_its_region() {
    let raw = fresh_region();
    let arena = Arena::new(raw).unwrap();
    let base = arena.get_arena_address();
    assert_eq!(base % ARENA_SIZE, 0);
    assert!(base >= raw && base - raw < ARENA_SIZE);
    assert_eq!(arena.free(), raw);
}

#[test]
fn new_arena_without_memory_is_out_of_memory() {
    assert_eq!(Arena::new(0).err(), Some(MemoryError::OutOfMemory));
    assert_eq!(Arena::new(usize::MAX - ARENA_SIZE).err(), Some(MemoryError::OutOfMemory));
}

#[test]
fn aligned_region_rounds_up_to_alignment() {
    assert_eq!(aligned_region(0x1234, 64, 0x100), Ok((0x1234, 0x1300)));
    assert_eq!(aligned_region(0x1300, 64, 0x100), Ok((0x1300, 0x1300)));
    assert_eq!(aligned_region(0, 64, 0x100), Err(MemoryError::OutOfMemory));
    assert_eq!(aligned_region(usize::MAX - 10, 64, 0x100), Err(MemoryError::OutOfMemory));
}

#[test]
fn initialized_cells_are_free() {
    let arena = fresh_arena();
    assert_eq!(arena.get_cell_state(1024), Some(BlockType::Free));
    assert_eq!(arena.get_cell_state(40000), Some(BlockType::Free));
    assert_eq!(arena.get_cell_state(65535), Some(BlockType::Free));
}

#[test]
fn first_and_last_cell() {
    let arena = fresh_arena();
    assert_eq!(arena.get_first_cell(), 1024);
    assert_eq!(arena.get_last_cell(), 65536);
}

#[test]
fn cell_state_round_trip_and_independence() {
    let mut arena = fresh_arena();
    let states = [BlockType::Extend, BlockType::Free, BlockType::White, BlockType::Black];
    for cell in [1024usize, 1025, 1055, 1056, 2047, 65535] {
        for state in states {
            let left = arena.get_cell_state(cell - 1);
            let right = arena.get_cell_state(cell + 1);
            assert_eq!(arena.set_cell_state(cell, state), Some(()));
            assert_eq!(arena.get_cell_state(cell), Some(state));
            if cell > 1024 {
                assert_eq!(arena.get_cell_state(cell - 1), left);
            }
            assert_eq!(arena.get_cell_state(cell + 1), right);
        }
        arena.set_cell_state(cell, BlockType::Free);
    }
    assert_eq!(arena.get_cell_state(1056), Some(BlockType::Free));
}

#[test]
fn cell_state_out_of_range() {
    let mut arena = fresh_arena();
    assert_eq!(arena.get_cell_state(1023), None);
    assert_eq!(arena.get_cell_state(65537), None);
    assert_eq!(arena.set_cell_state(0, BlockType::White), None);
    assert_eq!(arena.set_cell_state(65537, BlockType::White), None);
    assert!(arena.get_cell_state(65536).is_some());
}

#[test]
fn address_and_cell_are_inverse() {
    let arena = fresh_arena();
    let base = arena.get_arena_address();
    for cell in [0usize, 1, 1023, 1024, 30000, 65535] {
        let address = arena.get_address(cell);
        assert_eq!(address, base + 16 * cell);
        assert_eq!(arena.get_cell_id(address), cell);
        assert_eq!(Arena::get_arena_address_from_object_address(address), base);
    }
    assert_eq!(arena.get_cell_id(base + 16 * 1030 + 7), 1030);
}

#[test]
fn arena_base_clears_low_twenty_bits() {
    assert_eq!(Arena::get_arena_address_from_object_address(0x0123_4567), 0x0120_0000);
    assert_eq!(Arena::get_arena_address_from_object_address(0x0010_0000), 0x0010_0000);
}

#[test]
fn allocation_takes_ceiling_of_cells() {
    let mut arena = fresh_arena();
    let a = arena.allocate_fit(30).unwrap();
    assert_eq!(arena.get_cell_id(a), 1024);
    let b = arena.allocate_fit(15).unwrap();
    assert_eq!(arena.get_cell_id(b), 1026);
    let c = arena.allocate_fit(0).unwrap();
    assert_eq!(arena.get_cell_id(c), 1027);
    let d = arena.allocate_fit(16).unwrap();
    assert_eq!(arena.get_cell_id(d), 1028);
    assert_eq!(a % 16, 0);
    assert_eq!(arena.get_cell_state(1025), Some(BlockType::Extend));
    assert_eq!(arena.get_cell_state(1026), Some(BlockType::White));
}

#[test]
fn three_cell_object_layout() {
    let mut arena = fresh_arena();
    let a = arena.allocate_fit(48).unwrap();
    assert_eq!(arena.get_cell_id(a), 1024);
    assert_eq!(arena.get_cell_state(1024), Some(BlockType::White));
    assert_eq!(arena.get_cell_state(1025), Some(BlockType::Extend));
    assert_eq!(arena.get_cell_state(1026), Some(BlockType::Extend));
    assert_eq!(arena.get_cell_state(1027), Some(BlockType::Free));
    arena.sweep();
    for cell in 1024..1027 {
        assert_eq!(arena.get_cell_state(cell), Some(BlockType::Free));
    }
}

#[test]
fn first_fit_reuses_the_lowest_hole() {
    let mut arena = fresh_arena();
    arena.set_cell_state(1024, BlockType::White);
    arena.set_cell_state(1026, BlockType::White);
    // a one-cell hole at 1025, a long run from 1027
    let a = arena.allocate_fit(32).unwrap();
    assert_eq!(arena.get_cell_id(a), 1027);
    let b = arena.allocate_fit(16).unwrap();
    assert_eq!(arena.get_cell_id(b), 1025);
}

#[test]
fn allocation_too_large_or_full_fails() {
    let mut arena = fresh_arena();
    assert_eq!(arena.allocate_fit(1032193), None);
    let all = arena.allocate_fit(1032192).unwrap();
    assert_eq!(arena.get_cell_id(all), 1024);
    assert_eq!(arena.get_cell_state(65535), Some(BlockType::Extend));
    assert_eq!(arena.allocate_fit(1), None);
    assert_eq!(arena.allocate_bump(16), None);
}

#[test]
fn sweep_keeps_black_objects_for_one_cycle() {
    let mut arena = fresh_arena();
    arena.set_cell_state(1024, BlockType::Black);
    arena.set_cell_state(1025, BlockType::Extend);
    arena.sweep();
    assert_eq!(arena.get_cell_state(1024), Some(BlockType::White));
    assert_eq!(arena.get_cell_state(1025), Some(BlockType::Extend));
    arena.sweep();
    assert_eq!(arena.get_cell_state(1024), Some(BlockType::Free));
    assert_eq!(arena.get_cell_state(1025), Some(BlockType::Free));
}

#[test]
fn object_arena_address_is_a_placeholder() {
    let object = Object::new(0x0123_4567, ARENA_SIZE);
    assert_eq!(object.get_arena_address(), 0);
}
