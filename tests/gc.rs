use std::collections::HashMap;

use arena_gc::mem::arena::ARENA_SIZE;
use arena_gc::GCTypeInformation;
use arena_gc::GC;

/// A region of two arena sizes that stays allocated for the rest of the test.
fn fresh_region() -> usize {
    let storage: Vec<u8> = vec![0u8; 2 * ARENA_SIZE];
    let raw = storage.as_ptr() as usize;
    std::mem::forget(storage);
    raw
}

/// Object fields kept beside the heap: for each address, what it refers to.
#[derive(Default)]
struct TypeInformation {
    fields: HashMap<usize, Vec<usize>>,
}

impl TypeInformation {
    fn point(&mut self, from: usize, to: Vec<usize>) {
        self.fields.insert(from, to);
    }
}

impl GCTypeInformation for TypeInformation {
    fn get_references(&self, address: usize) -> Vec<usize> {
        self.fields.get(&address).cloned().unwrap_or_default()
    }

    fn is_gray(&self, _address: usize) -> bool {
        false
    }

    fn mark_gray(&self, _address: usize) {}

    fn clear_gray(&self, _address: usize) {}
}

/// Size of the test object: a flag and two addresses.
const TEST_STRUCT_SIZE: usize = 24;

fn new_gc(info: TypeInformation) -> GC<TypeInformation> {
    let mut gc = GC::new(info);
    assert!(gc.needs_arena());
    gc.add_arena(fresh_region()).unwrap();
    assert!(!gc.needs_arena());
    gc
}

#[test]
fn it_doesnt_collect_roots() {
    let type_information = TypeInformation::default();
    let mut gc = new_gc(type_information);
    let size = TEST_STRUCT_SIZE;
    let address = gc.allocate(size).unwrap();
    gc.add_root(address);
    gc.collect();
    assert!(gc.is_address_valid(address));
}

#[test]
fn it_does_collect_unreferenced_objects() {
    let type_information = TypeInformation::default();
    let mut gc = new_gc(type_information);
    let size = TEST_STRUCT_SIZE;
    let address = gc.allocate(size).unwrap();
    gc.collect();
    assert!(!gc.is_address_valid(address));
}

#[test]
fn allocate_without_arena_fails() {
    let mut gc = GC::new(TypeInformation::default());
    assert_eq!(gc.allocate(16), None);
    assert!(gc.add_arena(0).is_err());
    assert!(gc.needs_arena());
}

#[test]
fn first_allocations_take_consecutive_cells() {
    let mut gc = new_gc(TypeInformation::default());
    let a = gc.allocate(30).unwrap();
    assert!(a != 0);
    assert_eq!(a % 16, 0);
    assert_eq!((a & 0xFFFFF) >> 4, 1024);
    let b = gc.allocate(15).unwrap();
    assert_eq!((b & 0xFFFFF) >> 4, 1026);
    assert!(gc.is_address_valid(a));
    assert!(gc.is_address_valid(b));
    assert!(!gc.is_address_valid(a + 16));
    assert!(!gc.is_address_valid(b + 16));
    gc.add_root(a);
    gc.collect();
    assert!(gc.is_address_valid(a));
    assert!(!gc.is_address_valid(b));
}

#[test]
fn zero_and_foreign_addresses_are_invalid() {
    let mut gc = new_gc(TypeInformation::default());
    let a = gc.allocate(16).unwrap();
    assert!(!gc.is_address_valid(0));
    assert!(!gc.is_address_valid(a ^ (1 << 40)));
    assert!(!gc.is_address_valid(a - 16 * 1024));
}

#[test]
fn reachable_objects_survive_until_dropped() {
    let info = TypeInformation::default();
    let mut gc = new_gc(info);
    let a = gc.allocate(TEST_STRUCT_SIZE).unwrap();
    let b = gc.allocate(TEST_STRUCT_SIZE).unwrap();
    let c = gc.allocate(TEST_STRUCT_SIZE).unwrap();
    gc.add_root(a);
    gc.add_root(b);
    gc.type_information_mut().point(a, vec![c]);
    gc.collect();
    assert!(gc.is_address_valid(a));
    assert!(gc.is_address_valid(b));
    assert!(gc.is_address_valid(c));
    gc.type_information_mut().point(a, vec![]);
    gc.collect();
    assert!(gc.is_address_valid(a));
    assert!(gc.is_address_valid(b));
    assert!(!gc.is_address_valid(c));
}

#[test]
fn cycles_are_collected_and_kept_as_a_whole() {
    let info = TypeInformation::default();
    let mut gc = new_gc(info);
    let a = gc.allocate(64).unwrap();
    let b = gc.allocate(16).unwrap();
    let c = gc.allocate(16).unwrap();
    gc.type_information_mut().point(a, vec![b, b]);
    gc.type_information_mut().point(b, vec![c]);
    gc.type_information_mut().point(c, vec![a]);
    gc.add_root(c);
    gc.collect();
    assert!(gc.is_address_valid(a) && gc.is_address_valid(b) && gc.is_address_valid(c));
    assert!(gc.remove_root(c));
    gc.collect();
    assert!(!gc.is_address_valid(a) && !gc.is_address_valid(b) && !gc.is_address_valid(c));
    // the freed cells, a's four among them, are reused from the start
    let d = gc.allocate(96).unwrap();
    assert_eq!(d, a);
}

#[test]
fn collection_is_idempotent() {
    let info = TypeInformation::default();
    let mut gc = new_gc(info);
    let a = gc.allocate(40).unwrap();
    let b = gc.allocate(40).unwrap();
    let c = gc.allocate(40).unwrap();
    gc.type_information_mut().point(a, vec![c]);
    gc.add_root(a);
    gc.collect();
    let first: Vec<bool> = [a, b, c, a + 16].iter().map(|x| gc.is_address_valid(*x)).collect();
    gc.collect();
    let second: Vec<bool> = [a, b, c, a + 16].iter().map(|x| gc.is_address_valid(*x)).collect();
    assert_eq!(first, vec![true, false, true, false]);
    assert_eq!(first, second);
}

#[test]
fn reclaimed_multi_cell_object_frees_every_cell() {
    let mut gc = new_gc(TypeInformation::default());
    let a = gc.allocate(48).unwrap();
    gc.collect();
    assert!(!gc.is_address_valid(a));
    // all three cells are free again: a three-cell object fits at the same place
    let b = gc.allocate(48).unwrap();
    assert_eq!(a, b);
    let c = gc.allocate(16).unwrap();
    assert_eq!(c, a + 48);
}

#[test]
fn roots_are_a_set() {
    let mut gc = new_gc(TypeInformation::default());
    assert!(gc.add_root(100));
    assert!(!gc.add_root(100));
    assert!(gc.add_root(200));
    assert!(gc.remove_root(100));
    assert!(!gc.remove_root(100));
    assert!(gc.remove_root(200));
}

#[test]
fn invalid_roots_and_references_are_ignored() {
    let info = TypeInformation::default();
    let mut gc = new_gc(info);
    let a = gc.allocate(16).unwrap();
    gc.type_information_mut().point(a, vec![0, 12345, a + 8]);
    gc.add_root(a);
    gc.add_root(0);
    gc.add_root(7);
    gc.collect();
    assert!(gc.is_address_valid(a));
}

#[test]
fn allocations_are_aligned_and_in_the_arena() {
    let mut gc = GC::new(TypeInformation::default());
    let base = gc.add_arena(fresh_region()).unwrap();
    assert_eq!(base % ARENA_SIZE, 0);
    for size in [1usize, 17, 100, 4096] {
        let a = gc.allocate(size).unwrap();
        assert_eq!(a & 15, 0);
        assert_eq!(a & !0xFFFFF, base);
    }
}

#[test]
fn oversized_allocation_fails_cleanly() {
    let mut gc = new_gc(TypeInformation::default());
    assert_eq!(gc.allocate(1032193), None);
    let a = gc.allocate(16).unwrap();
    assert_eq!((a & 0xFFFFF) >> 4, 1024);
}

#[test]
fn release_hands_back_the_region() {
    let mut gc = GC::new(TypeInformation::default());
    assert_eq!(gc.release_arena(), None);
    let raw = fresh_region();
    gc.add_arena(raw).unwrap();
    assert_eq!(gc.release_arena(), Some(raw));
    assert!(gc.needs_arena());
    assert_eq!(gc.allocate(16), None);
}

#[test]
fn interior_root_keeps_its_object() {
    let mut gc = new_gc(TypeInformation::default());
    let a = gc.allocate(TEST_STRUCT_SIZE).unwrap();
    assert!(gc.is_address_valid(a + 8));
    gc.add_root(a + 8);
    gc.collect();
    assert!(gc.is_address_valid(a));
    assert!(gc.is_address_valid(a + 8));
}

#[test]
fn interior_reference_keeps_its_object() {
    let mut gc = new_gc(TypeInformation::default());
    let a = gc.allocate(16).unwrap();
    let b = gc.allocate(16).unwrap();
    let c = gc.allocate(16).unwrap();
    gc.type_information_mut().point(a, vec![b + 8]);
    gc.type_information_mut().point(b + 8, vec![c]);
    gc.add_root(a);
    gc.collect();
    assert!(gc.is_address_valid(b));
    assert!(gc.is_address_valid(c));
}
