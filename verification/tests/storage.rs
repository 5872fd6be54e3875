use std::cell::RefCell;

use amethyst_assets::asset::Asset;
use amethyst_assets::handle::Handle;
use amethyst_assets::storage::AssetStorage;
use std::sync::Arc;

#[derive(Debug, PartialEq)]
struct Tile {
    n: u8,
}

impl Asset for Tile {
    fn name() -> &'static str {
        "Tile"
    }

    type Data = u8;
}

#[test]
fn new_storage_holds_nothing() {
    let storage: AssetStorage<Tile> = AssetStorage::new();
    assert!(!storage.is_loaded(&0u32));
    assert!(!storage.is_reserved(0));
    assert_eq!(storage.get(&0u32), None);
    assert_eq!(storage.get_version(&0u32), None);
    assert!(storage.get_asset_with_version(&7u32).is_none());
}

#[test]
fn allocate_hands_out_dense_handles_without_assets() {
    let mut storage: AssetStorage<Tile> = AssetStorage::new();
    assert_eq!(storage.allocate(), Some(0));
    assert_eq!(storage.allocate(), Some(1));
    assert_eq!(storage.allocate(), Some(2));
    assert!(storage.is_reserved(1));
    assert!(!storage.is_loaded(&1u32));
    assert_eq!(storage.get(&1u32), None);
}

#[test]
fn update_asset_starts_at_version_one() {
    let mut storage: AssetStorage<Tile> = AssetStorage::new();
    let h = storage.allocate().unwrap();
    storage.update_asset(&h, Tile { n: 1 });
    assert!(storage.is_loaded(&h));
    assert_eq!(storage.get_version(&h), Some(1));
    assert_eq!(storage.get(&h), Some(&Tile { n: 1 }));
    assert_eq!(storage.get_asset_with_version(&h), Some((&Tile { n: 1 }, 1)));
}

#[test]
fn update_asset_replaces_and_bumps_the_version() {
    let mut storage: AssetStorage<Tile> = AssetStorage::new();
    let h = storage.allocate().unwrap();
    storage.update_asset(&h, Tile { n: 1 });
    storage.update_asset(&h, Tile { n: 2 });
    assert_eq!(storage.get_version(&h), Some(2));
    assert_eq!(storage.get(&h), Some(&Tile { n: 2 }));
    storage.update_asset(&h, Tile { n: 3 });
    assert_eq!(storage.get_version(&h), Some(3));
    assert_eq!(storage.get(&h), Some(&Tile { n: 3 }));
}

#[test]
fn update_asset_takes_a_handle_that_was_never_handed_out() {
    let mut storage: AssetStorage<Tile> = AssetStorage::new();
    storage.update_asset(&1, Tile { n: 9 });
    assert!(storage.is_loaded(&1u32));
    assert_eq!(storage.get_version(&1u32), Some(1));
    // the handle is in use now and is not handed out again
    assert_eq!(storage.allocate(), Some(0));
    assert_eq!(storage.allocate(), Some(2));
    assert_eq!(storage.get(&1u32), Some(&Tile { n: 9 }));
}

#[test]
fn replaced_asset_is_dropped_exactly_once() {
    let mut storage: AssetStorage<Tile> = AssetStorage::new();
    let h = storage.allocate().unwrap();
    storage.update_asset(&h, Tile { n: 1 });
    storage.update_asset(&h, Tile { n: 2 });
    let dropped = RefCell::new(Vec::new());
    storage.process_custom_drop(|tile: Tile| dropped.borrow_mut().push(tile));
    assert_eq!(*dropped.borrow(), vec![Tile { n: 1 }]);
    storage.process_custom_drop(|tile: Tile| dropped.borrow_mut().push(tile));
    assert_eq!(*dropped.borrow(), vec![Tile { n: 1 }]);
    assert_eq!(storage.get(&h), Some(&Tile { n: 2 }));
}

#[test]
fn deferred_drops_come_oldest_first() {
    let mut storage: AssetStorage<Tile> = AssetStorage::new();
    let a = storage.allocate().unwrap();
    let b = storage.allocate().unwrap();
    storage.update_asset(&a, Tile { n: 1 });
    storage.update_asset(&b, Tile { n: 2 });
    storage.update_asset(&b, Tile { n: 3 });
    storage.update_asset(&a, Tile { n: 4 });
    storage.free(b);
    let dropped = RefCell::new(Vec::new());
    storage.process_custom_drop(|tile: Tile| dropped.borrow_mut().push(tile.n));
    assert_eq!(*dropped.borrow(), vec![2, 1, 3]);
}

#[test]
fn free_releases_the_slot_and_defers_the_drop() {
    let mut storage: AssetStorage<Tile> = AssetStorage::new();
    let h = storage.allocate().unwrap();
    storage.update_asset(&h, Tile { n: 5 });
    storage.free(h);
    assert!(!storage.is_loaded(&h));
    assert!(!storage.is_reserved(h));
    assert_eq!(storage.get(&h), None);
    assert_eq!(storage.get_version(&h), None);
    let dropped = RefCell::new(Vec::new());
    storage.process_custom_drop(|tile: Tile| dropped.borrow_mut().push(tile.n));
    assert_eq!(*dropped.borrow(), vec![5]);
}

#[test]
fn released_handle_is_reissued_and_not_loaded_in_between() {
    let mut storage: AssetStorage<Tile> = AssetStorage::new();
    let a = storage.allocate().unwrap();
    let b = storage.allocate().unwrap();
    storage.update_asset(&a, Tile { n: 1 });
    storage.update_asset(&b, Tile { n: 2 });
    storage.free(a);
    assert!(!storage.is_loaded(&a));
    assert_eq!(storage.allocate(), Some(a));
    assert!(!storage.is_loaded(&a));
    // a reused slot starts over
    storage.update_asset(&a, Tile { n: 3 });
    assert_eq!(storage.get_version(&a), Some(1));
    assert_eq!(storage.get(&b), Some(&Tile { n: 2 }));
}

#[test]
fn most_recently_released_handle_comes_first() {
    let mut storage: AssetStorage<Tile> = AssetStorage::new();
    for _ in 0..4 {
        storage.allocate();
    }
    storage.free(1);
    storage.free(3);
    assert_eq!(storage.allocate(), Some(3));
    assert_eq!(storage.allocate(), Some(1));
    assert_eq!(storage.allocate(), Some(4));
}

#[test]
fn free_twice_reissues_once() {
    let mut storage: AssetStorage<Tile> = AssetStorage::new();
    let a = storage.allocate().unwrap();
    storage.free(a);
    storage.free(a);
    assert_eq!(storage.allocate(), Some(a));
    assert_eq!(storage.allocate(), Some(1));
}

#[test]
fn free_of_a_handle_that_is_not_reserved_changes_nothing() {
    let mut storage: AssetStorage<Tile> = AssetStorage::new();
    storage.free(5);
    assert_eq!(storage.allocate(), Some(0));
}

#[test]
fn get_mut_changes_the_asset_in_place() {
    let mut storage: AssetStorage<Tile> = AssetStorage::new();
    let h = storage.allocate().unwrap();
    assert!(storage.get_mut(&h).is_none());
    storage.update_asset(&h, Tile { n: 1 });
    match storage.get_mut(&h) {
        Some(tile) => tile.n = 8,
        None => panic!("the slot holds an asset"),
    }
    assert_eq!(storage.get(&h), Some(&Tile { n: 8 }));
    assert_eq!(storage.get_version(&h), Some(1));
    let dropped = RefCell::new(0);
    storage.process_custom_drop(|_tile: Tile| *dropped.borrow_mut() += 1);
    assert_eq!(*dropped.borrow(), 0);
}

#[test]
fn storage_reads_through_a_typed_handle() {
    let mut storage: AssetStorage<Tile> = AssetStorage::new();
    let h = storage.allocate().unwrap();
    storage.update_asset(&h, Tile { n: 6 });
    let handle: Handle<Tile> = Handle::from_arc(Arc::new(h));
    assert!(storage.is_loaded(&handle));
    assert_eq!(storage.get(&handle), Some(&Tile { n: 6 }));
    assert_eq!(storage.get_version(&handle), Some(1));
}

#[test]
fn default_storage_is_empty() {
    let mut storage: AssetStorage<Tile> = Default::default();
    assert!(!storage.is_loaded(&0u32));
    assert_eq!(storage.allocate(), Some(0));
}
