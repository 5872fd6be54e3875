use std::collections::HashSet;
use std::sync::Arc;

use amethyst_assets::handle::{Handle, WeakHandle};
use amethyst_assets::storage::AssetHandle;

#[derive(Debug, Hash)]
struct Marker;

#[test]
fn handle_id_is_the_slot_it_was_made_for() {
    let handle: Handle<Marker> = Handle::from_arc(Arc::new(7));
    assert_eq!(handle.id(), 7);
    assert_eq!(handle.get_load_handle(), 7);
}

#[test]
fn clone_aliases_the_same_slot() {
    let handle: Handle<Marker> = Handle::from_arc(Arc::new(3));
    let other = handle.clone();
    assert_eq!(other.id(), 3);
    assert!(handle == other);
    assert!(!handle.is_unique());
    drop(other);
    assert!(handle.is_unique());
}

#[test]
fn handles_to_different_slots_differ() {
    let a: Handle<Marker> = Handle::from_arc(Arc::new(1));
    let b: Handle<Marker> = Handle::from_arc(Arc::new(2));
    assert!(a != b);
}

#[test]
fn weak_handle_upgrades_while_a_strong_handle_exists() {
    let handle: Handle<Marker> = Handle::from_arc(Arc::new(11));
    let weak: WeakHandle<Marker> = handle.downgrade();
    assert!(!weak.is_dead());
    let upgraded = weak.upgrade().expect("a strong handle exists");
    assert_eq!(upgraded.id(), 11);
    assert!(upgraded == handle);
}

#[test]
fn weak_handle_is_dead_once_every_strong_handle_is_gone() {
    let handle: Handle<Marker> = Handle::from_arc(Arc::new(11));
    let other = handle.clone();
    let weak = handle.downgrade();
    drop(handle);
    assert!(!weak.is_dead());
    drop(other);
    assert!(weak.is_dead());
    assert!(weak.upgrade().is_none());
}

#[test]
fn upgraded_handle_keeps_the_asset_alive() {
    let handle: Handle<Marker> = Handle::from_arc(Arc::new(4));
    let weak = handle.downgrade();
    let strong = weak.upgrade().unwrap();
    drop(handle);
    assert!(!weak.is_dead());
    assert_eq!(strong.id(), 4);
    drop(strong);
    assert!(weak.is_dead());
}

#[test]
fn cloned_weak_handle_observes_the_same_handles() {
    let handle: Handle<Marker> = Handle::from_arc(Arc::new(9));
    let weak = handle.downgrade();
    let other = weak.clone();
    assert_eq!(other.upgrade().unwrap().id(), 9);
    drop(handle);
    assert!(weak.is_dead());
    assert!(other.is_dead());
}

#[test]
fn downgrade_does_not_count_as_a_handle() {
    let handle: Handle<Marker> = Handle::from_arc(Arc::new(2));
    let _weak = handle.downgrade();
    assert!(handle.is_unique());
}

#[test]
fn plain_slot_number_is_a_handle_too() {
    let h: u32 = 5;
    assert_eq!(h.get_load_handle(), 5);
}

#[test]
fn upgrade_of_a_dead_reference_gives_no_handle() {
    let handle: Handle<Marker> = Handle::from_arc(Arc::new(6));
    let weak = handle.downgrade();
    assert!(weak.from_upgraded(None).is_none());
    let same = weak.from_upgraded(Some(Arc::new(6))).expect("the slot is the one of the handle");
    assert_eq!(same.id(), 6);
    assert!(weak.from_upgraded(Some(Arc::new(7))).is_none());
}

#[test]
fn handle_is_sole_at_a_count_of_one() {
    assert!(Handle::<Marker>::is_sole(1));
    assert!(!Handle::<Marker>::is_sole(0));
    assert!(!Handle::<Marker>::is_sole(2));
}

#[test]
fn handles_hash_by_their_slot() {
    let a: Handle<Marker> = Handle::from_arc(Arc::new(1));
    let b = a.clone();
    let c: Handle<Marker> = Handle::from_arc(Arc::new(2));
    let mut set = HashSet::new();
    set.insert(a);
    assert!(!set.insert(b));
    assert!(set.insert(c));
    assert_eq!(set.len(), 2);
}

#[test]
fn handle_shows_its_slot_when_printed() {
    let a: Handle<Marker> = Handle::from_arc(Arc::new(41));
    assert!(format!("{:?}", a).contains("41"));
}
