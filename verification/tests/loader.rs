use std::cell::RefCell;

use amethyst_assets::asset::{Asset, AssetTypeId, AssetUUID, TypeUuid};
use amethyst_assets::error::{Error, ErrorKind};
use amethyst_assets::loader::LoaderWithStorage;
use amethyst_assets::tracking::{Delivery, ImportEvent, LoadStatus, RefOp};
use amethyst_assets::processor::ProcessingState;
use amethyst_assets::registry::{create_asset_type, AssetType};
use amethyst_assets::storage::AssetHandle;
use amethyst_assets::type_storage::{Decode, TypedStorage, WorldStorages};

const T_DATA: AssetTypeId = 0x0101_0101_0101_0101_0101_0101_0101_0101;
const T_ASSET: AssetTypeId = 0x0202_0202_0202_0202_0202_0202_0202_0202;
const U_DATA: AssetTypeId = 0x0404_0404_0404_0404_0404_0404_0404_0404;
const U_ASSET: AssetTypeId = 0x0303_0303_0303_0303_0303_0303_0303_0303;
const ID: AssetUUID = 0xAAAA_AAAA_AAAA_AAAA_AAAA_AAAA_AAAA_AAAA;
const OTHER: AssetUUID = 0xBBBB_BBBB_BBBB_BBBB_BBBB_BBBB_BBBB_BBBB;

#[derive(Debug, PartialEq)]
struct T {
    n: u8,
}

#[derive(Debug, PartialEq)]
struct TData {
    n: u8,
    passes: u8,
}

#[derive(Debug, PartialEq)]
struct U {
    n: u8,
}

#[derive(Debug, PartialEq)]
struct UData {
    n: u8,
}

impl Asset for T {
    fn name() -> &'static str {
        "T"
    }

    type Data = TData;
}

impl Asset for U {
    fn name() -> &'static str {
        "U"
    }

    type Data = UData;
}

impl TypeUuid for T {
    const UUID: AssetTypeId = T_ASSET;
}

impl TypeUuid for TData {
    const UUID: AssetTypeId = T_DATA;
}

impl TypeUuid for U {
    const UUID: AssetTypeId = U_ASSET;
}

impl TypeUuid for UData {
    const UUID: AssetTypeId = U_DATA;
}

// Two bytes: the number of passes that processing takes, and the number itself.
impl Decode for TData {
    fn decode(bytes: &[u8]) -> Result<Self, Error> {
        match bytes {
            [passes, n] => Ok(TData { n: *n, passes: *passes }),
            _ => Err(Error::new(ErrorKind::Import, "not two bytes".to_string())),
        }
    }
}

impl Decode for UData {
    fn decode(bytes: &[u8]) -> Result<Self, Error> {
        match bytes {
            [n] => Ok(UData { n: *n }),
            _ => Err(Error::new(ErrorKind::Import, "not one byte".to_string())),
        }
    }
}

fn build_t(data: TData) -> Result<ProcessingState<TData, T>, Error> {
    if data.passes > 0 {
        Ok(ProcessingState::Loading(TData { n: data.n, passes: data.passes - 1 }))
    } else {
        Ok(ProcessingState::Loaded(T { n: data.n }))
    }
}

fn build_u(data: UData) -> Result<ProcessingState<UData, U>, Error> {
    Ok(ProcessingState::Loaded(U { n: data.n }))
}

fn t_type() -> AssetType {
    create_asset_type::<T>()
}

fn u_type() -> AssetType {
    create_asset_type::<U>()
}

fn setup() -> (LoaderWithStorage, TypedStorage<T>) {
    (LoaderWithStorage::new(&vec![t_type()]), TypedStorage::new(t_type()))
}

fn bytes(id: AssetUUID, data: Vec<u8>) -> Vec<ImportEvent> {
    vec![ImportEvent::Bytes { asset_id: id, data_type_id: T_DATA, bytes: data }]
}

fn none() -> Vec<ImportEvent> {
    Vec::new()
}

fn is_loaded(status: &LoadStatus) -> bool {
    matches!(status, LoadStatus::Loaded)
}

fn is_loading(status: &LoadStatus) -> bool {
    matches!(status, LoadStatus::Loading)
}

fn is_not_requested(status: &LoadStatus) -> bool {
    matches!(status, LoadStatus::NotRequested)
}

#[test]
fn asset_type_carries_both_identifiers() {
    let t = t_type();
    assert_eq!(t.data_uuid, T_DATA);
    assert_eq!(t.asset_uuid, T_ASSET);
}

#[test]
fn load_then_read_a_single_asset() {
    let (mut loader, mut world) = setup();
    assert!(is_not_requested(&loader.get_load_status(ID)));

    let handle = loader.load_asset(ID);
    assert_eq!(handle.id(), ID);
    // nothing is counted before the tick
    assert_eq!(loader.ref_count(ID), 0);

    let report = loader.process(&mut world, &none());
    assert_eq!(report.requests, vec![ID]);
    assert!(report.deliveries.is_empty());
    assert_eq!(loader.ref_count(ID), 1);
    assert!(is_loading(&loader.get_load_status(ID)));

    let report = loader.process(&mut world, &bytes(ID, vec![0x00, 0x01]));
    assert!(report.requests.is_empty());
    assert_eq!(report.deliveries.len(), 1);
    match &report.deliveries[0] {
        Delivery::Stored { slot, result } => {
            assert_eq!(*slot, 0);
            assert!(result.is_ok());
        }
        _ => panic!("the bytes go to the storage"),
    }
    assert!(is_loading(&loader.get_load_status(ID)));

    world.process(build_t);
    loader.process(&mut world, &none());

    assert!(is_loaded(&loader.get_load_status(ID)));
    let typed = loader.get_asset_handle::<T>(ID).expect("the asset is of type T");
    assert_eq!(world.storage.get(&typed), Some(&T { n: 1 }));
    assert_eq!(world.storage.get_version(&typed), Some(1));
    assert_eq!(loader.get_asset::<T>(ID, &world.storage), Some(&T { n: 1 }));
    handle.release();
}

#[test]
fn hot_reload_replaces_the_asset_and_bumps_the_version() {
    let (mut loader, mut world) = setup();
    let _handle = loader.load_asset(ID);
    loader.process(&mut world, &bytes(ID, vec![0x00, 0x01]));
    world.process(build_t);
    loader.process(&mut world, &none());
    let typed = loader.get_asset_handle::<T>(ID).unwrap();
    assert_eq!(world.storage.get_version(&typed), Some(1));

    let report = loader.process(&mut world, &bytes(ID, vec![0x00, 0x02]));
    match &report.deliveries[0] {
        Delivery::Stored { slot, .. } => assert_eq!(*slot, typed.id()),
        _ => panic!("the bytes go to the slot the asset has"),
    }
    // the old asset is read until the new one is processed
    assert!(is_loaded(&loader.get_load_status(ID)));
    assert_eq!(world.storage.get(&typed), Some(&T { n: 1 }));

    world.process(build_t);
    loader.process(&mut world, &none());
    assert!(is_loaded(&loader.get_load_status(ID)));
    assert_eq!(world.storage.get_version(&typed), Some(2));
    assert_eq!(world.storage.get(&typed), Some(&T { n: 2 }));

    let dropped = RefCell::new(Vec::new());
    world.storage.process_custom_drop(|t: T| dropped.borrow_mut().push(t));
    assert_eq!(*dropped.borrow(), vec![T { n: 1 }]);
    world.storage.process_custom_drop(|t: T| dropped.borrow_mut().push(t));
    assert_eq!(dropped.borrow().len(), 1);
}

#[test]
fn processing_over_two_frames() {
    let (mut loader, mut world) = setup();
    let _handle = loader.load_asset(ID);
    loader.process(&mut world, &bytes(ID, vec![0x01, 0x05]));
    let calls = RefCell::new(0);
    let counting = |data: TData| {
        *calls.borrow_mut() += 1;
        build_t(data)
    };

    // tick 1
    world.process(&counting);
    loader.process(&mut world, &none());
    let typed = loader.get_asset_handle::<T>(ID).unwrap();
    assert!(!world.storage.is_loaded(&typed));
    assert!(is_loading(&loader.get_load_status(ID)));
    assert_eq!(world.queue.len(), 1);

    // tick 2
    world.process(&counting);
    loader.process(&mut world, &none());
    assert!(world.storage.is_loaded(&typed));
    assert!(is_loaded(&loader.get_load_status(ID)));
    assert_eq!(world.storage.get(&typed), Some(&T { n: 5 }));
    assert_eq!(world.queue.len(), 0);
    assert_eq!(*calls.borrow(), 2);
}

#[test]
fn asset_without_references_is_evicted_after_the_grace_tick() {
    let (mut loader, mut world) = setup();
    let keep = loader.load_asset(OTHER);
    let handle = loader.load_asset(ID);
    loader.process(&mut world, &bytes(OTHER, vec![0x00, 0x07]));
    loader.process(&mut world, &bytes(ID, vec![0x00, 0x01]));
    world.process(build_t);
    loader.process(&mut world, &none());
    let slot = loader.get_asset_handle::<T>(ID).unwrap().id();
    assert_eq!(slot, 1);
    assert!(is_loaded(&loader.get_load_status(ID)));

    handle.release();
    // first tick: the count drops to zero, the asset stays for now
    loader.process(&mut world, &none());
    assert_eq!(loader.ref_count(ID), 0);
    assert!(is_loaded(&loader.get_load_status(ID)));
    assert!(world.storage.is_loaded(&slot));
    // second tick: the slot is freed
    loader.process(&mut world, &none());
    assert!(is_not_requested(&loader.get_load_status(ID)));
    assert!(!world.storage.is_loaded(&slot));
    assert!(!world.storage.is_reserved(slot));
    assert!(loader.get_asset_handle::<T>(ID).is_none());
    // the handle is back on the free list
    assert_eq!(world.storage.allocate(), Some(slot));
    // the other asset is untouched
    assert!(is_loaded(&loader.get_load_status(OTHER)));
    assert_eq!(loader.get_asset::<T>(OTHER, &world.storage), Some(&T { n: 7 }));
    keep.release();
}

#[test]
fn load_and_immediate_drop_frees_after_two_ticks() {
    let (mut loader, mut world) = setup();
    let handle = loader.load_asset(ID);
    handle.release();
    let report = loader.process(&mut world, &bytes(ID, vec![0x00, 0x01]));
    assert_eq!(report.requests, vec![ID]);
    assert_eq!(loader.ref_count(ID), 0);
    let slot = loader.get_asset_handle::<T>(ID).unwrap().id();
    assert!(world.storage.is_reserved(slot));
    loader.process(&mut world, &none());
    assert!(is_not_requested(&loader.get_load_status(ID)));
    assert!(!world.storage.is_reserved(slot));
    assert_eq!(world.queue.len(), 0);
    assert_eq!(world.storage.allocate(), Some(slot));
}

#[test]
fn drop_followed_by_load_in_one_frame_causes_no_churn() {
    let (mut loader, mut world) = setup();
    let handle = loader.load_asset(ID);
    loader.process(&mut world, &bytes(ID, vec![0x00, 0x01]));
    world.process(build_t);
    loader.process(&mut world, &none());

    handle.release();
    loader.process(&mut world, &none());
    // within the grace tick a new handle keeps the asset, and nothing is asked again
    let again = loader.load_asset(ID);
    let report = loader.process(&mut world, &none());
    assert!(report.requests.is_empty());
    assert_eq!(loader.ref_count(ID), 1);
    loader.process(&mut world, &none());
    loader.process(&mut world, &none());
    assert!(is_loaded(&loader.get_load_status(ID)));
    assert_eq!(loader.get_asset::<T>(ID, &world.storage), Some(&T { n: 1 }));
    again.release();
}

#[test]
fn typed_handle_of_the_wrong_type_is_refused() {
    let types = vec![t_type(), u_type()];
    let mut loader = LoaderWithStorage::new(&types);
    let mut world: (TypedStorage<T>, TypedStorage<U>) =
        (TypedStorage::new(t_type()), TypedStorage::new(u_type()));
    let _handle = loader.load_asset(ID);
    loader.process(&mut world, &bytes(ID, vec![0x00, 0x01]));
    world.0.process(build_t);
    loader.process(&mut world, &none());

    let before = loader.ref_count(ID);
    assert!(loader.load_typed::<U>(ID).is_none());
    assert!(loader.get_asset_handle::<U>(ID).is_none());
    assert!(loader.get_asset::<U>(ID, &world.1.storage).is_none());
    loader.process(&mut world, &none());
    assert_eq!(loader.ref_count(ID), before);
    assert!(!world.1.storage.is_reserved(0));
    assert!(world.0.storage.is_loaded(&0u32));
    assert!(loader.get_asset_handle::<T>(ID).is_some());
}

#[test]
fn load_typed_takes_a_reference_like_load() {
    let (mut loader, mut world) = setup();
    let first = loader.load_asset(ID);
    loader.process(&mut world, &bytes(ID, vec![0x00, 0x01]));
    world.process(build_t);
    loader.process(&mut world, &none());
    let strong = loader.load_typed::<T>(ID).expect("the asset is of type T");
    assert_eq!(strong.id(), ID);
    let typed = loader.get_asset_handle::<T>(ID).unwrap();
    assert_eq!(world.storage.get(&typed), Some(&T { n: 1 }));
    loader.process(&mut world, &none());
    assert_eq!(loader.ref_count(ID), 2);
    let other = strong.clone();
    loader.process(&mut world, &none());
    assert_eq!(loader.ref_count(ID), 3);
    first.release();
    strong.release();
    other.into_generic().release();
    loader.process(&mut world, &none());
    assert_eq!(loader.ref_count(ID), 0);
}

#[test]
fn load_typed_starts_a_load() {
    let (mut loader, mut world) = setup();
    // nobody asked for the asset yet, and it has no slot
    let handle = loader.load_typed::<T>(ID).expect("nothing speaks against the type");
    let report = loader.process(&mut world, &none());
    assert_eq!(report.requests, vec![ID]);
    assert_eq!(loader.ref_count(ID), 1);
    assert!(is_loading(&loader.get_load_status(ID)));
    loader.process(&mut world, &bytes(ID, vec![0x00, 0x09]));
    world.process(build_t);
    loader.process(&mut world, &none());
    assert!(is_loaded(&loader.get_load_status(ID)));
    assert_eq!(loader.get_asset::<T>(ID, &world.storage), Some(&T { n: 9 }));
    handle.release();
}

#[test]
fn typed_handles_to_one_asset_share_their_counter() {
    let (mut loader, mut world) = setup();
    let _keep = loader.load_asset(ID);
    loader.process(&mut world, &bytes(ID, vec![0x00, 0x01]));
    world.process(build_t);
    loader.process(&mut world, &none());
    let first = loader.get_asset_handle::<T>(ID).unwrap();
    let second = loader.typed_handle::<T>(ID).ok().unwrap();
    assert!(first == second);
    assert!(!first.is_unique());
    let weak = first.downgrade();
    drop(first);
    // another strong handle to the slot lives
    assert!(!weak.is_dead());
    assert_eq!(weak.upgrade().unwrap().id(), second.id());
    drop(second);
    // the tracker still has the asset
    assert!(!weak.is_dead());
}

#[test]
fn weak_typed_handle_dies_with_the_asset() {
    let (mut loader, mut world) = setup();
    let keep = loader.load_asset(ID);
    loader.process(&mut world, &bytes(ID, vec![0x00, 0x01]));
    world.process(build_t);
    loader.process(&mut world, &none());
    let weak = loader.get_asset_handle::<T>(ID).unwrap().downgrade();
    assert!(!weak.is_dead());
    keep.release();
    loader.process(&mut world, &none());
    loader.process(&mut world, &none());
    assert!(is_not_requested(&loader.get_load_status(ID)));
    assert!(weak.is_dead());
    assert!(weak.upgrade().is_none());
}

#[test]
fn typed_query_says_why_there_is_no_handle() {
    let types = vec![t_type(), u_type()];
    let mut loader = LoaderWithStorage::new(&types);
    let mut world: (TypedStorage<T>, TypedStorage<U>) =
        (TypedStorage::new(t_type()), TypedStorage::new(u_type()));
    let _handle = loader.load_asset(ID);
    loader.process(&mut world, &none());
    // no bytes yet: the asset has no slot
    match loader.typed_handle::<T>(ID) {
        Err(e) => assert_eq!(e.kind(), ErrorKind::NotFound),
        Ok(_) => panic!("the asset has no slot"),
    }
    loader.process(&mut world, &bytes(ID, vec![0x00, 0x01]));
    match loader.typed_handle::<U>(ID) {
        Err(e) => assert_eq!(e.kind(), ErrorKind::TypeMismatch),
        Ok(_) => panic!("the asset is of type T"),
    }
    match loader.typed_handle::<T>(ID) {
        Ok(handle) => assert_eq!(handle.id(), 0),
        Err(_) => panic!("the asset is of type T"),
    }
    match loader.typed_handle::<T>(OTHER) {
        Err(e) => assert_eq!(e.kind(), ErrorKind::NotFound),
        Ok(_) => panic!("nobody asked for the asset"),
    }
}

#[test]
fn typed_handle_needs_a_registered_type_and_a_slot() {
    // the data type of the asset is not in the registry of the tracker
    let mut loader = LoaderWithStorage::new(&vec![u_type()]);
    let mut world: TypedStorage<T> = TypedStorage::new(t_type());
    let _handle = loader.load_asset(ID);
    loader.process(&mut world, &none());
    assert!(loader.get_asset_handle::<T>(ID).is_none());
    loader.process(&mut world, &bytes(ID, vec![0x00, 0x01]));
    assert!(loader.get_asset_handle::<T>(ID).is_none());
    assert!(loader.get_asset_handle::<T>(OTHER).is_none());
}

#[test]
fn error_then_retry() {
    let (mut loader, mut world) = setup();
    let first = loader.load_asset(ID);
    let report = loader.process(&mut world, &bytes(ID, vec![0xFF]));
    assert_eq!(report.requests, vec![ID]);
    match &report.deliveries[0] {
        Delivery::Stored { result: Err(e), .. } => assert_eq!(e.kind(), ErrorKind::Import),
        _ => panic!("the bytes do not decode"),
    }
    match loader.get_load_status(ID) {
        LoadStatus::Error(e) => {
            assert_eq!(e.kind(), ErrorKind::Import);
            assert_eq!(e.message, "not two bytes");
        }
        _ => panic!("the load failed"),
    }
    assert_eq!(world.queue.len(), 0);

    let second = loader.load_asset(ID);
    let report = loader.process(&mut world, &none());
    assert_eq!(report.requests, vec![ID]);
    assert_eq!(loader.ref_count(ID), 2);
    assert!(is_loading(&loader.get_load_status(ID)));

    loader.process(&mut world, &bytes(ID, vec![0x00, 0x03]));
    world.process(build_t);
    loader.process(&mut world, &none());
    assert!(is_loaded(&loader.get_load_status(ID)));
    assert_eq!(loader.get_asset::<T>(ID, &world.storage), Some(&T { n: 3 }));
    first.release();
    second.release();
}

#[test]
fn unknown_asset_does_not_exist_until_asked_again() {
    let (mut loader, mut world) = setup();
    let _first = loader.load_asset(ID);
    let report = loader.process(&mut world, &vec![ImportEvent::Unknown { asset_id: ID }]);
    assert!(matches!(report.deliveries[0], Delivery::NotFound));
    assert!(matches!(loader.get_load_status(ID), LoadStatus::DoesNotExist));
    let _second = loader.load_asset(ID);
    let report = loader.process(&mut world, &none());
    assert_eq!(report.requests, vec![ID]);
    assert!(is_loading(&loader.get_load_status(ID)));
}

#[test]
fn bytes_of_an_unregistered_type_are_dropped() {
    let (mut loader, mut world) = setup();
    let _handle = loader.load_asset(ID);
    let events = vec![ImportEvent::Bytes { asset_id: ID, data_type_id: U_DATA, bytes: vec![1] }];
    let report = loader.process(&mut world, &events);
    assert!(matches!(report.deliveries[0], Delivery::Unregistered));
    assert!(is_loading(&loader.get_load_status(ID)));
    assert!(!world.storage.is_reserved(0));
    assert_eq!(world.queue.len(), 0);
}

#[test]
fn bytes_go_to_the_storage_of_their_type() {
    let types = vec![t_type(), u_type()];
    let mut loader = LoaderWithStorage::new(&types);
    let mut world: (TypedStorage<T>, TypedStorage<U>) =
        (TypedStorage::new(t_type()), TypedStorage::new(u_type()));
    let _a = loader.load_asset(ID);
    let _b = loader.load_asset(OTHER);
    let events = vec![
        ImportEvent::Bytes { asset_id: ID, data_type_id: T_DATA, bytes: vec![0, 1] },
        ImportEvent::Bytes { asset_id: OTHER, data_type_id: U_DATA, bytes: vec![2] },
    ];
    loader.process(&mut world, &events);
    world.0.process(build_t);
    world.1.process(build_u);
    loader.process(&mut world, &none());
    assert_eq!(loader.get_asset::<T>(ID, &world.0.storage), Some(&T { n: 1 }));
    assert_eq!(loader.get_asset::<U>(OTHER, &world.1.storage), Some(&U { n: 2 }));
    assert!(loader.get_asset_handle::<U>(ID).is_none());
    assert!(loader.get_asset_handle::<T>(OTHER).is_none());
    assert!(world.is_registered(&T_DATA));
    assert!(world.is_registered(&U_DATA));
    assert!(!world.is_registered(&T_ASSET));
}

#[test]
fn reimport_under_another_type_moves_the_asset() {
    let types = vec![t_type(), u_type()];
    let mut loader = LoaderWithStorage::new(&types);
    let mut world: (TypedStorage<T>, TypedStorage<U>) =
        (TypedStorage::new(t_type()), TypedStorage::new(u_type()));
    let _a = loader.load_asset(ID);
    loader.process(&mut world, &bytes(ID, vec![0, 1]));
    world.0.process(build_t);
    loader.process(&mut world, &none());
    assert!(world.0.storage.is_loaded(&0u32));

    let events = vec![ImportEvent::Bytes { asset_id: ID, data_type_id: U_DATA, bytes: vec![9] }];
    loader.process(&mut world, &events);
    assert!(!world.0.storage.is_reserved(0));
    assert!(is_loading(&loader.get_load_status(ID)));
    world.1.process(build_u);
    loader.process(&mut world, &none());
    assert!(is_loaded(&loader.get_load_status(ID)));
    assert_eq!(loader.get_asset::<U>(ID, &world.1.storage), Some(&U { n: 9 }));
    assert!(loader.get_asset_handle::<T>(ID).is_none());
}

#[test]
fn count_equals_the_number_of_live_handles() {
    let (mut loader, mut world) = setup();
    let a = loader.load_asset(ID);
    let b = loader.load_asset(ID);
    let c = b.clone();
    loader.process(&mut world, &none());
    assert_eq!(loader.ref_count(ID), 3);
    a.release();
    let d = c.clone();
    c.release();
    loader.process(&mut world, &none());
    assert_eq!(loader.ref_count(ID), 2);
    b.release();
    d.release();
    loader.process(&mut world, &none());
    assert_eq!(loader.ref_count(ID), 0);
}

#[test]
fn clone_then_drop_leaves_the_count() {
    let (mut loader, mut world) = setup();
    let handle = loader.load_asset(ID);
    loader.process(&mut world, &none());
    assert_eq!(loader.ref_count(ID), 1);
    let other = handle.clone();
    assert_eq!(other.id(), ID);
    other.release();
    loader.process(&mut world, &none());
    assert_eq!(loader.ref_count(ID), 1);
    handle.release();
}

#[test]
fn only_the_first_load_asks_the_import_source() {
    let (mut loader, mut world) = setup();
    let _a = loader.load_asset(ID);
    let _b = loader.load_asset(ID);
    let _c = loader.load_asset(OTHER);
    let report = loader.process(&mut world, &none());
    assert_eq!(report.requests, vec![ID, OTHER]);
    let _d = loader.load_asset(ID);
    let report = loader.process(&mut world, &none());
    assert!(report.requests.is_empty());
}

#[test]
fn tick_with_explicit_changes() {
    let (mut loader, mut world) = setup();
    let ops = vec![
        RefOp::Increase(ID),
        RefOp::Increase(OTHER),
        RefOp::Decrease(ID),
        RefOp::Decrease(ID),
        RefOp::Increase(ID),
    ];
    let report = loader.tick(&mut world, &ops, &none());
    // the count of an asset does not go below zero
    assert_eq!(report.requests, vec![ID, OTHER]);
    assert_eq!(loader.ref_count(ID), 1);
    assert_eq!(loader.ref_count(OTHER), 1);
    let requests = loader.apply_ref_ops(&vec![RefOp::Decrease(OTHER), RefOp::Decrease(OTHER)]);
    assert!(requests.is_empty());
    assert_eq!(loader.ref_count(OTHER), 0);
}

#[test]
fn get_asset_mut_changes_the_stored_asset() {
    let (mut loader, mut world) = setup();
    let _handle = loader.load_asset(ID);
    loader.process(&mut world, &bytes(ID, vec![0x00, 0x01]));
    assert!(loader.get_asset_mut::<T>(ID, &mut world.storage).is_none());
    world.process(build_t);
    loader.process(&mut world, &none());
    match loader.get_asset_mut::<T>(ID, &mut world.storage) {
        Some(t) => t.n = 40,
        None => panic!("the asset is loaded"),
    }
    assert_eq!(loader.get_asset::<T>(ID, &world.storage), Some(&T { n: 40 }));
    let typed = loader.get_asset_handle::<T>(ID).unwrap();
    assert_eq!(world.storage.get_version(&typed), Some(1));
    assert_eq!(typed.get_load_handle(), 0);
}

#[test]
fn weak_generic_handle_upgrades_while_the_asset_is_referenced() {
    let (mut loader, mut world) = setup();
    let handle = loader.load_asset(ID);
    let weak = handle.downgrade();
    assert_eq!(weak.id(), ID);
    // the handle is not counted before the tick
    assert!(loader.upgrade(&weak).is_none());
    loader.process(&mut world, &none());
    let strong = loader.upgrade(&weak).expect("a strong handle is counted");
    assert_eq!(strong.id(), ID);
    loader.process(&mut world, &none());
    assert_eq!(loader.ref_count(ID), 2);
    handle.release();
    strong.release();
    loader.process(&mut world, &none());
    assert_eq!(loader.ref_count(ID), 0);
    assert!(loader.upgrade(&weak).is_none());
}

#[test]
fn default_tracker_knows_no_types() {
    let mut loader = LoaderWithStorage::default();
    let mut world: TypedStorage<T> = TypedStorage::new(t_type());
    let _handle = loader.load_asset(ID);
    loader.process(&mut world, &bytes(ID, vec![0x00, 0x01]));
    world.process(build_t);
    loader.process(&mut world, &none());
    assert!(is_loaded(&loader.get_load_status(ID)));
    // the type of the asset is not registered with the tracker
    assert!(loader.get_asset_handle::<T>(ID).is_none());
}

#[test]
fn bytes_that_arrive_after_the_last_drop_are_stored_and_evicted() {
    let (mut loader, mut world) = setup();
    let handle = loader.load_asset(ID);
    loader.process(&mut world, &none());
    handle.release();
    loader.process(&mut world, &none());
    loader.process(&mut world, &none());
    assert!(is_not_requested(&loader.get_load_status(ID)));

    // the import completes although nobody holds the asset any more
    let report = loader.process(&mut world, &bytes(ID, vec![0x00, 0x01]));
    assert!(matches!(report.deliveries[0], Delivery::Stored { slot: 0, result: Ok(()) }));
    world.process(build_t);
    assert!(world.storage.is_loaded(&0u32));
    loader.process(&mut world, &none());
    // it went at the end of the tick after the one that stored it
    assert!(is_not_requested(&loader.get_load_status(ID)));
    assert!(!world.storage.is_loaded(&0u32));
    assert!(!world.storage.is_reserved(0));
    let dropped = RefCell::new(Vec::new());
    world.storage.process_custom_drop(|t: T| dropped.borrow_mut().push(t));
    assert_eq!(*dropped.borrow(), vec![T { n: 1 }]);
}

#[test]
fn version_counts_every_replacement() {
    let (mut loader, mut world) = setup();
    let _handle = loader.load_asset(ID);
    for n in 1..=5u8 {
        loader.process(&mut world, &bytes(ID, vec![0x00, n]));
        world.process(build_t);
        loader.process(&mut world, &none());
        let typed = loader.get_asset_handle::<T>(ID).unwrap();
        assert_eq!(world.storage.get_asset_with_version(&typed), Some((&T { n }, n as u32)));
    }
}
