//! The load tracker: counts the references to each asset, drives every load
//! through its states, and moves imported bytes into the storage of the
//! asset's type.

use crossbeam::channel::Receiver;
use crossbeam::channel::Sender;
use std::collections::HashMap;
use std::marker::PhantomData;
use std::sync::Arc;
use vstd::prelude::*;

use crate::asset::{Asset, AssetTypeId, AssetUUID, TypeUuid};
use crate::channel::{clone_sender, pending_ref_ops, ref_channel, send_ref_op};
use crate::error::{Error, ErrorKind};
use crate::handle::Handle;
use crate::registry::{AssetStorageMap, AssetType};
use crate::storage::{AssetHandle, AssetStorage, LoadHandle};
use crate::tick::{
    are_deliveries, are_handovers, before_settling, counted, delivered, delivered_one,
    evicted_homes, given_up, handover_at, home_of, is_delivery, is_handover, is_passage, is_tick,
    is_tick_of, kept_slot, leads_through, lemma_released_prefix, release_at, released,
    settles_through, lemma_after_op, lemma_delivered_prefix, lemma_loaded_iff_in_storage,
    lemma_settled, lemma_settled_by_homes, lemma_settled_stems, requested, settled, stays_as,
    tracking, TickReport,
};
use crate::tracking::{
    distinct_homes, distinct_ids, homes, index_of, lemma_position, lemma_rehomed,
    lemma_same_homes, position, refs_of, status_of, Delivery, ImportEvent, LoadStatus, RefOp,
    TrackedAsset,
};
use crate::type_storage::{TypedSlot, WorldStorages};

verus! {

/// A strong handle to an asset of whatever type. For as long as there is one,
/// the tracker keeps the asset.
pub struct GenericHandle {
    chan: Sender<RefOp>,
    id: AssetUUID,
}

impl GenericHandle {
    /// The asset that the handle keeps.
    pub closed spec fn asset_id(&self) -> AssetUUID {
        self.id
    }

    /// The asset that the handle keeps.
    pub fn id(&self) -> (id: AssetUUID)
        ensures
            id == self.asset_id(),
    {
        self.id
    }

    /// An observer of the asset that does not keep it.
    pub fn downgrade(&self) -> (weak: WeakGenericHandle)
        ensures
            weak.asset_id() == self.asset_id(),
    {
        WeakGenericHandle { id: self.id }
    }

    /// Gives the handle up: the tracker counts one reference less at its
    /// next tick.
    pub fn release(self) {
        send_ref_op(&self.chan, RefOp::Decrease(self.id));
    }
}

impl Clone for GenericHandle {
    /// Another handle to the same asset: the tracker counts one reference
    /// more at its next tick.
    fn clone(&self) -> (handle: Self)
        ensures
            handle.asset_id() == self.asset_id(),
    {
        send_ref_op(&self.chan, RefOp::Increase(self.id));
        GenericHandle { chan: clone_sender(&self.chan), id: self.id }
    }
}

/// A strong handle to an asset that is asked for as an asset of type `A`.
/// For as long as there is one, the tracker keeps the asset.
pub struct TypedHandle<A: ?Sized> {
    strong: GenericHandle,
    marker: PhantomData<A>,
}

impl<A: ?Sized> TypedHandle<A> {
    /// The asset that the handle keeps.
    pub closed spec fn asset_id(&self) -> AssetUUID {
        self.strong.asset_id()
    }

    /// The asset that the handle keeps.
    pub fn id(&self) -> (id: AssetUUID)
        ensures
            id == self.asset_id(),
    {
        self.strong.id()
    }

    /// The handle without the type.
    pub fn into_generic(self) -> (handle: GenericHandle)
        ensures
            handle.asset_id() == self.asset_id(),
    {
        self.strong
    }

    /// Gives the handle up: the tracker counts one reference less at its
    /// next tick.
    pub fn release(self) {
        self.strong.release();
    }
}

impl<A: ?Sized> Clone for TypedHandle<A> {
    /// Another handle to the same asset: the tracker counts one reference
    /// more at its next tick.
    fn clone(&self) -> (handle: Self)
        ensures
            handle.asset_id() == self.asset_id(),
    {
        TypedHandle { strong: self.strong.clone(), marker: PhantomData }
    }
}

/// A weak handle to an asset of whatever type: it names the asset and does
/// not keep it.
#[derive(Clone, Copy, Debug, PartialEq, Eq, Structural)]
pub struct WeakGenericHandle {
    id: AssetUUID,
}

impl WeakGenericHandle {
    /// The asset that the handle names.
    pub closed spec fn asset_id(&self) -> AssetUUID {
        self.id
    }

    /// The asset that the handle names.
    pub fn id(&self) -> (id: AssetUUID)
        ensures
            id == self.asset_id(),
    {
        self.id
    }
}

/// The slot that a handle of the asset type `asset_uuid` to the asset `id`
/// names, or why there is no such handle: the asset is not found where it
/// has no slot yet or the type of its data is not registered; the type is
/// mismatched where the data is registered with another asset type.
pub open spec fn typed_slot(
    records: Seq<TrackedAsset>,
    by_data: Map<AssetTypeId, AssetType>,
    asset_uuid: AssetTypeId,
    id: AssetUUID,
) -> Result<LoadHandle, ErrorKind> {
    match index_of(records, id) {
        Some(i) => match records[i].home {
            Some(home) => if !by_data.contains_key(home.0) {
                Err(ErrorKind::NotFound)
            } else if by_data[home.0].asset_uuid != asset_uuid {
                Err(ErrorKind::TypeMismatch)
            } else {
                Ok(home.1)
            },
            None => Err(ErrorKind::NotFound),
        },
        None => Err(ErrorKind::NotFound),
    }
}

/// The load tracker.
///
/// Its view is the records of the assets. Beside them it keeps the
/// registered types, both ends of the channel on which changes of reference
/// counts arrive, and for each asset with a slot the shared slot number that
/// all typed handles to the asset are made of.
pub struct LoaderWithStorage {
    storage_map: AssetStorageMap,
    ref_sender: Sender<RefOp>,
    ref_receiver: Receiver<RefOp>,
    assets: Vec<TrackedAsset>,
    handles: HashMap<AssetUUID, Arc<LoadHandle>>,
}

impl Default for LoaderWithStorage {
    /// A tracker without assets and without registered asset types.
    fn default() -> (loader: Self)
        ensures
            loader.wf(),
            loader@ == Seq::<TrackedAsset>::empty(),
            homes(loader@) == Set::<TypedSlot>::empty(),
    {
        let (tx, rx) = ref_channel();
        assert(homes(Seq::<TrackedAsset>::empty()) =~= Set::<TypedSlot>::empty());
        LoaderWithStorage {
            storage_map: AssetStorageMap::default(),
            ref_sender: tx,
            ref_receiver: rx,
            assets: Vec::new(),
            handles: HashMap::new(),
        }
    }
}

impl View for LoaderWithStorage {
    type V = Seq<TrackedAsset>;

    closed spec fn view(&self) -> Seq<TrackedAsset> {
        self.assets@
    }
}

impl LoaderWithStorage {
    /// The invariant of the tracker: one record for an asset, one asset for a slot.
    pub open spec fn wf(&self) -> bool {
        distinct_ids(self@) && distinct_homes(self@)
    }

    /// Whether every slot that the tracker has for an asset is handed out by
    /// the storages.
    pub open spec fn agrees_with<S: WorldStorages>(&self, storages: &S) -> bool {
        homes(self@).subset_of(storages.reserved_slots())
    }

    /// The registered asset types.
    pub closed spec fn registry(&self) -> AssetStorageMap {
        self.storage_map
    }

    /// A tracker without assets, for the asset types with the given
    /// registrations.
    pub fn new(types: &Vec<AssetType>) -> (loader: Self)
        ensures
            loader.wf(),
            loader@ == Seq::<TrackedAsset>::empty(),
            homes(loader@) == Set::<TypedSlot>::empty(),
            loader.registry().by_data() == crate::registry::by_data_uuid(types@, types@.len()),
            loader.registry().by_asset() == crate::registry::by_asset_uuid(types@, types@.len()),
    {
        let (tx, rx) = ref_channel();
        assert(homes(Seq::<TrackedAsset>::empty()) =~= Set::<TypedSlot>::empty());
        LoaderWithStorage {
            storage_map: AssetStorageMap::new(types),
            ref_sender: tx,
            ref_receiver: rx,
            assets: Vec::new(),
            handles: HashMap::new(),
        }
    }

    /// Announces a new reference to the asset `id`; the tracker counts it at
    /// its next tick.
    pub fn add_asset_ref(&self, id: AssetUUID) {
        send_ref_op(&self.ref_sender, RefOp::Increase(id));
    }

    /// Announces that a reference to the asset `id` is gone; the tracker
    /// counts it at its next tick.
    pub fn decrease_asset_ref(&self, id: AssetUUID) {
        send_ref_op(&self.ref_sender, RefOp::Decrease(id));
    }

    /// Asks for the asset `id` and returns a strong handle to it. The
    /// reference is counted, and the asset asked of the import source where
    /// that is due, at the next tick.
    pub fn load_asset(&self, id: AssetUUID) -> (handle: GenericHandle)
        ensures
            handle.asset_id() == id,
    {
        self.add_asset_ref(id);
        GenericHandle { chan: clone_sender(&self.ref_sender), id }
    }

    /// Tries to make a strong handle of a weak one: succeeds exactly when
    /// the tracker counts at least one strong handle to the asset. The new
    /// handle is counted at the next tick.
    pub fn upgrade(&self, weak: &WeakGenericHandle) -> (r: Option<GenericHandle>)
        ensures
            r is Some <==> refs_of(self@, weak.asset_id()) > 0,
            r matches Some(handle) ==> handle.asset_id() == weak.asset_id(),
    {
        if self.ref_count(weak.id) > 0 {
            Some(self.load_asset(weak.id))
        } else {
            None
        }
    }

    /// Where the load of the asset `id` stands.
    pub fn get_load_status(&self, id: AssetUUID) -> (status: LoadStatus)
        ensures
            status == status_of(self@, id),
    {
        match self.find(id) {
            Some(i) => self.assets[i].status.clone(),
            None => LoadStatus::NotRequested,
        }
    }

    /// Number of references to the asset `id` that the tracker has counted.
    pub fn ref_count(&self, id: AssetUUID) -> (refs: u64)
        ensures
            refs == refs_of(self@, id),
    {
        match self.find(id) {
            Some(i) => self.assets[i].refs,
            None => 0,
        }
    }

    /// The slot number `slot` as the handles to the asset `id` share it: the
    /// one that the tracker keeps for the asset, so that all handles to the
    /// asset are of one group, and a new one where the tracker keeps none
    /// for that slot.
    fn shared_slot(&self, id: AssetUUID, slot: LoadHandle) -> (shared: Arc<LoadHandle>)
        ensures
            *shared == slot,
    {
        match self.handles.get(&id) {
            Some(kept) => {
                if **kept == slot {
                    kept.clone()
                } else {
                    Arc::new(slot)
                }
            },
            None => Arc::new(slot),
        }
    }

    /// A handle of the asset type `A` to the asset `id`, or why there is
    /// none: see [`typed_slot`]. Nothing changes either way. The handles to
    /// one asset in one slot are clones of each other.
    pub fn typed_handle<A: Asset + TypeUuid>(&self, id: AssetUUID) -> (r: Result<Handle<A>, Error>)
        ensures
            match typed_slot(self@, self.registry().by_data(), A::UUID, id) {
                Ok(slot) => r matches Ok(handle) && handle.load_handle() == slot,
                Err(kind) => r matches Err(e) && e.kind == kind,
            },
    {
        let asset_type = A::UUID;
        let home = match self.find(id) {
            Some(i) => self.assets[i].home,
            None => None,
        };
        match home {
            Some((data_type, slot)) => {
                match self.storage_map.find_by_data_uuid(&data_type) {
                    Some(storage_type) => {
                        if asset_type != storage_type.asset_uuid {
                            Err(
                                Error::new(
                                    ErrorKind::TypeMismatch,
                                    "the asset is registered with another asset type".to_owned(),
                                ),
                            )
                        } else {
                            Ok(Handle::from_arc(self.shared_slot(id, slot)))
                        }
                    },
                    None => Err(
                        Error::new(
                            ErrorKind::NotFound,
                            "the type of the asset's data is not registered".to_owned(),
                        ),
                    ),
                }
            },
            None => Err(Error::new(ErrorKind::NotFound, "the asset has no slot".to_owned())),
        }
    }

    /// A handle of the asset type `A` to the asset `id`.
    ///
    /// `None` where the asset has no slot yet, where the type of its data is
    /// not registered, and where it is registered with another asset type
    /// than `A`. Nothing changes either way.
    pub fn get_asset_handle<A: Asset + TypeUuid>(&self, id: AssetUUID) -> (r: Option<Handle<A>>)
        ensures
            match typed_slot(self@, self.registry().by_data(), A::UUID, id) {
                Ok(slot) => r matches Some(handle) && handle.load_handle() == slot,
                Err(_) => r is None,
            },
    {
        match self.typed_handle::<A>(id) {
            Ok(handle) => Some(handle),
            Err(_) => None,
        }
    }

    /// Asks for the asset `id` as an asset of type `A` and returns a strong
    /// handle to it, as [`LoaderWithStorage::load_asset`] does.
    ///
    /// `None`, and nothing is counted, exactly where the asset has a slot
    /// whose data is registered with another asset type than `A`.
    pub fn load_typed<A: Asset + TypeUuid>(&self, id: AssetUUID) -> (r: Option<TypedHandle<A>>)
        ensures
            r is None <==> typed_slot(self@, self.registry().by_data(), A::UUID, id) == Err::<
                LoadHandle,
                ErrorKind,
            >(ErrorKind::TypeMismatch),
            r matches Some(handle) ==> handle.asset_id() == id,
    {
        match self.typed_handle::<A>(id) {
            Ok(_) => Some(TypedHandle { strong: self.load_asset(id), marker: PhantomData }),
            Err(e) => {
                match e.kind() {
                    ErrorKind::TypeMismatch => None,
                    _ => Some(TypedHandle { strong: self.load_asset(id), marker: PhantomData }),
                }
            },
        }
    }

    /// The asset `id` as an asset of type `A`, out of the storage of `A`.
    pub fn get_asset<'a, A: Asset + TypeUuid>(
        &self,
        id: AssetUUID,
        storage: &'a AssetStorage<A>,
    ) -> (r: Option<&'a A>)
        ensures
            match typed_slot(self@, self.registry().by_data(), A::UUID, id) {
                Ok(slot) => {
                    &&& r is Some <==> storage@.is_loaded(slot)
                    &&& r matches Some(asset) ==> *asset == storage@.asset_of(slot)
                },
                Err(_) => r is None,
            },
    {
        match self.get_asset_handle::<A>(id) {
            Some(handle) => storage.get(&handle),
            None => None,
        }
    }

    /// The asset `id` as an asset of type `A`, to be changed in the storage of `A`.
    pub fn get_asset_mut<'a, A: Asset + TypeUuid>(
        &self,
        id: AssetUUID,
        storage: &'a mut AssetStorage<A>,
    ) -> (r: Option<&'a mut A>)
        requires
            old(storage).wf(),
        ensures
            final(storage).wf(),
            match typed_slot(self@, self.registry().by_data(), A::UUID, id) {
                Ok(slot) => {
                    &&& r is Some <==> old(storage)@.is_loaded(slot)
                    &&& match r {
                        Some(asset) => *asset == old(storage)@.asset_of(slot) && final(storage)@
                            == old(storage)@.with_asset(slot, *final(asset)),
                        None => final(storage)@ == old(storage)@,
                    }
                },
                Err(_) => r is None && final(storage)@ == old(storage)@,
            },
    {
        match self.get_asset_handle::<A>(id) {
            Some(handle) => storage.get_mut(&handle),
            None => None,
        }
    }

    /// Index of the record about the asset `id`.
    fn find(&self, id: AssetUUID) -> (r: Option<usize>)
        ensures
            match r {
                Some(i) => index_of(self@, id) == Some(i as int) && i < self@.len() && self@[i as int].id
                    == id,
                None => index_of(self@, id) is None,
            },
    {
        let mut i: usize = self.assets.len();
        while i > 0
            invariant
                i <= self.assets@.len(),
                position(self.assets@, id, self.assets@.len()) == position(
                    self.assets@,
                    id,
                    i as nat,
                ),
            decreases i,
        {
            i = i - 1;
            if self.assets[i].id == id {
                return Some(i);
            }
        }
        None
    }

    /// Index of the record about the asset `id`, after starting one where
    /// there was none.
    fn find_or_track(&mut self, id: AssetUUID) -> (i: usize)
        requires
            old(self).wf(),
        ensures
            final(self).wf(),
            final(self)@ == tracking(old(self)@, id),
            final(self).registry() == old(self).registry(),
            index_of(final(self)@, id) == Some(i as int),
            i < final(self)@.len(),
            final(self)@[i as int].id == id,
            homes(final(self)@) == homes(old(self)@),
    {
        proof {
            lemma_position(self@, id, self@.len());
        }
        let i = match self.find(id) {
            Some(i) => i,
            None => {
                self.assets.push(TrackedAsset::new(id));
                self.assets.len() - 1
            },
        };
        proof {
            let before = old(self)@;
            let after = self@;
            assert forall|slot: TypedSlot| homes(after).contains(slot) == homes(before).contains(
                slot,
            ) by {
                if homes(after).contains(slot) {
                    let k = choose|k: int|
                        0 <= k < after.len() && (#[trigger] after[k]).home == Some(slot);
                    assert(before[k].home == Some(slot));
                }
                if homes(before).contains(slot) {
                    let k = choose|k: int|
                        0 <= k < before.len() && (#[trigger] before[k]).home == Some(slot);
                    assert(after[k].home == Some(slot));
                }
            }
            assert(homes(after) =~= homes(before));
        }
        i
    }

    /// Takes in changes of reference counts, in order: each counts on the
    /// record of its asset. Returns the assets to ask the import source for.
    pub fn apply_ref_ops(&mut self, ops: &Vec<RefOp>) -> (requests: Vec<AssetUUID>)
        requires
            old(self).wf(),
        ensures
            final(self).wf(),
            final(self).registry() == old(self).registry(),
            final(self)@ == counted(old(self)@, ops@, ops@.len()),
            requests@ == requested(old(self)@, ops@, ops@.len()),
            homes(final(self)@) == homes(old(self)@),
    {
        let mut requests: Vec<AssetUUID> = Vec::new();
        let mut n: usize = 0;
        while n < ops.len()
            invariant
                n <= ops@.len(),
                self.wf(),
                self.registry() == old(self).registry(),
                self@ == counted(old(self)@, ops@, n as nat),
                requests@ == requested(old(self)@, ops@, n as nat),
                homes(self@) == homes(old(self)@),
            decreases ops@.len() - n,
        {
            proof {
                lemma_after_op(self@, ops@[n as int]);
            }
            match ops[n] {
                RefOp::Increase(id) => {
                    match self.find(id) {
                        Some(i) => {
                            if self.assets[i].retain() {
                                requests.push(id);
                            }
                        },
                        None => {
                            let mut asset = TrackedAsset::new(id);
                            asset.retain();
                            self.assets.push(asset);
                            requests.push(id);
                        },
                    }
                },
                RefOp::Decrease(id) => {
                    match self.find(id) {
                        Some(i) => {
                            self.assets[i].release();
                        },
                        None => {},
                    }
                },
            }
            n = n + 1;
        }
        requests
    }

    /// Deals with one report of the import source.
    ///
    /// An asset that the source does not know is noted as such. Bytes for a
    /// type without storage are dropped. Other bytes go to the storage of
    /// their type: for the slot that the asset has there, else for a new one,
    /// after a slot in the storage of another type was released. The load goes
    /// on where the storage takes the bytes and fails where it does not, or
    /// has no slot left to give. What the storages go through is what
    /// [`is_handover`] says.
    pub fn deliver_one<S: WorldStorages>(&mut self, storages: &mut S, event: &ImportEvent) -> (outcome:
        Delivery)
        requires
            old(self).wf(),
            old(storages).world_wf(),
            old(self).agrees_with(old(storages)),
        ensures
            final(self).wf(),
            final(storages).world_wf(),
            final(self).agrees_with(final(storages)),
            final(self).registry() == old(self).registry(),
            final(self)@ == delivered_one(old(self)@, *event, outcome),
            is_delivery(old(self)@, old(storages).types(), *event, outcome),
            is_handover(*old(storages), old(self)@, *event, outcome, *final(storages)),
            final(storages).types() == old(storages).types(),
            final(storages).loaded_slots().subset_of(old(storages).loaded_slots()),
            forall|slot: TypedSlot|
                #[trigger] old(storages).reserved_slots().contains(slot) && !homes(old(self)@).contains(
                    slot,
                )
                    ==> {
                    &&& final(storages).reserved_slots().contains(slot)
                    &&& !homes(final(self)@).contains(slot)
                    &&& final(storages).loaded_slots().contains(slot) == old(
                        storages,
                    ).loaded_slots().contains(slot)
                },
    {
        let ghost before = *storages;
        match event {
            ImportEvent::Unknown { asset_id } => {
                match self.find(*asset_id) {
                    Some(i) => {
                        self.assets[i].set_unknown();
                        proof {
                            lemma_same_homes(old(self)@, self@);
                        }
                    },
                    None => {},
                }
                proof {
                    assert(before.loaded_slots().difference(Set::empty()) =~= before.loaded_slots());
                    assert(before.reserved_slots().difference(Set::empty()).union(Set::empty())
                        =~= before.reserved_slots());
                }
                Delivery::NotFound
            },
            ImportEvent::Bytes { asset_id, data_type_id, bytes } => {
                if !storages.is_registered(data_type_id) {
                    proof {
                        assert(before.loaded_slots().difference(Set::empty())
                            =~= before.loaded_slots());
                        assert(before.reserved_slots().difference(Set::empty()).union(
                            Set::empty(),
                        ) =~= before.reserved_slots());
                    }
                    return Delivery::Unregistered;
                }
                proof {
                    lemma_position(self@, *asset_id, self@.len());
                }
                let i = self.find_or_track(*asset_id);
                let ghost known = self@;
                let ghost gone = given_up(old(self)@, before.types(), *event);
                assert(known[i as int].home == home_of(old(self)@, *asset_id));
                let kept: Option<LoadHandle> = match self.assets[i].home {
                    Some((ty, h)) => {
                        if ty == *data_type_id {
                            Some(h)
                        } else {
                            storages.free_in(&ty, h);
                            None
                        }
                    },
                    None => None,
                };
                assert(kept == kept_slot(old(self)@, *asset_id, *data_type_id));
                let ghost freed = *storages;
                let slot = match kept {
                    Some(h) => Some(h),
                    None => storages.allocate_in(data_type_id),
                };
                let ghost ready = *storages;
                proof {
                    storages.lemma_slots();
                    old(storages).lemma_slots();
                }
                let data = bytes.as_slice();
                match slot {
                    Some(h) => {
                        let result = storages.update_asset_in(data_type_id, h, data);
                        self.assets[i].set_stored((*data_type_id, h), &result);
                        if kept.is_none() {
                            self.handles.insert(*asset_id, Arc::new(h));
                        }
                        let outcome = Delivery::Stored { slot: h, result };
                        proof {
                            lemma_rehomed(known, self@, i as int, Some((*data_type_id, h)));
                            assert(storages.loaded_slots() =~= before.loaded_slots().difference(
                                gone,
                            ));
                            assert(storages.reserved_slots() =~= before.reserved_slots().difference(
                                gone,
                            ).union(set![(*data_type_id, h)]));
                            assert(is_passage(
                                before,
                                freed,
                                ready,
                                *storages,
                                old(self)@,
                                *asset_id,
                                *data_type_id,
                                data,
                                outcome,
                            ));
                        }
                        outcome
                    },
                    None => {
                        let e = Error::new(
                            ErrorKind::Import,
                            "the storage has no free slot".to_owned(),
                        );
                        self.assets[i].set_refused(e.clone());
                        self.handles.remove(asset_id);
                        let outcome = Delivery::Refused(e);
                        proof {
                            lemma_rehomed(known, self@, i as int, None);
                            assert(storages.loaded_slots() =~= before.loaded_slots().difference(
                                gone,
                            ));
                            assert(storages.reserved_slots() =~= before.reserved_slots().difference(
                                gone,
                            ).union(Set::empty()));
                            assert(is_passage(
                                before,
                                freed,
                                ready,
                                *storages,
                                old(self)@,
                                *asset_id,
                                *data_type_id,
                                data,
                                outcome,
                            ));
                        }
                        outcome
                    },
                }
            },
        }
    }

    /// Deals with the reports of the import source, in order: see
    /// [`LoaderWithStorage::deliver_one`].
    pub fn deliver<S: WorldStorages>(&mut self, storages: &mut S, imports: &Vec<ImportEvent>) -> (deliveries:
        Vec<Delivery>)
        requires
            old(self).wf(),
            old(storages).world_wf(),
            old(self).agrees_with(old(storages)),
        ensures
            final(self).wf(),
            final(storages).world_wf(),
            final(self).agrees_with(final(storages)),
            final(self).registry() == old(self).registry(),
            final(self)@ == delivered(old(self)@, imports@, deliveries@, imports@.len()),
            are_deliveries(old(self)@, old(storages).types(), imports@, deliveries@),
            exists|stages: Seq<S>| #[trigger]
                leads_through(
                    stages,
                    *old(storages),
                    *final(storages),
                    old(self)@,
                    imports@,
                    deliveries@,
                ),
            final(storages).types() == old(storages).types(),
            final(storages).loaded_slots() == old(storages).loaded_slots().difference(
                released(old(self)@, old(storages).types(), imports@, deliveries@, imports@.len()),
            ),
            final(storages).loaded_slots().subset_of(old(storages).loaded_slots()),
            forall|slot: TypedSlot|
                #[trigger] old(storages).reserved_slots().contains(slot) && !homes(old(self)@).contains(
                    slot,
                )
                    ==> {
                    &&& final(storages).reserved_slots().contains(slot)
                    &&& !homes(final(self)@).contains(slot)
                    &&& final(storages).loaded_slots().contains(slot) == old(
                        storages,
                    ).loaded_slots().contains(slot)
                },
    {
        let mut deliveries: Vec<Delivery> = Vec::new();
        let mut n: usize = 0;
        let ghost mut stages: Seq<S> = seq![*storages];
        assert(storages.loaded_slots() =~= old(storages).loaded_slots().difference(Set::empty()));
        while n < imports.len()
            invariant
                n <= imports@.len(),
                deliveries@.len() == n,
                stages.len() == n + 1,
                stages[0] == *old(storages),
                stages[n as int] == *storages,
                forall|k: int|
                    0 <= k < n ==> #[trigger] handover_at(
                        stages,
                        old(self)@,
                        imports@,
                        deliveries@,
                        k,
                    ),
                storages.loaded_slots() == old(storages).loaded_slots().difference(
                    released(old(self)@, old(storages).types(), imports@, deliveries@, n as nat),
                ),
                self.wf(),
                storages.world_wf(),
                self.agrees_with(storages),
                self.registry() == old(self).registry(),
                self@ == delivered(old(self)@, imports@, deliveries@, n as nat),
                forall|k: int|
                    0 <= k < n ==> is_delivery(
                        delivered(old(self)@, imports@, deliveries@, k as nat),
                        old(storages).types(),
                        imports@[k],
                        #[trigger] deliveries@[k],
                    ),
                storages.types() == old(storages).types(),
                storages.loaded_slots().subset_of(old(storages).loaded_slots()),
                forall|slot: TypedSlot|
                    #[trigger] old(storages).reserved_slots().contains(slot) && !homes(old(self)@).contains(
                        slot,
                    ) ==> {
                        &&& storages.reserved_slots().contains(slot)
                        &&& !homes(self@).contains(slot)
                        &&& storages.loaded_slots().contains(slot) == old(
                            storages,
                        ).loaded_slots().contains(slot)
                    },
            decreases imports@.len() - n,
        {
            let ghost done = deliveries@;
            let ghost mid_reserved = storages.reserved_slots();
            let ghost mid_loaded = storages.loaded_slots();
            let ghost passed = stages;
            let outcome = self.deliver_one(storages, &imports[n]);
            deliveries.push(outcome);
            proof {
                stages = stages.push(*storages);
                lemma_delivered_prefix(old(self)@, imports@, deliveries@, done, n as nat);
                lemma_released_prefix(
                    old(self)@,
                    old(storages).types(),
                    imports@,
                    deliveries@,
                    done,
                    n as nat,
                );
                assert forall|k: int| 0 <= k < n + 1 implies #[trigger] handover_at(
                    stages,
                    old(self)@,
                    imports@,
                    deliveries@,
                    k,
                ) by {
                    lemma_delivered_prefix(old(self)@, imports@, deliveries@, done, k as nat);
                    if k < n {
                        assert(handover_at(passed, old(self)@, imports@, done, k));
                        assert(stages[k] == passed[k]);
                        assert(stages[k + 1] == passed[k + 1]);
                        assert(deliveries@[k] == done[k]);
                    } else {
                        assert(stages[k] == passed[n as int]);
                    }
                }
                assert(storages.loaded_slots() =~= old(storages).loaded_slots().difference(
                    released(
                        old(self)@,
                        old(storages).types(),
                        imports@,
                        deliveries@,
                        (n + 1) as nat,
                    ),
                ));
                assert forall|k: int| 0 <= k < n + 1 implies is_delivery(
                    delivered(old(self)@, imports@, deliveries@, k as nat),
                    old(storages).types(),
                    imports@[k],
                    #[trigger] deliveries@[k],
                ) by {
                    lemma_delivered_prefix(old(self)@, imports@, deliveries@, done, k as nat);
                    if k < n {
                        assert(deliveries@[k] == done[k]);
                    }
                }
                assert forall|slot: TypedSlot|
                    #[trigger] old(storages).reserved_slots().contains(slot) && !homes(old(self)@).contains(
                        slot,
                    ) implies {
                    &&& storages.reserved_slots().contains(slot)
                    &&& !homes(self@).contains(slot)
                    &&& storages.loaded_slots().contains(slot) == old(
                        storages,
                    ).loaded_slots().contains(slot)
                } by {
                    assert(mid_reserved.contains(slot));
                }
            }
            n = n + 1;
        }
        assert(leads_through(stages, *old(storages), *storages, old(self)@, imports@, deliveries@));
        deliveries
    }

    /// Ends a tick: the record of an asset that has been without references
    /// for a whole tick goes, and its slot is released; every other record
    /// says that its asset is loaded exactly when its slot holds an asset.
    pub fn settle<S: WorldStorages>(&mut self, storages: &mut S)
        requires
            old(self).wf(),
            old(storages).world_wf(),
            old(self).agrees_with(old(storages)),
        ensures
            final(self).wf(),
            final(storages).world_wf(),
            final(self).agrees_with(final(storages)),
            final(self).registry() == old(self).registry(),
            final(self)@ == settled(old(self)@, old(storages).loaded_slots(), old(self)@.len()),
            final(storages).types() == old(storages).types(),
            final(storages).reserved_slots() == old(storages).reserved_slots().difference(
                evicted_homes(old(self)@, old(self)@.len()),
            ),
            final(storages).loaded_slots() == old(storages).loaded_slots().difference(
                evicted_homes(old(self)@, old(self)@.len()),
            ),
            exists|chain: Seq<S>| #[trigger]
                settles_through(chain, *old(storages), *final(storages), old(self)@),
    {
        let ghost records = self@;
        let ghost mut chain: Seq<S> = seq![*storages];
        let ghost loaded = storages.loaded_slots();
        let ghost reserved = storages.reserved_slots();
        let ghost k: nat = 0;
        let mut i: usize = 0;
        assert(self.assets@ =~= settled(records, loaded, 0) + records.skip(0));
        assert(reserved =~= reserved.difference(evicted_homes(records, 0)));
        assert(loaded =~= loaded.difference(evicted_homes(records, 0)));
        while i < self.assets.len()
            invariant
                records == old(self)@,
                loaded == old(storages).loaded_slots(),
                reserved == old(storages).reserved_slots(),
                distinct_ids(records),
                distinct_homes(records),
                homes(records).subset_of(reserved),
                k <= records.len(),
                chain.len() == k + 1,
                chain[0] == *old(storages),
                chain[k as int] == *storages,
                forall|w: int| 0 <= w < k ==> #[trigger] release_at(chain, records, w),
                i == settled(records, loaded, k).len(),
                self.assets@ == settled(records, loaded, k) + records.skip(k as int),
                storages.world_wf(),
                self.registry() == old(self).registry(),
                storages.types() == old(storages).types(),
                storages.reserved_slots() == reserved.difference(evicted_homes(records, k)),
                storages.loaded_slots() == loaded.difference(evicted_homes(records, k)),
            decreases records.len() - k,
        {
            let ghost done = settled(records, loaded, k);
            let ghost passed = chain;
            assert(self.assets@[i as int] == records[k as int]);
            assert(records.skip(k as int).len() > 0);
            if self.assets[i].refs == 0 && self.assets[i].idle {
                let record = self.assets.remove(i);
                self.handles.remove(&record.id);
                match record.home {
                    Some((ty, h)) => {
                        storages.free_in(&ty, h);
                    },
                    None => {},
                }
                proof {
                    assert(self.assets@ =~= done + records.skip(k as int + 1));
                    assert forall|slot: TypedSlot|
                        evicted_homes(records, k + 1).contains(slot) == (evicted_homes(
                            records,
                            k,
                        ).contains(slot) || record.home == Some(slot)) by {
                        if evicted_homes(records, k + 1).contains(slot) {
                            let w = choose|w: int|
                                0 <= w < k + 1 && (#[trigger] records[w]).evictable()
                                    && records[w].home == Some(slot);
                            if w < k {
                                assert(evicted_homes(records, k).contains(slot));
                            }
                        }
                        if evicted_homes(records, k).contains(slot) {
                            let w = choose|w: int|
                                0 <= w < k && (#[trigger] records[w]).evictable()
                                    && records[w].home == Some(slot);
                            assert(0 <= w < k + 1);
                        }
                        if record.home == Some(slot) {
                            assert(records[k as int].evictable());
                        }
                    }
                    assert(storages.reserved_slots() =~= reserved.difference(
                        evicted_homes(records, k + 1),
                    ));
                    assert(storages.loaded_slots() =~= loaded.difference(
                        evicted_homes(records, k + 1),
                    ));
                    chain = chain.push(*storages);
                    assert forall|w: int| 0 <= w < k + 1 implies #[trigger] release_at(
                        chain,
                        records,
                        w,
                    ) by {
                        if w < k {
                            assert(release_at(passed, records, w));
                            assert(chain[w] == passed[w]);
                            assert(chain[w + 1] == passed[w + 1]);
                        } else {
                            assert(chain[w] == passed[k as int]);
                        }
                    }
                    k = k + 1;
                }
            } else {
                let in_storage = match self.assets[i].home {
                    Some((ty, h)) => storages.is_loaded_in(&ty, h),
                    None => false,
                };
                proof {
                    let record = records[k as int];
                    if record.home is Some {
                        let slot = record.home->0;
                        if evicted_homes(records, k).contains(slot) {
                            let w = choose|w: int|
                                0 <= w < k && (#[trigger] records[w]).evictable()
                                    && records[w].home == Some(slot);
                            assert(records[w].home != records[k as int].home);
                        }
                    }
                    assert(in_storage == record.is_in(loaded));
                }
                self.assets[i].settle(in_storage);
                proof {
                    assert(self.assets@ =~= settled(records, loaded, k + 1) + records.skip(
                        k as int + 1,
                    ));
                    assert forall|slot: TypedSlot|
                        evicted_homes(records, k + 1).contains(slot) == evicted_homes(
                            records,
                            k,
                        ).contains(slot) by {
                        if evicted_homes(records, k + 1).contains(slot) {
                            let w = choose|w: int|
                                0 <= w < k + 1 && (#[trigger] records[w]).evictable()
                                    && records[w].home == Some(slot);
                            assert(w < k);
                        }
                        if evicted_homes(records, k).contains(slot) {
                            let w = choose|w: int|
                                0 <= w < k && (#[trigger] records[w]).evictable()
                                    && records[w].home == Some(slot);
                            assert(0 <= w < k + 1);
                        }
                    }
                    assert(evicted_homes(records, k + 1) =~= evicted_homes(records, k));
                    chain = chain.push(*storages);
                    assert forall|w: int| 0 <= w < k + 1 implies #[trigger] release_at(
                        chain,
                        records,
                        w,
                    ) by {
                        if w < k {
                            assert(release_at(passed, records, w));
                            assert(chain[w] == passed[w]);
                            assert(chain[w + 1] == passed[w + 1]);
                        } else {
                            assert(chain[w] == passed[k as int]);
                        }
                    }
                    k = k + 1;
                }
                i = i + 1;
            }
        }
        proof {
            assert(k == records.len());
            assert(settles_through(chain, *old(storages), *storages, records));
            assert(self.assets@ =~= settled(records, loaded, k));
            lemma_settled(records, loaded, k);
            lemma_settled_stems(records, loaded, k);
            let after = self@;
            assert forall|slot: TypedSlot| homes(after).contains(
                slot,
            ) implies storages.reserved_slots().contains(slot) by {
                let j = choose|j: int|
                    0 <= j < after.len() && (#[trigger] after[j]).home == Some(slot);
                assert(stays_as(records, loaded, k, after[j]));
                let w = choose|w: int|
                    0 <= w < k && !(#[trigger] records[w]).evictable() && after[j]
                        == records[w].settled(records[w].is_in(loaded));
                assert(records[w].home == Some(slot));
                assert(homes(records).contains(slot));
                if evicted_homes(records, k).contains(slot) {
                    let v = choose|v: int|
                        0 <= v < k && (#[trigger] records[v]).evictable() && records[v].home
                            == Some(slot);
                    assert(records[v].home == records[w].home);
                }
            }
        }
    }

    /// One tick of the tracker, with the changes of reference counts that
    /// have arrived given as `ops`.
    ///
    /// In order: the changes are counted, and an asset with a new reference
    /// that was not asked for, or whose last load failed, is asked of the
    /// import source; the reports of the import source are dealt with; the
    /// record of an asset that was without references when the last tick
    /// ended, and still is, goes, and its slot is released; every other
    /// record says that its asset is loaded exactly when its slot holds one.
    /// What the storages go through is what [`is_tick_of`] says.
    pub fn tick<S: WorldStorages>(
        &mut self,
        storages: &mut S,
        ops: &Vec<RefOp>,
        imports: &Vec<ImportEvent>,
    ) -> (report: TickReport)
        requires
            old(self).wf(),
            old(storages).world_wf(),
            old(self).agrees_with(old(storages)),
        ensures
            final(self).wf(),
            final(storages).world_wf(),
            final(self).agrees_with(final(storages)),
            final(self).registry() == old(self).registry(),
            is_tick(
                old(self)@,
                ops@,
                imports@,
                old(storages).types(),
                report,
                final(storages).loaded_slots(),
                final(self)@,
            ),
            exists|stages: Seq<S>, ends: Seq<S>| #[trigger]
                is_tick_of(
                    *old(storages),
                    stages,
                    ends,
                    *final(storages),
                    old(self)@,
                    ops@,
                    imports@,
                    report,
                ),
            final(storages).types() == old(storages).types(),
            final(storages).loaded_slots().subset_of(old(storages).loaded_slots()),
            forall|j: int|
                0 <= j < final(self)@.len() ==> ((#[trigger] final(self)@[j]).status is Loaded
                    <==> final(self)@[j].is_in(final(storages).loaded_slots())),
            forall|slot: TypedSlot| #[trigger]
                evicted_homes(
                    before_settling(old(self)@, ops@, imports@, report.deliveries@),
                    before_settling(old(self)@, ops@, imports@, report.deliveries@).len(),
                ).contains(slot) ==> !final(storages).reserved_slots().contains(slot),
            forall|slot: TypedSlot|
                #[trigger] old(storages).reserved_slots().contains(slot) && !homes(old(self)@).contains(
                    slot,
                )
                    ==> {
                    &&& final(storages).reserved_slots().contains(slot)
                    &&& !homes(final(self)@).contains(slot)
                    &&& final(storages).loaded_slots().contains(slot) == old(
                        storages,
                    ).loaded_slots().contains(slot)
                },
    {
        let requests = self.apply_ref_ops(ops);
        let ghost arrived = self@;
        let deliveries = self.deliver(storages, imports);
        let ghost mid = self@;
        let ghost mid_loaded = storages.loaded_slots();
        let ghost mid_reserved = storages.reserved_slots();
        let ghost stages = choose|stages: Seq<S>| #[trigger]
            leads_through(stages, *old(storages), *storages, arrived, imports@, deliveries@);
        let ghost delivered_to = *storages;
        self.settle(storages);
        let report = TickReport { requests, deliveries };
        proof {
            let ends = choose|ends: Seq<S>| #[trigger]
                settles_through(ends, delivered_to, *storages, mid);
            assert(is_tick_of(
                *old(storages),
                stages,
                ends,
                *storages,
                old(self)@,
                ops@,
                imports@,
                report,
            ));
            let gone = evicted_homes(mid, mid.len());
            assert forall|i: int|
                0 <= i < mid.len() && !(#[trigger] mid[i]).evictable() implies mid[i].is_in(
                mid_loaded,
            ) == mid[i].is_in(storages.loaded_slots()) by {
                if mid[i].home is Some && gone.contains(mid[i].home->0) {
                    let w = choose|w: int|
                        0 <= w < mid.len() && (#[trigger] mid[w]).evictable() && mid[w].home
                            == mid[i].home;
                    if w < i {
                        assert(mid[w].home != mid[i].home);
                    } else {
                        assert(mid[i].home != mid[w].home);
                    }
                }
            }
            lemma_settled_by_homes(mid, mid_loaded, storages.loaded_slots(), mid.len());
            lemma_loaded_iff_in_storage(mid, storages.loaded_slots(), mid.len());
            lemma_settled_stems(mid, storages.loaded_slots(), mid.len());
            assert forall|slot: TypedSlot|
                old(storages).reserved_slots().contains(slot) && !homes(old(self)@).contains(
                    slot,
                ) implies {
                &&& storages.reserved_slots().contains(slot)
                &&& !homes(self@).contains(slot)
                &&& storages.loaded_slots().contains(slot) == old(storages).loaded_slots().contains(
                    slot,
                )
            } by {
                assert(mid_reserved.contains(slot));
                assert(!homes(mid).contains(slot));
                if gone.contains(slot) {
                    let w = choose|w: int|
                        0 <= w < mid.len() && (#[trigger] mid[w]).evictable() && mid[w].home
                            == Some(slot);
                    assert(homes(mid).contains(slot));
                }
                if homes(self@).contains(slot) {
                    let j = choose|j: int|
                        0 <= j < self@.len() && (#[trigger] self@[j]).home == Some(slot);
                    assert(stays_as(mid, storages.loaded_slots(), mid.len(), self@[j]));
                    let w = choose|w: int|
                        0 <= w < mid.len() && !(#[trigger] mid[w]).evictable() && self@[j]
                            == mid[w].settled(mid[w].is_in(storages.loaded_slots()));
                    assert(mid[w].home == Some(slot));
                    assert(homes(mid).contains(slot));
                }
            }
        }
        report
    }

    /// One tick of the tracker: takes the changes of reference counts that
    /// have arrived from the handles, in the order of their arrival, and
    /// does with them what [`LoaderWithStorage::tick`] says.
    pub fn process<S: WorldStorages>(&mut self, storages: &mut S, imports: &Vec<ImportEvent>) -> (report:
        TickReport)
        requires
            old(self).wf(),
            old(storages).world_wf(),
            old(self).agrees_with(old(storages)),
        ensures
            final(self).wf(),
            final(storages).world_wf(),
            final(self).agrees_with(final(storages)),
            final(self).registry() == old(self).registry(),
            exists|ops: Seq<RefOp>, stages: Seq<S>, ends: Seq<S>|
                is_tick(
                    old(self)@,
                    ops,
                    imports@,
                    old(storages).types(),
                    report,
                    final(storages).loaded_slots(),
                    final(self)@,
                ) && #[trigger] is_tick_of(
                    *old(storages),
                    stages,
                    ends,
                    *final(storages),
                    old(self)@,
                    ops,
                    imports@,
                    report,
                ),
            final(storages).types() == old(storages).types(),
            final(storages).loaded_slots().subset_of(old(storages).loaded_slots()),
            forall|j: int|
                0 <= j < final(self)@.len() ==> ((#[trigger] final(self)@[j]).status is Loaded
                    <==> final(self)@[j].is_in(final(storages).loaded_slots())),
            forall|slot: TypedSlot|
                #[trigger] old(storages).reserved_slots().contains(slot) && !homes(old(self)@).contains(
                    slot,
                )
                    ==> {
                    &&& final(storages).reserved_slots().contains(slot)
                    &&& !homes(final(self)@).contains(slot)
                    &&& final(storages).loaded_slots().contains(slot) == old(
                        storages,
                    ).loaded_slots().contains(slot)
                },
    {
        let ops = pending_ref_ops(&self.ref_receiver);
        let report = self.tick(storages, &ops, imports);
        proof {
            let (stages, ends) = choose|stages: Seq<S>, ends: Seq<S>| #[trigger]
                is_tick_of(
                    *old(storages),
                    stages,
                    ends,
                    *storages,
                    old(self)@,
                    ops@,
                    imports@,
                    report,
                );
            assert(is_tick(
                old(self)@,
                ops@,
                imports@,
                old(storages).types(),
                report,
                storages.loaded_slots(),
                self@,
            ) && is_tick_of(
                *old(storages),
                stages,
                ends,
                *storages,
                old(self)@,
                ops@,
                imports@,
                report,
            ));
        }
        report
    }
}

} // verus!
