//! Storages as the load tracker sees them: without the asset type, reached
//! through the identifier of the data their assets are made from.

use vstd::prelude::*;

use crate::asset::{Asset, AssetTypeId};
use crate::error::{Error, ErrorKind};
use crate::processor::{
    lemma_processing_keeps_slots, lemma_without_handle, processed_with, without_handle, Processed,
    ProcessingQueue, ProcessingState, Report,
};
use crate::registry::AssetType;
use crate::storage::{AssetStorage, LoadHandle};

verus! {

/// Asset data that can be read from the bytes an import delivers.
pub trait Decode: Sized {
    /// Reads the asset data, or says why the bytes are not such data.
    fn decode(bytes: &[u8]) -> Result<Self, Error>;
}

/// The storage of one asset type with the type taken out of its interface:
/// what the load tracker needs of a storage.
pub trait AssetTypeStorage {
    /// The invariant of the storage.
    spec fn wf(&self) -> bool;

    /// The handles that are handed out.
    spec fn reserved(&self) -> Set<LoadHandle>;

    /// The handles whose slot holds an asset.
    spec fn loaded(&self) -> Set<LoadHandle>;

    /// Only a handle that is handed out has an asset in its slot.
    proof fn lemma_loaded_reserved(&self)
        requires
            self.wf(),
        ensures
            self.loaded().subset_of(self.reserved()),
    ;

    /// Reserves a slot without putting an asset in it. `None` only when every
    /// handle is handed out.
    fn allocate(&mut self) -> (r: Option<LoadHandle>)
        requires
            old(self).wf(),
        ensures
            final(self).wf(),
            final(self).loaded() == old(self).loaded(),
            match r {
                Some(h) => !old(self).reserved().contains(h) && final(self).reserved() == old(
                    self,
                ).reserved().insert(h),
                None => final(self).reserved() == old(self).reserved() && forall|h: LoadHandle|
                    old(self).reserved().contains(h),
            },
    ;

    /// Decodes `data` and stages the result for the slot of `handle`. The
    /// slots do not change: the asset arrives when the staged data is
    /// processed. Fails where the bytes cannot be decoded, and for a handle
    /// that is not handed out.
    fn update_asset(&mut self, handle: LoadHandle, data: &[u8]) -> (r: Result<(), Error>)
        requires
            old(self).wf(),
        ensures
            final(self).wf(),
            final(self).reserved() == old(self).reserved(),
            final(self).loaded() == old(self).loaded(),
            !old(self).reserved().contains(handle) ==> r is Err,
    ;

    /// Whether the slot of `handle` holds an asset.
    fn is_loaded(&self, handle: LoadHandle) -> (r: bool)
        ensures
            r == self.loaded().contains(handle),
    ;

    /// Releases the slot of `handle` with all that is staged for it.
    fn free(&mut self, handle: LoadHandle)
        requires
            old(self).wf(),
        ensures
            final(self).wf(),
            final(self).reserved() == old(self).reserved().remove(handle),
            final(self).loaded() == old(self).loaded().remove(handle),
    ;
}

/// The storage of one asset type together with the queue of data that waits
/// to be processed into it.
pub struct TypedStorage<A: Asset> {
    /// The registration of the asset type.
    pub asset_type: AssetType,
    /// The assets.
    pub storage: AssetStorage<A>,
    /// Asset data that is not processed yet.
    pub queue: ProcessingQueue<A::Data, ()>,
}

impl<A: Asset> TypedStorage<A> {
    /// The storage is well formed and nothing is staged for a slot that is
    /// not handed out.
    pub open spec fn inv(&self) -> bool {
        &&& self.storage.wf()
        &&& forall|i: int|
            0 <= i < self.queue@.len() ==> self.storage@.is_reserved(
                (#[trigger] self.queue@[i]).handle,
            )
    }

    /// Whether `after` is this storage after `decoded` was staged for the
    /// slot of `handle` with the result `r`: data for a handle that is handed
    /// out goes to the back of the queue; data for another handle is refused;
    /// a failure is passed on. Nothing else changes.
    pub open spec fn is_staged(
        &self,
        handle: LoadHandle,
        decoded: Result<A::Data, Error>,
        r: Result<(), Error>,
        after: Self,
    ) -> bool {
        &&& after.asset_type == self.asset_type
        &&& after.storage@ == self.storage@
        &&& match decoded {
            Ok(data) => if self.storage@.is_reserved(handle) {
                &&& r is Ok
                &&& after.queue@ == self.queue@.push(
                    Processed { data: Ok(data), handle, tracker: None },
                )
            } else {
                &&& r matches Err(e)
                &&& e.kind == ErrorKind::Import
                &&& after.queue@ == self.queue@
            },
            Err(e) => r == Err::<(), Error>(e) && after.queue@ == self.queue@,
        }
    }

    /// Whether this storage holds, has staged and stands for what `other` does.
    pub open spec fn is_same(&self, other: Self) -> bool {
        &&& self.asset_type == other.asset_type
        &&& self.storage@ == other.storage@
        &&& self.queue@ == other.queue@
    }

    /// An empty storage for the asset type with the given registration.
    pub fn new(asset_type: AssetType) -> (s: Self)
        ensures
            s.inv(),
            s.asset_type == asset_type,
            s.storage@ == crate::storage::StorageModel::<A>::empty(),
            s.queue@ == Seq::<Processed<A::Data, ()>>::empty(),
    {
        TypedStorage { asset_type, storage: AssetStorage::new(), queue: ProcessingQueue::default() }
    }

    /// Creates the storage for the asset type with the given registration in
    /// `place`, unless there is a storage already, which then stays as it is.
    pub fn create_storage(place: &mut Option<TypedStorage<A>>, asset_type: AssetType)
        ensures
            match *old(place) {
                Some(storage) => *final(place) == Some(storage),
                None => *final(place) matches Some(storage) && storage.inv() && storage.asset_type
                    == asset_type && storage.storage@ == crate::storage::StorageModel::<A>::empty()
                    && storage.queue@ == Seq::<Processed<A::Data, ()>>::empty(),
            },
    {
        if place.is_none() {
            *place = Some(TypedStorage::new(asset_type));
        }
    }

    /// Processes what is staged: see [`ProcessingQueue::process`].
    pub fn process<F>(&mut self, f: F) -> (reports: Vec<Report<()>>) where
        F: Fn(A::Data) -> Result<ProcessingState<A::Data, A>, Error>,

        requires
            old(self).inv(),
            forall|i: int|
                0 <= i < old(self).queue@.len() && (#[trigger] old(self).queue@[i]).data is Ok
                    ==> call_requires(f, (old(self).queue@[i].data->Ok_0,)),
        ensures
            final(self).inv(),
            final(self).asset_type == old(self).asset_type,
            exists|outs: Seq<Result<ProcessingState<A::Data, A>, Error>>| #[trigger]
                processed_with(
                    f,
                    old(self).queue@,
                    outs,
                    old(self).storage@,
                    final(self).storage@,
                    final(self).queue@,
                    reports@,
                ),
    {
        let reports = self.queue.process(&mut self.storage, f);
        proof {
            let entries = old(self).queue@;
            let outs = choose|outs: Seq<Result<ProcessingState<A::Data, A>, Error>>| #[trigger]
                processed_with(
                    f,
                    entries,
                    outs,
                    old(self).storage@,
                    self.storage@,
                    self.queue@,
                    reports@,
                );
            lemma_processing_keeps_slots(old(self).storage@, entries, outs, entries.len());
            assert forall|j: int| 0 <= j < self.queue@.len() implies self.storage@.is_reserved(
                (#[trigger] self.queue@[j]).handle,
            ) by {
                let i = choose|i: int|
                    0 <= i < entries.len() && entries[i].handle == self.queue@[j].handle;
                assert(old(self).storage@.is_reserved(entries[i].handle));
            }
        }
        reports
    }

    /// Stages decoded asset data for the slot of `handle`, or passes on why
    /// there is none. Nothing is staged for a handle that is not handed out.
    pub fn stage(&mut self, handle: LoadHandle, decoded: Result<A::Data, Error>) -> (r: Result<
        (),
        Error,
    >)
        requires
            old(self).inv(),
        ensures
            final(self).inv(),
            old(self).is_staged(handle, decoded, r, *final(self)),
    {
        match decoded {
            Ok(data) => {
                if self.storage.is_reserved(handle) {
                    self.queue.enqueue(handle, data);
                    Ok(())
                } else {
                    Err(Error::new(ErrorKind::Import, "the handle is not reserved".to_owned()))
                }
            },
            Err(e) => Err(e),
        }
    }
}

impl<A: Asset> AssetTypeStorage for TypedStorage<A> where A::Data: Decode {
    open spec fn wf(&self) -> bool {
        self.inv()
    }

    open spec fn reserved(&self) -> Set<LoadHandle> {
        self.storage@.slots.dom()
    }

    open spec fn loaded(&self) -> Set<LoadHandle> {
        Set::new(|h: LoadHandle| self.storage@.is_loaded(h))
    }

    proof fn lemma_loaded_reserved(&self) {
    }

    fn allocate(&mut self) -> (r: Option<LoadHandle>)
        ensures
            final(self).asset_type == old(self).asset_type,
            final(self).queue@ == old(self).queue@,
            final(self).storage@ == old(self).storage@.allocated(),
            r == old(self).storage@.next_free(),
    {
        let r = self.storage.allocate();
        proof {
            assert(self.loaded() =~= old(self).loaded());
            match r {
                Some(h) => {
                    assert(self.reserved() =~= old(self).reserved().insert(h));
                },
                None => {
                    assert(self.reserved() =~= old(self).reserved());
                },
            }
        }
        r
    }

    fn update_asset(&mut self, handle: LoadHandle, data: &[u8]) -> (r: Result<(), Error>)
        ensures
            exists|decoded: Result<A::Data, Error>|
                call_ensures(<A::Data as Decode>::decode, (data,), decoded) && #[trigger] old(
                    self,
                ).is_staged(handle, decoded, r, *final(self)),
    {
        let decoded = <A::Data as Decode>::decode(data);
        let ghost read = decoded;
        let r = self.stage(handle, decoded);
        assert(old(self).is_staged(handle, read, r, *self));
        r
    }

    fn is_loaded(&self, handle: LoadHandle) -> (r: bool) {
        self.storage.is_loaded(&handle)
    }

    fn free(&mut self, handle: LoadHandle)
        ensures
            final(self).asset_type == old(self).asset_type,
            final(self).storage@ == old(self).storage@.freed(handle),
            final(self).queue@ == without_handle(old(self).queue@, handle, old(self).queue@.len()),
    {
        self.storage.free(handle);
        self.queue.discard(handle);
        proof {
            lemma_without_handle(old(self).queue@, handle, old(self).queue@.len());
            assert(self.reserved() =~= old(self).reserved().remove(handle));
            assert(self.loaded() =~= old(self).loaded().remove(handle));
            assert forall|j: int| 0 <= j < self.queue@.len() implies self.storage@.is_reserved(
                (#[trigger] self.queue@[j]).handle,
            ) by {
                let i = choose|i: int|
                    0 <= i < old(self).queue@.len() && old(self).queue@[i] == self.queue@[j];
                assert(old(self).storage@.is_reserved(old(self).queue@[i].handle));
            }
        }
    }
}

/// A slot of the storage of one asset type: the identifier of the data that
/// the assets of the type are made from, and the handle within that storage.
pub type TypedSlot = (AssetTypeId, LoadHandle);

/// The storages of all registered asset types, each reached through the
/// identifier of the data its assets are made from.
pub trait WorldStorages: Sized {
    /// The invariant of the storages.
    spec fn world_wf(&self) -> bool;

    /// The data identifiers of the asset types that have a storage.
    spec fn types(&self) -> Set<AssetTypeId>;

    /// The slots that are handed out.
    spec fn reserved_slots(&self) -> Set<TypedSlot>;

    /// The slots that hold an asset.
    spec fn loaded_slots(&self) -> Set<TypedSlot>;

    /// Whether `after` are these storages after a slot was asked of the
    /// storage of `asset_type`, with the result `r`.
    spec fn is_allocation(&self, asset_type: AssetTypeId, r: Option<LoadHandle>, after: Self) -> bool;

    /// Whether `after` are these storages after the slot `handle` of the
    /// storage of `asset_type` was released.
    spec fn is_release(&self, asset_type: AssetTypeId, handle: LoadHandle, after: Self) -> bool;

    /// Whether `after` are these storages after `data` was decoded and
    /// staged for the slot `handle` of the storage of `asset_type`, with the
    /// result `r`.
    spec fn is_update(
        &self,
        asset_type: AssetTypeId,
        handle: LoadHandle,
        data: &[u8],
        r: Result<(), Error>,
        after: Self,
    ) -> bool;

    /// Only a slot that is handed out holds an asset, and only a registered
    /// type has slots.
    proof fn lemma_slots(&self)
        requires
            self.world_wf(),
        ensures
            self.loaded_slots().subset_of(self.reserved_slots()),
            forall|slot: TypedSlot| #[trigger]
                self.reserved_slots().contains(slot) ==> self.types().contains(slot.0),
    ;

    /// Whether there is a storage for the asset type with this data identifier.
    fn is_registered(&self, asset_type: &AssetTypeId) -> (r: bool)
        ensures
            r == self.types().contains(*asset_type),
    ;

    /// Reserves a slot in the storage of `asset_type`: see
    /// [`WorldStorages::is_allocation`]. `None` exactly where the type has no
    /// storage or every handle of its storage is handed out; nothing changes
    /// then.
    fn allocate_in(&mut self, asset_type: &AssetTypeId) -> (r: Option<LoadHandle>)
        requires
            old(self).world_wf(),
        ensures
            final(self).world_wf(),
            final(self).types() == old(self).types(),
            final(self).loaded_slots() == old(self).loaded_slots(),
            r is None <==> !old(self).types().contains(*asset_type) || forall|h: LoadHandle|
                old(self).reserved_slots().contains((*asset_type, h)),
            old(self).is_allocation(*asset_type, r, *final(self)),
            match r {
                Some(h) => {
                    &&& old(self).types().contains(*asset_type)
                    &&& !old(self).reserved_slots().contains((*asset_type, h))
                    &&& final(self).reserved_slots() == old(self).reserved_slots().insert(
                        (*asset_type, h),
                    )
                },
                None => final(self).reserved_slots() == old(self).reserved_slots(),
            },
    ;

    /// Decodes `data` and stages the result for a slot of the storage of
    /// `asset_type`: see [`WorldStorages::is_update`]. No slot changes. Fails
    /// where the bytes cannot be decoded, and for a slot that is not handed
    /// out.
    fn update_asset_in(&mut self, asset_type: &AssetTypeId, handle: LoadHandle, data: &[u8]) -> (r:
        Result<(), Error>)
        requires
            old(self).world_wf(),
        ensures
            final(self).world_wf(),
            final(self).types() == old(self).types(),
            final(self).reserved_slots() == old(self).reserved_slots(),
            final(self).loaded_slots() == old(self).loaded_slots(),
            !old(self).reserved_slots().contains((*asset_type, handle)) ==> r is Err,
            old(self).is_update(*asset_type, handle, data, r, *final(self)),
    ;

    /// Whether the slot holds an asset.
    fn is_loaded_in(&self, asset_type: &AssetTypeId, handle: LoadHandle) -> (r: bool)
        requires
            self.world_wf(),
        ensures
            r == self.loaded_slots().contains((*asset_type, handle)),
    ;

    /// Releases the slot with all that is staged for it: see
    /// [`WorldStorages::is_release`].
    fn free_in(&mut self, asset_type: &AssetTypeId, handle: LoadHandle)
        requires
            old(self).world_wf(),
        ensures
            final(self).world_wf(),
            final(self).types() == old(self).types(),
            final(self).reserved_slots() == old(self).reserved_slots().remove(
                (*asset_type, handle),
            ),
            final(self).loaded_slots() == old(self).loaded_slots().remove((*asset_type, handle)),
            old(self).is_release(*asset_type, handle, *final(self)),
    ;
}

impl<A: Asset> WorldStorages for TypedStorage<A> where A::Data: Decode {
    open spec fn world_wf(&self) -> bool {
        self.inv()
    }

    open spec fn types(&self) -> Set<AssetTypeId> {
        set![self.asset_type.data_uuid]
    }

    open spec fn reserved_slots(&self) -> Set<TypedSlot> {
        Set::new(
            |slot: TypedSlot|
                slot.0 == self.asset_type.data_uuid && self.storage@.is_reserved(slot.1),
        )
    }

    open spec fn loaded_slots(&self) -> Set<TypedSlot> {
        Set::new(
            |slot: TypedSlot|
                slot.0 == self.asset_type.data_uuid && self.storage@.is_loaded(slot.1),
        )
    }

    /// For the type of this storage: the storage hands out the handle that
    /// is next, and nothing is staged. For another type: no slot is handed
    /// out and nothing changes.
    open spec fn is_allocation(&self, asset_type: AssetTypeId, r: Option<LoadHandle>, after: Self) -> bool {
        if asset_type == self.asset_type.data_uuid {
            &&& r == self.storage@.next_free()
            &&& after.storage@ == self.storage@.allocated()
            &&& after.queue@ == self.queue@
            &&& after.asset_type == self.asset_type
        } else {
            r is None && after.is_same(*self)
        }
    }

    /// For the type of this storage: the slot is released, and what was
    /// staged for it is gone. For another type: nothing changes.
    open spec fn is_release(&self, asset_type: AssetTypeId, handle: LoadHandle, after: Self) -> bool {
        if asset_type == self.asset_type.data_uuid {
            &&& after.storage@ == self.storage@.freed(handle)
            &&& after.queue@ == without_handle(self.queue@, handle, self.queue@.len())
            &&& after.asset_type == self.asset_type
        } else {
            after.is_same(*self)
        }
    }

    /// For the type of this storage: the data is decoded and what comes of
    /// it is staged, as [`TypedStorage::is_staged`] says. For another type:
    /// the update is refused and nothing changes.
    open spec fn is_update(
        &self,
        asset_type: AssetTypeId,
        handle: LoadHandle,
        data: &[u8],
        r: Result<(), Error>,
        after: Self,
    ) -> bool {
        if asset_type == self.asset_type.data_uuid {
            exists|decoded: Result<A::Data, Error>|
                call_ensures(<A::Data as Decode>::decode, (data,), decoded)
                    && #[trigger] self.is_staged(handle, decoded, r, after)
        } else {
            &&& r matches Err(e)
            &&& e.kind == ErrorKind::Import
            &&& after.is_same(*self)
        }
    }

    proof fn lemma_slots(&self) {
    }

    fn is_registered(&self, asset_type: &AssetTypeId) -> (r: bool) {
        *asset_type == self.asset_type.data_uuid
    }

    fn allocate_in(&mut self, asset_type: &AssetTypeId) -> (r: Option<LoadHandle>)
        ensures
            final(self).asset_type == old(self).asset_type,
            final(self).queue@ == old(self).queue@,
            *asset_type == old(self).asset_type.data_uuid ==> r == old(
                self,
            ).storage@.next_free() && final(self).storage@ == old(self).storage@.allocated(),
            *asset_type != old(self).asset_type.data_uuid ==> r is None && final(self).storage@
                == old(self).storage@,
    {
        if *asset_type == self.asset_type.data_uuid {
            let r = self.allocate();
            proof {
                assert(self.loaded_slots() =~= old(self).loaded_slots());
                match r {
                    Some(h) => {
                        assert(self.reserved_slots() =~= old(self).reserved_slots().insert(
                            (*asset_type, h),
                        ));
                        assert(!old(self).reserved_slots().contains((*asset_type, h)));
                    },
                    None => {
                        assert(self.reserved_slots() =~= old(self).reserved_slots());
                        assert forall|h: LoadHandle|
                            old(self).reserved_slots().contains((*asset_type, h)) by {
                            assert(old(self).storage@.is_reserved(h));
                        }
                    },
                }
            }
            r
        } else {
            None
        }
    }

    fn update_asset_in(&mut self, asset_type: &AssetTypeId, handle: LoadHandle, data: &[u8]) -> (r:
        Result<(), Error>) {
        if *asset_type == self.asset_type.data_uuid {
            let r = self.update_asset(handle, data);
            proof {
                assert(self.loaded_slots() =~= old(self).loaded_slots());
                assert(self.reserved_slots() =~= old(self).reserved_slots());
            }
            r
        } else {
            Err(Error::new(ErrorKind::Import, "no storage for the asset type".to_owned()))
        }
    }

    fn is_loaded_in(&self, asset_type: &AssetTypeId, handle: LoadHandle) -> (r: bool) {
        *asset_type == self.asset_type.data_uuid && self.storage.is_loaded(&handle)
    }

    fn free_in(&mut self, asset_type: &AssetTypeId, handle: LoadHandle) {
        if *asset_type == self.asset_type.data_uuid {
            self.free(handle);
        }
        proof {
            assert(self.reserved_slots() =~= old(self).reserved_slots().remove(
                (*asset_type, handle),
            ));
            assert(self.loaded_slots() =~= old(self).loaded_slots().remove((*asset_type, handle)));
        }
    }
}

/// Bytes that cannot be decoded fail to update, and nothing is staged.
pub proof fn lemma_update_of_undecodable<A: Asset>(
    before: TypedStorage<A>,
    handle: LoadHandle,
    data: &[u8],
    r: Result<(), Error>,
    after: TypedStorage<A>,
) where A::Data: Decode
    requires
        before.is_update(before.asset_type.data_uuid, handle, data, r, after),
        forall|decoded: Result<A::Data, Error>|
            call_ensures(<A::Data as Decode>::decode, (data,), decoded) ==> decoded is Err,
    ensures
        r is Err,
        after.is_same(before),
{
}

/// Bytes that can be decoded, for a slot that is handed out, update: what
/// they decode to is staged for the slot, at the back of the queue.
pub proof fn lemma_update_of_decodable<A: Asset>(
    before: TypedStorage<A>,
    handle: LoadHandle,
    data: &[u8],
    r: Result<(), Error>,
    after: TypedStorage<A>,
) where A::Data: Decode
    requires
        before.is_update(before.asset_type.data_uuid, handle, data, r, after),
        before.storage@.is_reserved(handle),
        forall|decoded: Result<A::Data, Error>|
            call_ensures(<A::Data as Decode>::decode, (data,), decoded) ==> decoded is Ok,
    ensures
        r is Ok,
        after.storage@ == before.storage@,
        after.queue@.len() == before.queue@.len() + 1,
        after.queue@.drop_last() == before.queue@,
        after.queue@.last().handle == handle,
        after.queue@.last().tracker is None,
        call_ensures(<A::Data as Decode>::decode, (data,), after.queue@.last().data),
{
    let decoded = choose|decoded: Result<A::Data, Error>|
        call_ensures(<A::Data as Decode>::decode, (data,), decoded) && #[trigger] before.is_staged(
            handle,
            decoded,
            r,
            after,
        );
    assert(after.queue@.drop_last() =~= before.queue@);
}

/// Two collections of storages as one: an asset type is looked up in the
/// first, and in the second where the first does not have it.
impl<X: WorldStorages, Y: WorldStorages> WorldStorages for (X, Y) {
    open spec fn world_wf(&self) -> bool {
        self.0.world_wf() && self.1.world_wf()
    }

    open spec fn types(&self) -> Set<AssetTypeId> {
        self.0.types().union(self.1.types())
    }

    open spec fn reserved_slots(&self) -> Set<TypedSlot> {
        Set::new(
            |slot: TypedSlot|
                self.0.reserved_slots().contains(slot) || (!self.0.types().contains(slot.0)
                    && self.1.reserved_slots().contains(slot)),
        )
    }

    open spec fn loaded_slots(&self) -> Set<TypedSlot> {
        Set::new(
            |slot: TypedSlot|
                self.0.loaded_slots().contains(slot) || (!self.0.types().contains(slot.0)
                    && self.1.loaded_slots().contains(slot)),
        )
    }

    /// The slot is asked of the first collection where that has the type,
    /// and of the second otherwise; the other collection stays as it is.
    open spec fn is_allocation(&self, asset_type: AssetTypeId, r: Option<LoadHandle>, after: Self) -> bool {
        if self.0.types().contains(asset_type) {
            self.0.is_allocation(asset_type, r, after.0) && after.1 == self.1
        } else {
            self.1.is_allocation(asset_type, r, after.1) && after.0 == self.0
        }
    }

    /// The slot is released in the first collection where that has the type,
    /// and in the second otherwise; the other collection stays as it is.
    open spec fn is_release(&self, asset_type: AssetTypeId, handle: LoadHandle, after: Self) -> bool {
        if self.0.types().contains(asset_type) {
            self.0.is_release(asset_type, handle, after.0) && after.1 == self.1
        } else {
            self.1.is_release(asset_type, handle, after.1) && after.0 == self.0
        }
    }

    /// The update is one of the first collection where that has the type,
    /// and one of the second otherwise; the other collection stays as it is.
    open spec fn is_update(
        &self,
        asset_type: AssetTypeId,
        handle: LoadHandle,
        data: &[u8],
        r: Result<(), Error>,
        after: Self,
    ) -> bool {
        if self.0.types().contains(asset_type) {
            self.0.is_update(asset_type, handle, data, r, after.0) && after.1 == self.1
        } else {
            self.1.is_update(asset_type, handle, data, r, after.1) && after.0 == self.0
        }
    }

    proof fn lemma_slots(&self) {
        self.0.lemma_slots();
        self.1.lemma_slots();
    }

    fn is_registered(&self, asset_type: &AssetTypeId) -> (r: bool) {
        self.0.is_registered(asset_type) || self.1.is_registered(asset_type)
    }

    fn allocate_in(&mut self, asset_type: &AssetTypeId) -> (r: Option<LoadHandle>)
        ensures
            old(self).0.types().contains(*asset_type) ==> final(self).1 == old(self).1,
            !old(self).0.types().contains(*asset_type) ==> final(self).0 == old(self).0,
    {
        proof {
            self.0.lemma_slots();
            self.1.lemma_slots();
        }
        let r = if self.0.is_registered(asset_type) {
            self.0.allocate_in(asset_type)
        } else {
            self.1.allocate_in(asset_type)
        };
        proof {
            assert(self.types() =~= old(self).types());
            assert(self.loaded_slots() =~= old(self).loaded_slots());
            match r {
                Some(h) => {
                    assert(self.reserved_slots() =~= old(self).reserved_slots().insert(
                        (*asset_type, h),
                    ));
                    assert(!old(self).reserved_slots().contains((*asset_type, h)));
                },
                None => {
                    assert(self.reserved_slots() =~= old(self).reserved_slots());
                    if old(self).types().contains(*asset_type) {
                        assert forall|h: LoadHandle|
                            old(self).reserved_slots().contains((*asset_type, h)) by {
                            if old(self).0.types().contains(*asset_type) {
                                assert(old(self).0.reserved_slots().contains((*asset_type, h)));
                            } else {
                                assert(old(self).1.reserved_slots().contains((*asset_type, h)));
                            }
                        }
                    }
                },
            }
        }
        r
    }

    fn update_asset_in(&mut self, asset_type: &AssetTypeId, handle: LoadHandle, data: &[u8]) -> (r:
        Result<(), Error>) {
        proof {
            self.0.lemma_slots();
            self.1.lemma_slots();
        }
        let r = if self.0.is_registered(asset_type) {
            self.0.update_asset_in(asset_type, handle, data)
        } else {
            self.1.update_asset_in(asset_type, handle, data)
        };
        proof {
            assert(self.types() =~= old(self).types());
            assert(self.loaded_slots() =~= old(self).loaded_slots());
            assert(self.reserved_slots() =~= old(self).reserved_slots());
        }
        r
    }

    fn is_loaded_in(&self, asset_type: &AssetTypeId, handle: LoadHandle) -> (r: bool) {
        proof {
            self.0.lemma_slots();
            self.1.lemma_slots();
        }
        if self.0.is_registered(asset_type) {
            self.0.is_loaded_in(asset_type, handle)
        } else {
            self.1.is_loaded_in(asset_type, handle)
        }
    }

    fn free_in(&mut self, asset_type: &AssetTypeId, handle: LoadHandle) {
        proof {
            self.0.lemma_slots();
            self.1.lemma_slots();
        }
        if self.0.is_registered(asset_type) {
            self.0.free_in(asset_type, handle);
        } else {
            self.1.free_in(asset_type, handle);
        }
        proof {
            assert(self.types() =~= old(self).types());
            assert(self.reserved_slots() =~= old(self).reserved_slots().remove(
                (*asset_type, handle),
            ));
            assert(self.loaded_slots() =~= old(self).loaded_slots().remove((*asset_type, handle)));
        }
    }
}

} // verus!
