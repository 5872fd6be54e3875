//! What the load tracker keeps of each asset: the number of references, the
//! state of the load, and the slot the asset has in the storage of its type.

use vstd::prelude::*;

use crate::asset::{AssetTypeId, AssetUUID};
use crate::error::Error;
use crate::storage::LoadHandle;
use crate::type_storage::TypedSlot;

verus! {

/// Where the load of an asset stands.
pub enum LoadStatus {
    /// Nobody asked for the asset.
    NotRequested,
    /// The asset was asked for and is not in its storage yet.
    Loading,
    /// The load failed; asking for the asset again tries again.
    Error(Error),
    /// The asset is in its storage.
    Loaded,
    /// The import source knows no such asset; asking again tries again.
    DoesNotExist,
}

impl Clone for LoadStatus {
    fn clone(&self) -> (status: LoadStatus)
        ensures
            status == *self,
    {
        match self {
            LoadStatus::NotRequested => LoadStatus::NotRequested,
            LoadStatus::Loading => LoadStatus::Loading,
            LoadStatus::Error(e) => LoadStatus::Error(e.clone()),
            LoadStatus::Loaded => LoadStatus::Loaded,
            LoadStatus::DoesNotExist => LoadStatus::DoesNotExist,
        }
    }
}

/// A change of the number of references to an asset, on its way from a
/// handle to the tracker.
#[derive(Clone, Copy, Debug, PartialEq, Eq, Structural)]
pub enum RefOp {
    Increase(AssetUUID),
    Decrease(AssetUUID),
}

/// What the import source reports of one asset.
pub enum ImportEvent {
    /// The bytes of the asset have arrived, to be decoded as data of the
    /// type with this identifier.
    Bytes { asset_id: AssetUUID, data_type_id: AssetTypeId, bytes: Vec<u8> },
    /// The import source knows no such asset.
    Unknown { asset_id: AssetUUID },
}

/// What became of one report of the import source.
pub enum Delivery {
    /// The asset was noted as unknown to the import source.
    NotFound,
    /// No storage is registered for the type of the data: the bytes were dropped.
    Unregistered,
    /// The storage had no slot to give: the load failed.
    Refused(Error),
    /// The bytes went to the storage, for this slot, and this is what the
    /// storage made of them.
    Stored { slot: LoadHandle, result: Result<(), Error> },
}

/// What the tracker knows of one asset.
pub struct TrackedAsset {
    pub id: AssetUUID,
    /// Number of strong handles, as far as their changes have arrived.
    pub refs: u64,
    pub status: LoadStatus,
    /// The slot that holds the asset or waits for it, once bytes have arrived.
    pub home: Option<TypedSlot>,
    /// Whether the asset was without references when the last tick ended.
    pub idle: bool,
}

impl TrackedAsset {
    /// An asset that nobody asked for yet.
    pub open spec fn fresh(id: AssetUUID) -> TrackedAsset {
        TrackedAsset { id, refs: 0, status: LoadStatus::NotRequested, home: None, idle: false }
    }

    /// Whether a new reference has to ask the import source for the asset.
    pub open spec fn wants_import(self) -> bool {
        self.status is NotRequested || self.status is Error || self.status is DoesNotExist
    }

    /// The asset with one reference more.
    pub open spec fn retained(self) -> TrackedAsset {
        TrackedAsset {
            refs: if self.refs < u64::MAX {
                (self.refs + 1) as u64
            } else {
                self.refs
            },
            status: if self.wants_import() {
                LoadStatus::Loading
            } else {
                self.status
            },
            idle: false,
            ..self
        }
    }

    /// The asset with one reference less.
    pub open spec fn released(self) -> TrackedAsset {
        TrackedAsset {
            refs: if self.refs > 0 {
                (self.refs - 1) as u64
            } else {
                0
            },
            ..self
        }
    }

    /// The slot that the asset has in the storage of the given type, if any.
    pub open spec fn home_in(self, data_type_id: AssetTypeId) -> Option<LoadHandle> {
        match self.home {
            Some(home) => if home.0 == data_type_id {
                Some(home.1)
            } else {
                None
            },
            None => None,
        }
    }

    /// The asset after the import source said that it knows no such asset.
    pub open spec fn unknown(self) -> TrackedAsset {
        TrackedAsset { status: LoadStatus::DoesNotExist, ..self }
    }

    /// The asset after its storage had no slot to give.
    pub open spec fn refused(self, e: Error) -> TrackedAsset {
        TrackedAsset { home: None, status: LoadStatus::Error(e), ..self }
    }

    /// The asset after its bytes went to the storage for the slot `home`: the
    /// load failed where the storage says so, and goes on otherwise.
    pub open spec fn stored(self, home: TypedSlot, result: Result<(), Error>) -> TrackedAsset {
        TrackedAsset {
            home: Some(home),
            status: match result {
                Ok(_) => if self.status is Loaded {
                    LoadStatus::Loaded
                } else {
                    LoadStatus::Loading
                },
                Err(e) => LoadStatus::Error(e),
            },
            ..self
        }
    }

    /// Whether the asset has been without references for a whole tick.
    pub open spec fn evictable(self) -> bool {
        self.refs == 0 && self.idle
    }

    /// Whether the asset has a home among `slots`.
    pub open spec fn is_in(self, slots: Set<TypedSlot>) -> bool {
        self.home is Some && slots.contains(self.home->0)
    }

    /// The asset at the end of a tick, given whether its slot holds an asset:
    /// it is loaded exactly when the slot does, and idle when it is without
    /// references.
    pub open spec fn settled(self, loaded: bool) -> TrackedAsset {
        TrackedAsset {
            status: if loaded {
                LoadStatus::Loaded
            } else if self.status is Loaded {
                LoadStatus::Loading
            } else {
                self.status
            },
            idle: self.refs == 0,
            ..self
        }
    }

    /// Ends a tick for the asset: see [`TrackedAsset::settled`].
    pub fn settle(&mut self, loaded: bool)
        ensures
            *final(self) == old(self).settled(loaded),
    {
        if loaded {
            self.status = LoadStatus::Loaded;
        } else {
            match self.status {
                LoadStatus::Loaded => {
                    self.status = LoadStatus::Loading;
                },
                _ => {},
            }
        }
        self.idle = self.refs == 0;
    }

    /// Notes that the import source knows no such asset.
    pub fn set_unknown(&mut self)
        ensures
            *final(self) == old(self).unknown(),
    {
        self.status = LoadStatus::DoesNotExist;
    }

    /// Notes that the storage had no slot to give.
    pub fn set_refused(&mut self, e: Error)
        ensures
            *final(self) == old(self).refused(e),
    {
        self.home = None;
        self.status = LoadStatus::Error(e);
    }

    /// Notes that the bytes of the asset went to the storage for the slot
    /// `home`, and what the storage made of them.
    pub fn set_stored(&mut self, home: TypedSlot, result: &Result<(), Error>)
        ensures
            *final(self) == old(self).stored(home, *result),
    {
        self.home = Some(home);
        match result {
            Ok(_) => {
                match self.status {
                    LoadStatus::Loaded => {},
                    _ => {
                        self.status = LoadStatus::Loading;
                    },
                }
            },
            Err(e) => {
                self.status = LoadStatus::Error(e.clone());
            },
        }
    }

    /// A record for an asset that nobody asked for yet.
    pub fn new(id: AssetUUID) -> (asset: TrackedAsset)
        ensures
            asset == TrackedAsset::fresh(id),
    {
        TrackedAsset { id, refs: 0, status: LoadStatus::NotRequested, home: None, idle: false }
    }

    /// Counts one reference more; says whether the import source has to be asked.
    pub fn retain(&mut self) -> (request: bool)
        ensures
            *final(self) == old(self).retained(),
            request == old(self).wants_import(),
    {
        let request = match self.status {
            LoadStatus::NotRequested | LoadStatus::Error(_) | LoadStatus::DoesNotExist => true,
            _ => false,
        };
        if self.refs < u64::MAX {
            self.refs = self.refs + 1;
        }
        if request {
            self.status = LoadStatus::Loading;
        }
        self.idle = false;
        request
    }

    /// Counts one reference less.
    pub fn release(&mut self)
        ensures
            *final(self) == old(self).released(),
    {
        if self.refs > 0 {
            self.refs = self.refs - 1;
        }
    }
}

/// Index of the last of the first `n` records that is about the asset `id`.
pub open spec fn position(records: Seq<TrackedAsset>, id: AssetUUID, n: nat) -> Option<int>
    decreases n,
{
    if n == 0 {
        None
    } else if records[n - 1].id == id {
        Some(n - 1)
    } else {
        position(records, id, (n - 1) as nat)
    }
}

/// Index of the record about the asset `id`.
pub open spec fn index_of(records: Seq<TrackedAsset>, id: AssetUUID) -> Option<int> {
    position(records, id, records.len())
}

/// The number of references to the asset `id`; zero for an asset without record.
pub open spec fn refs_of(records: Seq<TrackedAsset>, id: AssetUUID) -> nat {
    match index_of(records, id) {
        Some(i) => records[i].refs as nat,
        None => 0,
    }
}

/// The load state of the asset `id`; an asset without record was not asked for.
pub open spec fn status_of(records: Seq<TrackedAsset>, id: AssetUUID) -> LoadStatus {
    match index_of(records, id) {
        Some(i) => records[i].status,
        None => LoadStatus::NotRequested,
    }
}

/// No two records are about the same asset.
pub open spec fn distinct_ids(records: Seq<TrackedAsset>) -> bool {
    forall|i: int, j: int|
        0 <= i < j < records.len() ==> (#[trigger] records[i]).id != (#[trigger] records[j]).id
}

/// The slots that the records name as homes.
pub open spec fn homes(records: Seq<TrackedAsset>) -> Set<TypedSlot> {
    Set::new(
        |slot: TypedSlot|
            exists|i: int| 0 <= i < records.len() && (#[trigger] records[i]).home == Some(slot),
    )
}

/// No two records name the same slot as home.
pub open spec fn distinct_homes(records: Seq<TrackedAsset>) -> bool {
    forall|i: int, j: int|
        0 <= i < j < records.len() && (#[trigger] records[i]).home is Some ==> records[i].home
            != (#[trigger] records[j]).home
}

/// What `position` finds is about the asset, and no record after it is;
/// where it finds nothing, no record is about the asset.
pub proof fn lemma_position(records: Seq<TrackedAsset>, id: AssetUUID, n: nat)
    requires
        n <= records.len(),
    ensures
        match position(records, id, n) {
            Some(i) => 0 <= i < n && records[i].id == id && forall|j: int|
                i < j < n ==> (#[trigger] records[j]).id != id,
            None => forall|j: int| 0 <= j < n ==> (#[trigger] records[j]).id != id,
        },
    decreases n,
{
    if n > 0 && records[n - 1].id != id {
        lemma_position(records, id, (n - 1) as nat);
    }
}

/// Which record is about an asset depends on the assets of the records only.
pub proof fn lemma_position_by_ids(
    a: Seq<TrackedAsset>,
    b: Seq<TrackedAsset>,
    id: AssetUUID,
    n: nat,
)
    requires
        n <= a.len(),
        n <= b.len(),
        forall|k: int| 0 <= k < n ==> (#[trigger] a[k]).id == b[k].id,
    ensures
        position(a, id, n) == position(b, id, n),
    decreases n,
{
    if n > 0 {
        lemma_position_by_ids(a, b, id, (n - 1) as nat);
    }
}

/// Records that differ in nothing but states and counts have the same homes.
pub proof fn lemma_same_homes(before: Seq<TrackedAsset>, after: Seq<TrackedAsset>)
    requires
        before.len() == after.len(),
        forall|k: int| 0 <= k < before.len() ==> (#[trigger] before[k]).home == after[k].home,
    ensures
        homes(after) == homes(before),
        distinct_homes(before) ==> distinct_homes(after),
{
    assert forall|slot: TypedSlot| homes(after).contains(slot) == homes(before).contains(
        slot,
    ) by {
        if homes(after).contains(slot) {
            let k = choose|k: int| 0 <= k < after.len() && (#[trigger] after[k]).home == Some(slot);
            assert(before[k].home == Some(slot));
        }
        if homes(before).contains(slot) {
            let k = choose|k: int|
                0 <= k < before.len() && (#[trigger] before[k]).home == Some(slot);
            assert(after[k].home == Some(slot));
        }
    }
    assert(homes(after) =~= homes(before));
    if distinct_homes(before) {
        assert forall|i: int, j: int|
            0 <= i < j < after.len() && (#[trigger] after[i]).home is Some implies after[i].home
            != (#[trigger] after[j]).home by {
            assert(before[i].home == after[i].home);
            assert(before[j].home == after[j].home);
        }
    }
}

/// The homes after the record at `i` got the home `home`, which no other
/// record has: those of the other records, and the new one.
pub proof fn lemma_rehomed(
    before: Seq<TrackedAsset>,
    after: Seq<TrackedAsset>,
    i: int,
    home: Option<TypedSlot>,
)
    requires
        0 <= i < before.len(),
        before.len() == after.len(),
        after[i].home == home,
        forall|k: int|
            0 <= k < before.len() && k != i ==> (#[trigger] before[k]).home == after[k].home,
        distinct_homes(before),
        home matches Some(slot) ==> before[i].home == home || !homes(before).contains(slot),
    ensures
        distinct_homes(after),
        forall|slot: TypedSlot| #[trigger]
            homes(after).contains(slot) ==> home == Some(slot) || (homes(before).contains(slot)
                && before[i].home != Some(slot)),
        forall|slot: TypedSlot|
            home == Some(slot) || (homes(before).contains(slot) && before[i].home != Some(slot))
                ==> #[trigger] homes(after).contains(slot),
{
    assert forall|slot: TypedSlot| #[trigger] homes(after).contains(slot) implies home == Some(slot)
        || (homes(before).contains(slot) && before[i].home != Some(slot)) by {
        let k = choose|k: int| 0 <= k < after.len() && (#[trigger] after[k]).home == Some(slot);
        if k != i {
            assert(before[k].home == Some(slot));
            assert(before[i].home != before[k].home);
        }
    }
    assert forall|a: int, b: int|
        0 <= a < b < after.len() && (#[trigger] after[a]).home is Some implies after[a].home != (
        #[trigger] after[b]).home by {
        if a != i && b != i {
            assert(before[a].home == after[a].home);
            assert(before[b].home == after[b].home);
        } else {
            let other = if a == i {
                b
            } else {
                a
            };
            assert(before[other].home == after[other].home);
            if after[other].home == home && home is Some {
                assert(homes(before).contains(home->0));
                assert(before[i].home == home);
                assert(before[i].home != before[other].home);
            }
        }
    }
    assert forall|slot: TypedSlot|
        home == Some(slot) || (homes(before).contains(slot) && before[i].home != Some(
            slot,
        )) implies #[trigger] homes(after).contains(slot) by {
        if home == Some(slot) {
            assert(after[i].home == Some(slot));
        } else {
            let k = choose|k: int|
                0 <= k < before.len() && (#[trigger] before[k]).home == Some(slot);
            assert(after[k].home == Some(slot));
        }
    }
}

} // verus!
