//! The type registry: which asset types exist, by the identifiers of the
//! asset type and of the data it is made from.

use std::collections::HashMap;
use vstd::prelude::*;

use crate::asset::{Asset, AssetTypeId, TypeUuid};

verus! {

/// What is registered of one asset type: the identifier of the data its
/// assets are made from, and the identifier of the asset type itself.
///
/// The storage of the type is created by
/// [`TypedStorage::create_storage`](crate::type_storage::TypedStorage::create_storage)
/// and reached through [`WorldStorages`](crate::type_storage::WorldStorages).
#[derive(Clone, Copy, Debug, PartialEq, Eq, Structural)]
pub struct AssetType {
    pub data_uuid: AssetTypeId,
    pub asset_uuid: AssetTypeId,
}

/// The registration of the asset type `A`.
pub fn create_asset_type<A: Asset + TypeUuid>() -> (asset_type: AssetType) where A::Data: TypeUuid
    ensures
        asset_type.data_uuid == <A::Data as TypeUuid>::UUID,
        asset_type.asset_uuid == A::UUID,
{
    AssetType { data_uuid: <A::Data as TypeUuid>::UUID, asset_uuid: A::UUID }
}

/// The first `n` of `types` by the identifier of their data; of two with the
/// same identifier the later one stands.
pub open spec fn by_data_uuid(types: Seq<AssetType>, n: nat) -> Map<AssetTypeId, AssetType>
    decreases n,
{
    if n == 0 {
        Map::empty()
    } else {
        by_data_uuid(types, (n - 1) as nat).insert(types[n - 1].data_uuid, types[n - 1])
    }
}

/// The first `n` of `types` by the identifier of their asset type; of two with
/// the same identifier the later one stands.
pub open spec fn by_asset_uuid(types: Seq<AssetType>, n: nat) -> Map<AssetTypeId, AssetType>
    decreases n,
{
    if n == 0 {
        Map::empty()
    } else {
        by_asset_uuid(types, (n - 1) as nat).insert(types[n - 1].asset_uuid, types[n - 1])
    }
}

/// The registered asset types, to be looked up by either identifier.
pub struct AssetStorageMap {
    storages_by_data_uuid: HashMap<AssetTypeId, AssetType>,
    storages_by_asset_uuid: HashMap<AssetTypeId, AssetType>,
}

impl AssetStorageMap {
    /// The registrations by the identifier of their data.
    pub closed spec fn by_data(&self) -> Map<AssetTypeId, AssetType> {
        self.storages_by_data_uuid@
    }

    /// The registrations by the identifier of their asset type.
    pub closed spec fn by_asset(&self) -> Map<AssetTypeId, AssetType> {
        self.storages_by_asset_uuid@
    }

    /// Registers the given asset types.
    pub fn new(types: &Vec<AssetType>) -> (map: AssetStorageMap)
        ensures
            map.by_data() == by_data_uuid(types@, types@.len()),
            map.by_asset() == by_asset_uuid(types@, types@.len()),
    {
        broadcast use vstd::std_specs::hash::group_hash_axioms;

        let mut storages_by_asset_uuid: HashMap<AssetTypeId, AssetType> = HashMap::new();
        let mut storages_by_data_uuid: HashMap<AssetTypeId, AssetType> = HashMap::new();
        let mut i: usize = 0;
        while i < types.len()
            invariant
                i <= types@.len(),
                storages_by_data_uuid@ == by_data_uuid(types@, i as nat),
                storages_by_asset_uuid@ == by_asset_uuid(types@, i as nat),
            decreases types@.len() - i,
        {
            let t = types[i];
            storages_by_data_uuid.insert(t.data_uuid, t);
            storages_by_asset_uuid.insert(t.asset_uuid, t);
            i = i + 1;
        }
        AssetStorageMap { storages_by_asset_uuid, storages_by_data_uuid }
    }

    /// The asset type whose data has the identifier `data_uuid`.
    pub fn find_by_data_uuid(&self, data_uuid: &AssetTypeId) -> (r: Option<AssetType>)
        ensures
            r == (if self.by_data().contains_key(*data_uuid) {
                Some(self.by_data()[*data_uuid])
            } else {
                None
            }),
    {
        broadcast use vstd::std_specs::hash::group_hash_axioms;

        match self.storages_by_data_uuid.get(data_uuid) {
            Some(t) => Some(*t),
            None => None,
        }
    }

    /// The asset type with the identifier `asset_uuid`.
    pub fn find_by_asset_uuid(&self, asset_uuid: &AssetTypeId) -> (r: Option<AssetType>)
        ensures
            r == (if self.by_asset().contains_key(*asset_uuid) {
                Some(self.by_asset()[*asset_uuid])
            } else {
                None
            }),
    {
        broadcast use vstd::std_specs::hash::group_hash_axioms;

        match self.storages_by_asset_uuid.get(asset_uuid) {
            Some(t) => Some(*t),
            None => None,
        }
    }
}

impl Default for AssetStorageMap {
    fn default() -> (map: Self)
        ensures
            map.by_data() == Map::<AssetTypeId, AssetType>::empty(),
            map.by_asset() == Map::<AssetTypeId, AssetType>::empty(),
    {
        AssetStorageMap {
            storages_by_asset_uuid: HashMap::new(),
            storages_by_data_uuid: HashMap::new(),
        }
    }
}

} // verus!
