//! Per-type asset storage: a slot map from load handles to versioned assets,
//! with a free list for handle reuse and a queue of assets awaiting destruction.

use std::collections::HashMap;
use std::collections::VecDeque;
use vstd::prelude::*;

use crate::asset::Asset;

verus! {

/// Dense integer that names one slot of an [`AssetStorage`].
pub type LoadHandle = u32;

/// Number of distinct load handles.
pub open spec fn handle_space() -> nat {
    0x1_0000_0000
}

/// Anything that designates a storage slot.
pub trait AssetHandle {
    /// The slot this handle designates.
    spec fn load_handle(&self) -> LoadHandle;

    /// The slot this handle designates.
    fn get_load_handle(&self) -> (h: LoadHandle)
        ensures
            h == self.load_handle(),
    ;
}

impl AssetHandle for LoadHandle {
    open spec fn load_handle(&self) -> LoadHandle {
        *self
    }

    fn get_load_handle(&self) -> (h: LoadHandle) {
        *self
    }
}

/// A live asset together with the number of times its slot has been written.
pub struct AssetState<A> {
    pub version: u32,
    pub asset: A,
}

/// Index of the last entry of `free` that is not in `reserved`, if there is one.
pub open spec fn last_unreserved(free: Seq<LoadHandle>, reserved: Set<LoadHandle>) -> Option<int>
    decreases free.len(),
{
    if free.len() == 0 {
        None
    } else if !reserved.contains(free.last()) {
        Some(free.len() - 1)
    } else {
        last_unreserved(free.drop_last(), reserved)
    }
}

/// Least handle at or above `from` that is not in `reserved`, if there is one.
pub open spec fn first_unreserved(from: nat, reserved: Set<LoadHandle>) -> Option<LoadHandle>
    decreases handle_space() - from,
{
    if from >= handle_space() {
        None
    } else if !reserved.contains(from as LoadHandle) {
        Some(from as LoadHandle)
    } else {
        first_unreserved(from + 1, reserved)
    }
}

/// Mathematical content of an [`AssetStorage`].
#[verifier::ext_equal]
pub struct StorageModel<A> {
    /// Reserved slots. `None` is a slot that was handed out and holds no asset yet.
    pub slots: Map<LoadHandle, Option<AssetState<A>>>,
    /// Released handles, most recently released last.
    pub free: Seq<LoadHandle>,
    /// Every handle below this bound is reserved or on the free list.
    pub fresh: nat,
    /// Assets that left their slot and wait for destruction, oldest first.
    pub to_drop: Seq<A>,
}

impl<A> StorageModel<A> {
    /// The storage that holds nothing and has handed out nothing.
    pub open spec fn empty() -> Self {
        StorageModel { slots: Map::empty(), free: Seq::empty(), fresh: 0, to_drop: Seq::empty() }
    }

    /// Whether the handle `h` is handed out.
    pub open spec fn is_reserved(self, h: LoadHandle) -> bool {
        self.slots.contains_key(h)
    }

    /// Whether slot `h` holds an asset.
    pub open spec fn is_loaded(self, h: LoadHandle) -> bool {
        self.slots.contains_key(h) && self.slots[h] is Some
    }

    /// Version of the asset in slot `h`, or zero where the slot holds none.
    pub open spec fn version_of(self, h: LoadHandle) -> nat {
        if self.is_loaded(h) {
            self.slots[h]->0.version as nat
        } else {
            0
        }
    }

    /// The asset in slot `h`.
    pub open spec fn asset_of(self, h: LoadHandle) -> A
        recommends
            self.is_loaded(h),
    {
        self.slots[h]->0.asset
    }

    /// Every handle that was ever handed out is reserved or awaits reuse, and
    /// every asset has a version of at least one.
    pub open spec fn wf(self) -> bool {
        &&& self.fresh <= handle_space()
        &&& forall|h: LoadHandle|
            h < self.fresh ==> #[trigger] self.slots.contains_key(h) || self.free.contains(h)
        &&& forall|h: LoadHandle|
            #[trigger] self.slots.contains_key(h) && self.slots[h] is Some
                ==> self.slots[h]->0.version >= 1
    }

    /// The handle that the next allocation hands out: the most recently released
    /// handle that is still unreserved, else the least unreserved handle that was
    /// never handed out.
    pub open spec fn next_free(self) -> Option<LoadHandle> {
        match last_unreserved(self.free, self.slots.dom()) {
            Some(i) => Some(self.free[i]),
            None => first_unreserved(self.fresh, self.slots.dom()),
        }
    }

    /// The storage after one allocation.
    pub open spec fn allocated(self) -> Self {
        match last_unreserved(self.free, self.slots.dom()) {
            Some(i) => StorageModel {
                slots: self.slots.insert(self.free[i], None),
                free: self.free.take(i),
                ..self
            },
            None => match first_unreserved(self.fresh, self.slots.dom()) {
                Some(h) => StorageModel {
                    slots: self.slots.insert(h, None),
                    free: Seq::empty(),
                    fresh: h as nat + 1,
                    ..self
                },
                None => StorageModel { free: Seq::empty(), fresh: handle_space(), ..self },
            },
        }
    }

    /// The version that the next asset written to slot `h` gets: one above
    /// the version there, for as long as versions last.
    pub open spec fn next_version(self, h: LoadHandle) -> u32 {
        if self.version_of(h) < u32::MAX {
            (self.version_of(h) + 1) as u32
        } else {
            u32::MAX
        }
    }

    /// The storage after `asset` was written to slot `h`.
    pub open spec fn updated(self, h: LoadHandle, asset: A) -> Self {
        StorageModel {
            slots: self.slots.insert(
                h,
                Some(AssetState { version: self.next_version(h), asset }),
            ),
            to_drop: if self.is_loaded(h) {
                self.to_drop.push(self.asset_of(h))
            } else {
                self.to_drop
            },
            ..self
        }
    }

    /// The storage after slot `h` was released.
    pub open spec fn freed(self, h: LoadHandle) -> Self {
        if self.is_reserved(h) {
            StorageModel {
                slots: self.slots.remove(h),
                free: self.free.push(h),
                to_drop: if self.is_loaded(h) {
                    self.to_drop.push(self.asset_of(h))
                } else {
                    self.to_drop
                },
                ..self
            }
        } else {
            self
        }
    }

    /// The storage after the assets that wait for destruction are gone.
    pub open spec fn drained(self) -> Self {
        StorageModel { to_drop: Seq::empty(), ..self }
    }

    /// The storage after the asset in slot `h` was replaced in place.
    pub open spec fn with_asset(self, h: LoadHandle, asset: A) -> Self
        recommends
            self.is_loaded(h),
    {
        StorageModel {
            slots: self.slots.insert(
                h,
                Some(AssetState { version: self.slots[h]->0.version, asset }),
            ),
            ..self
        }
    }
}

/// A released handle is the next to be reissued, and between release and
/// reuse its slot holds no asset.
pub proof fn lemma_released_handle_is_reissued<A>(storage: StorageModel<A>, h: LoadHandle)
    requires
        storage.is_reserved(h),
    ensures
        !storage.freed(h).is_loaded(h),
        !storage.freed(h).is_reserved(h),
        storage.freed(h).next_free() == Some(h),
        storage.freed(h).allocated().is_reserved(h),
        !storage.freed(h).allocated().is_loaded(h),
{
    let freed = storage.freed(h);
    assert(freed.free.last() == h);
    assert(last_unreserved(freed.free, freed.slots.dom()) == Some(freed.free.len() - 1));
}

/// Right after an asset was written to a slot, the slot holds that asset, at
/// a version above the one before.
pub proof fn lemma_updated_slot<A>(storage: StorageModel<A>, h: LoadHandle, asset: A)
    requires
        storage.version_of(h) < u32::MAX,
    ensures
        storage.updated(h, asset).is_loaded(h),
        storage.updated(h, asset).version_of(h) > storage.version_of(h),
        storage.updated(h, asset).asset_of(h) == asset,
{
}

/// What `last_unreserved` finds is unreserved, and every entry after it is
/// reserved; where it finds nothing, every entry is reserved.
pub proof fn lemma_last_unreserved(free: Seq<LoadHandle>, reserved: Set<LoadHandle>)
    ensures
        match last_unreserved(free, reserved) {
            Some(i) => 0 <= i < free.len() && !reserved.contains(free[i]) && forall|j: int|
                i < j < free.len() ==> reserved.contains(free[j]),
            None => forall|j: int| 0 <= j < free.len() ==> reserved.contains(free[j]),
        },
    decreases free.len(),
{
    if free.len() > 0 && reserved.contains(free.last()) {
        let rest = free.drop_last();
        lemma_last_unreserved(rest, reserved);
        assert(forall|j: int| 0 <= j < rest.len() ==> rest[j] == free[j]);
    }
}

/// What `first_unreserved` finds is unreserved, and every handle from `from`
/// up to it is reserved; where it finds nothing, every handle from `from` on
/// is reserved.
pub proof fn lemma_first_unreserved(from: nat, reserved: Set<LoadHandle>)
    ensures
        match first_unreserved(from, reserved) {
            Some(h) => from <= h && !reserved.contains(h) && forall|k: LoadHandle|
                from <= k < h ==> reserved.contains(k),
            None => forall|k: LoadHandle| from <= k ==> reserved.contains(k),
        },
    decreases handle_space() - from,
{
    if from < handle_space() && reserved.contains(from as LoadHandle) {
        lemma_first_unreserved(from + 1, reserved);
    }
}

/// An asset storage: holds the assets of one type and hands out the handles
/// that name them.
pub struct AssetStorage<A: Asset> {
    slots: HashMap<LoadHandle, Option<AssetState<A>>>,
    free: Vec<LoadHandle>,
    next: u64,
    to_drop: VecDeque<A>,
}

impl<A: Asset> View for AssetStorage<A> {
    type V = StorageModel<A>;

    closed spec fn view(&self) -> StorageModel<A> {
        StorageModel {
            slots: self.slots@,
            free: self.free@,
            fresh: self.next as nat,
            to_drop: self.to_drop@,
        }
    }
}

/// Hands out a mutable reference to the value stored under `key`.
///
/// Wraps `HashMap::get_mut`: the reference is `Some` exactly when the key is
/// present, it points at the stored value, and whatever is written through it
/// is what the map holds under `key` afterwards; no other entry changes.
#[verifier::external_body]
fn slot_mut<V>(map: &mut HashMap<LoadHandle, V>, key: LoadHandle) -> (slot: Option<&mut V>)
    ensures
        match slot {
            Some(v) => old(map)@.contains_key(key) && *v == old(map)@[key] && final(map)@ == old(
                map,
            )@.insert(key, *final(v)),
            None => !old(map)@.contains_key(key) && final(map)@ == old(map)@,
        },
{
    map.get_mut(&key)
}

impl<A: Asset> AssetStorage<A> {
    /// The storage invariant: every handle ever handed out is reserved or
    /// awaits reuse, and every stored version is at least one.
    pub open spec fn wf(&self) -> bool {
        self@.wf()
    }

    /// Creates a new asset storage.
    pub fn new() -> (s: Self)
        ensures
            s@ == StorageModel::<A>::empty(),
            s.wf(),
    {
        AssetStorage { slots: HashMap::new(), free: Vec::new(), next: 0, to_drop: VecDeque::new() }
    }

    /// Reserves a free slot and returns its handle; no asset is inserted.
    ///
    /// The most recently released handle is reissued first. `None` is returned
    /// only when every handle is reserved.
    #[verifier::loop_isolation(false)]
    pub fn allocate(&mut self) -> (r: Option<LoadHandle>)
        requires
            old(self).wf(),
        ensures
            final(self).wf(),
            r == old(self)@.next_free(),
            final(self)@ == old(self)@.allocated(),
            r is None <==> forall|h: LoadHandle| old(self)@.is_reserved(h),
            r matches Some(h) ==> !old(self)@.is_reserved(h) && final(self)@.is_reserved(h)
                && !final(self)@.is_loaded(h),
    {
        broadcast use vstd::std_specs::hash::group_hash_axioms;

        let ghost reserved = self.slots@.dom();
        proof {
            lemma_last_unreserved(self.free@, reserved);
            lemma_first_unreserved(self.next as nat, reserved);
        }
        while self.free.len() > 0
            invariant
                self.slots@ == old(self).slots@,
                self.next == old(self).next,
                self.to_drop@ == old(self).to_drop@,
                reserved == old(self).slots@.dom(),
                self.free@.len() <= old(self).free@.len(),
                self.free@ == old(self).free@.take(self.free@.len() as int),
                last_unreserved(old(self).free@, reserved) == last_unreserved(self.free@, reserved),
            decreases self.free.len(),
        {
            let ghost before = self.free@;
            let h = self.free.pop().unwrap();
            assert(self.free@ == before.drop_last());
            assert(h == before.last());
            if !self.slots.contains_key(&h) {
                self.slots.insert(h, None);
                proof {
                    let i = self.free@.len() as int;
                    assert(last_unreserved(before, reserved) == Some(i));
                    assert(old(self).free@[i] == h);
                    assert forall|k: LoadHandle| k < self@.fresh implies self@.slots.contains_key(k)
                        || self@.free.contains(k) by {
                        if !old(self)@.slots.contains_key(k) {
                            let j = choose|j: int|
                                0 <= j < old(self).free@.len() && old(self).free@[j] == k;
                            if j < i {
                                assert(self.free@[j] == k);
                            }
                        }
                    }
                    assert(self@.slots =~= old(self)@.allocated().slots);
                    assert(self@.free =~= old(self)@.allocated().free);
                    assert(!old(self)@.is_reserved(h));
                }
                return Some(h);
            }
        }
        assert(self.free@ == Seq::<LoadHandle>::empty());
        while self.next <= 0xffff_ffff
            invariant
                self.slots@ == old(self).slots@,
                self.to_drop@ == old(self).to_drop@,
                reserved == old(self).slots@.dom(),
                self.free@ == Seq::<LoadHandle>::empty(),
                last_unreserved(old(self).free@, reserved) is None,
                old(self).next <= self.next <= handle_space(),
                first_unreserved(old(self).next as nat, reserved) == first_unreserved(
                    self.next as nat,
                    reserved,
                ),
                forall|k: LoadHandle| old(self).next <= k < self.next ==> reserved.contains(k),
            decreases handle_space() - self.next,
        {
            let h = self.next as LoadHandle;
            self.next = self.next + 1;
            if !self.slots.contains_key(&h) {
                self.slots.insert(h, None);
                proof {
                    assert forall|k: LoadHandle| k < self@.fresh implies self@.slots.contains_key(k)
                        || self@.free.contains(k) by {
                        if k < old(self).next && !old(self)@.slots.contains_key(k) {
                            let j = choose|j: int|
                                0 <= j < old(self).free@.len() && old(self).free@[j] == k;
                        }
                    }
                    assert(first_unreserved(h as nat, reserved) == Some(h));
                    assert(self@.slots =~= old(self)@.allocated().slots);
                    assert(!old(self)@.is_reserved(h));
                }
                return Some(h);
            }
        }
        proof {
            assert forall|k: LoadHandle| old(self)@.is_reserved(k) by {
                if k < old(self).next && !old(self)@.slots.contains_key(k) {
                    let j = choose|j: int|
                        0 <= j < old(self).free@.len() && old(self).free@[j] == k;
                }
            }
        }
        None
    }

    /// Writes `asset` to the slot of `handle`.
    ///
    /// An asset already in the slot moves to the deferred-drop queue and the
    /// version grows by one; an empty slot starts at version one. A version
    /// that has reached the largest number stays there. A handle that was
    /// not handed out is reserved by the write.
    pub fn update_asset(&mut self, handle: &LoadHandle, asset: A)
        requires
            old(self).wf(),
        ensures
            final(self).wf(),
            final(self)@ == old(self)@.updated(*handle, asset),
            final(self)@.is_loaded(*handle),
            final(self)@.version_of(*handle) == old(self)@.next_version(*handle),
            old(self)@.version_of(*handle) < u32::MAX ==> final(self)@.version_of(*handle) > old(
                self,
            )@.version_of(*handle),
            final(self)@.asset_of(*handle) == asset,
    {
        broadcast use vstd::std_specs::hash::group_hash_axioms;

        let mut version: u32 = 0;
        match self.slots.remove(handle) {
            Some(Some(data)) => {
                // an asset already exists for the handle: defer its destruction
                self.to_drop.push_back(data.asset);
                version = data.version;
            },
            _ => {},
        }
        let version = if version < u32::MAX {
            version + 1
        } else {
            version
        };
        self.slots.insert(*handle, Some(AssetState { version, asset }));
        assert(self@.slots =~= old(self)@.updated(*handle, asset).slots);
    }

    /// Releases the slot of `handle`: an asset in it moves to the deferred-drop
    /// queue, and the handle is the next one to be reissued. A handle that is
    /// not reserved is left alone.
    pub fn free(&mut self, handle: LoadHandle)
        requires
            old(self).wf(),
        ensures
            final(self).wf(),
            final(self)@ == old(self)@.freed(handle),
            !final(self)@.is_reserved(handle),
            !final(self)@.is_loaded(handle),
            old(self)@.is_reserved(handle) ==> final(self)@.next_free() == Some(handle),
    {
        broadcast use vstd::std_specs::hash::group_hash_axioms;

        match self.slots.remove(&handle) {
            Some(slot) => {
                match slot {
                    Some(data) => {
                        self.to_drop.push_back(data.asset);
                    },
                    None => {},
                }
                self.free.push(handle);
                proof {
                    assert(self.free@.last() == handle);
                    assert forall|k: LoadHandle| k < self@.fresh implies self@.slots.contains_key(k)
                        || self@.free.contains(k) by {
                        if k == handle {
                            assert(self.free@[self.free@.len() - 1] == k);
                        } else if !old(self)@.slots.contains_key(k) {
                            let j = choose|j: int|
                                0 <= j < old(self).free@.len() && old(self).free@[j] == k;
                            assert(self.free@[j] == k);
                        }
                    }
                }
            },
            None => {},
        }
        assert(self@ =~= old(self)@.freed(handle));
    }

    /// Whether `handle` is handed out at the moment.
    pub fn is_reserved(&self, handle: LoadHandle) -> (r: bool)
        ensures
            r == self@.is_reserved(handle),
    {
        broadcast use vstd::std_specs::hash::group_hash_axioms;

        self.slots.contains_key(&handle)
    }

    /// Whether the slot of `handle` holds an asset.
    pub fn is_loaded<T: AssetHandle>(&self, handle: &T) -> (r: bool)
        ensures
            r == self@.is_loaded(handle.load_handle()),
    {
        broadcast use vstd::std_specs::hash::group_hash_axioms;

        let h = handle.get_load_handle();
        match self.slots.get(&h) {
            Some(Some(_)) => true,
            _ => false,
        }
    }

    /// Get an asset from a given asset handle.
    pub fn get<T: AssetHandle>(&self, handle: &T) -> (r: Option<&A>)
        ensures
            r is Some <==> self@.is_loaded(handle.load_handle()),
            r matches Some(a) ==> *a == self@.asset_of(handle.load_handle()),
    {
        broadcast use vstd::std_specs::hash::group_hash_axioms;

        let h = handle.get_load_handle();
        match self.slots.get(&h) {
            Some(Some(a)) => Some(&a.asset),
            _ => None,
        }
    }

    /// Get an asset mutably from a given asset handle.
    ///
    /// Writing through the reference replaces the asset in place: the version
    /// is kept and nothing else in the storage changes.
    pub fn get_mut<T: AssetHandle>(&mut self, handle: &T) -> (r: Option<&mut A>)
        requires
            old(self).wf(),
        ensures
            final(self).wf(),
            r is Some <==> old(self)@.is_loaded(handle.load_handle()),
            match r {
                Some(a) => *a == old(self)@.asset_of(handle.load_handle()) && final(self)@ == old(
                    self,
                )@.with_asset(handle.load_handle(), *final(a)),
                None => final(self)@ == old(self)@,
            },
    {
        let h = handle.get_load_handle();
        match slot_mut(&mut self.slots, h) {
            Some(Some(a)) => Some(&mut a.asset),
            _ => None,
        }
    }

    /// The version of the asset that `handle` designates, if its slot holds one.
    pub fn get_version<T: AssetHandle>(&self, handle: &T) -> (r: Option<u32>)
        ensures
            r is Some <==> self@.is_loaded(handle.load_handle()),
            r matches Some(v) ==> v == self@.version_of(handle.load_handle()),
    {
        broadcast use vstd::std_specs::hash::group_hash_axioms;

        let h = handle.get_load_handle();
        match self.slots.get(&h) {
            Some(Some(a)) => Some(a.version),
            _ => None,
        }
    }

    /// The asset that `handle` designates together with its version.
    pub fn get_asset_with_version<T: AssetHandle>(&self, handle: &T) -> (r: Option<(&A, u32)>)
        ensures
            r is Some <==> self@.is_loaded(handle.load_handle()),
            r matches Some((a, v)) ==> *a == self@.asset_of(handle.load_handle()) && v
                == self@.version_of(handle.load_handle()),
    {
        broadcast use vstd::std_specs::hash::group_hash_axioms;

        let h = handle.get_load_handle();
        match self.slots.get(&h) {
            Some(Some(a)) => Some((&a.asset, a.version)),
            _ => None,
        }
    }

    /// Maintains the storage: empties the deferred-drop queue, oldest asset
    /// first, and calls `drop_fn` on each asset that was removed from a slot.
    #[verifier::loop_isolation(false)]
    pub fn process_custom_drop<D>(&mut self, drop_fn: D) where D: Fn(A)
        requires
            old(self).wf(),
            forall|i: int|
                0 <= i < old(self)@.to_drop.len() ==> call_requires(
                    drop_fn,
                    (#[trigger] old(self)@.to_drop[i],),
                ),
        ensures
            final(self).wf(),
            final(self)@ == old(self)@.drained(),
            forall|i: int|
                0 <= i < old(self)@.to_drop.len() ==> call_ensures(
                    drop_fn,
                    (#[trigger] old(self)@.to_drop[i],),
                    (),
                ),
    {
        while self.to_drop.len() > 0
            invariant
                self.slots@ == old(self).slots@,
                self.free@ == old(self).free@,
                self.next == old(self).next,
                self.to_drop@.len() <= old(self).to_drop@.len(),
                self.to_drop@ == old(self).to_drop@.skip(
                    old(self).to_drop@.len() - self.to_drop@.len(),
                ),
                forall|i: int|
                    0 <= i < old(self).to_drop@.len() - self.to_drop@.len() ==> call_ensures(
                        drop_fn,
                        (#[trigger] old(self).to_drop@[i],),
                        (),
                    ),
            decreases self.to_drop.len(),
        {
            let ghost k = old(self).to_drop@.len() - self.to_drop@.len();
            let asset = self.to_drop.pop_front().unwrap();
            assert(asset == old(self)@.to_drop[k]);
            drop_fn(asset);
        }
        assert(self.to_drop@ =~= Seq::<A>::empty());
    }
}

impl<A: Asset> Default for AssetStorage<A> {
    fn default() -> (s: Self)
        ensures
            s@ == StorageModel::<A>::empty(),
            s.wf(),
    {
        AssetStorage::new()
    }
}

} // verus!
