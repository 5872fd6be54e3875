//! User handles: shared-ownership tokens that name a storage slot, and weak
//! observers of them.

use std::marker::PhantomData;
use std::sync::Arc;
use std::sync::Weak;
use vstd::prelude::*;
use vstd::std_specs::cmp::PartialEqSpecImpl;

use crate::storage::{AssetHandle, LoadHandle};

verus! {

/// A weak reference to the shared slot number of a group of handles.
///
/// Holds a `std::sync::Weak`, which Verus cannot look into.
#[verifier::external_body]
pub struct WeakSlot {
    inner: Weak<LoadHandle>,
}

/// Makes a weak reference to the allocation of `id`. Wraps `Arc::downgrade`.
#[verifier::external_body]
fn arc_downgrade(id: &Arc<LoadHandle>) -> (weak: WeakSlot) {
    WeakSlot { inner: Arc::downgrade(id) }
}

/// Tries to get a strong reference back.
///
/// Wraps `Weak::upgrade`: it fails once every strong reference is gone, which
/// no contract can foresee.
#[verifier::external_body]
fn weak_upgrade(weak: &WeakSlot) -> (id: Option<Arc<LoadHandle>>) {
    weak.inner.upgrade()
}

/// Makes another weak reference to the same allocation. Wraps `Weak::clone`.
#[verifier::external_body]
fn weak_clone(weak: &WeakSlot) -> (other: WeakSlot) {
    WeakSlot { inner: weak.inner.clone() }
}

/// Number of strong references to the allocation of `id` at the time of the
/// call. Wraps `Arc::strong_count`; other threads may change the count at any
/// moment, so nothing is promised of it.
#[verifier::external_body]
fn arc_strong_count(id: &Arc<LoadHandle>) -> (count: usize) {
    Arc::strong_count(id)
}

/// A handle to an asset. This is usually what the
/// user deals with, the actual asset (`A`) is stored
/// in an `AssetStorage`.
#[derive(Debug, Hash)]
pub struct Handle<A: ?Sized> {
    id: Arc<LoadHandle>,
    marker: PhantomData<A>,
}

impl<A: ?Sized> AssetHandle for Handle<A> {
    closed spec fn load_handle(&self) -> LoadHandle {
        *self.id
    }

    fn get_load_handle(&self) -> (h: LoadHandle) {
        *self.id
    }
}

impl<A: ?Sized> Handle<A> {
    /// Return the 32 bit id of this handle.
    pub fn id(&self) -> (id: u32)
        ensures
            id == self.load_handle(),
    {
        *self.id
    }

    /// Makes a handle that shares the given slot number.
    pub fn from_arc(id: Arc<LoadHandle>) -> (handle: Self)
        ensures
            handle.load_handle() == *id,
    {
        Handle { id, marker: PhantomData }
    }

    /// Downgrades the handle and creates a `WeakHandle`.
    pub fn downgrade(&self) -> (weak: WeakHandle<A>)
        ensures
            weak.target() == self.load_handle(),
    {
        let id = arc_downgrade(&self.id);
        WeakHandle { id, slot: *self.id, marker: PhantomData }
    }

    /// Whether a handle is the only one of its group, given the number of
    /// handles that the group has.
    pub fn is_sole(strong_count: usize) -> (sole: bool)
        ensures
            sole == (strong_count == 1),
    {
        strong_count == 1
    }

    /// Returns `true` if this is the only handle to the asset its pointing at.
    ///
    /// The answer is that of the moment of the call: see [`Handle::is_sole`]
    /// for what it is at a given number of handles.
    pub fn is_unique(&self) -> bool {
        Self::is_sole(arc_strong_count(&self.id))
    }
}

impl<A: ?Sized> Clone for Handle<A> {
    /// Another handle to the same asset.
    fn clone(&self) -> (handle: Self)
        ensures
            handle.load_handle() == self.load_handle(),
    {
        Handle { id: self.id.clone(), marker: PhantomData }
    }
}

impl<A: ?Sized> PartialEq for Handle<A> {
    fn eq(&self, other: &Self) -> (r: bool) {
        *self.id == *other.id
    }
}

impl<A: ?Sized> PartialEqSpecImpl for Handle<A> {
    open spec fn obeys_eq_spec() -> bool {
        true
    }

    open spec fn eq_spec(&self, other: &Self) -> bool {
        self.load_handle() == other.load_handle()
    }
}

impl<A: ?Sized> Eq for Handle<A> {

}

/// A weak handle, which is useful if you don't directly need the asset
/// like in caches. This way, the asset can still get dropped (if you want that).
pub struct WeakHandle<A: ?Sized> {
    id: WeakSlot,
    slot: LoadHandle,
    marker: PhantomData<A>,
}

impl<A: ?Sized> WeakHandle<A> {
    /// The slot that the handle this one was made from designates.
    pub closed spec fn target(&self) -> LoadHandle {
        self.slot
    }

    /// The handle that an upgrade gives, given what became of the weak
    /// reference: a handle with the strong reference, where there is one and
    /// it is to the slot this weak handle was made for.
    pub fn from_upgraded(&self, upgraded: Option<Arc<LoadHandle>>) -> (r: Option<Handle<A>>)
        ensures
            r is Some <==> (upgraded matches Some(id) && *id == self.target()),
            r matches Some(handle) ==> handle.load_handle() == self.target(),
    {
        match upgraded {
            Some(id) => {
                if *id == self.slot {
                    Some(Handle { id, marker: PhantomData })
                } else {
                    None
                }
            },
            None => None,
        }
    }

    /// Tries to upgrade to a `Handle`.
    ///
    /// Succeeds for as long as a strong handle of the group is left; the
    /// handle it gives designates the slot this weak handle was made for.
    #[inline]
    pub fn upgrade(&self) -> (r: Option<Handle<A>>)
        ensures
            r matches Some(handle) ==> handle.load_handle() == self.target(),
    {
        self.from_upgraded(weak_upgrade(&self.id))
    }

    /// Returns `true` if every strong handle of the group is gone.
    ///
    /// The answer is that of the moment of the call.
    #[inline]
    pub fn is_dead(&self) -> bool {
        self.upgrade().is_none()
    }
}

impl<A: ?Sized> Clone for WeakHandle<A> {
    fn clone(&self) -> (weak: Self)
        ensures
            weak.target() == self.target(),
    {
        WeakHandle { id: weak_clone(&self.id), slot: self.slot, marker: PhantomData }
    }
}

} // verus!
