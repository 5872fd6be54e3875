//! Runtime asset management: what lies between asking for an asset and
//! having it at hand.
//!
//! * [`storage`] holds the assets of one type in versioned slots and hands out
//!   the handles that name the slots; [`handle`] has the handles that users
//!   keep.
//! * [`processor`] stages freshly decoded asset data until it is processed
//!   into the asset, over as many passes as that takes.
//! * [`type_storage`] is a storage with its queue as the load tracker sees
//!   it, reached through the identifier of a type; [`registry`] says which
//!   types there are.
//! * [`loader`] is the load tracker: it counts the references to each asset
//!   and drives every load through its states, one tick at a time.
//!   [`tracking`] has what it keeps of an asset, [`tick`] what a tick does
//!   to that and to the storages, and [`counts`] what follows: for the
//!   reference counts, for loaded assets and for assets without references.
//! * [`asset`] has the traits of assets, formats and importers; [`audio`] and
//!   [`mesh`] are two kinds of asset data.

pub mod asset;
pub mod audio;
pub mod channel;
pub mod counts;
pub mod error;
pub mod handle;
pub mod loader;
pub mod mesh;
pub mod processor;
pub mod registry;
pub mod storage;
pub mod tick;
pub mod tracking;
pub mod type_storage;
