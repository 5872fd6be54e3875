//! The asset abstraction: what an asset type declares about itself, how
//! formats turn bytes into asset data, and what an import yields.

use std::marker::PhantomData;
use std::path::PathBuf;
use vstd::prelude::*;
use vstd::std_specs::convert::FromSpecImpl;

use crate::error::Error;

verus! {

/// 16 byte v4 UUID for uniquely identifying imported assets, as one number.
pub type AssetUUID = u128;

/// 16 byte identifier of an asset type or of the data it is made from.
pub type AssetTypeId = u128;

/// A type with an identifier of its own that is the same in every build.
pub trait TypeUuid {
    /// The identifier of the type.
    const UUID: AssetTypeId;
}

/// One of the three core traits of this crate.
///
/// You want to implement this for every type of asset like
///
/// * `Mesh`
/// * `Texture`
/// * `Terrain`
///
/// and so on. Now, an asset may be available in different formats.
/// That's why we have the `Data` associated type here. You can specify
/// an intermediate format here, like the vertex data for a mesh or the samples
/// for audio data.
pub trait Asset: Send + Sync + 'static {
    /// An identifier for this asset used for debugging.
    fn name() -> &'static str;

    /// The `Data` type the asset can be created from.
    type Data: Send + Sync + 'static;
}

/// A file system path. Verus does not look into it.
#[verifier::external_type_specification]
#[verifier::external_body]
pub struct ExPathBuf(PathBuf);

/// `PathBuf::clone` yields a path; nothing more is claimed of it.
pub assume_specification[ <PathBuf as Clone>::clone ](path: &PathBuf) -> PathBuf;

/// AssetID is used to reference an asset
#[derive(Hash)]
pub enum AssetID {
    /// Globally unique identifier for an asset.
    /// Primary way to reference assets for tools and formats that are not edited by humans.
    /// Generated by the Asset Pipeline when the asset is imported.
    UUID(AssetUUID),
    /// A reference to a file on the local filesystem
    FilePath(PathBuf),
}

impl Clone for AssetID {
    fn clone(&self) -> (id: Self)
        ensures
            self matches AssetID::UUID(uuid) ==> id == AssetID::UUID(*uuid),
            self is FilePath ==> id is FilePath,
    {
        match self {
            AssetID::UUID(uuid) => AssetID::UUID(*uuid),
            AssetID::FilePath(path) => AssetID::FilePath(path.clone()),
        }
    }
}

/// Asset data as an importer hands it on, whatever its type.
pub trait SerdeObj: Send + 'static {

}

impl<T: Send + 'static> SerdeObj for T {

}

/// Contains metadata and asset data for an imported asset
pub struct ImportedAsset {
    /// UUID for the asset to uniquely identify it
    pub id: AssetUUID,
    /// Search tags that are used by asset tooling to search for the imported asset
    pub search_tags: Vec<(String, Option<String>)>,
    /// Build dependencies will be included in the Builder arguments when building the asset
    pub build_deps: Vec<AssetID>,
    /// Load dependencies will be loaded before this asset in the Loader
    pub load_deps: Vec<AssetID>,
    /// Instantiate dependencies will be instantiated along with this asset when
    /// the asset is instantiated into a world
    pub instantiate_deps: Vec<AssetID>,
    /// The actual asset data used by tools and Builder
    pub asset_data: Box<dyn SerdeObj>,
}

impl ImportedAsset {
    /// Whether this is an asset with the given id and without tags or dependencies.
    pub open spec fn is_plain(&self, id: AssetUUID) -> bool {
        &&& self.id == id
        &&& self.search_tags@.len() == 0
        &&& self.build_deps@.len() == 0
        &&& self.load_deps@.len() == 0
        &&& self.instantiate_deps@.len() == 0
    }
}

/// Return value for Importers containing all imported assets
pub struct ImporterValue {
    /// All imported assets
    pub assets: Vec<ImportedAsset>,
}

/// A simple state for Importer to retain the same UUID between imports
/// for all single-asset source files
pub struct SimpleImporterState {
    id: Option<AssetUUID>,
}

impl SimpleImporterState {
    /// The UUID that is kept, once one was made.
    pub closed spec fn spec_id(&self) -> Option<AssetUUID> {
        self.id
    }

    /// A state that keeps the given UUID, as read back from where it was
    /// saved.
    pub fn with_id(id: Option<AssetUUID>) -> (state: Self)
        ensures
            state.spec_id() == id,
    {
        SimpleImporterState { id }
    }

    /// The UUID that is kept, once one was made.
    pub fn id(&self) -> (id: Option<AssetUUID>)
        ensures
            id == self.spec_id(),
    {
        self.id
    }
}

impl Default for SimpleImporterState {
    fn default() -> (state: Self)
        ensures
            state.spec_id() is None,
    {
        SimpleImporterState { id: None }
    }
}

impl TypeUuid for SimpleImporterState {
    const UUID: AssetTypeId = 276663539928909366810068622540168088635;
}

/// A format, providing a conversion from bytes to asset data, which is then
/// in turn accepted by `Asset::from_data`. Examples for formats are
/// `Png`, `Obj` and `Wave`.
pub trait Importer: Send + 'static {
    /// Version of the importer serialization format.
    fn version_static() -> u32 where Self: Sized;

    /// Version of the importer serialization format.
    fn version(&self) -> u32;

    /// Options specific to the format, which are passed to `import`.
    /// E.g. for textures this would be stuff like mipmap levels and
    /// sampler info.
    type Options: Send + 'static;

    /// State is specific to the format, which are passed to `import`.
    /// This is maintained by the asset pipeline to enable Importers to
    /// store state between calls to import().
    /// This is primarily used to store generated AssetIDs with mappings to
    /// format-internal identifiers and ensure IDs are stable between imports.
    type State: Send + 'static;

    /// Takes the bytes of a source and produces asset data.
    fn import(&self, bytes: Vec<u8>, options: Self::Options, state: &mut Self::State) -> Result<
        ImporterValue,
        Error,
    >;
}

/// This is a simplified version of `Format`, which doesn't give you as much freedom,
/// but in return is simpler to implement.
/// This format assumes that the asset name is the full path and the asset is only
/// contained in one file.
pub trait SimpleFormat<A: Asset> {
    /// A unique identifier for this format.
    fn name() -> &'static str where Self: Sized {
        "NONE"
    }

    /// Options specific to the format, which are passed to `import`.
    /// E.g. for textures this would be stuff like mipmap levels and
    /// sampler info.
    type Options: Send + Sync + 'static;

    /// Produces asset data from given bytes.
    fn import(&self, bytes: Vec<u8>, options: Self::Options) -> Result<A::Data, Error>;
}

/// The bits of a UUID that say it is of version 4 and of the standard variant.
pub open spec fn is_v4_uuid(id: AssetUUID) -> bool {
    id & 0x0000_0000_0000_f000_c000_0000_0000_0000 == 0x0000_0000_0000_4000_8000_0000_0000_0000
}

/// A new random UUID.
///
/// Wraps `uuid::Uuid::new_v4` and reads the result as one number with
/// `Uuid::as_u128`. The value is random; only its version and variant bits
/// are fixed.
#[verifier::external_body]
fn new_v4_uuid() -> (id: AssetUUID)
    ensures
        is_v4_uuid(id),
{
    uuid::Uuid::new_v4().as_u128()
}

/// Whether `r` is what an import of a single-asset source yields, given what
/// the format read: one asset under `id`, without tags or dependencies, where
/// the format produced data, and the format's failure otherwise.
pub open spec fn is_import_of<D>(
    id: AssetUUID,
    read: Result<D, Error>,
    r: Result<ImporterValue, Error>,
) -> bool {
    match read {
        Ok(_) => r matches Ok(value) && value.assets@.len() == 1 && value.assets@[0].is_plain(id),
        Err(e) => r == Err::<ImporterValue, Error>(e),
    }
}

/// Wrapper struct to be able to impl Importer for any SimpleFormat
pub struct SimpleImporter<A: Asset, T: SimpleFormat<A>>(pub T, pub PhantomData<A>);

impl<A: Asset, T: SimpleFormat<A> + 'static> From<T> for SimpleImporter<A, T> {
    fn from(fmt: T) -> (importer: SimpleImporter<A, T>) {
        SimpleImporter(fmt, PhantomData)
    }
}

impl<A: Asset, T: SimpleFormat<A> + 'static> FromSpecImpl<T> for SimpleImporter<A, T> {
    open spec fn obeys_from_spec() -> bool {
        true
    }

    open spec fn from_spec(fmt: T) -> Self {
        SimpleImporter(fmt, PhantomData)
    }
}

impl<A: Asset, T: SimpleFormat<A>> SimpleImporter<A, T> where A::Data: SerdeObj {
    /// What an import of a single-asset source yields: the one asset under
    /// `id`, without tags or dependencies, where the format produced data, and
    /// the format's failure otherwise.
    pub fn imported(id: AssetUUID, import_result: Result<A::Data, Error>) -> (r: Result<
        ImporterValue,
        Error,
    >)
        ensures
            is_import_of(id, import_result, r),
    {
        match import_result {
            Ok(data) => {
                let asset = ImportedAsset {
                    id,
                    search_tags: Vec::new(),
                    build_deps: Vec::new(),
                    load_deps: Vec::new(),
                    instantiate_deps: Vec::new(),
                    asset_data: Box::new(data),
                };
                Ok(ImporterValue { assets: vec![asset] })
            },
            Err(e) => Err(e),
        }
    }
}

impl<A: Asset, T: SimpleFormat<A> + Send + 'static> Importer for SimpleImporter<A, T> where
    A::Data: SerdeObj,
 {
    type State = SimpleImporterState;

    type Options = T::Options;

    fn version_static() -> (v: u32)
        ensures
            v == 1,
    {
        1
    }

    fn version(&self) -> (v: u32)
        ensures
            v == 1,
    {
        Self::version_static()
    }

    /// Imports the one asset of a source.
    ///
    /// The state keeps the UUID it has, or gets a new random one, whether or
    /// not the format can read the bytes. What the format produces from the
    /// bytes becomes the one asset of the result, under the state's UUID.
    fn import(&self, bytes: Vec<u8>, options: Self::Options, state: &mut Self::State) -> (r:
        Result<ImporterValue, Error>)
        ensures
            match old(state).spec_id() {
                Some(id) => final(state).spec_id() == Some(id),
                None => final(state).spec_id() matches Some(id) && is_v4_uuid(id),
            },
            exists|read: Result<A::Data, Error>|
                call_ensures(<T as SimpleFormat<A>>::import, (&self.0, bytes, options), read)
                    && #[trigger] is_import_of(final(state).spec_id()->0, read, r),
    {
        let id = match state.id {
            Some(id) => id,
            None => {
                let id = new_v4_uuid();
                state.id = Some(id);
                id
            },
        };
        let import_result = self.0.import(bytes, options);
        let ghost read = import_result;
        let r = Self::imported(id, import_result);
        assert(is_import_of(id, read, r));
        r
    }
}

} // verus!
