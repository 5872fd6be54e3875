use amethyst_assets::asset::{Asset, AssetTypeId};
use amethyst_assets::error::{Error, ErrorKind};
use amethyst_assets::processor::ProcessingState;
use amethyst_assets::registry::{AssetStorageMap, AssetType};
use amethyst_assets::type_storage::{AssetTypeStorage, Decode, TypedStorage, WorldStorages};

#[derive(Debug, PartialEq)]
struct Font {
    size: u8,
}

#[derive(Debug, PartialEq)]
struct FontData {
    size: u8,
}

impl Asset for Font {
    fn name() -> &'static str {
        "Font"
    }

    type Data = FontData;
}

impl Decode for FontData {
    fn decode(bytes: &[u8]) -> Result<Self, Error> {
        match bytes {
            [size] => Ok(FontData { size: *size }),
            _ => Err(Error::new(ErrorKind::Import, "not a font".to_string())),
        }
    }
}

#[derive(Debug, PartialEq)]
struct Sound {
    len: u8,
}

impl Asset for Sound {
    fn name() -> &'static str {
        "Sound"
    }

    type Data = SoundData;
}

#[derive(Debug, PartialEq)]
struct SoundData {
    len: u8,
}

impl Decode for SoundData {
    fn decode(bytes: &[u8]) -> Result<Self, Error> {
        Ok(SoundData { len: bytes.len() as u8 })
    }
}

const FONT_DATA: AssetTypeId = 1;
const FONT: AssetTypeId = 2;
const SOUND_DATA: AssetTypeId = 3;
const SOUND: AssetTypeId = 4;

fn font_type() -> AssetType {
    AssetType { data_uuid: FONT_DATA, asset_uuid: FONT }
}

fn sound_type() -> AssetType {
    AssetType { data_uuid: SOUND_DATA, asset_uuid: SOUND }
}

fn build_font(data: FontData) -> Result<ProcessingState<FontData, Font>, Error> {
    Ok(ProcessingState::Loaded(Font { size: data.size }))
}

#[test]
fn registry_finds_types_by_either_identifier() {
    let map = AssetStorageMap::new(&vec![font_type(), sound_type()]);
    assert_eq!(map.find_by_data_uuid(&FONT_DATA), Some(font_type()));
    assert_eq!(map.find_by_asset_uuid(&SOUND), Some(sound_type()));
    assert_eq!(map.find_by_data_uuid(&FONT), None);
    assert_eq!(map.find_by_asset_uuid(&SOUND_DATA), None);
}

#[test]
fn later_registration_replaces_an_earlier_one() {
    let first = AssetType { data_uuid: FONT_DATA, asset_uuid: FONT };
    let second = AssetType { data_uuid: FONT_DATA, asset_uuid: SOUND };
    let map = AssetStorageMap::new(&vec![first, second]);
    assert_eq!(map.find_by_data_uuid(&FONT_DATA), Some(second));
    assert_eq!(map.find_by_asset_uuid(&FONT), Some(first));
    assert_eq!(map.find_by_asset_uuid(&SOUND), Some(second));
}

#[test]
fn empty_registry_finds_nothing() {
    let map = AssetStorageMap::default();
    assert_eq!(map.find_by_data_uuid(&FONT_DATA), None);
    assert_eq!(map.find_by_asset_uuid(&FONT), None);
}

#[test]
fn update_asset_decodes_and_stages() {
    let mut fonts: TypedStorage<Font> = TypedStorage::new(font_type());
    let h = AssetTypeStorage::allocate(&mut fonts).unwrap();
    assert_eq!(h, 0);
    assert!(AssetTypeStorage::update_asset(&mut fonts, h, &[12]).is_ok());
    assert_eq!(fonts.queue.len(), 1);
    // the asset arrives when the staged data is processed
    assert!(!AssetTypeStorage::is_loaded(&fonts, h));
    fonts.process(build_font);
    assert!(AssetTypeStorage::is_loaded(&fonts, h));
    assert_eq!(fonts.storage.get(&h), Some(&Font { size: 12 }));
}

#[test]
fn update_asset_passes_on_a_decoding_failure() {
    let mut fonts: TypedStorage<Font> = TypedStorage::new(font_type());
    let h = AssetTypeStorage::allocate(&mut fonts).unwrap();
    match AssetTypeStorage::update_asset(&mut fonts, h, &[1, 2, 3]) {
        Err(e) => {
            assert_eq!(e.kind(), ErrorKind::Import);
            assert_eq!(e.message, "not a font");
        }
        Ok(()) => panic!("three bytes are not a font"),
    }
    assert_eq!(fonts.queue.len(), 0);
}

#[test]
fn update_asset_refuses_a_handle_that_is_not_reserved() {
    let mut fonts: TypedStorage<Font> = TypedStorage::new(font_type());
    match AssetTypeStorage::update_asset(&mut fonts, 3, &[12]) {
        Err(e) => assert_eq!(e.kind(), ErrorKind::Import),
        Ok(()) => panic!("no such slot"),
    }
    assert_eq!(fonts.queue.len(), 0);
    assert!(!fonts.storage.is_reserved(3));
}

#[test]
fn stage_keeps_a_failure_as_it_is() {
    let mut fonts: TypedStorage<Font> = TypedStorage::new(font_type());
    let h = AssetTypeStorage::allocate(&mut fonts).unwrap();
    let failure = Error::new(ErrorKind::NotFound, "gone".to_string());
    match fonts.stage(h, Err(failure)) {
        Err(e) => {
            assert_eq!(e.kind(), ErrorKind::NotFound);
            assert_eq!(e.message, "gone");
        }
        Ok(()) => panic!("there is no data"),
    }
    assert!(fonts.stage(h, Ok(FontData { size: 3 })).is_ok());
    assert_eq!(fonts.queue.len(), 1);
}

#[test]
fn free_purges_what_is_staged_for_the_slot() {
    let mut fonts: TypedStorage<Font> = TypedStorage::new(font_type());
    let a = AssetTypeStorage::allocate(&mut fonts).unwrap();
    let b = AssetTypeStorage::allocate(&mut fonts).unwrap();
    AssetTypeStorage::update_asset(&mut fonts, a, &[1]).unwrap();
    AssetTypeStorage::update_asset(&mut fonts, b, &[2]).unwrap();
    AssetTypeStorage::update_asset(&mut fonts, a, &[3]).unwrap();
    AssetTypeStorage::free(&mut fonts, a);
    assert_eq!(fonts.queue.len(), 1);
    fonts.process(build_font);
    assert!(!fonts.storage.is_loaded(&a));
    assert!(!fonts.storage.is_reserved(a));
    assert_eq!(fonts.storage.get(&b), Some(&Font { size: 2 }));
}

#[test]
fn single_storage_answers_for_its_own_type_only() {
    let mut fonts: TypedStorage<Font> = TypedStorage::new(font_type());
    assert!(fonts.is_registered(&FONT_DATA));
    assert!(!fonts.is_registered(&SOUND_DATA));
    assert_eq!(fonts.allocate_in(&SOUND_DATA), None);
    assert_eq!(fonts.allocate_in(&FONT_DATA), Some(0));
    assert!(fonts.update_asset_in(&SOUND_DATA, 0, &[1]).is_err());
    assert!(fonts.update_asset_in(&FONT_DATA, 0, &[1]).is_ok());
    fonts.process(build_font);
    assert!(fonts.is_loaded_in(&FONT_DATA, 0));
    assert!(!fonts.is_loaded_in(&SOUND_DATA, 0));
    fonts.free_in(&SOUND_DATA, 0);
    assert!(fonts.is_loaded_in(&FONT_DATA, 0));
    fonts.free_in(&FONT_DATA, 0);
    assert!(!fonts.is_loaded_in(&FONT_DATA, 0));
}

#[test]
fn pair_of_storages_dispatches_by_type() {
    let mut world: (TypedStorage<Font>, TypedStorage<Sound>) =
        (TypedStorage::new(font_type()), TypedStorage::new(sound_type()));
    assert!(world.is_registered(&FONT_DATA));
    assert!(world.is_registered(&SOUND_DATA));
    assert!(!world.is_registered(&FONT));
    assert_eq!(world.allocate_in(&SOUND_DATA), Some(0));
    assert_eq!(world.allocate_in(&SOUND_DATA), Some(1));
    assert_eq!(world.allocate_in(&FONT_DATA), Some(0));
    assert_eq!(world.allocate_in(&FONT), None);
    assert!(world.1.storage.is_reserved(1));
    assert!(!world.0.storage.is_reserved(1));
    assert!(world.update_asset_in(&SOUND_DATA, 1, &[0, 0, 0]).is_ok());
    assert_eq!(world.1.queue.len(), 1);
    assert_eq!(world.0.queue.len(), 0);
    world.1.process(|data: SoundData| Ok(ProcessingState::Loaded(Sound { len: data.len })));
    assert!(world.is_loaded_in(&SOUND_DATA, 1));
    assert!(!world.is_loaded_in(&FONT_DATA, 1));
    assert_eq!(world.1.storage.get(&1u32), Some(&Sound { len: 3 }));
    world.free_in(&SOUND_DATA, 1);
    assert!(!world.is_loaded_in(&SOUND_DATA, 1));
    assert!(world.0.storage.is_reserved(0));
}

#[test]
fn allocation_fails_only_for_a_type_without_storage() {
    let mut world: (TypedStorage<Font>, TypedStorage<Sound>) =
        (TypedStorage::new(font_type()), TypedStorage::new(sound_type()));
    for expected in 0..5u32 {
        assert_eq!(world.allocate_in(&FONT_DATA), Some(expected));
    }
    assert_eq!(world.allocate_in(&SOUND), None);
    assert!(!world.1.storage.is_reserved(0));
    world.free_in(&FONT_DATA, 2);
    assert_eq!(world.allocate_in(&FONT_DATA), Some(2));
}

#[test]
fn update_in_a_pair_touches_the_storage_of_the_type_only() {
    let mut world: (TypedStorage<Font>, TypedStorage<Sound>) =
        (TypedStorage::new(font_type()), TypedStorage::new(sound_type()));
    let f = world.allocate_in(&FONT_DATA).unwrap();
    let s = world.allocate_in(&SOUND_DATA).unwrap();
    assert!(world.update_asset_in(&FONT_DATA, f, &[7]).is_ok());
    assert_eq!((world.0.queue.len(), world.1.queue.len()), (1, 0));
    // bytes that are no font fail, and stage nothing
    match world.update_asset_in(&FONT_DATA, f, &[7, 7]) {
        Err(e) => assert_eq!(e.message, "not a font"),
        Ok(()) => panic!("two bytes are not a font"),
    }
    assert_eq!((world.0.queue.len(), world.1.queue.len()), (1, 0));
    assert!(world.update_asset_in(&SOUND_DATA, s, &[1, 2]).is_ok());
    assert_eq!((world.0.queue.len(), world.1.queue.len()), (1, 1));
    match world.update_asset_in(&FONT, f, &[7]) {
        Err(e) => assert_eq!(e.kind(), ErrorKind::Import),
        Ok(()) => panic!("no storage for the type"),
    }
    assert_eq!((world.0.queue.len(), world.1.queue.len()), (1, 1));
}

#[test]
fn create_storage_creates_only_what_is_absent() {
    let mut place: Option<TypedStorage<Font>> = None;
    TypedStorage::create_storage(&mut place, font_type());
    {
        let fonts = place.as_mut().expect("the storage was created");
        assert_eq!(fonts.asset_type, font_type());
        assert_eq!(fonts.allocate_in(&FONT_DATA), Some(0));
        assert!(fonts.update_asset_in(&FONT_DATA, 0, &[3]).is_ok());
    }
    // a second call leaves the storage as it is
    TypedStorage::create_storage(&mut place, sound_type());
    let fonts = place.as_mut().unwrap();
    assert_eq!(fonts.asset_type, font_type());
    assert!(fonts.storage.is_reserved(0));
    assert_eq!(fonts.queue.len(), 1);
}
