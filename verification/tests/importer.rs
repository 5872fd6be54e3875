use std::path::PathBuf;

use amethyst_assets::asset::{
    Asset, AssetID, Importer, SimpleFormat, SimpleImporter, SimpleImporterState, TypeUuid,
};
use amethyst_assets::audio::{
    AudioData, AudioFormat, DecoderError, FlacFormat, Mp3Format, OggFormat, Source, WavFormat,
};
use amethyst_assets::error::{Error, ErrorKind};

struct Text {
    _text: String,
}

impl Asset for Text {
    fn name() -> &'static str {
        "Text"
    }

    type Data = String;
}

struct Utf8;

impl SimpleFormat<Text> for Utf8 {
    type Options = ();

    fn import(&self, bytes: Vec<u8>, _: ()) -> Result<String, Error> {
        String::from_utf8(bytes).map_err(|e| Error::new(ErrorKind::Import, e.to_string()))
    }
}

#[test]
fn simple_format_has_a_default_name() {
    assert_eq!(<Utf8 as SimpleFormat<Text>>::name(), "NONE");
}

#[test]
fn simple_importer_has_version_one() {
    let importer: SimpleImporter<Text, Utf8> = SimpleImporter::from(Utf8);
    assert_eq!(importer.version(), 1);
    assert_eq!(<SimpleImporter<Text, Utf8> as Importer>::version_static(), 1);
}

#[test]
fn import_yields_one_plain_asset_under_a_new_uuid() {
    let importer: SimpleImporter<Text, Utf8> = SimpleImporter::from(Utf8);
    let mut state = SimpleImporterState::default();
    assert_eq!(state.id(), None);
    let value = importer.import(b"hello".to_vec(), (), &mut state).unwrap();
    let id = state.id().expect("the state has a uuid now");
    assert_eq!(value.assets.len(), 1);
    let asset = &value.assets[0];
    assert_eq!(asset.id, id);
    assert!(asset.search_tags.is_empty());
    assert!(asset.build_deps.is_empty());
    assert!(asset.load_deps.is_empty());
    assert!(asset.instantiate_deps.is_empty());
    // version 4, standard variant
    assert_eq!((id >> 76) & 0xf, 4);
    assert_eq!((id >> 62) & 0x3, 2);
}

#[test]
fn import_keeps_the_uuid_between_imports() {
    let importer: SimpleImporter<Text, Utf8> = SimpleImporter::from(Utf8);
    let mut state = SimpleImporterState::default();
    let first = importer.import(b"one".to_vec(), (), &mut state).unwrap();
    let id = state.id();
    let second = importer.import(b"two".to_vec(), (), &mut state).unwrap();
    assert_eq!(state.id(), id);
    assert_eq!(Some(first.assets[0].id), id);
    assert_eq!(Some(second.assets[0].id), id);
}

#[test]
fn two_states_get_different_uuids() {
    let importer: SimpleImporter<Text, Utf8> = SimpleImporter::from(Utf8);
    let mut a = SimpleImporterState::default();
    let mut b = SimpleImporterState::default();
    importer.import(b"x".to_vec(), (), &mut a).unwrap();
    importer.import(b"x".to_vec(), (), &mut b).unwrap();
    assert_ne!(a.id(), b.id());
}

#[test]
fn failed_import_still_fixes_the_uuid() {
    let importer: SimpleImporter<Text, Utf8> = SimpleImporter::from(Utf8);
    let mut state = SimpleImporterState::default();
    match importer.import(vec![0xff, 0xfe], (), &mut state) {
        Err(e) => assert_eq!(e.kind(), ErrorKind::Import),
        Ok(_) => panic!("the bytes are not text"),
    }
    let id = state.id();
    assert!(id.is_some());
    let value = importer.import(b"ok".to_vec(), (), &mut state).unwrap();
    assert_eq!(Some(value.assets[0].id), id);
}

#[test]
fn imported_wraps_data_or_passes_the_failure_on() {
    let value = SimpleImporter::<Text, Utf8>::imported(7, Ok("data".to_string())).unwrap();
    assert_eq!(value.assets.len(), 1);
    assert_eq!(value.assets[0].id, 7);
    let failure = Error::new(ErrorKind::Import, "broken".to_string());
    match SimpleImporter::<Text, Utf8>::imported(7, Err(failure)) {
        Err(e) => assert_eq!(e.message, "broken"),
        Ok(_) => panic!("there is no data"),
    }
}

#[test]
fn importer_state_has_its_type_uuid() {
    assert_eq!(SimpleImporterState::UUID, 276663539928909366810068622540168088635);
}

#[test]
fn asset_id_clones_to_the_same_reference() {
    let by_uuid = AssetID::UUID(42);
    assert!(matches!(by_uuid.clone(), AssetID::UUID(42)));
    let by_path = AssetID::FilePath(PathBuf::from("mesh/cube.obj"));
    match by_path.clone() {
        AssetID::FilePath(path) => assert_eq!(path, PathBuf::from("mesh/cube.obj")),
        AssetID::UUID(_) => panic!("a path stays a path"),
    }
}

#[test]
fn audio_formats_pass_the_bytes_on() {
    let bytes = vec![1u8, 2, 3];
    assert_eq!(WavFormat.import(bytes.clone(), ()).unwrap().0, bytes);
    assert_eq!(OggFormat.import(bytes.clone(), ()).unwrap().0, bytes);
    assert_eq!(FlacFormat.import(bytes.clone(), ()).unwrap().0, bytes);
    assert_eq!(Mp3Format.import(bytes.clone(), ()).unwrap().0, bytes);
    assert_eq!(AudioFormat::Ogg.import(bytes.clone(), ()).unwrap().0, bytes);
    assert_eq!(AudioFormat::Wav.import(bytes.clone(), ()).unwrap().0, bytes);
    assert_eq!(AudioFormat::Flac.import(bytes.clone(), ()).unwrap().0, bytes);
    assert_eq!(AudioFormat::Mp3.import(Vec::new(), ()).unwrap().0, Vec::<u8>::new());
}

#[test]
fn audio_formats_have_their_names() {
    assert_eq!(<WavFormat as SimpleFormat<Source>>::name(), "WAV");
    assert_eq!(<OggFormat as SimpleFormat<Source>>::name(), "OGG");
    assert_eq!(<FlacFormat as SimpleFormat<Source>>::name(), "FLAC");
    assert_eq!(<Mp3Format as SimpleFormat<Source>>::name(), "MP3");
    assert_eq!(<AudioFormat as SimpleFormat<Source>>::name(), "AudioFormat");
    assert_eq!(<Source as Asset>::name(), "audio::Source");
}

#[test]
fn audio_types_have_their_uuids() {
    assert_eq!(AudioData::UUID, 152363896001301345872018713952728977845);
    assert_eq!(WavFormat::UUID, 112532213756211251056778320838394330515);
    assert_eq!(OggFormat::UUID, 112532283476994263609395403157070626195);
    assert_eq!(FlacFormat::UUID, 112532310414569518459270184962013740435);
    assert_eq!(Mp3Format::UUID, 112532334975299897881214838960638344595);
}

#[test]
fn audio_data_becomes_a_source() {
    let data = AudioData(vec![9, 8]);
    let copy = data.clone();
    assert_eq!(copy.0, vec![9, 8]);
    assert_eq!(data.into_source().bytes, vec![9, 8]);
}

#[test]
fn audio_importer_keeps_the_bytes() {
    let importer: SimpleImporter<Source, AudioFormat> = SimpleImporter::from(AudioFormat::Wav);
    let mut state = SimpleImporterState::default();
    let value = importer.import(vec![1, 2], (), &mut state).unwrap();
    assert_eq!(value.assets.len(), 1);
    assert_eq!(Some(value.assets[0].id), state.id());
}

#[test]
fn decoder_error_describes_itself() {
    assert_eq!(DecoderError.to_string(), "DecoderError");
    assert_eq!(DecoderError.description(), "An error occurred while decoding sound data.");
}

#[test]
fn error_keeps_kind_and_message() {
    let e = Error::new(ErrorKind::TypeMismatch, "wrong type".to_string());
    assert_eq!(e.kind(), ErrorKind::TypeMismatch);
    assert_eq!(e.message, "wrong type");
    let copy = e.clone();
    assert_eq!(copy.kind(), ErrorKind::TypeMismatch);
    assert_eq!(copy.message, "wrong type");
    assert_ne!(ErrorKind::NotFound, ErrorKind::Process);
}
