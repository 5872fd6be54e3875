//! Audio as an asset: the data a sound file yields and the formats it comes in.

use vstd::prelude::*;

use crate::asset::{Asset, AssetTypeId, SimpleFormat, TypeUuid};
use crate::error::Error;

verus! {

/// The bytes of a sound file, not yet decoded.
pub struct AudioData(pub Vec<u8>);

impl Clone for AudioData {
    fn clone(&self) -> (data: Self)
        ensures
            data.0@ == self.0@,
    {
        AudioData(self.0.clone())
    }
}

/// A loaded audio file
pub struct Source {
    /// The bytes of this audio source.
    pub bytes: Vec<u8>,
}

impl Asset for Source {
    fn name() -> (name: &'static str)
        ensures
            name@ == "audio::Source"@,
    {
        "audio::Source"
    }

    type Data = AudioData;
}

impl AudioData {
    /// The audio source made of these bytes.
    pub fn into_source(self) -> (source: Source)
        ensures
            source.bytes == self.0,
    {
        Source { bytes: self.0 }
    }
}

impl TypeUuid for AudioData {
    const UUID: AssetTypeId = 152363896001301345872018713952728977845;
}

/// Loads audio from wav files.
#[derive(Clone, Copy)]
pub struct WavFormat;

impl TypeUuid for WavFormat {
    const UUID: AssetTypeId = 112532213756211251056778320838394330515;
}

impl SimpleFormat<Source> for WavFormat {
    fn name() -> (name: &'static str)
        ensures
            name@ == "WAV"@,
    {
        "WAV"
    }

    type Options = ();

    fn import(&self, bytes: Vec<u8>, options: ()) -> (r: Result<AudioData, Error>)
        ensures
            r == Ok::<AudioData, Error>(AudioData(bytes)),
    {
        Ok(AudioData(bytes))
    }
}

/// Loads audio from Ogg Vorbis files
#[derive(Clone, Copy)]
pub struct OggFormat;

impl TypeUuid for OggFormat {
    const UUID: AssetTypeId = 112532283476994263609395403157070626195;
}

impl SimpleFormat<Source> for OggFormat {
    fn name() -> (name: &'static str)
        ensures
            name@ == "OGG"@,
    {
        "OGG"
    }

    type Options = ();

    fn import(&self, bytes: Vec<u8>, options: ()) -> (r: Result<AudioData, Error>)
        ensures
            r == Ok::<AudioData, Error>(AudioData(bytes)),
    {
        Ok(AudioData(bytes))
    }
}

/// Loads audio from Flac files.
#[derive(Clone, Copy)]
pub struct FlacFormat;

impl TypeUuid for FlacFormat {
    const UUID: AssetTypeId = 112532310414569518459270184962013740435;
}

impl SimpleFormat<Source> for FlacFormat {
    fn name() -> (name: &'static str)
        ensures
            name@ == "FLAC"@,
    {
        "FLAC"
    }

    type Options = ();

    fn import(&self, bytes: Vec<u8>, options: ()) -> (r: Result<AudioData, Error>)
        ensures
            r == Ok::<AudioData, Error>(AudioData(bytes)),
    {
        Ok(AudioData(bytes))
    }
}

/// Loads audio from MP3 files.
#[derive(Clone, Copy)]
pub struct Mp3Format;

impl TypeUuid for Mp3Format {
    const UUID: AssetTypeId = 112532334975299897881214838960638344595;
}

impl SimpleFormat<Source> for Mp3Format {
    fn name() -> (name: &'static str)
        ensures
            name@ == "MP3"@,
    {
        "MP3"
    }

    type Options = ();

    fn import(&self, bytes: Vec<u8>, options: ()) -> (r: Result<AudioData, Error>)
        ensures
            r == Ok::<AudioData, Error>(AudioData(bytes)),
    {
        Ok(AudioData(bytes))
    }
}

/// Aggregate sound format
#[derive(Debug, Clone, Copy)]
pub enum AudioFormat {
    /// Ogg
    Ogg,
    /// Wav
    Wav,
    /// Flac
    Flac,
    /// Mp3
    Mp3,
}

impl SimpleFormat<Source> for AudioFormat {
    fn name() -> (name: &'static str)
        ensures
            name@ == "AudioFormat"@,
    {
        "AudioFormat"
    }

    type Options = ();

    fn import(&self, bytes: Vec<u8>, options: ()) -> (r: Result<AudioData, Error>)
        ensures
            r == Ok::<AudioData, Error>(AudioData(bytes)),
    {
        match *self {
            AudioFormat::Ogg => SimpleFormat::import(&OggFormat, bytes, options),
            AudioFormat::Wav => SimpleFormat::import(&WavFormat, bytes, options),
            AudioFormat::Flac => SimpleFormat::import(&FlacFormat, bytes, options),
            AudioFormat::Mp3 => SimpleFormat::import(&Mp3Format, bytes, options),
        }
    }
}

/// An error occurred while decoding the source.
#[derive(Debug)]
pub struct DecoderError;

impl DecoderError {
    /// The name of the error, as it is shown to the user.
    pub fn to_string(&self) -> (text: String)
        ensures
            text@ == "DecoderError"@,
    {
        "DecoderError".to_owned()
    }

    /// What went wrong, in a sentence.
    pub fn description(&self) -> (text: &'static str)
        ensures
            text@ == "An error occurred while decoding sound data."@,
    {
        "An error occurred while decoding sound data."
    }
}

} // verus!
