//! The closed set of format identities: the nodes of the conversion graph.

use crate::converters::audio::AudioFileType;
use crate::converters::image::ImageFileType;
use vstd::prelude::*;

verus! {

/// A format identity. Two identities are equal exactly when they name the
/// same concrete format, family member included. `Unknown` stands for "not
/// yet specified" and is never a valid endpoint of a conversion.
#[derive(PartialEq, Eq, Structural, Clone, Copy, Debug, Hash)]
pub enum FileType {
    Unknown,
    Image(ImageFileType),
    Audio(AudioFileType),
}

impl Default for FileType {
    fn default() -> (t: Self)
        ensures
            t == FileType::Unknown,
    {
        FileType::Unknown
    }
}

/// The canonical file-name extension of a format, as a sequence of
/// characters.
pub open spec fn extension_of(file_type: FileType) -> Seq<char> {
    match file_type {
        FileType::Unknown => seq!['u', 'n', 'k', 'n', 'o', 'w', 'n'],
        FileType::Image(ImageFileType::PNG) => seq!['p', 'n', 'g'],
        FileType::Image(ImageFileType::JPEG) => seq!['j', 'p', 'g'],
        FileType::Audio(AudioFileType::MP3) => seq!['m', 'p', '3'],
        FileType::Audio(AudioFileType::WAV) => seq!['w', 'a', 'v'],
    }
}

/// The canonical extension of `file_type`, without a leading dot. The
/// unknown format maps to a placeholder.
pub fn get_extension_for_type(file_type: &FileType) -> (ext: &'static str)
    ensures
        ext@ == extension_of(*file_type),
{
    proof {
        reveal_strlit("unknown");
        reveal_strlit("png");
        reveal_strlit("jpg");
        reveal_strlit("mp3");
        reveal_strlit("wav");
    }
    match file_type {
        FileType::Unknown => {
            assert("unknown"@ =~= extension_of(FileType::Unknown));
            "unknown"
        },
        FileType::Image(image_file_type) => {
            match image_file_type {
                ImageFileType::PNG => {
                    assert("png"@ =~= extension_of(FileType::Image(ImageFileType::PNG)));
                    "png"
                },
                ImageFileType::JPEG => {
                    assert("jpg"@ =~= extension_of(FileType::Image(ImageFileType::JPEG)));
                    "jpg"
                },
            }
        },
        FileType::Audio(audio_file_type) => {
            match audio_file_type {
                AudioFileType::MP3 => {
                    assert("mp3"@ =~= extension_of(FileType::Audio(AudioFileType::MP3)));
                    "mp3"
                },
                AudioFileType::WAV => {
                    assert("wav"@ =~= extension_of(FileType::Audio(AudioFileType::WAV)));
                    "wav"
                },
            }
        },
    }
}

/// How a format is written in messages.
pub open spec fn display_name_of(file_type: FileType) -> Seq<char> {
    match file_type {
        FileType::Unknown => "Unknown"@,
        FileType::Image(ImageFileType::PNG) => "Image(PNG)"@,
        FileType::Image(ImageFileType::JPEG) => "Image(JPEG)"@,
        FileType::Audio(AudioFileType::MP3) => "Audio(MP3)"@,
        FileType::Audio(AudioFileType::WAV) => "Audio(WAV)"@,
    }
}

/// The name of `file_type` as messages write it: the family, and the
/// member in brackets.
pub fn display_name(file_type: &FileType) -> (name: &'static str)
    ensures
        name@ == display_name_of(*file_type),
{
    match file_type {
        FileType::Unknown => "Unknown",
        FileType::Image(ImageFileType::PNG) => "Image(PNG)",
        FileType::Image(ImageFileType::JPEG) => "Image(JPEG)",
        FileType::Audio(AudioFileType::MP3) => "Audio(MP3)",
        FileType::Audio(AudioFileType::WAV) => "Audio(WAV)",
    }
}

/// Distinct formats have distinct canonical extensions, and none of them
/// holds a path separator or a dot.
pub proof fn lemma_extension_plain(a: FileType, b: FileType)
    ensures
        extension_of(a) == extension_of(b) ==> a == b,
        forall|i: int|
            0 <= i < extension_of(a).len() ==> {
                let c = #[trigger] extension_of(a)[i];
                c != '/' && c != '\\' && c != '.'
            },
{
    if extension_of(a) == extension_of(b) {
        assert(extension_of(a)[0] == extension_of(b)[0]);
        assert(extension_of(a)[1] == extension_of(b)[1]);
    }
}

} // verus!
