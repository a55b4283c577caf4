//! Audio formats.

use vstd::prelude::*;

verus! {

/// The audio formats the library knows.
#[derive(PartialEq, Eq, Structural, Clone, Copy, Debug, Hash)]
pub enum AudioFileType {
    MP3,
    WAV,
}

} // verus!
