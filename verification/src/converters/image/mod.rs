//! Image formats.

use vstd::prelude::*;

verus! {

/// The image formats the library knows.
#[derive(PartialEq, Eq, Structural, Clone, Copy, Debug, Hash)]
pub enum ImageFileType {
    PNG,
    JPEG,
}

} // verus!
