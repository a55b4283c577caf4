//! Converts a file of one declared format into another, either through a
//! single registered converter or through the shortest chain of registered
//! converters that links the two formats.

pub mod builder;
pub mod converters;
pub mod error;
pub mod format;
pub mod paths;
pub mod registry;
pub mod search;

pub use crate::builder::{FileConvertBuilder, Hop};
pub use crate::error::{ConfigurationIssue, ConvertError};
pub use crate::format::{get_extension_for_type, FileType};
pub use crate::registry::{Converter, ConverterRegistry};
