//! Format families and the identities of their members.

pub mod audio;
pub mod image;
