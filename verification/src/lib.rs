//! Repackaging of fragmented MP4 and MPEG-TS media between encryption schemes,
//! container formats and streaming manifests.

pub mod b64;
pub mod bytes;
pub mod chars;
pub mod crypto;
pub mod decimal;
pub mod drm;
pub mod error;
pub mod manifest;
pub mod media;
pub mod paths;
pub mod text;
pub mod url;
pub mod xml;
