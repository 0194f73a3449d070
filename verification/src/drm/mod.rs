//! Content keys, DRM systems and encryption schemes.

pub mod ciphers;
pub mod sample_cryptor;
pub mod scheme;
pub mod system_ids;

use vstd::prelude::*;

verus! {

/// A content key with its identifier.
#[derive(Debug, Clone)]
pub struct ContentKey {
    pub kid: [u8; 16],
    pub key: Vec<u8>,
    pub iv: Option<Vec<u8>>,
}

/// What one DRM system needs for one key.
#[derive(Debug, Clone)]
pub struct DrmSystemData {
    pub system_id: [u8; 16],
    pub kid: [u8; 16],
    pub pssh_data: Vec<u8>,
    pub content_protection_data: Option<String>,
}

/// The contents of a [`DrmSystemData`].
pub struct SystemView {
    pub system_id: Seq<u8>,
    pub kid: Seq<u8>,
    pub pssh_data: Seq<u8>,
    pub content_protection_data: Option<Seq<char>>,
}

impl View for DrmSystemData {
    type V = SystemView;

    open spec fn view(&self) -> SystemView {
        SystemView {
            system_id: self.system_id@,
            kid: self.kid@,
            pssh_data: self.pssh_data@,
            content_protection_data: match self.content_protection_data {
                Some(t) => Some(t@),
                None => None,
            },
        }
    }
}

/// The keys of a piece of content and the DRM systems that protect it.
#[derive(Debug, Clone)]
pub struct DrmKeySet {
    pub keys: Vec<ContentKey>,
    pub drm_systems: Vec<DrmSystemData>,
}

impl DrmKeySet {
    /// What the DRM systems contribute to PSSH boxes.
    pub open spec fn systems(&self) -> Seq<SystemView> {
        self.drm_systems@.map_values(|d: DrmSystemData| d@)
    }
}

} // verus!
