//! Encryption schemes of ISO common encryption.

use vstd::prelude::*;

verus! {

/// How samples are encrypted.
#[derive(Debug, Clone, Copy, PartialEq, Eq, Structural)]
pub enum EncryptionScheme {
    /// AES-CBC with pattern encryption.
    Cbcs,
    /// AES-CTR.
    Cenc,
    /// Not encrypted.
    Clear,
}

impl EncryptionScheme {
    /// Whether the scheme encrypts at all.
    pub open spec fn encrypts(self) -> bool {
        !(self is Clear)
    }

    /// The four-character scheme type.
    pub open spec fn code(self) -> Seq<u8> {
        match self {
            EncryptionScheme::Cbcs => seq![0x63u8, 0x62, 0x63, 0x73],
            EncryptionScheme::Cenc => seq![0x63u8, 0x65, 0x6e, 0x63],
            EncryptionScheme::Clear => seq![0x6eu8, 0x6f, 0x6e, 0x65],
        }
    }

    /// The scheme type as text.
    pub open spec fn name(self) -> Seq<char> {
        match self {
            EncryptionScheme::Cbcs => "cbcs"@,
            EncryptionScheme::Cenc => "cenc"@,
            EncryptionScheme::Clear => "none"@,
        }
    }

    /// The METHOD of an HLS key tag.
    pub open spec fn hls_method(self) -> Seq<char> {
        match self {
            EncryptionScheme::Cbcs => "SAMPLE-AES"@,
            EncryptionScheme::Cenc => "SAMPLE-AES-CTR"@,
            EncryptionScheme::Clear => "NONE"@,
        }
    }

    /// Whether the scheme encrypts at all.
    pub fn is_encrypted(&self) -> (yes: bool)
        ensures
            yes == self.encrypts(),
    {
        match self {
            EncryptionScheme::Clear => false,
            _ => true,
        }
    }

    /// The four-character scheme type.
    pub fn scheme_type_bytes(&self) -> (code: [u8; 4])
        ensures
            code@ == self.code(),
    {
        let code: [u8; 4] = match self {
            EncryptionScheme::Cbcs => [0x63, 0x62, 0x63, 0x73],
            EncryptionScheme::Cenc => [0x63, 0x65, 0x6e, 0x63],
            EncryptionScheme::Clear => [0x6e, 0x6f, 0x6e, 0x65],
        };
        assert(code@ =~= self.code());
        code
    }

    /// The scheme type as text.
    pub fn scheme_type_str(&self) -> (name: &'static str)
        ensures
            name@ == self.name(),
    {
        match self {
            EncryptionScheme::Cbcs => "cbcs",
            EncryptionScheme::Cenc => "cenc",
            EncryptionScheme::Clear => "none",
        }
    }

    /// The METHOD of an HLS key tag.
    pub fn hls_method_string(&self) -> (method: &'static str)
        ensures
            method@ == self.hls_method(),
    {
        match self {
            EncryptionScheme::Cbcs => "SAMPLE-AES",
            EncryptionScheme::Cenc => "SAMPLE-AES-CTR",
            EncryptionScheme::Clear => "NONE",
        }
    }
}

} // verus!
