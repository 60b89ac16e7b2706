//! Decoder, encoder and verifier for the binary staging-area ("index") file
//! format of a distributed version-control system: entries with filesystem
//! metadata and object ids, auxiliary extension blocks, and a checksum
//! trailer sealing the file.
use vstd::prelude::*;

pub mod bytes;
pub mod entry;
pub mod extension;
pub mod state;
pub mod verify;
pub mod encode;
pub mod decode;
pub mod laws;
pub mod actor;
pub mod hash;

verus! {

/// The version of the on-disk index format.
///
/// It governs the entry layout: V4 stores paths with prefix compression,
/// V2 and V3 store them verbatim; extended per-entry flags may only
/// appear from V3 on.
#[derive(Clone, Copy, Debug, PartialEq, Eq, Structural)]
pub enum Version {
    V2,
    V3,
    V4,
}

impl Version {
    /// The number stored in the header's version field.
    pub fn to_number(self) -> (n: u32)
        ensures
            n == self.spec_number(),
    {
        match self {
            Version::V2 => 2,
            Version::V3 => 3,
            Version::V4 => 4,
        }
    }

    /// The header's version field, as a mathematical value.
    pub open spec fn spec_number(self) -> u32 {
        match self {
            Version::V2 => 2u32,
            Version::V3 => 3u32,
            Version::V4 => 4u32,
        }
    }
}

} // verus!
