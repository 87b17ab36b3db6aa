//! The packed graphics-API version value: variant, major, minor and patch
//! numbers packed into one 32-bit word, highest bits first.
//!
//! The packing is `variant << 29 | major << 22 | minor << 12 | patch`, with
//! 3, 7, 10 and 12 bits for the four numbers respectively.

use vstd::prelude::*;

verus! {

/// Packing four in-range version numbers fills disjoint bit fields, so each
/// number is read back unchanged.
proof fn lemma_packed_fields(variant: u32, major: u32, minor: u32, patch: u32)
    by (bit_vector)
    requires
        variant < 8,
        major < 0x80,
        minor < 0x400,
        patch < 0x1000,
    ensures
        ((variant << 29) | (major << 22) | (minor << 12) | patch) >> 29 == variant,
        (((variant << 29) | (major << 22) | (minor << 12) | patch) >> 22) & 0x7f == major,
        (((variant << 29) | (major << 22) | (minor << 12) | patch) >> 12) & 0x3ff == minor,
        ((variant << 29) | (major << 22) | (minor << 12) | patch) & 0xfff == patch,
{
}

/// A graphics-API version in its packed 32-bit form.
#[derive(Clone, Copy, PartialEq, Eq, Structural, PartialOrd, Ord, Hash, Debug)]
pub struct APIVersion {
    /// The packed version word.
    pub version: u32,
}

impl APIVersion {
    /// Creates a new version with the variant set to 0.
    pub fn new(major: u32, minor: u32, patch: u32) -> (r: APIVersion)
        requires
            major < 0x80,
            minor < 0x400,
            patch < 0x1000,
        ensures
            r.version == ((major << 22) | (minor << 12) | patch),
            r.version >> 29 == 0,
            (r.version >> 22) & 0x7f == major,
            (r.version >> 12) & 0x3ff == minor,
            r.version & 0xfff == patch,
    {
        proof {
            assert((0u32 << 29) | (major << 22) | (minor << 12) | patch == (major << 22) | (minor
                << 12) | patch) by (bit_vector);
        }
        Self::new_with_variant(0, major, minor, patch)
    }

    /// Creates a new version with the provided variant.
    pub fn new_with_variant(variant: u32, major: u32, minor: u32, patch: u32) -> (r: APIVersion)
        requires
            variant < 8,
            major < 0x80,
            minor < 0x400,
            patch < 0x1000,
        ensures
            r.version == ((variant << 29) | (major << 22) | (minor << 12) | patch),
            r.version >> 29 == variant,
            (r.version >> 22) & 0x7f == major,
            (r.version >> 12) & 0x3ff == minor,
            r.version & 0xfff == patch,
    {
        proof {
            lemma_packed_fields(variant, major, minor, patch);
        }
        APIVersion { version: (variant << 29) | (major << 22) | (minor << 12) | patch }
    }

    /// Creates a version from the raw packed value.
    pub fn from_raw(raw: u32) -> (r: APIVersion)
        ensures
            r.version == raw,
    {
        APIVersion { version: raw }
    }

    /// The variant of the version.
    pub fn get_variant(&self) -> (r: u32)
        ensures
            r == self.version >> 29,
    {
        self.version >> 29
    }

    /// The major version number.
    pub fn get_major(&self) -> (r: u32)
        ensures
            r == (self.version >> 22) & 0x7f,
    {
        (self.version >> 22) & 0x7f
    }

    /// The minor version number.
    pub fn get_minor(&self) -> (r: u32)
        ensures
            r == (self.version >> 12) & 0x3ff,
    {
        (self.version >> 12) & 0x3ff
    }

    /// The patch number.
    pub fn get_patch(&self) -> (r: u32)
        ensures
            r == self.version & 0xfff,
    {
        self.version & 0xfff
    }
}

} // verus!
