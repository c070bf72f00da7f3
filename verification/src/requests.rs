//! Request model of the serving layer's upload interface.
//!
//! The serving layer parses its wire format into copies of these types and
//! converts; the core keeps them as plain data. The image travels as a
//! base64-encoded string and is decoded and embedded outside the core.

use vstd::prelude::*;

verus! {

/// Audience of an uploaded clothing item.
#[derive(Debug, Clone, Copy, PartialEq, Eq, Structural)]
pub enum Gender {
    Male,
    Female,
}

/// Request structure for uploading images.
#[derive(Debug, Clone, PartialEq)]
pub struct ImageUploadRequest {
    /// Name under which the record is stored.
    pub name: String,
    /// Audience of the item.
    pub gender: Gender,
    /// The image, base64-encoded.
    pub image: String,
}

} // verus!
