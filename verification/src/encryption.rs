//! The settings with which a document is encrypted. The cryptography
//! itself is not part of this library.

use crate::names::{ascii, name};
use vstd::prelude::*;

verus! {

/// Every permission that the standard security handler knows: printing,
/// modifying, copying, annotating, filling in forms, copying for
/// accessibility, assembling, and printing in high quality.
pub const ALL_PERMISSIONS: u64 = 3900;

/// The length in bits of the file encryption key.
pub const KEY_LENGTH: u32 = 128;

/// How a document is to be encrypted: with the standard security handler
/// in its revision 4, and one crypt filter for streams and strings alike.
#[derive(Clone, Debug, PartialEq, Eq)]
pub struct EncryptionSettings {
    /// The password that opens the document.
    pub user_password: String,
    /// The password that lifts its restrictions.
    pub owner_password: String,
    /// Whether the document's metadata stream is encrypted too.
    pub encrypt_metadata: bool,
    /// The name of the crypt filter for streams and strings.
    pub filter: Vec<u8>,
    /// The length in bits of the file encryption key.
    pub key_length: u32,
    /// The permission bits that are granted.
    pub permissions: u64,
}

/// The settings for encrypting a document that `user_password` opens: the
/// owner password is the user password where none is given, metadata is
/// encrypted, the crypt filter is `StdCF` with a key of 128 bits, and every
/// permission is granted.
pub fn encryption_settings(user_password: String, owner_password: Option<String>) -> (settings:
    EncryptionSettings)
    ensures
        settings.user_password@ == user_password@,
        settings.owner_password@ == match owner_password {
            Some(owner) => owner@,
            None => user_password@,
        },
        settings.encrypt_metadata,
        settings.filter@ == ascii("StdCF"@),
        settings.key_length == KEY_LENGTH,
        settings.permissions == ALL_PERMISSIONS,
{
    proof {
        reveal_strlit("StdCF");
    }
    let owner = match owner_password {
        Some(owner) => owner,
        None => user_password.clone(),
    };
    EncryptionSettings {
        user_password,
        owner_password: owner,
        encrypt_metadata: true,
        filter: name("StdCF"),
        key_length: KEY_LENGTH,
        permissions: ALL_PERMISSIONS,
    }
}

} // verus!
