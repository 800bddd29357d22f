//! The host's long-lived identity: an iroh secret key kept in a private file
//! of exactly 32 bytes. A file of any other length is damaged and is never
//! replaced silently; a missing file means a fresh key, whose bytes are what
//! gets written.
use vstd::prelude::*;

use iroh::SecretKey;

use crate::files::IDENTITY_KEY_LEN;

verus! {

#[verifier::external_type_specification]
#[verifier::external_body]
pub struct ExSecretKey(iroh::SecretKey);

/// The key that `SecretKey::from_bytes` of iroh builds from 32 bytes.
pub uninterp spec fn key_from_bytes(bytes: Seq<u8>) -> SecretKey;

/// The 32 bytes that `SecretKey::to_bytes` of iroh gives back for a key.
pub uninterp spec fn secret_key_bytes(key: SecretKey) -> Seq<u8>;

/// Calls `SecretKey::from_bytes` of iroh, which builds an ed25519 signing key
/// from the 32 bytes; the key keeps those bytes, and `to_bytes` hands them
/// back.
#[verifier::external_body]
fn secret_key_from_bytes(bytes: &[u8; 32]) -> (key: SecretKey)
    ensures
        key == key_from_bytes(bytes@),
        secret_key_bytes(key) == bytes@,
{
    SecretKey::from_bytes(bytes)
}

/// Calls `SecretKey::to_bytes` of iroh, which returns the 32 bytes the key was
/// built from; building a key from them again gives the same key.
#[verifier::external_body]
fn secret_key_to_bytes(key: &SecretKey) -> (bytes: [u8; 32])
    ensures
        bytes@ == secret_key_bytes(*key),
        key_from_bytes(bytes@) == *key,
{
    key.to_bytes()
}

/// Calls `SecretKey::generate` of iroh, which draws the 32 bytes from the
/// system's random number generator. Nothing is claimed of which key comes
/// out.
#[verifier::external_body]
fn generate_secret_key() -> (key: SecretKey) {
    SecretKey::generate()
}

/// The identity held by a key file's contents: a key exactly when the file
/// holds 32 bytes.
pub open spec fn identity_of_file(bytes: Seq<u8>) -> Option<SecretKey> {
    if bytes.len() == IDENTITY_KEY_LEN {
        Some(key_from_bytes(bytes))
    } else {
        None
    }
}

/// What opening the identity gives.
pub enum IdentityLoad {
    /// The key file held a key.
    Loaded(SecretKey),
    /// The key file exists but is not 32 bytes long.
    Damaged,
    /// There was no key file: a fresh key, and the bytes to store for it.
    Created { key: SecretKey, bytes: [u8; 32] },
}

/// A freshly made key together with the file contents that hold it.
pub open spec fn fresh_identity(key: SecretKey, bytes: Seq<u8>) -> bool {
    &&& bytes.len() == IDENTITY_KEY_LEN
    &&& bytes == secret_key_bytes(key)
    &&& key_from_bytes(bytes) == key
}

fn key_array(bytes: &Vec<u8>) -> (a: [u8; 32])
    requires
        bytes@.len() == 32,
    ensures
        a@ == bytes@,
{
    let mut a: [u8; 32] = [0u8; 32];
    let mut i: usize = 0;
    while i < 32
        invariant
            bytes@.len() == 32,
            i <= 32,
            a@.len() == 32,
            forall|j: int| 0 <= j < i ==> a@[j] == bytes@[j],
        decreases 32 - i,
    {
        a[i] = bytes[i];
        i = i + 1;
    }
    assert(a@ =~= bytes@);
    a
}

/// The identity key in a key file's contents: `Some` exactly when the file
/// holds 32 bytes, and then the key those bytes make.
pub fn identity_from_bytes(bytes: &Vec<u8>) -> (r: Option<SecretKey>)
    ensures
        r is Some <==> bytes@.len() == IDENTITY_KEY_LEN,
        r == identity_of_file(bytes@),
        r matches Some(k) ==> secret_key_bytes(k) == bytes@,
{
    if bytes.len() != IDENTITY_KEY_LEN {
        return None;
    }
    let a = key_array(bytes);
    Some(secret_key_from_bytes(&a))
}

/// Opens the identity from the key file's contents, `None` when there is no
/// file to read: the stored key, `Damaged` for a file that is not 32 bytes,
/// or a fresh key with the bytes to store when there is no file.
pub fn load_or_create_identity(stored: Option<Vec<u8>>) -> (r: IdentityLoad)
    ensures
        match stored {
            Some(b) => match identity_of_file(b@) {
                Some(k) => r == IdentityLoad::Loaded(k) && secret_key_bytes(k) == b@,
                None => r is Damaged,
            },
            None => r matches IdentityLoad::Created { key, bytes } && fresh_identity(key, bytes@),
        },
{
    match stored {
        Some(b) => match identity_from_bytes(&b) {
            Some(k) => IdentityLoad::Loaded(k),
            None => IdentityLoad::Damaged,
        },
        None => {
            let key = generate_secret_key();
            let bytes = secret_key_to_bytes(&key);
            IdentityLoad::Created { key, bytes }
        },
    }
}

/// A key created because there was no file, once its bytes are stored, is
/// the key that the next start loads: the identity survives a restart.
pub proof fn law_created_identity_reloads(key: SecretKey, bytes: Seq<u8>)
    requires
        fresh_identity(key, bytes),
    ensures
        identity_of_file(bytes) == Some(key),
{
}

} // verus!
