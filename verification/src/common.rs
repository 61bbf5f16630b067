//! The secret key of this device.

use crate::crypto::{
    base64_bytes, base64_text, decode_base64, derive_public_key, encode_base64, is_base64_of, public_key, random_secret,
    sign_message, signature_good, signature_of, DecodeError,
};
use crate::devices::{to_32, DeviceId};
use crate::storage_utils::{Json, KvStore, Value};
use vstd::prelude::*;

verus! {

/// The secret key that a device signs with.
#[derive(Clone, Copy, Debug)]
pub struct SigningKey {
    bytes: [u8; 32],
}

impl View for SigningKey {
    type V = Seq<u8>;

    closed spec fn view(&self) -> Seq<u8> {
        self.bytes@
    }
}

impl SigningKey {
    /// The key made of given bytes.
    pub fn from_bytes(bytes: &[u8; 32]) -> (key: SigningKey)
        ensures
            key@ == bytes@,
    {
        SigningKey { bytes: *bytes }
    }

    /// The bytes of the key.
    pub fn as_bytes(&self) -> (bytes: &[u8; 32])
        ensures
            bytes@ == self@,
    {
        &self.bytes
    }

    /// A new key, taken from the system's random numbers. Which one is left open.
    pub fn generate() -> (key: SigningKey) {
        SigningKey { bytes: random_secret() }
    }

    /// The device that signs with this key.
    pub fn verifying_key(&self) -> (id: DeviceId)
        ensures
            id@ == public_key(self@),
            id.wf(),
    {
        DeviceId::from_key(derive_public_key(&self.bytes))
    }

    /// The signature of a message.
    pub fn sign(&self, message: &[u8]) -> (signature: Signature)
        ensures
            signature@ == signature_of(self@, message@),
            signature_good(public_key(self@), message@, signature@),
    {
        Signature { bytes: sign_message(&self.bytes, message) }
    }
}

/// A signature.
#[derive(Clone, Copy, Debug)]
pub struct Signature {
    bytes: [u8; 64],
}

impl View for Signature {
    type V = Seq<u8>;

    closed spec fn view(&self) -> Seq<u8> {
        self.bytes@
    }
}

impl Signature {
    /// The signature made of given bytes, good or not.
    pub fn from_bytes(bytes: &[u8; 64]) -> (signature: Signature)
        ensures
            signature@ == bytes@,
    {
        Signature { bytes: *bytes }
    }

    /// The bytes of the signature.
    pub fn as_bytes(&self) -> (bytes: &[u8; 64])
        ensures
            bytes@ == self@,
    {
        &self.bytes
    }
}

pub(crate) proof fn lemma_signature_len(signature: Signature)
    ensures
        signature@.len() == 64,
{
}

/// The key that a text is the text of, or why it is none.
pub open spec fn signing_key_of(text: Seq<char>) -> Result<Seq<u8>, DecodeError> {
    match base64_bytes(text) {
        Err(e) => Err(e),
        Ok(bytes) => if bytes.len() == 32 {
            Ok(bytes)
        } else {
            Err(DecodeError::InvalidLength(32))
        },
    }
}

/// The text that a key is kept as.
pub fn signing_key_to_string(key: &SigningKey) -> (text: String)
    ensures
        text@ == base64_text(key@),
        is_base64_of(text@, key@),
{
    encode_base64(key.bytes.as_slice())
}

/// The key that a text is the text of.
pub fn signing_key_from_string(key: &str) -> (result: Result<SigningKey, DecodeError>)
    ensures
        match result {
            Ok(k) => signing_key_of(key@) == Ok::<Seq<u8>, DecodeError>(k@),
            Err(e) => signing_key_of(key@) == Err::<Seq<u8>, DecodeError>(e),
        },
{
    match decode_base64(key) {
        Err(e) => Err(e),
        Ok(bytes) => match to_32(bytes.as_slice()) {
            Some(array) => Ok(SigningKey { bytes: array }),
            None => Err(DecodeError::InvalidLength(32)),
        },
    }
}

/// The text of a key stands for that key.
pub proof fn law_signing_key_back(key: SigningKey, text: Seq<char>)
    requires
        is_base64_of(text, key@),
    ensures
        signing_key_of(text) == Ok::<Seq<u8>, DecodeError>(key@),
{
    assert(key.bytes@.len() == 32);
}

/// Why what is stored as the key is none.
#[derive(Debug, Clone, Copy, PartialEq, Eq)]
pub enum StoredKeyError {
    /// It is not a text.
    NotAText,
    /// The text is not the text of a key.
    Decode(DecodeError),
}

/// The key in a store, where one is stored.
pub open spec fn stored_key(store: Map<Seq<char>, Json>) -> Result<Option<Seq<u8>>, StoredKeyError> {
    if !store.contains_key("key"@) {
        Ok(None)
    } else {
        match store["key"@] {
            Json::Text(text) => match signing_key_of(text) {
                Ok(bytes) => Ok(Some(bytes)),
                Err(e) => Err(StoredKeyError::Decode(e)),
            },
            _ => Err(StoredKeyError::NotAText),
        }
    }
}

/// The key of this device: the one in the store, or else a new one, which is stored.
pub fn get_signing_key(store: &mut KvStore) -> (result: Result<SigningKey, StoredKeyError>)
    requires
        old(store).wf(),
    ensures
        final(store).wf(),
        final(store).file() == old(store).file(),
        match stored_key(old(store)@) {
            Ok(Some(bytes)) => result matches Ok(key) && key@ == bytes && final(store)@ == old(store)@,
            Ok(None) => result matches Ok(key) && final(store)@ == old(store)@.insert(
                "key"@,
                Json::Text(base64_text(key@)),
            ) && stored_key(final(store)@) == Ok::<Option<Seq<u8>>, StoredKeyError>(Some(key@)),
            Err(e) => result == Err::<SigningKey, StoredKeyError>(e) && final(store)@ == old(store)@,
        },
{
    match store.get("key") {
        Some(value) => match value.as_str() {
            None => Err(StoredKeyError::NotAText),
            Some(text) => match signing_key_from_string(text) {
                Ok(key) => Ok(key),
                Err(e) => Err(StoredKeyError::Decode(e)),
            },
        },
        None => {
            let key = SigningKey::generate();
            let text = signing_key_to_string(&key);
            proof {
                law_signing_key_back(key, text@);
            }
            store.set("key", Value::Text(text));
            Ok(key)
        },
    }
}

/// The key of a device is what its store has under `key`, a text that is the base64 of 32
/// bytes. Without one there is none; another text or another kind of value is an error.
pub proof fn law_stored_key(store: Map<Seq<char>, Json>, text: Seq<char>, bytes: Seq<u8>)
    ensures
        !store.contains_key("key"@) ==> stored_key(store) == Ok::<Option<Seq<u8>>, StoredKeyError>(None),
        is_base64_of(text, bytes) && bytes.len() == 32 && store.contains_pair("key"@, Json::Text(text)) ==> stored_key(
            store,
        ) == Ok::<Option<Seq<u8>>, StoredKeyError>(Some(bytes)),
        is_base64_of(text, bytes) && bytes.len() != 32 && store.contains_pair("key"@, Json::Text(text)) ==> stored_key(
            store,
        ) is Err,
        base64_bytes(text) is Err && store.contains_pair("key"@, Json::Text(text)) ==> stored_key(store) is Err,
        store.contains_key("key"@) && !(store["key"@] is Text) ==> stored_key(store) == Err::<
            Option<Seq<u8>>,
            StoredKeyError,
        >(StoredKeyError::NotAText),
{
}

} // verus!
