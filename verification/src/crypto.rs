//! Keys, signatures and the texts that keys are kept as.

use base64::engine::general_purpose::STANDARD;
use base64::Engine;
use crate::text::decimal;
use ed25519_dalek::{Signer, Verifier};
use rand::rand_core::UnwrapErr;
use rand::rngs::SysRng;
use vstd::prelude::*;

verus! {

/// Whether 32 bytes are a public key.
pub uninterp spec fn is_public_key(bytes: Seq<u8>) -> bool;

/// The public key that belongs to a secret one.
pub uninterp spec fn public_key(secret: Seq<u8>) -> Seq<u8>;

/// The signature of a message under a secret key.
pub uninterp spec fn signature_of(secret: Seq<u8>, message: Seq<u8>) -> Seq<u8>;

/// Whether a signature of a message is good under a public key.
pub uninterp spec fn signature_good(key: Seq<u8>, message: Seq<u8>, signature: Seq<u8>) -> bool;

/// `ed25519_dalek::VerifyingKey::from_bytes`: whether it takes the bytes as a key.
#[verifier::external_body]
pub(crate) fn check_public_key(bytes: &[u8; 32]) -> (sound: bool)
    ensures
        sound == is_public_key(bytes@),
{
    ed25519_dalek::VerifyingKey::from_bytes(bytes).is_ok()
}

/// `ed25519_dalek::SigningKey::verifying_key`: the public key of a secret one. It is
/// one that `VerifyingKey::from_bytes` takes.
#[verifier::external_body]
pub(crate) fn derive_public_key(secret: &[u8; 32]) -> (key: [u8; 32])
    ensures
        key@ == public_key(secret@),
        is_public_key(key@),
{
    ed25519_dalek::SigningKey::from_bytes(secret).verifying_key().to_bytes()
}

/// `ed25519_dalek::SigningKey::sign`: the signature of a message. It is good under
/// the public key that belongs to the secret one.
#[verifier::external_body]
pub(crate) fn sign_message(secret: &[u8; 32], message: &[u8]) -> (signature: [u8; 64])
    ensures
        signature@ == signature_of(secret@, message@),
        signature_good(public_key(secret@), message@, signature@),
{
    ed25519_dalek::SigningKey::from_bytes(secret).sign(message).to_bytes()
}

/// `ed25519_dalek::VerifyingKey::verify`: whether the signature is good. Bytes that
/// are no public key have no good signatures.
#[verifier::external_body]
pub(crate) fn verify_message(key: &[u8; 32], message: &[u8], signature: &[u8; 64]) -> (good: bool)
    ensures
        good == signature_good(key@, message@, signature@),
        good ==> is_public_key(key@),
{
    let signature = ed25519_dalek::Signature::from_bytes(signature);
    ed25519_dalek::VerifyingKey::from_bytes(key).is_ok_and(|key| key.verify(message, &signature).is_ok())
}

/// Bytes as numbers, from position `from` on, with a comma and a space between them.
pub open spec fn numbers_from(bytes: Seq<u8>, from: nat) -> Seq<char>
    decreases bytes.len() - from,
{
    if from >= bytes.len() {
        Seq::empty()
    } else if from + 1 == bytes.len() {
        decimal(bytes[from as int] as nat)
    } else {
        decimal(bytes[from as int] as nat) + ", "@ + numbers_from(bytes, from + 1)
    }
}

/// Whether a text is one that shows a public key: its bytes, then its point in the form
/// that the machine computes with.
pub open spec fn shows_key(text: Seq<char>, bytes: Seq<u8>) -> bool {
    let lead = "VerifyingKey(CompressedEdwardsY: ["@ + numbers_from(bytes, 0) + "]), EdwardsPoint"@;
    text.len() >= lead.len() && text.take(lead.len() as int) == lead
}

/// `<ed25519_dalek::VerifyingKey as Debug>::fmt`: the bytes of the key, and its point.
/// How the point is written differs from machine to machine and is left open. Bytes that
/// are no public key give no text.
#[verifier::external_body]
pub(crate) fn debug_key(bytes: &[u8; 32]) -> (text: String)
    ensures
        is_public_key(bytes@) ==> shows_key(text@, bytes@),
        !is_public_key(bytes@) ==> text@ == Seq::<char>::empty(),
{
    ed25519_dalek::VerifyingKey::from_bytes(bytes).map(|key| format!("{key:?}")).unwrap_or_default()
}

/// `ed25519_dalek::SigningKey::generate` with the system's random numbers: any
/// secret key may come out. It panics where the system has no random numbers to give.
#[verifier::external_body]
pub(crate) fn random_secret() -> (secret: [u8; 32]) {
    ed25519_dalek::SigningKey::generate(&mut UnwrapErr(SysRng)).to_bytes()
}

/// Why a text is not base64.
#[derive(Debug, Clone, Copy, PartialEq, Eq)]
pub enum DecodeError {
    /// A byte at a position is not one of the alphabet.
    InvalidByte(usize, u8),
    /// The number of symbols is not one that any bytes have.
    InvalidLength(usize),
    /// The last symbol, at a position, has bits set that stand for nothing.
    InvalidLastSymbol(usize, u8, u8),
    /// The padding is not what it has to be.
    InvalidPadding,
}

/// The base64 text of bytes.
pub uninterp spec fn base64_text(bytes: Seq<u8>) -> Seq<char>;

/// The bytes that a text is the base64 of, or why it is none.
pub uninterp spec fn base64_bytes(text: Seq<char>) -> Result<Seq<u8>, DecodeError>;

/// Whether a text is base64 and stands for given bytes.
pub open spec fn is_base64_of(text: Seq<char>, bytes: Seq<u8>) -> bool {
    base64_bytes(text) matches Ok(back) && back == bytes
}

/// `STANDARD.encode` of `base64`: a text that `STANDARD.decode` turns back into the
/// bytes.
#[verifier::external_body]
pub(crate) fn encode_base64(bytes: &[u8]) -> (text: String)
    ensures
        text@ == base64_text(bytes@),
        is_base64_of(text@, bytes@),
{
    STANDARD.encode(bytes)
}

/// `STANDARD.decode` of `base64`: the bytes, or the error that it gives.
#[verifier::external_body]
pub(crate) fn decode_base64(text: &str) -> (decoded: Result<Vec<u8>, DecodeError>)
    ensures
        match decoded {
            Ok(bytes) => base64_bytes(text@) matches Ok(back) && back == bytes@,
            Err(e) => base64_bytes(text@) matches Err(why) && why == e,
        },
{
    STANDARD.decode(text).map_err(|e| match e {
        base64::DecodeError::InvalidByte(at, byte) => DecodeError::InvalidByte(at, byte),
        base64::DecodeError::InvalidLength(len) => DecodeError::InvalidLength(len),
        base64::DecodeError::InvalidLastSymbol { offset, symbol, symbol_value } =>
            DecodeError::InvalidLastSymbol(offset, symbol, symbol_value),
        base64::DecodeError::InvalidPadding => DecodeError::InvalidPadding,
    })
}

} // verus!
