//! Ed25519 signatures of request texts, written in base64, as the exchange
//! expects them.
use vstd::prelude::*;
use base64::Engine;
use ed25519_dalek::{Signer, SigningKey};

verus! {

/// The bytes that the standard, padded base64 text `s` encodes, when it is
/// well-formed base64 (the `base64` crate's `STANDARD` engine).
pub uninterp spec fn base64_decoded(s: Seq<char>) -> Option<Seq<u8>>;

/// The standard, padded base64 text of `bytes` (the `base64` crate's
/// `STANDARD` engine).
pub uninterp spec fn base64_encoded(bytes: Seq<u8>) -> Seq<char>;

/// The ed25519 signature, by the signing key of the 32-byte `secret`, of the
/// UTF-8 bytes of `message` (`ed25519_dalek`).
pub uninterp spec fn ed25519_signature(secret: Seq<u8>, message: Seq<char>) -> Seq<u8>;

/// The 32-byte secret that the base64 text `s` holds, if it holds one.
pub open spec fn secret_key_of(s: Seq<char>) -> Option<Seq<u8>> {
    match base64_decoded(s) {
        Some(b) => if b.len() == 32 {
            Some(b)
        } else {
            None
        },
        None => None,
    }
}

/// The base64 text of the signature of `message` by `secret`.
pub open spec fn signature_text(secret: Seq<u8>, message: Seq<char>) -> Seq<char> {
    base64_encoded(ed25519_signature(secret, message))
}

/// Decodes standard base64.
///
/// Trusted: calls `base64::engine::general_purpose::STANDARD.decode`, which
/// gives the decoded bytes or, for text that is not valid padded base64, an
/// error; the error becomes `None`. The result is named `base64_decoded`.
#[verifier::external_body]
fn decode_base64(s: &str) -> (r: Option<Vec<u8>>)
    ensures
        match r {
            Some(v) => base64_decoded(s@) == Some(v@),
            None => base64_decoded(s@) is None,
        },
{
    base64::engine::general_purpose::STANDARD.decode(s).ok()
}

/// Encodes 64 bytes as standard base64.
///
/// Trusted: calls `base64::engine::general_purpose::STANDARD.encode`, which
/// panics only when the encoded length overflows `usize` (not for 64 bytes).
/// The result is named `base64_encoded`.
#[verifier::external_body]
fn encode_base64(bytes: &[u8; 64]) -> (r: String)
    ensures
        r@ == base64_encoded(bytes@),
{
    base64::engine::general_purpose::STANDARD.encode(bytes)
}

/// Signs the UTF-8 bytes of `message` with the ed25519 key of `secret`.
///
/// Trusted: builds the key with `ed25519_dalek::SigningKey::from_bytes` and
/// calls `Signer::sign` on it (whose `try_sign` never fails), then takes the
/// signature's 64 bytes with `to_bytes`. Ed25519 signing is deterministic, so
/// the result is named `ed25519_signature` of the secret and the message.
#[verifier::external_body]
fn sign_ed25519(secret: &[u8; 32], message: &str) -> (r: [u8; 64])
    ensures
        r@ == ed25519_signature(secret@, message@),
{
    SigningKey::from_bytes(secret).sign(message.as_bytes()).to_bytes()
}

/// The 32-byte secret that the base64 text `s` holds, if it holds one.
pub fn secret_from_base64(s: &str) -> (r: Option<[u8; 32]>)
    ensures
        match r {
            Some(a) => secret_key_of(s@) == Some(a@),
            None => secret_key_of(s@) is None,
        },
{
    match decode_base64(s) {
        Some(bytes) => {
            if bytes.len() != 32 {
                return None;
            }
            let mut a = [0u8; 32];
            let mut i: usize = 0;
            while i < 32
                invariant
                    bytes@.len() == 32,
                    i <= 32,
                    a@.len() == 32,
                    forall|j: int| 0 <= j < i ==> a@[j] == bytes@[j],
                decreases 32 - i,
            {
                a[i] = bytes[i];
                i = i + 1;
            }
            assert(a@ =~= bytes@);
            Some(a)
        },
        None => None,
    }
}

/// The base64 text of the ed25519 signature of `message` by `secret`.
pub fn signature_of(secret: &[u8; 32], message: &str) -> (r: String)
    ensures
        r@ == signature_text(secret@, message@),
{
    let sig = sign_ed25519(secret, message);
    encode_base64(&sig)
}

} // verus!
