//! The outside calls a cursor is sealed and opened with.

use base64::engine::general_purpose::URL_SAFE_NO_PAD;
use base64::Engine;
use chacha20poly1305::aead::{Aead, KeyInit, Payload};
use chacha20poly1305::{XChaCha20Poly1305, XNonce};
use rand::RngCore;
use vstd::prelude::*;

verus! {

/// What XChaCha20-Poly1305 seals a message to, under a key, a nonce and associated data.
pub uninterp spec fn sealed_of(
    key: Seq<u8>,
    nonce: Seq<u8>,
    associated: Seq<u8>,
    message: Seq<u8>,
) -> Seq<u8>;

/// The message a sealed one opens to under a key, a nonce and associated data, if it opens.
pub uninterp spec fn opened_of(
    key: Seq<u8>,
    nonce: Seq<u8>,
    associated: Seq<u8>,
    sealed: Seq<u8>,
) -> Option<Seq<u8>>;

/// A byte string in base64url without padding.
pub uninterp spec fn base64_of(bytes: Seq<u8>) -> Seq<char>;

/// The bytes a base64url text without padding stands for, if it stands for any.
pub uninterp spec fn unbase64_of(text: Seq<char>) -> Option<Seq<u8>>;

/// The longest message the cipher takes: its counter starts past the block that keys the tag, so
/// 0xFFFF_FFFE blocks of 64 bytes are left, and a partial block takes a whole one.
pub const MAX_MESSAGE_LEN: u64 = 274_877_906_816;

/// The bytes of a tag.
pub const TAG_LEN: u64 = 16;

/// `chacha20poly1305::XChaCha20Poly1305`'s `encrypt`, of a message no longer than
/// [`MAX_MESSAGE_LEN`], on which it does not fail: the ciphertext, which [`sealed_of`] names, with
/// the 16 bytes of the tag after it. It opens under the same key, nonce and associated data to the
/// message. The message and its tag fit one allocation.
#[verifier::external_body]
pub(crate) fn encrypt(
    key: &[u8; 32],
    nonce: &[u8; 24],
    associated: &[u8],
    message: &[u8],
) -> (sealed: Vec<u8>)
    requires
        message@.len() <= MAX_MESSAGE_LEN,
        message@.len() + TAG_LEN <= usize::MAX / 2,
    ensures
        sealed@ == sealed_of(key@, nonce@, associated@, message@),
        sealed@.len() == message@.len() + TAG_LEN,
        opened_of(key@, nonce@, associated@, sealed@) == Some(message@),
{
    let cipher = XChaCha20Poly1305::new_from_slice(key).expect("the key is 32 bytes");
    let payload = Payload { msg: message, aad: associated };
    cipher.encrypt(&XNonce::from(*nonce), payload).expect("the message is short enough")
}

/// `chacha20poly1305::XChaCha20Poly1305`'s `decrypt`: the message, which [`opened_of`] names, where
/// the tag is right, and nothing otherwise. What is opened is no longer than a message of
/// [`MAX_MESSAGE_LEN`] bytes is sealed to. That no other key, nonce or associated data opens a
/// sealed message rests on the cipher and is not stated.
#[verifier::external_body]
pub(crate) fn decrypt(
    key: &[u8; 32],
    nonce: &[u8; 24],
    associated: &[u8],
    sealed: &[u8],
) -> (message: Option<Vec<u8>>)
    requires
        sealed@.len() <= MAX_MESSAGE_LEN + TAG_LEN,
    ensures
        message is Some <==> opened_of(key@, nonce@, associated@, sealed@) is Some,
        message matches Some(m) ==> opened_of(key@, nonce@, associated@, sealed@) == Some(m@),
{
    let cipher = XChaCha20Poly1305::new_from_slice(key).expect("the key is 32 bytes");
    let payload = Payload { msg: sealed, aad: associated };
    cipher.decrypt(&XNonce::from(*nonce), payload).ok()
}

/// `base64`'s `URL_SAFE_NO_PAD.encode`: the text, which [`base64_of`] names. It decodes to the
/// bytes. The text, of four characters for three bytes, fits one allocation.
#[verifier::external_body]
pub(crate) fn encode(bytes: &[u8]) -> (text: String)
    requires
        bytes@.len() / 3 * 4 + 3 <= usize::MAX / 2,
    ensures
        text@ == base64_of(bytes@),
        unbase64_of(text@) == Some(bytes@),
{
    URL_SAFE_NO_PAD.encode(bytes)
}

/// `base64`'s `URL_SAFE_NO_PAD.decode`: the bytes, which [`unbase64_of`] names, where the text is
/// base64url without padding, and nothing otherwise.
#[verifier::external_body]
pub(crate) fn decode(text: &str) -> (bytes: Option<Vec<u8>>)
    ensures
        bytes is Some <==> unbase64_of(text@) is Some,
        bytes matches Some(b) ==> unbase64_of(text@) == Some(b@),
{
    URL_SAFE_NO_PAD.decode(text).ok()
}

/// `rand::thread_rng`'s `fill_bytes`: 24 random bytes, of which nothing more can be said.
#[verifier::external_body]
pub(crate) fn fresh_nonce() -> (nonce: [u8; 24]) {
    let mut nonce = [0u8; 24];
    rand::thread_rng().fill_bytes(&mut nonce);
    nonce
}

} // verus!
