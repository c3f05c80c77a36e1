use vstd::prelude::*;

use chacha20poly1305::aead::Aead;
use chacha20poly1305::KeyInit;

use crate::errors::Error;
use crate::wal::NONCE_LEN;

verus! {

/// Length of a derived symmetric key, in bytes.
pub const KEY_LEN: usize = 32;

/// What AEAD decryption returns for a key, nonce and ciphertext: the unique
/// plaintext the ciphertext authenticates under that key and nonce, or
/// nothing. Decryption is a pure function of its three inputs.
pub uninterp spec fn plain_of(key: Seq<u8>, nonce: Seq<u8>, ciphertext: Seq<u8>) -> Option<
    Seq<u8>,
>;

/// What the hash of a byte string is. The digest depends on the input alone.
pub uninterp spec fn digest_of(data: Seq<u8>) -> Seq<u8>;

/// Relies on blake3::hash: a 32-byte digest computed from the input bytes
/// alone.
#[verifier::external_body]
pub fn hash_bytes(data: &Vec<u8>) -> (r: Vec<u8>)
    ensures
        r@ == digest_of(data@),
        r@.len() == KEY_LEN,
{
    blake3::hash(data.as_slice()).as_bytes().to_vec()
}

/// Maps a password to the symmetric key: a single unsalted hash, so the same
/// password always yields the same key. This reproduces the original
/// behaviour; it deliberately adds no salt or work factor.
pub fn derive_key(password: &Vec<u8>) -> (r: Vec<u8>)
    ensures
        r@ == digest_of(password@),
        r@.len() == KEY_LEN,
{
    hash_bytes(password)
}

/// Relies on rand::random: 12 fresh bytes. Nothing is assumed of their
/// values; every contract downstream holds for any nonce of this length.
#[verifier::external_body]
pub fn random_nonce() -> (r: Vec<u8>)
    ensures
        r@.len() == NONCE_LEN,
{
    rand::random::<[u8; 12]>().to_vec()
}

/// Relies on chacha20poly1305::ChaCha20Poly1305 (through aead::Aead):
/// encryption appends a 16-byte tag, fails only for plaintexts far beyond
/// the admitted length, and decrypting the result with the same key and
/// nonce returns the plaintext.
#[verifier::external_body]
pub fn encrypt_chunk(chunk: &Vec<u8>, key: &Vec<u8>, rand_nonce_key: &Vec<u8>) -> (r: Result<
    Vec<u8>,
    Error,
>)
    requires
        key@.len() == KEY_LEN,
        rand_nonce_key@.len() == NONCE_LEN,
        chunk@.len() <= u32::MAX,
    ensures
        r is Ok,
        r matches Ok(c) ==> {
            &&& c@.len() == chunk@.len() + 16
            &&& plain_of(key@, rand_nonce_key@, c@) == Some(chunk@)
        },
{
    let cipher = chacha20poly1305::ChaCha20Poly1305::new(chacha20poly1305::Key::from_slice(
        key.as_slice(),
    ));
    let nonce = chacha20poly1305::Nonce::from_slice(rand_nonce_key.as_slice());
    cipher.encrypt(nonce, chunk.as_slice()).map_err(|_| Error::AuthenticationFailure)
}

/// Relies on chacha20poly1305::ChaCha20Poly1305 (through aead::Aead):
/// decryption succeeds exactly when the tag authenticates the ciphertext
/// under the key and nonce, and then returns the unique plaintext; any
/// tampering fails closed.
#[verifier::external_body]
pub fn decrypt_chunk(encrypted_chunk: Vec<u8>, key: &Vec<u8>, rand_nonce_key: &Vec<u8>) -> (r:
    Result<Vec<u8>, Error>)
    requires
        key@.len() == KEY_LEN,
        rand_nonce_key@.len() == NONCE_LEN,
    ensures
        match r {
            Ok(p) => plain_of(key@, rand_nonce_key@, encrypted_chunk@) == Some(p@),
            Err(e) => {
                &&& plain_of(key@, rand_nonce_key@, encrypted_chunk@) is None
                &&& e == Error::AuthenticationFailure
            },
        },
{
    let cipher = chacha20poly1305::ChaCha20Poly1305::new(chacha20poly1305::Key::from_slice(
        key.as_slice(),
    ));
    let nonce = chacha20poly1305::Nonce::from_slice(rand_nonce_key.as_slice());
    cipher.decrypt(nonce, encrypted_chunk.as_slice()).map_err(|_| Error::AuthenticationFailure)
}

/// One byte's worth of lowercase hex: the digit for a nibble.
pub open spec fn spec_hex_digit(n: u8) -> char
    recommends
        n < 16,
{
    if n == 0 {
        '0'
    } else if n == 1 {
        '1'
    } else if n == 2 {
        '2'
    } else if n == 3 {
        '3'
    } else if n == 4 {
        '4'
    } else if n == 5 {
        '5'
    } else if n == 6 {
        '6'
    } else if n == 7 {
        '7'
    } else if n == 8 {
        '8'
    } else if n == 9 {
        '9'
    } else if n == 10 {
        'a'
    } else if n == 11 {
        'b'
    } else if n == 12 {
        'c'
    } else if n == 13 {
        'd'
    } else if n == 14 {
        'e'
    } else {
        'f'
    }
}

/// Lowercase hex encoding: two digits per byte, high nibble first.
pub open spec fn spec_hex(bytes: Seq<u8>) -> Seq<char> {
    Seq::new(
        bytes.len() * 2,
        |i: int|
            if i % 2 == 0 {
                spec_hex_digit(bytes[i / 2] >> 4)
            } else {
                spec_hex_digit(bytes[i / 2] & 0xf)
            },
    )
}

/// Relies on hex::encode: lowercase hex, two digits per byte, high nibble
/// first.
#[verifier::external_body]
pub fn hex_encode(data: &Vec<u8>) -> (r: String)
    ensures
        r@ == spec_hex(data@),
{
    hex::encode(data.as_slice())
}

/// The output name used when none is given: the hex digest of the original
/// file-name bytes, so the name is deterministic but reveals nothing.
pub fn default_output_name(file_name: &Vec<u8>) -> (r: String)
    ensures
        r@ == spec_hex(digest_of(file_name@)),
        r@.len() == 64,
{
    let digest = hash_bytes(file_name);
    hex_encode(&digest)
}

} // verus!
