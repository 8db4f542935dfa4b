//! Ascon-AEAD128 (NIST SP 800-232) keyed with QPP-RNG output: the
//! generator supplies keys and nonces, and the standard construction from
//! `ascon-aead128` encrypts and authenticates.

use crate::rng_core::QppRngSource;
use ascon_aead128::aead::{AeadInOut, KeyInit};
use vstd::prelude::*;

verus! {

/// Ascon-AEAD128 key size in bytes.
pub const KEY_SIZE: usize = 16;

/// Ascon-AEAD128 nonce size in bytes.
pub const NONCE_SIZE: usize = 16;

/// Ascon-AEAD128 authentication tag size in bytes.
pub const TAG_SIZE: usize = 16;

/// Raw 128-bit Ascon key.
pub type KeyBytes = [u8; KEY_SIZE];

/// Raw 128-bit Ascon nonce.
pub type NonceBytes = [u8; NONCE_SIZE];

/// Raw 128-bit authentication tag.
pub type TagBytes = [u8; TAG_SIZE];

/// Failure of an Ascon operation: the message and associated data are
/// too long together, or a tag did not authenticate.
#[derive(Debug, Clone, Copy, PartialEq, Eq)]
pub struct AsconError;

/// Result of an Ascon operation.
pub type CryptoResult<T> = Result<T, AsconError>;

#[verifier::external_type_specification]
#[verifier::external_body]
pub struct ExAeadError(ascon_aead128::Error);

/// The Ascon-AEAD128 encryption of `plaintext` under `key` and `nonce`,
/// authenticating `associated_data` too: the ciphertext (as long as the
/// plaintext) and the 16-byte tag, as `ascon-aead128` computes them.
pub uninterp spec fn ascon_aead128_encrypt(
    key: Seq<u8>,
    nonce: Seq<u8>,
    associated_data: Seq<u8>,
    plaintext: Seq<u8>,
) -> (Seq<u8>, Seq<u8>);

/// Whether a message and associated data of these lengths are too long
/// together: their total length in bytes does not fit in 64 bits.
pub open spec fn too_long(buffer_len: nat, associated_data_len: nat) -> bool {
    buffer_len + associated_data_len > u64::MAX
}

/// Calls `AsconAead128::encrypt_inout_detached` with a cipher made from
/// `key`. The buffer keeps its length: the ciphertext replaces the
/// plaintext byte for byte. It refuses, and leaves the buffer alone,
/// exactly when the buffer and associated data are too long together;
/// otherwise it replaces the plaintext in `buffer` by the ciphertext and
/// returns the tag, as
/// `ascon_aead128_encrypt` names them. In Ascon's duplex construction the
/// ciphertext determines the plaintext under a fixed key, nonce and
/// associated data, which the last clause records.
#[verifier::external_body]
fn ascon_encrypt_detached(
    key: &KeyBytes,
    nonce: &NonceBytes,
    associated_data: &[u8],
    buffer: &mut [u8],
) -> (r: Result<TagBytes, ascon_aead128::Error>)
    ensures
        final(buffer)@.len() == old(buffer)@.len(),
        r is Err <==> too_long(old(buffer)@.len(), associated_data@.len()),
        r is Err ==> final(buffer)@ == old(buffer)@,
        r matches Ok(tag) ==> (final(buffer)@, tag@) == ascon_aead128_encrypt(
            key@,
            nonce@,
            associated_data@,
            old(buffer)@,
        ),
        r is Ok ==> forall|p: Seq<u8>|
            #[trigger] ascon_aead128_encrypt(key@, nonce@, associated_data@, p).0 == final(buffer)@ ==> p == old(buffer)@,
{
    let cipher = ascon_aead128::AsconAead128::new(&(*key).into());
    let tag = cipher.encrypt_inout_detached(&(*nonce).into(), associated_data, buffer.into())?;
    Ok(tag.into())
}

/// Calls `AsconAead128::decrypt_inout_detached` with a cipher made from
/// `key`. It refuses, and leaves the buffer alone, when the buffer and
/// associated data are too long together. Otherwise it decrypts in place
/// and succeeds exactly when the ciphertext and tag are the encryption of
/// the plaintext it recovered; on a mismatch it zeroes the buffer.
#[verifier::external_body]
fn ascon_decrypt_detached(
    key: &KeyBytes,
    nonce: &NonceBytes,
    associated_data: &[u8],
    buffer: &mut [u8],
    tag: &TagBytes,
) -> (r: Result<(), ascon_aead128::Error>)
    ensures
        final(buffer)@.len() == old(buffer)@.len(),
        too_long(old(buffer)@.len(), associated_data@.len()) ==> r is Err && final(buffer)@ == old(buffer)@,
        r is Ok ==> ascon_aead128_encrypt(key@, nonce@, associated_data@, final(buffer)@) == (
            old(buffer)@,
            tag@,
        ),
        forall|p: Seq<u8>|
            #[trigger] ascon_aead128_encrypt(key@, nonce@, associated_data@, p) == (
                old(buffer)@,
                tag@,
            ) && !too_long(old(buffer)@.len(), associated_data@.len()) ==> r is Ok
                && final(buffer)@ == p,
        r is Err && !too_long(old(buffer)@.len(), associated_data@.len()) ==> final(buffer)@
            == Seq::new(old(buffer)@.len(), |i: int| 0u8),
{
    let cipher = ascon_aead128::AsconAead128::new(&(*key).into());
    cipher.decrypt_inout_detached(&(*nonce).into(), associated_data, buffer.into(), &(*tag).into())
}

/// The standard NIST SP 800-232 Ascon-AEAD128 construction under one
/// 128-bit key.
pub struct BaselineAsconAead128 {
    key: KeyBytes,
}

impl BaselineAsconAead128 {
    /// The key.
    pub closed spec fn key(self) -> Seq<u8> {
        self.key@
    }

    /// An Ascon-AEAD128 instance under `key`.
    pub fn new(key: &KeyBytes) -> (r: Self)
        ensures
            r.key() == key@,
    {
        BaselineAsconAead128 { key: *key }
    }

    /// Encrypts `buffer` in place and returns the authentication tag;
    /// `associated_data` is authenticated but not encrypted. Fails,
    /// leaving the buffer alone, exactly when the buffer and associated
    /// data are too long together.
    pub fn encrypt_in_place(
        &self,
        nonce: &NonceBytes,
        associated_data: &[u8],
        buffer: &mut [u8],
    ) -> (r: CryptoResult<TagBytes>)
        ensures
            final(buffer)@.len() == old(buffer)@.len(),
            r is Err <==> too_long(old(buffer)@.len(), associated_data@.len()),
            r is Err ==> final(buffer)@ == old(buffer)@,
            r matches Ok(tag) ==> (final(buffer)@, tag@) == ascon_aead128_encrypt(
                self.key(),
                nonce@,
                associated_data@,
                old(buffer)@,
            ),
            r is Ok ==> forall|p: Seq<u8>|
                #[trigger] ascon_aead128_encrypt(self.key(), nonce@, associated_data@, p).0
                    == final(buffer)@ ==> p == old(buffer)@,
    {
        match ascon_encrypt_detached(&self.key, nonce, associated_data, buffer) {
            Ok(tag) => Ok(tag),
            Err(_) => Err(AsconError),
        }
    }

    /// Authenticates and decrypts `buffer` in place. Succeeds exactly when
    /// the ciphertext and `tag` are the encryption, under this key, `nonce`
    /// and `associated_data`, of the plaintext left in the buffer; on an
    /// authentication failure the buffer is zeroed.
    pub fn decrypt_in_place(
        &self,
        nonce: &NonceBytes,
        associated_data: &[u8],
        buffer: &mut [u8],
        tag: &TagBytes,
    ) -> (r: CryptoResult<()>)
        ensures
            final(buffer)@.len() == old(buffer)@.len(),
            too_long(old(buffer)@.len(), associated_data@.len()) ==> r is Err && final(buffer)@
                == old(buffer)@,
            r is Ok ==> ascon_aead128_encrypt(self.key(), nonce@, associated_data@, final(buffer)@)
                == (old(buffer)@, tag@),
            forall|p: Seq<u8>|
                #[trigger] ascon_aead128_encrypt(self.key(), nonce@, associated_data@, p) == (
                    old(buffer)@,
                    tag@,
                ) && !too_long(old(buffer)@.len(), associated_data@.len()) ==> r is Ok
                    && final(buffer)@ == p,
            r is Err && !too_long(old(buffer)@.len(), associated_data@.len()) ==> final(buffer)@
                == Seq::new(old(buffer)@.len(), |i: int| 0u8),
    {
        match ascon_decrypt_detached(&self.key, nonce, associated_data, buffer, tag) {
            Ok(()) => Ok(()),
            Err(_) => Err(AsconError),
        }
    }
}

/// Only the tag that encryption produced authenticates: given what
/// `encrypt_in_place` guarantees of ciphertext `ciphertext` and tag `tag`
/// for `plaintext`, and what a successful `decrypt_in_place` of that
/// ciphertext with tag `other_tag` guarantees of the plaintext
/// `recovered` it left, the tags are the same and so are the plaintexts.
/// A modified tag is therefore rejected.
pub proof fn lemma_only_the_encrypted_tag_authenticates(
    key: Seq<u8>,
    nonce: Seq<u8>,
    associated_data: Seq<u8>,
    plaintext: Seq<u8>,
    ciphertext: Seq<u8>,
    tag: Seq<u8>,
    other_tag: Seq<u8>,
    recovered: Seq<u8>,
)
    requires
        (ciphertext, tag) == ascon_aead128_encrypt(key, nonce, associated_data, plaintext),
        forall|p: Seq<u8>|
            #[trigger] ascon_aead128_encrypt(key, nonce, associated_data, p).0 == ciphertext
                ==> p == plaintext,
        ascon_aead128_encrypt(key, nonce, associated_data, recovered) == (ciphertext, other_tag),
    ensures
        other_tag == tag,
        recovered == plaintext,
{
    assert(ascon_aead128_encrypt(key, nonce, associated_data, recovered).0 == ciphertext);
}

/// Round trip: a ciphertext and tag that encryption produced for
/// `plaintext` (as long as it, from a successful `encrypt_in_place`) are
/// not too long for decryption, and they are the encryption of
/// `plaintext`; so `decrypt_in_place` of that ciphertext with that tag
/// succeeds and leaves `plaintext` in the buffer.
pub proof fn lemma_decrypt_after_encrypt(
    key: Seq<u8>,
    nonce: Seq<u8>,
    associated_data: Seq<u8>,
    plaintext: Seq<u8>,
    ciphertext: Seq<u8>,
    tag: Seq<u8>,
)
    requires
        (ciphertext, tag) == ascon_aead128_encrypt(key, nonce, associated_data, plaintext),
        ciphertext.len() == plaintext.len(),
        !too_long(plaintext.len(), associated_data.len()),
    ensures
        !too_long(ciphertext.len(), associated_data.len()),
        ascon_aead128_encrypt(key, nonce, associated_data, plaintext) == (ciphertext, tag),
{
}

/// Fills a fresh 16-byte array with output of `rng`.
fn draw_block<R: QppRngSource>(rng: &mut R) -> (r: [u8; 16])
    requires
        old(rng).well_formed(),
    ensures
        final(rng).well_formed(),
        old(rng).produced(final(rng), r@),
{
    let mut block = [0u8; 16];
    rng.fill_bytes(&mut block);
    block
}

/// Generates a 128-bit Ascon key from the next 16 output bytes of `rng`.
pub fn generate_key<R: QppRngSource>(rng: &mut R) -> (key: KeyBytes)
    requires
        old(rng).well_formed(),
    ensures
        final(rng).well_formed(),
        old(rng).produced(final(rng), key@),
{
    draw_block(rng)
}

/// Generates a 128-bit nonce from the next 16 output bytes of `rng`. A
/// nonce must never repeat under one key; drawing it at random gives no
/// such guarantee across device resets.
pub fn generate_random_nonce<R: QppRngSource>(rng: &mut R) -> (nonce: NonceBytes)
    requires
        old(rng).well_formed(),
    ensures
        final(rng).well_formed(),
        old(rng).produced(final(rng), nonce@),
{
    draw_block(rng)
}

} // verus!
