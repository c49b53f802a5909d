//! The cryptographic operations of the link.  All of them are done by libsodium.
use vstd::prelude::*;

verus! {

/// Bytes that sealing a fragment adds.
pub const AEAD_TAG_BYTES: usize = 16;
pub const AEAD_KEY_BYTES: usize = 32;
pub const AEAD_NONCE_BYTES: usize = 8;

/// Bytes that sealing a box adds.
pub const BOX_MAC_BYTES: usize = 16;
pub const BOX_NONCE_BYTES: usize = 24;
pub const BOX_KEY_BYTES: usize = 32;
pub const BOX_SEED_BYTES: usize = 32;
pub const HASH_BYTES: usize = 32;
pub const PWHASH_SALT_BYTES: usize = 16;

/// The longest message that is sealed.
pub const MAX_MESSAGE: usize = 65535;

/// What `crypto_aead_chacha20poly1305_encrypt` makes of a message and its additional data.
pub uninterp spec fn aead_sealed(key: Seq<u8>, nonce: Seq<u8>, ad: Seq<u8>, m: Seq<u8>) -> Seq<u8>;

/// What `crypto_aead_chacha20poly1305_decrypt` makes of a sealed message: nothing if it does not
/// verify.
pub uninterp spec fn aead_opened(key: Seq<u8>, nonce: Seq<u8>, ad: Seq<u8>, c: Seq<u8>) -> Option<
    Seq<u8>,
>;

/// What `crypto_generichash` makes of data and a key, with 32 bytes of output.
pub uninterp spec fn keyed_hash(data: Seq<u8>, key: Seq<u8>) -> Seq<u8>;

/// Whether `crypto_scalarmult_curve25519` finds a secret that a public and a secret key share.
pub uninterp spec fn keys_agree(pk: Seq<u8>, sk: Seq<u8>) -> bool;

/// What `crypto_box_easy` makes of a message.
pub uninterp spec fn box_sealed(m: Seq<u8>, nonce: Seq<u8>, pk: Seq<u8>, sk: Seq<u8>) -> Seq<u8>;

/// What `crypto_box_open_easy` makes of a sealed message: nothing if it does not verify.
pub uninterp spec fn box_opened(c: Seq<u8>, nonce: Seq<u8>, pk: Seq<u8>, sk: Seq<u8>) -> Option<
    Seq<u8>,
>;

/// The public key that belongs to a secret key: what `crypto_scalarmult_curve25519_base`, with which
/// libsodium ends the making of every key pair, makes of it.
pub uninterp spec fn box_public_key(sk: Seq<u8>) -> Seq<u8>;

/// The secret key that `crypto_box_seed_keypair` derives from a seed.
pub uninterp spec fn box_seed_secret(seed: Seq<u8>) -> Seq<u8>;

/// The 64 bytes that `crypto_pwhash_argon2i` derives at its interactive limits.
pub uninterp spec fn password_seed(password: Seq<u8>, salt: Seq<u8>) -> Seq<u8>;

/// Encrypts and authenticates `m` with `aead::chacha20poly1305::seal` of sodiumoxide, which calls
/// `crypto_aead_chacha20poly1305_encrypt`.
///
/// Claimed: the result depends on the arguments alone, is sixteen bytes longer than the message,
/// and opens to the message under the same key, nonce and additional data.
#[verifier::external_body]
pub(crate) fn aead_encrypt(key: &[u8], nonce: &[u8], ad: &[u8], m: &[u8]) -> (c: Vec<u8>)
    requires
        key@.len() == AEAD_KEY_BYTES,
        nonce@.len() == AEAD_NONCE_BYTES,
        m@.len() <= MAX_MESSAGE,
    ensures
        c@ == aead_sealed(key@, nonce@, ad@, m@),
        c@.len() == m@.len() + AEAD_TAG_BYTES,
        aead_opened(key@, nonce@, ad@, c@) == Some(m@),
{
    let k = sodiumoxide::crypto::aead::chacha20poly1305::Key::from_slice(key).unwrap();
    let n = sodiumoxide::crypto::aead::chacha20poly1305::Nonce::from_slice(nonce).unwrap();
    sodiumoxide::crypto::aead::chacha20poly1305::seal(m, Some(ad), &n, &k)
}

/// Verifies and decrypts `c` with `aead::chacha20poly1305::open` of sodiumoxide, which calls
/// `crypto_aead_chacha20poly1305_decrypt`.
///
/// Claimed: the result depends on the arguments alone; a plaintext is sixteen bytes shorter than
/// what it was opened from, and nothing shorter than sixteen bytes opens.
#[verifier::external_body]
pub(crate) fn aead_decrypt(key: &[u8], nonce: &[u8], ad: &[u8], c: &[u8]) -> (m: Option<Vec<u8>>)
    requires
        key@.len() == AEAD_KEY_BYTES,
        nonce@.len() == AEAD_NONCE_BYTES,
        c@.len() <= MAX_MESSAGE,
    ensures
        match m {
            Some(p) => aead_opened(key@, nonce@, ad@, c@) == Some(p@) && p@.len() + AEAD_TAG_BYTES
                == c@.len(),
            None => aead_opened(key@, nonce@, ad@, c@) is None,
        },
        c@.len() < AEAD_TAG_BYTES ==> m is None,
{
    let k = sodiumoxide::crypto::aead::chacha20poly1305::Key::from_slice(key).unwrap();
    let n = sodiumoxide::crypto::aead::chacha20poly1305::Nonce::from_slice(nonce).unwrap();
    sodiumoxide::crypto::aead::chacha20poly1305::open(c, Some(ad), &n, &k).ok()
}

/// Hashes `data` under `key` with `generichash::hash` of sodiumoxide, which calls
/// `crypto_generichash`.
///
/// Claimed: with a key of 16 to 64 bytes there is a hash, it depends on the arguments alone, and it
/// has 32 bytes.
#[verifier::external_body]
pub(crate) fn generic_hash(data: &[u8], key: &[u8]) -> (h: Vec<u8>)
    requires
        16 <= key@.len() <= 64,
    ensures
        h@ == keyed_hash(data@, key@),
        h@.len() == HASH_BYTES,
{
    let d = sodiumoxide::crypto::generichash::hash(data, Some(HASH_BYTES), Some(key)).unwrap();
    d.as_ref().to_vec()
}

/// Asks `scalarmult::curve25519::scalarmult` of sodiumoxide, which calls
/// `crypto_scalarmult_curve25519`, whether a public and a secret key share a secret.
///
/// Claimed: the answer depends on the keys alone.
#[verifier::external_body]
pub(crate) fn shared_secret_exists(pk: &[u8], sk: &[u8]) -> (r: bool)
    requires
        pk@.len() == BOX_KEY_BYTES,
        sk@.len() == BOX_KEY_BYTES,
    ensures
        r == keys_agree(pk@, sk@),
{
    let p = sodiumoxide::crypto::scalarmult::curve25519::GroupElement::from_slice(pk).unwrap();
    let s = sodiumoxide::crypto::scalarmult::curve25519::Scalar::from_slice(sk).unwrap();
    sodiumoxide::crypto::scalarmult::curve25519::scalarmult(&s, &p).is_ok()
}

/// Encrypts `m` from the owner of `sk` to the owner of `pk` with
/// `box_::curve25519xsalsa20poly1305::seal` of sodiumoxide, which calls `crypto_box_easy`.
///
/// Claimed: where the keys share a secret, the result depends on the arguments alone, is sixteen
/// bytes longer than the message, and opens to it for the owner of the secret key to `pk`, who
/// names the public key to `sk` as the sender's.
#[verifier::external_body]
pub(crate) fn box_easy(m: &[u8], nonce: &[u8], pk: &[u8], sk: &[u8]) -> (c: Vec<u8>)
    requires
        m@.len() <= MAX_MESSAGE,
        nonce@.len() == BOX_NONCE_BYTES,
        pk@.len() == BOX_KEY_BYTES,
        sk@.len() == BOX_KEY_BYTES,
        keys_agree(pk@, sk@),
    ensures
        c@ == box_sealed(m@, nonce@, pk@, sk@),
        c@.len() == m@.len() + BOX_MAC_BYTES,
        forall|sk2: Seq<u8>|
            sk2.len() == BOX_KEY_BYTES && pk@ == #[trigger] box_public_key(sk2) ==> box_opened(
                c@,
                nonce@,
                box_public_key(sk@),
                sk2,
            ) == Some(m@),
{
    let n = sodiumoxide::crypto::box_::curve25519xsalsa20poly1305::Nonce::from_slice(nonce).unwrap();
    let p = sodiumoxide::crypto::box_::curve25519xsalsa20poly1305::PublicKey::from_slice(pk).unwrap();
    let s = sodiumoxide::crypto::box_::curve25519xsalsa20poly1305::SecretKey::from_slice(sk).unwrap();
    sodiumoxide::crypto::box_::curve25519xsalsa20poly1305::seal(m, &n, &p, &s)
}

/// Verifies and decrypts `c` with `box_::curve25519xsalsa20poly1305::open` of sodiumoxide, which
/// calls `crypto_box_open_easy`.
///
/// Claimed: the result depends on the arguments alone; a plaintext is sixteen bytes shorter than
/// what it was opened from.
#[verifier::external_body]
pub(crate) fn box_open_easy(c: &[u8], nonce: &[u8], pk: &[u8], sk: &[u8]) -> (m: Option<Vec<u8>>)
    requires
        c@.len() <= MAX_MESSAGE,
        nonce@.len() == BOX_NONCE_BYTES,
        pk@.len() == BOX_KEY_BYTES,
        sk@.len() == BOX_KEY_BYTES,
    ensures
        match m {
            Some(p) => box_opened(c@, nonce@, pk@, sk@) == Some(p@) && p@.len() + BOX_MAC_BYTES
                == c@.len(),
            None => box_opened(c@, nonce@, pk@, sk@) is None,
        },
{
    let n = sodiumoxide::crypto::box_::curve25519xsalsa20poly1305::Nonce::from_slice(nonce).unwrap();
    let p = sodiumoxide::crypto::box_::curve25519xsalsa20poly1305::PublicKey::from_slice(pk).unwrap();
    let s = sodiumoxide::crypto::box_::curve25519xsalsa20poly1305::SecretKey::from_slice(sk).unwrap();
    sodiumoxide::crypto::box_::curve25519xsalsa20poly1305::open(c, &n, &p, &s).ok()
}

/// Random bytes from `randombytes::randombytes` of sodiumoxide, which calls `randombytes_buf`.
///
/// Claimed: there are as many as were asked for.  Which ones they are is left to chance.
#[verifier::external_body]
pub(crate) fn random_bytes(size: usize) -> (b: Vec<u8>)
    requires
        size <= MAX_MESSAGE,
    ensures
        b@.len() == size,
{
    sodiumoxide::randombytes::randombytes(size)
}

/// A new public and secret key from `box_::curve25519xsalsa20poly1305::gen_keypair` of sodiumoxide,
/// which calls `crypto_box_keypair`.
///
/// Claimed: both have 32 bytes, and the public key is the one to the secret key.  Which keys they
/// are is left to chance.
#[verifier::external_body]
pub(crate) fn box_keypair() -> (r: (Vec<u8>, Vec<u8>))
    ensures
        r.0@.len() == BOX_KEY_BYTES,
        r.1@.len() == BOX_KEY_BYTES,
        r.0@ == box_public_key(r.1@),
{
    let (pk, sk) = sodiumoxide::crypto::box_::curve25519xsalsa20poly1305::gen_keypair();
    (pk.as_ref().to_vec(), sk.as_ref().to_vec())
}

/// The public and secret key for a seed from `box_::curve25519xsalsa20poly1305::keypair_from_seed`
/// of sodiumoxide, which calls `crypto_box_seed_keypair`.
///
/// Claimed: both have 32 bytes and depend on the seed alone, and the public key is the one to the
/// secret key.
#[verifier::external_body]
pub(crate) fn box_seed_keypair(seed: &[u8]) -> (r: (Vec<u8>, Vec<u8>))
    requires
        seed@.len() == BOX_SEED_BYTES,
    ensures
        r.0@.len() == BOX_KEY_BYTES,
        r.1@.len() == BOX_KEY_BYTES,
        r.1@ == box_seed_secret(seed@),
        r.0@ == box_public_key(r.1@),
{
    let s = sodiumoxide::crypto::box_::curve25519xsalsa20poly1305::Seed::from_slice(seed).unwrap();
    let (pk, sk) = sodiumoxide::crypto::box_::curve25519xsalsa20poly1305::keypair_from_seed(&s);
    (pk.as_ref().to_vec(), sk.as_ref().to_vec())
}

/// 64 bytes derived from a password by `pwhash::argon2i13::derive_key` of sodiumoxide at its
/// interactive limits, which calls `crypto_pwhash_argon2i`.
///
/// Claimed: bytes that come back are 64 and depend on the password and the salt alone.  Nothing
/// comes back where the memory for the computation is not to be had or the password is too long.
#[verifier::external_body]
pub(crate) fn derive_seed(password: &[u8], salt: &[u8]) -> (seed: Option<Vec<u8>>)
    requires
        salt@.len() == PWHASH_SALT_BYTES,
    ensures
        seed matches Some(s) ==> s@ == password_seed(password@, salt@) && s@.len() == 2
            * BOX_SEED_BYTES,
{
    let mut out = vec![0u8; 2 * BOX_SEED_BYTES];
    let s = sodiumoxide::crypto::pwhash::argon2i13::Salt::from_slice(salt).unwrap();
    let ops = sodiumoxide::crypto::pwhash::argon2i13::OPSLIMIT_INTERACTIVE;
    let mem = sodiumoxide::crypto::pwhash::argon2i13::MEMLIMIT_INTERACTIVE;
    sodiumoxide::crypto::pwhash::argon2i13::derive_key(&mut out, password, &s, ops, mem).ok()?;
    Some(out)
}

} // verus!
