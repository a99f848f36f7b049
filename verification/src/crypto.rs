//! The calls into outside crates that the node's logic makes: hashing, hex,
//! secp256k1 keys and signatures, Base58, BIP39, key derivation, wallet
//! encryption, randomness and the clock. Each is a thin wrapper whose
//! contract is trusted; everything built on them is verified.

use vstd::prelude::*;
use vstd::utf8::*;
use sha2::Digest;
use argon2::PasswordHasher;
use aes_gcm::aead::{Aead, KeyInit};
use crate::codec::{hex_lower, hex_decodable, hex_decoded};

verus! {

// ── SHA-256 ────────────────────────────────────────────────────────────────

/// The SHA-256 digest of a byte string.
pub uninterp spec fn sha256_digest(data: Seq<u8>) -> Seq<u8>;

/// `sha2::Sha256::digest`: the digest, which is always 32 bytes long.
#[verifier::external_body]
pub(crate) fn sha256(data: &[u8]) -> (r: Vec<u8>)
    ensures
        r@ == sha256_digest(data@),
        r@.len() == 32,
{
    sha2::Sha256::digest(data).to_vec()
}

// ── hex ────────────────────────────────────────────────────────────────────

/// `hex::encode`: two lowercase hex digits per byte.
#[verifier::external_body]
pub(crate) fn hex_encode(data: &[u8]) -> (r: String)
    ensures
        r@ == hex_lower(data@),
{
    hex::encode(data)
}

/// `hex::decode`: the bytes of an even-length string of hex digits (either
/// case); `None` for any other text.
#[verifier::external_body]
pub(crate) fn hex_decode(s: &str) -> (r: Option<Vec<u8>>)
    ensures
        r is Some <==> hex_decodable(s@),
        r matches Some(v) ==> v@ == hex_decoded(s@),
{
    hex::decode(s).ok()
}

// ── UTF-8 ──────────────────────────────────────────────────────────────────

/// `String::from_utf8`: the text of valid UTF-8, `None` otherwise.
#[verifier::external_body]
pub(crate) fn utf8_to_string(bytes: Vec<u8>) -> (r: Option<String>)
    ensures
        r is Some <==> valid_utf8(bytes@),
        r matches Some(s) ==> s@ == decode_utf8(bytes@),
{
    String::from_utf8(bytes).ok()
}

// ── clock ──────────────────────────────────────────────────────────────────

/// `SystemTime::now` since the Unix epoch, in whole seconds; 0 for a clock
/// that reads before the epoch. Nothing is promised of the value.
#[verifier::external_body]
pub(crate) fn now_secs() -> u64 {
    match std::time::SystemTime::now().duration_since(std::time::UNIX_EPOCH) {
        Ok(d) => d.as_secs(),
        Err(_) => 0,
    }
}

/// `SystemTime::now` since the Unix epoch, in nanoseconds; 0 for a clock
/// that reads before the epoch. Nothing is promised of the value.
#[verifier::external_body]
pub(crate) fn now_nanos() -> u128 {
    match std::time::SystemTime::now().duration_since(std::time::UNIX_EPOCH) {
        Ok(d) => d.as_nanos(),
        Err(_) => 0,
    }
}


// ── randomness ─────────────────────────────────────────────────────────────

/// `rand::random::<u64>()`: a value from the thread's random generator.
/// Nothing is promised of the value.
#[verifier::external_body]
pub(crate) fn random_u64() -> u64 {
    rand::random::<u64>()
}

/// `rand::RngCore::fill_bytes` on the thread RNG: `n` random bytes. Which
/// bytes come out is left open.
#[verifier::external_body]
pub(crate) fn random_bytes(n: usize) -> (r: Vec<u8>)
    ensures
        r@.len() == n,
{
    let mut v = vec![0u8; n];
    rand::RngCore::fill_bytes(&mut rand::thread_rng(), &mut v);
    v
}

// ── Base58 ─────────────────────────────────────────────────────────────────

/// The Base58 text (Bitcoin alphabet) of a byte string.
pub uninterp spec fn base58_text(data: Seq<u8>) -> Seq<char>;

/// The bytes that a Base58 text spells, if it is Base58 text.
pub uninterp spec fn base58_decoded(text: Seq<char>) -> Option<Seq<u8>>;

/// `bs58::encode(data).into_string()`. Decoding the text gives the bytes
/// back: each leading zero byte becomes a `1`, and the rest is the number
/// the bytes spell, written in base 58.
#[verifier::external_body]
pub(crate) fn base58_encode(data: &[u8]) -> (r: String)
    ensures
        r@ == base58_text(data@),
        base58_decoded(r@) == Some(data@),
{
    bs58::encode(data).into_string()
}

/// `bs58::decode(text).into_vec()`: `None` for text that is not Base58.
#[verifier::external_body]
pub(crate) fn base58_decode(text: &str) -> (r: Option<Vec<u8>>)
    ensures
        match base58_decoded(text@) {
            Some(b) => r matches Some(v) && v@ == b,
            None => r is None,
        },
{
    bs58::decode(text).into_vec().ok()
}

// ── BIP39 and PBKDF2 ───────────────────────────────────────────────────────

/// The 64-byte BIP39 seed (empty passphrase) of an English phrase, if the
/// phrase is a valid one.
pub uninterp spec fn bip39_seed(phrase: Seq<char>) -> Option<Seq<u8>>;

/// `Mnemonic::parse_in(Language::English, phrase)` then `to_seed("")`. On
/// a phrase that is not valid, the text of the parse error; which text is
/// left unsaid.
#[verifier::external_body]
pub(crate) fn bip39_phrase_seed(phrase: &str) -> (r: Result<Vec<u8>, String>)
    ensures
        r is Ok <==> bip39_seed(phrase@) is Some,
        r matches Ok(s) ==> bip39_seed(phrase@) == Some(s@) && s@.len() == 64,
{
    match bip39::Mnemonic::parse_in(bip39::Language::English, phrase) {
        Ok(m) => Ok(m.to_seed("").to_vec()),
        Err(e) => Err(e.to_string()),
    }
}

/// The English BIP39 phrase that spells the given entropy.
pub uninterp spec fn bip39_phrase(entropy: Seq<u8>) -> Seq<char>;

/// `Mnemonic::from_entropy_in(Language::English, entropy)` as text, for 16
/// bytes of entropy (a length it always takes): the twelve words, which
/// parse back as a valid phrase.
#[verifier::external_body]
pub(crate) fn bip39_phrase_of(entropy: &[u8]) -> (r: String)
    requires
        entropy@.len() == 16,
    ensures
        r@ == bip39_phrase(entropy@),
        bip39_seed(r@) is Some,
{
    bip39::Mnemonic::from_entropy_in(bip39::Language::English, entropy)
        .expect("16 bytes is a valid entropy length")
        .to_string()
}

/// The 32 bytes of PBKDF2-HMAC-SHA512.
pub uninterp spec fn pbkdf2_sha512_key(password: Seq<u8>, salt: Seq<u8>, rounds: u32) -> Seq<u8>;

/// `pbkdf2_hmac::<Sha512>` into a 32-byte buffer.
#[verifier::external_body]
pub(crate) fn pbkdf2_sha512_32(password: &[u8], salt: &[u8], rounds: u32) -> (r: Vec<u8>)
    ensures
        r@ == pbkdf2_sha512_key(password@, salt@, rounds),
        r@.len() == 32,
{
    let mut out = vec![0u8; 32];
    pbkdf2::pbkdf2_hmac::<sha2::Sha512>(password, salt, rounds, &mut out);
    out
}

// ── Argon2 and AES-GCM ─────────────────────────────────────────────────────

/// The Argon2id key (version 0x13) of a password and salt with the given
/// memory cost in KiB, number of passes, lanes and key length, if the salt
/// and parameters are ones Argon2 takes.
pub uninterp spec fn argon2id_key(
    password: Seq<u8>,
    salt: Seq<u8>,
    m_cost: u32,
    t_cost: u32,
    p_cost: u32,
    out_len: usize,
) -> Option<Seq<u8>>;

/// `SaltString::encode_b64(salt)`, `Params::new(m_cost, t_cost, p_cost,
/// Some(out_len))`, `Argon2::new(Argon2id, V0x13, params).hash_password(password,
/// &salt)` and its hash output, which has the length asked for. On failure,
/// the error's text; which text is left unsaid. A salt of fewer than 3
/// bytes encodes to fewer than 4 Base64 characters, which `hash_password`
/// refuses with a panic; such salts are left out.
#[verifier::external_body]
pub(crate) fn argon2id_derive(
    password: &[u8],
    salt: &[u8],
    m_cost: u32,
    t_cost: u32,
    p_cost: u32,
    out_len: usize,
) -> (r: Result<Vec<u8>, String>)
    requires
        salt@.len() >= 3,
    ensures
        r is Ok <==> argon2id_key(password@, salt@, m_cost, t_cost, p_cost, out_len) is Some,
        r matches Ok(k) ==> argon2id_key(password@, salt@, m_cost, t_cost, p_cost, out_len) == Some(k@)
            && k@.len() == out_len,
{
    let salt_string = argon2::password_hash::SaltString::encode_b64(salt)
        .map_err(|e| format!("Salt encoding failed: {}", e))?;
    let params = argon2::Params::new(m_cost, t_cost, p_cost, Some(out_len))
        .map_err(|e| format!("Argon2 params error: {}", e))?;
    let hasher = argon2::Argon2::new(argon2::Algorithm::Argon2id, argon2::Version::V0x13, params);
    let hash = hasher.hash_password(password, &salt_string)
        .map_err(|e| format!("Argon2 hashing failed: {}", e))?;
    Ok(hash.hash.ok_or("Argon2 produced no hash output".to_string())?.as_bytes().to_vec())
}

/// The AES-256-GCM ciphertext (tag appended) of a plaintext, if it can be
/// sealed.
pub uninterp spec fn aes_gcm_sealed(key: Seq<u8>, nonce: Seq<u8>, plaintext: Seq<u8>) -> Option<Seq<u8>>;

/// The plaintext of an AES-256-GCM ciphertext, if its tag checks out.
pub uninterp spec fn aes_gcm_opened(key: Seq<u8>, nonce: Seq<u8>, ciphertext: Seq<u8>) -> Option<Seq<u8>>;

/// `Aes256Gcm::new(key).encrypt(nonce, plaintext)`. Opening what it seals
/// with the same key and nonce gives the plaintext back.
#[verifier::external_body]
pub(crate) fn aes256gcm_encrypt(key: &[u8], nonce: &[u8], plaintext: &[u8]) -> (r: Result<Vec<u8>, String>)
    requires
        key@.len() == 32,
        nonce@.len() == 12,
    ensures
        r is Ok <==> aes_gcm_sealed(key@, nonce@, plaintext@) is Some,
        r matches Ok(c) ==> aes_gcm_sealed(key@, nonce@, plaintext@) == Some(c@) && aes_gcm_opened(
            key@,
            nonce@,
            c@,
        ) == Some(plaintext@),
{
    let cipher = aes_gcm::Aes256Gcm::new(aes_gcm::Key::<aes_gcm::Aes256Gcm>::from_slice(key));
    cipher.encrypt(aes_gcm::Nonce::from_slice(nonce), plaintext)
        .map_err(|e| format!("Encryption failed: {}", e))
}

/// `Aes256Gcm::new(key).decrypt(nonce, ciphertext)`: `None` when the tag
/// does not check out.
#[verifier::external_body]
pub(crate) fn aes256gcm_decrypt(key: &[u8], nonce: &[u8], ciphertext: &[u8]) -> (r: Option<Vec<u8>>)
    requires
        key@.len() == 32,
        nonce@.len() == 12,
    ensures
        match aes_gcm_opened(key@, nonce@, ciphertext@) {
            Some(p) => r matches Some(v) && v@ == p,
            None => r is None,
        },
{
    let cipher = aes_gcm::Aes256Gcm::new(aes_gcm::Key::<aes_gcm::Aes256Gcm>::from_slice(key));
    cipher.decrypt(aes_gcm::Nonce::from_slice(nonce), ciphertext).ok()
}

// ── secp256k1 ──────────────────────────────────────────────────────────────

/// The order of the secp256k1 group.
pub open spec fn secp256k1_order() -> int {
    0xFFFFFFFFFFFFFFFFFFFFFFFFFFFFFFFEBAAEDCE6AF48A03BBFD25E8CD0364141int
}

/// The number that a byte string spells, most significant byte first.
pub open spec fn be_value(bytes: Seq<u8>) -> int
    decreases bytes.len(),
{
    if bytes.len() == 0 {
        0
    } else {
        be_value(bytes.drop_last()) * 256 + bytes.last()
    }
}

/// A 32-byte string that is a secp256k1 secret key: nonzero and below the
/// group order.
pub open spec fn secret_key_valid(secret: Seq<u8>) -> bool {
    secret.len() == 32 && 0 < be_value(secret) < secp256k1_order()
}

/// The compressed (33-byte) public key of a secret key.
pub uninterp spec fn secp_public_key(secret: Seq<u8>) -> Seq<u8>;

/// The DER-encoded ECDSA signature (RFC 6979 nonce) of a 32-byte digest.
pub uninterp spec fn ecdsa_signature(secret: Seq<u8>, digest: Seq<u8>) -> Seq<u8>;

/// Whether `pubkey` parses as a public key, `signature` parses as a DER
/// signature, and the signature verifies for `digest` under that key.
pub uninterp spec fn ecdsa_accepts(digest: Seq<u8>, signature: Seq<u8>, pubkey: Seq<u8>) -> bool;

/// `Secp256k1::generate_keypair` with the thread RNG: a random valid secret
/// key and its compressed public key. Which key comes out is left open.
#[verifier::external_body]
pub(crate) fn secp_generate_keypair() -> (r: (Vec<u8>, Vec<u8>))
    ensures
        secret_key_valid(r.0@),
        r.1@ == secp_public_key(r.0@),
        r.1@.len() == 33,
{
    let secp = secp256k1::Secp256k1::new();
    let (sk, pk) = secp.generate_keypair(&mut rand::thread_rng());
    (sk.secret_bytes().to_vec(), pk.serialize().to_vec())
}

/// `SecretKey::from_slice` then `PublicKey::from_secret_key`: the compressed
/// public key of a valid secret key, `None` for bytes that are not one.
#[verifier::external_body]
pub(crate) fn secp_public_key_of(secret: &[u8]) -> (r: Option<Vec<u8>>)
    ensures
        r is Some <==> secret_key_valid(secret@),
        r matches Some(p) ==> p@ == secp_public_key(secret@) && p@.len() == 33,
{
    match secp256k1::SecretKey::from_slice(secret) {
        Ok(sk) => {
            let secp = secp256k1::Secp256k1::new();
            Some(secp256k1::PublicKey::from_secret_key(&secp, &sk).serialize().to_vec())
        },
        Err(_) => None,
    }
}

/// `Secp256k1::sign_ecdsa` of a 32-byte digest, DER-serialized. The
/// signature is deterministic, never empty, and verifies under the key's
/// public key.
#[verifier::external_body]
pub(crate) fn ecdsa_sign(secret: &[u8], digest: &[u8]) -> (r: Vec<u8>)
    requires
        secret_key_valid(secret@),
        digest@.len() == 32,
    ensures
        r@ == ecdsa_signature(secret@, digest@),
        r@.len() > 0,
        ecdsa_accepts(digest@, r@, secp_public_key(secret@)),
{
    let sk = secp256k1::SecretKey::from_slice(secret).unwrap();
    let msg = secp256k1::Message::from_digest_slice(digest).unwrap();
    secp256k1::Secp256k1::new().sign_ecdsa(&msg, &sk).serialize_der().to_vec()
}

/// `PublicKey::from_slice`, `Signature::from_der` and
/// `Secp256k1::verify_ecdsa`: whether the signature checks out.
#[verifier::external_body]
pub(crate) fn ecdsa_verify(digest: &[u8], signature: &[u8], pubkey: &[u8]) -> (r: bool)
    requires
        digest@.len() == 32,
    ensures
        r == ecdsa_accepts(digest@, signature@, pubkey@),
{
    let msg = secp256k1::Message::from_digest_slice(digest).unwrap();
    let pk = match secp256k1::PublicKey::from_slice(pubkey) {
        Ok(k) => k,
        Err(_) => return false,
    };
    let sig = match secp256k1::ecdsa::Signature::from_der(signature) {
        Ok(s) => s,
        Err(_) => return false,
    };
    secp256k1::Secp256k1::new().verify_ecdsa(&msg, &sig, &pk).is_ok()
}

} // verus!
