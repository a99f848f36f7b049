//! Wallets: a secp256k1 key pair, optionally the BIP39 phrase it was derived
//! from, and the address (hex of the double SHA-256 of the public key).

use vstd::prelude::*;
use vstd::string::StrSliceExecFns;
use vstd::utf8::{decode_utf8, encode_utf8, valid_utf8};
use crate::codec::{
    bytes_eq, decimal_text, hex_decodable, hex_decoded, hex_lower, lemma_decimal_text_utf8,
    lemma_encode_utf8_concat, push_decimal, push_text, text_of_utf8,
};
use crate::config::opt_text;
use crate::crypto::{
    aes256gcm_decrypt, aes256gcm_encrypt, aes_gcm_opened, aes_gcm_sealed, argon2id_derive,
    argon2id_key, base58_decode, base58_decoded, base58_encode, base58_text, bip39_phrase_seed,
    bip39_phrase, bip39_phrase_of, random_bytes,
    bip39_seed, ecdsa_sign, ecdsa_signature, hex_decode, hex_encode, pbkdf2_sha512_32,
    pbkdf2_sha512_key, secp_generate_keypair, secp_public_key, secp_public_key_of, secret_key_valid,
    sha256, sha256_digest,
};

verus! {

#[derive(Debug, Clone)]
pub struct Wallet {
    pub private_key: Vec<u8>,
    pub public_key: Vec<u8>,
    pub mnemonic: Option<String>,
}

/// The public-key hash that outputs are locked to: SHA-256 applied twice.
pub open spec fn pub_key_hash_of(public_key: Seq<u8>) -> Seq<u8> {
    sha256_digest(sha256_digest(public_key))
}

/// The signature that `Wallet::sign` makes over a message: the message is
/// hashed with SHA-256 and the digest is signed.
pub open spec fn message_signature(secret: Seq<u8>, msg: Seq<u8>) -> Seq<u8> {
    ecdsa_signature(secret, sha256_digest(msg))
}

/// The WIF version byte: `0xef` on testnet, `0x80` on mainnet.
pub open spec fn wif_prefix(testnet: bool) -> u8 {
    if testnet {
        0xef
    } else {
        0x80
    }
}

/// The WIF payload of a secret: the version byte, the secret, and `0x01`
/// for a compressed key.
pub open spec fn wif_payload(secret: Seq<u8>, testnet: bool) -> Seq<u8> {
    seq![wif_prefix(testnet)] + secret + seq![1u8]
}

/// The WIF checksum: the first four bytes of SHA-256 applied twice.
pub open spec fn wif_checksum_of(payload: Seq<u8>) -> Seq<u8> {
    sha256_digest(sha256_digest(payload)).take(4)
}

/// The bytes that a WIF text encodes: the payload and its checksum.
pub open spec fn wif_bytes(secret: Seq<u8>, testnet: bool) -> Seq<u8> {
    wif_payload(secret, testnet) + wif_checksum_of(wif_payload(secret, testnet))
}

/// The secret that a WIF text holds for the given network, or why it holds
/// none.
pub open spec fn wif_secret(text: Seq<char>, testnet: bool) -> Result<Seq<u8>, Seq<char>> {
    match base58_decoded(text) {
        None => Err("Invalid Base58 encoding"@),
        Some(d) => if d.len() != 38 {
            Err("Invalid WIF length: "@ + decimal_text(d.len()) + " (expected 38)"@)
        } else if d[0] != wif_prefix(testnet) {
            Err("Invalid WIF prefix: 0x"@ + hex_lower(seq![d[0]]))
        } else if d[33] != 1 {
            Err("Only compressed keys supported"@)
        } else if d.subrange(34, 38) != wif_checksum_of(d.take(34)) {
            Err("Invalid WIF checksum"@)
        } else {
            Ok(d.subrange(1, 33))
        },
    }
}

/// The message for bytes that are not a secret key.
pub open spec fn invalid_key_text() -> Seq<char> {
    "Invalid private key: malformed or out-of-range secret key"@
}

/// The JSON text a wallet is exported as.
pub open spec fn wallet_json_text(
    private_key: Seq<u8>,
    public_key: Seq<u8>,
    mnemonic: Seq<char>,
) -> Seq<char> {
    "{\n  \"version\": 1,\n  \"private_key\": \""@ + hex_lower(private_key)
        + "\",\n  \"public_key\": \""@ + hex_lower(public_key) + "\",\n  \"address\": \""@
        + hex_lower(pub_key_hash_of(public_key)) + "\",\n  \"mnemonic\": \""@ + mnemonic
        + "\"\n}"@
}

/// The text of an optional phrase, empty when there is none.
pub open spec fn phrase_or_empty(m: Option<Seq<char>>) -> Seq<char> {
    match m {
        Some(t) => t,
        None => Seq::empty(),
    }
}

/// An empty phrase counts as none.
pub open spec fn non_empty_phrase(m: Option<Seq<char>>) -> Option<Seq<char>> {
    match m {
        Some(t) => if t.len() > 0 {
            Some(t)
        } else {
            None
        },
        None => None,
    }
}

/// The salt that a phrase's seed is stretched with.
pub open spec fn phrase_salt() -> Seq<u8> {
    encode_utf8("austro-wallet-v1"@)
}

/// The secret key a valid phrase derives: its BIP39 seed stretched with
/// PBKDF2-HMAC-SHA512, 2048 rounds.
pub open spec fn phrase_secret(seed: Seq<u8>) -> Seq<u8> {
    pbkdf2_sha512_key(seed, phrase_salt(), 2048)
}

/// A WIF text that spells the bytes of `secret` for the network gives the
/// secret back.
pub proof fn law_wif_roundtrip(secret: Seq<u8>, testnet: bool, text: Seq<char>)
    requires
        secret.len() == 32,
        base58_decoded(text) == Some(wif_bytes(secret, testnet)),
        wif_bytes(secret, testnet).len() == 38,
    ensures
        wif_secret(text, testnet) == Ok::<Seq<u8>, Seq<char>>(secret),
{
    let d = wif_bytes(secret, testnet);
    let p = wif_payload(secret, testnet);
    assert(d.take(34) =~= p);
    assert(d.subrange(34, 38) =~= wif_checksum_of(p));
    assert(d.subrange(1, 33) =~= secret);
    assert(d[33] == 1u8);
}

/// The fields that a wallet's JSON text carries, its secret key in hex and
/// its phrase, give the same secret key and phrase back when read, for any
/// wallet whose phrase is not empty text.
pub proof fn law_json_fields_roundtrip(w: Wallet)
    requires
        w.wf(),
        w.mnemonic_view() != Some(Seq::<char>::empty()),
    ensures
        hex_decodable(hex_lower(w.private_key@)),
        hex_decoded(hex_lower(w.private_key@)) == w.private_key@,
        secret_key_valid(hex_decoded(hex_lower(w.private_key@))),
        non_empty_phrase(Some(phrase_or_empty(w.mnemonic_view()))) == w.mnemonic_view(),
{
    crate::codec::lemma_hex_roundtrip(w.private_key@);
    if let Some(t) = w.mnemonic_view() {
        if t.len() == 0 {
            assert(t =~= Seq::<char>::empty());
        }
    }
}

/// A WIF text made for one network is refused on the other.
pub proof fn law_wif_network_checked(secret: Seq<u8>, testnet: bool, text: Seq<char>)
    requires
        secret.len() == 32,
        base58_decoded(text) == Some(wif_bytes(secret, testnet)),
        wif_bytes(secret, testnet).len() == 38,
    ensures
        wif_secret(text, !testnet) is Err,
{
    let d = wif_bytes(secret, testnet);
    assert(d[0] == wif_prefix(testnet));
}

/// A wallet sealed under a password, as stored on disk.
#[derive(Debug)]
pub struct EncryptedWalletFile {
    pub version: u32,
    pub salt: String,
    pub nonce: String,
    pub ciphertext: String,
    pub address: String,
}

pub struct FileView {
    pub version: u32,
    pub salt: Seq<char>,
    pub nonce: Seq<char>,
    pub ciphertext: Seq<char>,
    pub address: Seq<char>,
}

impl View for EncryptedWalletFile {
    type V = FileView;

    open spec fn view(&self) -> FileView {
        FileView {
            version: self.version,
            salt: self.salt@,
            nonce: self.nonce@,
            ciphertext: self.ciphertext@,
            address: self.address@,
        }
    }
}

/// The text sealed in a wallet file: the secret key in hex, a colon, and
/// the phrase (empty when there is none).
pub open spec fn sealed_text(secret: Seq<u8>, phrase: Seq<char>) -> Seq<char> {
    hex_lower(secret) + ":"@ + phrase
}

/// The Argon2id memory cost, in KiB, that wallets are sealed with.
pub const SEAL_M_COST: u32 = 65536;

/// The Argon2id passes that wallets are sealed with.
pub const SEAL_T_COST: u32 = 3;

/// The Argon2id lanes that wallets are sealed with.
pub const SEAL_P_COST: u32 = 1;

/// The length of the sealing key: an AES-256 key.
pub const SEAL_KEY_LEN: usize = 32;

/// The key that sealing derives from a password and salt.
pub open spec fn seal_key(password: Seq<u8>, salt: Seq<u8>) -> Option<Seq<u8>> {
    argon2id_key(password, salt, SEAL_M_COST, SEAL_T_COST, SEAL_P_COST, SEAL_KEY_LEN)
}

/// Whether `f` seals `secret` and `phrase` under `password`: a 32-byte salt
/// and 12-byte nonce, written in hex, the Argon2id key of the password with
/// that salt, and the AES-GCM sealing of the text with that key and nonce,
/// written in hex.
pub open spec fn seals(f: FileView, secret: Seq<u8>, phrase: Seq<char>, password: Seq<char>) -> bool {
    exists|salt: Seq<u8>, nonce: Seq<u8>, key: Seq<u8>, ct: Seq<u8>|
        #![trigger hex_lower(salt), hex_lower(nonce), hex_lower(ct), aes_gcm_opened(key, nonce, ct)]
        {
            &&& salt.len() == 32
            &&& nonce.len() == 12
            &&& f.salt == hex_lower(salt)
            &&& f.nonce == hex_lower(nonce)
            &&& f.ciphertext == hex_lower(ct)
            &&& seal_key(encode_utf8(password), salt) == Some(key)
            &&& key.len() == 32
            &&& aes_gcm_sealed(key, nonce, encode_utf8(sealed_text(secret, phrase))) == Some(ct)
            &&& aes_gcm_opened(key, nonce, ct) == Some(encode_utf8(sealed_text(secret, phrase)))
        }
}

/// What sealing `text` under `password` gives with the salt and nonce that
/// were drawn: a refusal where the key derivation or the sealing fails,
/// otherwise a version-3 file holding the salt, nonce and ciphertext in hex
/// and the address.
pub open spec fn encrypt_result(
    r: Result<EncryptedWalletFile, String>,
    password: Seq<char>,
    text: Seq<char>,
    address: Seq<char>,
    salt: Seq<u8>,
    nonce: Seq<u8>,
) -> bool {
    match seal_key(encode_utf8(password), salt) {
        None => r is Err,
        Some(key) => match aes_gcm_sealed(key, nonce, encode_utf8(text)) {
            None => r is Err,
            Some(ct) => r matches Ok(f) && f.version == 3 && f.salt@ == hex_lower(salt) && f.nonce@
                == hex_lower(nonce) && f.ciphertext@ == hex_lower(ct) && f.address@ == address,
        },
    }
}

/// The position of the first colon, or the length when there is none.
pub open spec fn first_colon(c: Seq<char>) -> int
    decreases c.len(),
{
    if c.len() == 0 || c[0] == ':' {
        0
    } else {
        1 + first_colon(c.drop_first())
    }
}

/// The text before the first colon.
pub open spec fn key_part(c: Seq<char>) -> Seq<char> {
    c.take(first_colon(c))
}

/// The text after the first colon, empty when there is none.
pub open spec fn phrase_part(c: Seq<char>) -> Seq<char> {
    if first_colon(c) < c.len() {
        c.skip(first_colon(c) + 1)
    } else {
        Seq::empty()
    }
}

/// The message for a file of another version.
pub open spec fn version_text(version: u32) -> Seq<char> {
    "Unsupported wallet file version: "@ + decimal_text(version as nat)
        + ". Re-save your wallet with 'savewallet' to upgrade."@
}

/// Whether decrypting `f` gets as far as the key derivation: version 3 and
/// every field in hex.
pub open spec fn reaches_kdf(f: FileView) -> bool {
    &&& f.version == 3
    &&& hex_decodable(f.salt)
    &&& hex_decodable(f.nonce)
    &&& hex_decodable(f.ciphertext)
}

/// Whether decrypting `f` would stop without an answer: a salt too short for
/// Argon2, or, once the key is derived, a nonce that is not 12 bytes.
pub open spec fn decrypt_stops(f: FileView, password: Seq<char>) -> bool {
    reaches_kdf(f) && (hex_decoded(f.salt).len() < 3 || (reaches_nonce(f, password)
        && hex_decoded(f.nonce).len() != 12))
}

/// Whether decrypting `f` reaches the nonce: the version is known, every
/// field is hex and the salt gives a key.
pub open spec fn reaches_nonce(f: FileView, password: Seq<char>) -> bool {
    &&& f.version == 3
    &&& hex_decodable(f.salt)
    &&& hex_decodable(f.nonce)
    &&& hex_decodable(f.ciphertext)
    &&& seal_key(encode_utf8(password), hex_decoded(f.salt)) is Some
}

/// What decrypting `f` with `password` gives: the secret key and phrase, or
/// the message of the first check that fails (`None` where the key
/// derivation's own message is passed on).
pub open spec fn decrypt_outcome(f: FileView, password: Seq<char>) -> Result<
    (Seq<u8>, Option<Seq<char>>),
    Option<Seq<char>>,
> {
    if f.version != 3 {
        Err(Some(version_text(f.version)))
    } else if !hex_decodable(f.salt) {
        Err(Some("Invalid salt"@))
    } else if !hex_decodable(f.nonce) {
        Err(Some("Invalid nonce"@))
    } else if !hex_decodable(f.ciphertext) {
        Err(Some("Invalid ciphertext"@))
    } else {
        match seal_key(encode_utf8(password), hex_decoded(f.salt)) {
            None => Err(None),
            Some(key) => match aes_gcm_opened(key, hex_decoded(f.nonce), hex_decoded(f.ciphertext)) {
                None => Err(Some("Wrong password or corrupted file"@)),
                Some(p) => if !valid_utf8(p) {
                    Err(Some("Invalid decrypted content"@))
                } else {
                    let c = decode_utf8(p);
                    if !hex_decodable(key_part(c)) {
                        Err(Some("Invalid private key hex"@))
                    } else if !secret_key_valid(hex_decoded(key_part(c))) {
                        Err(Some(invalid_key_text()))
                    } else {
                        Ok((hex_decoded(key_part(c)), non_empty_phrase(Some(phrase_part(c)))))
                    }
                },
            },
        }
    }
}

proof fn lemma_first_colon(c: Seq<char>, i: int)
    requires
        0 <= i <= c.len(),
        forall|j: int| 0 <= j < i ==> c[j] != ':',
        i == c.len() || c[i] == ':',
    ensures
        first_colon(c) == i,
    decreases i,
{
    if i > 0 {
        let t = c.drop_first();
        assert forall|j: int| 0 <= j < i - 1 implies t[j] != ':' by {
            assert(t[j] == c[j + 1]);
        }
        if i < c.len() {
            assert(t[i - 1] == c[i]);
        }
        lemma_first_colon(t, i - 1);
    }
}

proof fn lemma_hex_has_no_colon(bytes: Seq<u8>)
    ensures
        forall|j: int| 0 <= j < hex_lower(bytes).len() ==> hex_lower(bytes)[j] != ':',
{
    crate::codec::lemma_hex_roundtrip(bytes);
    assert forall|j: int| 0 <= j < hex_lower(bytes).len() implies hex_lower(bytes)[j] != ':' by {
        assert(crate::codec::is_hex_char(hex_lower(bytes)[j]));
    }
}

/// A file that seals a 32-byte secret and a phrase under a password
/// decrypts, with that password, to the same secret and phrase (an empty
/// phrase counting as none), when the secret is a valid key.
pub proof fn law_wallet_file_roundtrip(f: FileView, secret: Seq<u8>, phrase: Seq<char>, password: Seq<char>)
    requires
        f.version == 3,
        seals(f, secret, phrase, password),
        secret_key_valid(secret),
    ensures
        decrypt_outcome(f, password) == Ok::<(Seq<u8>, Option<Seq<char>>), Option<Seq<char>>>(
            (secret, non_empty_phrase(Some(phrase))),
        ),
{
    let (salt, nonce, key, ct) = choose|salt: Seq<u8>, nonce: Seq<u8>, key: Seq<u8>, ct: Seq<u8>|
        {
            &&& salt.len() == 32
            &&& nonce.len() == 12
            &&& f.salt == hex_lower(salt)
            &&& f.nonce == hex_lower(nonce)
            &&& f.ciphertext == hex_lower(ct)
            &&& seal_key(encode_utf8(password), salt) == Some(key)
            &&& key.len() == 32
            &&& aes_gcm_sealed(key, nonce, encode_utf8(sealed_text(secret, phrase))) == Some(ct)
            &&& aes_gcm_opened(key, nonce, ct) == Some(encode_utf8(sealed_text(secret, phrase)))
        };
    crate::codec::lemma_hex_roundtrip(salt);
    crate::codec::lemma_hex_roundtrip(nonce);
    crate::codec::lemma_hex_roundtrip(ct);
    crate::codec::lemma_hex_roundtrip(secret);
    let c = sealed_text(secret, phrase);
    vstd::utf8::encode_utf8_valid_utf8(c);
    vstd::utf8::encode_utf8_decode_utf8(c);
    let h = hex_lower(secret);
    lemma_hex_has_no_colon(secret);
    reveal_strlit(":");
    assert(c[h.len() as int] == ':');
    assert forall|j: int| 0 <= j < h.len() implies c[j] != ':' by {
        assert(c[j] == h[j]);
    }
    lemma_first_colon(c, h.len() as int);
    assert(key_part(c) =~= h);
    assert(phrase_part(c) =~= phrase);
}

/// The WIF checksum of a payload.
fn wif_checksum(data: &[u8]) -> (r: Vec<u8>)
    ensures
        r@ == wif_checksum_of(data@),
        r@.len() == 4,
{
    let hash1 = sha256(data);
    let hash2 = sha256(hash1.as_slice());
    let mut out: Vec<u8> = Vec::new();
    out.extend_from_slice(&hash2.as_slice()[0..4]);
    assert(out@ =~= hash2@.take(4));
    out
}

impl Wallet {
    /// A valid secret key with its compressed public key.
    pub open spec fn wf(&self) -> bool {
        &&& secret_key_valid(self.private_key@)
        &&& self.public_key@ == secp_public_key(self.private_key@)
        &&& self.public_key@.len() == 33
    }

    /// The text of the phrase, if any.
    pub open spec fn mnemonic_view(&self) -> Option<Seq<char>> {
        match self.mnemonic {
            Some(m) => Some(m@),
            None => None,
        }
    }

    /// A fresh random key pair, without a phrase.
    pub fn new() -> (w: Wallet)
        ensures
            w.wf(),
            w.mnemonic is None,
    {
        let (private_key, public_key) = secp_generate_keypair();
        Wallet { private_key, public_key, mnemonic: None }
    }

    pub fn pub_key_hash(&self) -> (r: Vec<u8>)
        ensures
            r@ == pub_key_hash_of(self.public_key@),
            r@.len() == 32,
    {
        let first = sha256(self.public_key.as_slice());
        sha256(first.as_slice())
    }

    pub fn address(&self) -> (r: String)
        ensures
            r@ == hex_lower(pub_key_hash_of(self.public_key@)),
    {
        let h = self.pub_key_hash();
        hex_encode(h.as_slice())
    }

    /// The wallet as WIF text for the given network.
    pub fn to_wif(&self, testnet: bool) -> (r: String)
        ensures
            r@ == base58_text(wif_bytes(self.private_key@, testnet)),
            base58_decoded(r@) == Some(wif_bytes(self.private_key@, testnet)),
            wif_bytes(self.private_key@, testnet).len() == self.private_key@.len() + 6,
    {
        let mut payload: Vec<u8> = Vec::new();
        payload.push(if testnet {
            0xef
        } else {
            0x80
        });
        payload.extend_from_slice(self.private_key.as_slice());
        payload.push(0x01);
        assert(payload@ =~= wif_payload(self.private_key@, testnet));
        let check = wif_checksum(payload.as_slice());
        let ghost p = payload@;
        payload.extend_from_slice(check.as_slice());
        assert(payload@ =~= wif_bytes(self.private_key@, testnet));
        base58_encode(payload.as_slice())
    }

    /// The wallet a WIF text holds for the given network; without a phrase.
    pub fn from_wif(wif: &str, testnet: bool) -> (r: Result<Wallet, String>)
        ensures
            match wif_secret(wif@, testnet) {
                Err(e) => r matches Err(m) && m@ == e,
                Ok(secret) => if secret_key_valid(secret) {
                    r matches Ok(w) && w.wf() && w.private_key@ == secret && w.mnemonic is None
                } else {
                    r matches Err(m) && m@ == invalid_key_text()
                },
            },
    {
        let decoded = match base58_decode(wif) {
            Some(d) => d,
            None => {
                return Err("Invalid Base58 encoding".to_string());
            },
        };
        let ghost d = decoded@;
        if decoded.len() != 38 {
            let mut msg: Vec<u8> = Vec::new();
            push_text(&mut msg, "Invalid WIF length: ");
            push_decimal(&mut msg, decoded.len() as u64);
            push_text(&mut msg, " (expected 38)");
            let ghost text = "Invalid WIF length: "@ + decimal_text(d.len()) + " (expected 38)"@;
            proof {
                lemma_decimal_text_utf8(d.len());
                lemma_encode_utf8_concat("Invalid WIF length: "@, decimal_text(d.len()));
                lemma_encode_utf8_concat("Invalid WIF length: "@ + decimal_text(d.len()), " (expected 38)"@);
                assert(msg@ =~= encode_utf8(text));
            }
            return Err(text_of_utf8(msg, Ghost(text)));
        }
        let expected_prefix: u8 = if testnet {
            0xef
        } else {
            0x80
        };
        if decoded[0] != expected_prefix {
            let mut msg: Vec<u8> = Vec::new();
            push_text(&mut msg, "Invalid WIF prefix: 0x");
            let first = hex_encode(&decoded.as_slice()[0..1]);
            push_text(&mut msg, first.as_str());
            let ghost text = "Invalid WIF prefix: 0x"@ + hex_lower(seq![d[0]]);
            proof {
                assert(d.subrange(0, 1) =~= seq![d[0]]);
                lemma_encode_utf8_concat("Invalid WIF prefix: 0x"@, hex_lower(seq![d[0]]));
                assert(msg@ =~= encode_utf8(text));
            }
            return Err(text_of_utf8(msg, Ghost(text)));
        }
        if decoded[33] != 0x01 {
            return Err("Only compressed keys supported".to_string());
        }
        let payload = &decoded.as_slice()[0..34];
        let expected = wif_checksum(payload);
        assert(payload@ =~= d.take(34));
        let checksum = &decoded.as_slice()[34..38];
        if !bytes_eq(checksum, expected.as_slice()) {
            assert(checksum@ =~= d.subrange(34, 38));
            return Err("Invalid WIF checksum".to_string());
        }
        assert(checksum@ =~= d.subrange(34, 38));
        let secret_slice = &decoded.as_slice()[1..33];
        let mut secret: Vec<u8> = Vec::new();
        secret.extend_from_slice(secret_slice);
        assert(secret@ =~= d.subrange(1, 33));
        match secp_public_key_of(secret.as_slice()) {
            Some(public_key) => Ok(Wallet { private_key: secret, public_key, mnemonic: None }),
            None => Err("Invalid private key: malformed or out-of-range secret key".to_string()),
        }
    }

    /// The wallet as JSON text: version, keys in hex, address, phrase.
    pub fn to_json(&self) -> (r: String)
        ensures
            r@ == wallet_json_text(self.private_key@, self.public_key@, phrase_or_empty(self.mnemonic_view())),
    {
        let priv_hex = hex_encode(self.private_key.as_slice());
        let pub_hex = hex_encode(self.public_key.as_slice());
        let address = self.address();
        let mut buf: Vec<u8> = Vec::new();
        push_text(&mut buf, "{\n  \"version\": 1,\n  \"private_key\": \"");
        push_text(&mut buf, priv_hex.as_str());
        push_text(&mut buf, "\",\n  \"public_key\": \"");
        push_text(&mut buf, pub_hex.as_str());
        push_text(&mut buf, "\",\n  \"address\": \"");
        push_text(&mut buf, address.as_str());
        push_text(&mut buf, "\",\n  \"mnemonic\": \"");
        match &self.mnemonic {
            Some(m) => push_text(&mut buf, m.as_str()),
            None => {},
        }
        push_text(&mut buf, "\"\n}");
        let ghost m = phrase_or_empty(self.mnemonic_view());
        let ghost t1 = "{\n  \"version\": 1,\n  \"private_key\": \""@;
        let ghost t2 = t1 + hex_lower(self.private_key@);
        let ghost t3 = t2 + "\",\n  \"public_key\": \""@;
        let ghost t4 = t3 + hex_lower(self.public_key@);
        let ghost t5 = t4 + "\",\n  \"address\": \""@;
        let ghost t6 = t5 + hex_lower(pub_key_hash_of(self.public_key@));
        let ghost t7 = t6 + "\",\n  \"mnemonic\": \""@;
        let ghost t8 = t7 + m;
        let ghost text = t8 + "\"\n}"@;
        proof {
            if self.mnemonic is None {
                assert(encode_utf8(m) =~= Seq::<u8>::empty());
            }
            lemma_encode_utf8_concat(t1, hex_lower(self.private_key@));
            lemma_encode_utf8_concat(t2, "\",\n  \"public_key\": \""@);
            lemma_encode_utf8_concat(t3, hex_lower(self.public_key@));
            lemma_encode_utf8_concat(t4, "\",\n  \"address\": \""@);
            lemma_encode_utf8_concat(t5, hex_lower(pub_key_hash_of(self.public_key@)));
            lemma_encode_utf8_concat(t6, "\",\n  \"mnemonic\": \""@);
            lemma_encode_utf8_concat(t7, m);
            lemma_encode_utf8_concat(t8, "\"\n}"@);
            assert(buf@ =~= encode_utf8(text));
        }
        text_of_utf8(buf, Ghost(text))
    }

    /// The wallet that the fields of its JSON text give: the secret key in
    /// hex and the phrase, an empty one counting as none.
    pub fn from_json_fields(private_key: &str, mnemonic: Option<String>) -> (r: Result<Wallet, String>)
        ensures
            !hex_decodable(private_key@) ==> (r matches Err(m) && m@ == "Invalid private key hex"@),
            hex_decodable(private_key@) && !secret_key_valid(hex_decoded(private_key@)) ==> (r matches Err(
                m,
            ) && m@ == invalid_key_text()),
            hex_decodable(private_key@) && secret_key_valid(hex_decoded(private_key@)) ==> (r matches Ok(
                w,
            ) && w.wf() && w.private_key@ == hex_decoded(private_key@) && w.mnemonic_view()
                == non_empty_phrase(opt_text(mnemonic))),
    {
        let priv_bytes = match hex_decode(private_key) {
            Some(b) => b,
            None => {
                return Err("Invalid private key hex".to_string());
            },
        };
        let public_key = match secp_public_key_of(priv_bytes.as_slice()) {
            Some(p) => p,
            None => {
                return Err("Invalid private key: malformed or out-of-range secret key".to_string());
            },
        };
        let kept = match mnemonic {
            Some(m) => if m.as_str().is_empty() {
                None
            } else {
                Some(m)
            },
            None => None,
        };
        Ok(Wallet { private_key: priv_bytes, public_key, mnemonic: kept })
    }

    /// The wallet that a BIP39 phrase derives, the phrase kept.
    pub fn from_mnemonic(phrase: &str) -> (r: Result<Wallet, String>)
        ensures
            match bip39_seed(phrase@) {
                None => r matches Err(m) && m@.take(18) == "Invalid mnemonic: "@,
                Some(seed) => if secret_key_valid(phrase_secret(seed)) {
                    r matches Ok(w) && w.wf() && w.private_key@ == phrase_secret(seed) && w.mnemonic_view()
                        == Some(phrase@)
                } else {
                    r matches Err(m) && m@ == "Key derivation failed: malformed or out-of-range secret key"@
                },
            },
    {
        let seed = match bip39_phrase_seed(phrase) {
            Ok(s) => s,
            Err(e) => {
                let mut msg: Vec<u8> = Vec::new();
                push_text(&mut msg, "Invalid mnemonic: ");
                push_text(&mut msg, e.as_str());
                let ghost text = "Invalid mnemonic: "@ + e@;
                proof {
                    lemma_encode_utf8_concat("Invalid mnemonic: "@, e@);
                    assert(msg@ =~= encode_utf8(text));
                    reveal_strlit("Invalid mnemonic: ");
                    assert(text.take(18) =~= "Invalid mnemonic: "@);
                }
                return Err(text_of_utf8(msg, Ghost(text)));
            },
        };
        let salt = "austro-wallet-v1".as_bytes();
        let derived = pbkdf2_sha512_32(seed.as_slice(), salt, 2048);
        match secp_public_key_of(derived.as_slice()) {
            Some(public_key) => Ok(
                Wallet { private_key: derived, public_key, mnemonic: Some(phrase.to_string()) },
            ),
            None => Err("Key derivation failed: malformed or out-of-range secret key".to_string()),
        }
    }

    /// A wallet derived from a fresh phrase, with the phrase: the phrase
    /// spells 16 random bytes; the wallet is the one `from_mnemonic` gives
    /// for it, or that call's refusal when the phrase derives no valid key.
    pub fn new_with_mnemonic() -> (r: Result<(Wallet, String), String>)
        ensures
            exists|entropy: Seq<u8>|
                #![trigger bip39_phrase(entropy)]
                {
                    let phrase = bip39_phrase(entropy);
                    let secret = phrase_secret(bip39_seed(phrase)->0);
                    &&& entropy.len() == 16
                    &&& bip39_seed(phrase) is Some
                    &&& secret_key_valid(secret) ==> (r matches Ok((w, p)) && p@ == phrase && w.wf()
                        && w.private_key@ == secret && w.mnemonic_view() == Some(phrase))
                    &&& !secret_key_valid(secret) ==> (r matches Err(m) && m@
                        == "Key derivation failed: malformed or out-of-range secret key"@)
                },
    {
        let entropy = random_bytes(16);
        let phrase = bip39_phrase_of(entropy.as_slice());
        let r = match Wallet::from_mnemonic(phrase.as_str()) {
            Ok(w) => Ok((w, phrase)),
            Err(e) => Err(e),
        };
        assert(bip39_phrase(entropy@) == phrase@);
        r
    }

    /// Seals the wallet under a password: a fresh random 32-byte salt, the
    /// Argon2id key of the password with it, a fresh random 12-byte nonce,
    /// and AES-256-GCM over the secret key in hex and the phrase. It fails
    /// exactly when the key derivation or the sealing does. The app writes
    /// the file.
    pub fn encrypt(&self, password: &str) -> (r: Result<EncryptedWalletFile, String>)
        ensures
            r matches Ok(f) ==> {
                &&& f.version == 3
                &&& seals(f@, self.private_key@, phrase_or_empty(self.mnemonic_view()), password@)
                &&& f.address@ == hex_lower(pub_key_hash_of(self.public_key@))
            },
            exists|salt: Seq<u8>, nonce: Seq<u8>|
                #![trigger encrypt_result(r, password@, sealed_text(self.private_key@, phrase_or_empty(self.mnemonic_view())), hex_lower(pub_key_hash_of(self.public_key@)), salt, nonce)]
                salt.len() == 32 && nonce.len() == 12 && encrypt_result(
                    r,
                    password@,
                    sealed_text(self.private_key@, phrase_or_empty(self.mnemonic_view())),
                    hex_lower(pub_key_hash_of(self.public_key@)),
                    salt,
                    nonce,
                ),
    {
        let priv_hex = hex_encode(self.private_key.as_slice());
        let mut plaintext: Vec<u8> = Vec::new();
        push_text(&mut plaintext, priv_hex.as_str());
        push_text(&mut plaintext, ":");
        match &self.mnemonic {
            Some(m) => push_text(&mut plaintext, m.as_str()),
            None => {},
        }
        let ghost phrase = phrase_or_empty(self.mnemonic_view());
        let ghost text = sealed_text(self.private_key@, phrase);
        let ghost address = hex_lower(pub_key_hash_of(self.public_key@));
        proof {
            if self.mnemonic is None {
                assert(encode_utf8(phrase) =~= Seq::<u8>::empty());
            }
            lemma_encode_utf8_concat(hex_lower(self.private_key@), ":"@);
            lemma_encode_utf8_concat(hex_lower(self.private_key@) + ":"@, phrase);
            assert(plaintext@ =~= encode_utf8(sealed_text(self.private_key@, phrase)));
        }
        let salt = random_bytes(32);
        let key = match argon2id_derive(
            password.as_bytes(),
            salt.as_slice(),
            SEAL_M_COST,
            SEAL_T_COST,
            SEAL_P_COST,
            SEAL_KEY_LEN,
        ) {
            Ok(k) => k,
            Err(e) => {
                let res: Result<EncryptedWalletFile, String> = Err(e);
                assert(seal_key(encode_utf8(password@), salt@) is None);
                assert(encrypt_result(res, password@, text, address, salt@, seq![0u8; 12]));
                return res;
            },
        };
        let nonce = random_bytes(12);
        let ciphertext = match aes256gcm_encrypt(key.as_slice(), nonce.as_slice(), plaintext.as_slice()) {
            Ok(c) => c,
            Err(e) => {
                assert(seal_key(encode_utf8(password@), salt@) == Some(key@));
                assert(aes_gcm_sealed(key@, nonce@, encode_utf8(text)) is None);
                let res: Result<EncryptedWalletFile, String> = Err(e);
                assert(encrypt_result(res, password@, text, address, salt@, nonce@));
                return res;
            },
        };
        let f = EncryptedWalletFile {
            version: 3,
            salt: hex_encode(salt.as_slice()),
            nonce: hex_encode(nonce.as_slice()),
            ciphertext: hex_encode(ciphertext.as_slice()),
            address: self.address(),
        };
        assert(seals(f@, self.private_key@, phrase, password@)) by {
            assert(hex_lower(salt@) == f@.salt);
        }
        assert(seal_key(encode_utf8(password@), salt@) == Some(key@));
        assert(aes_gcm_sealed(key@, nonce@, encode_utf8(text)) == Some(ciphertext@));
        let res: Result<EncryptedWalletFile, String> = Ok(f);
        assert(encrypt_result(res, password@, text, address, salt@, nonce@));
        res
    }

    /// Opens a sealed wallet with a password, where that gives an answer:
    /// `None` for a file whose salt is too short for Argon2 or, once the key
    /// is derived, whose nonce is not 12 bytes; otherwise what `decrypt`
    /// gives.
    pub fn decrypt_checked(file: &EncryptedWalletFile, password: &str) -> (r: Option<
        Result<Wallet, String>,
    >)
        ensures
            r is None <==> decrypt_stops(file@, password@),
            r matches Some(d) ==> match decrypt_outcome(file@, password@) {
                Ok((secret, phrase)) => d matches Ok(w) && w.wf() && w.private_key@ == secret
                    && w.mnemonic_view() == phrase,
                Err(Some(e)) => d matches Err(m) && m@ == e,
                Err(None) => d is Err,
            },
    {
        if file.version == 3 {
            let salt = hex_decode(file.salt.as_str());
            let nonce = hex_decode(file.nonce.as_str());
            let ciphertext = hex_decode(file.ciphertext.as_str());
            if let (Some(salt), Some(nonce), Some(_)) = (salt, nonce, ciphertext) {
                if salt.len() < 3 {
                    return None;
                }
                let derived = argon2id_derive(
                    password.as_bytes(),
                    salt.as_slice(),
                    SEAL_M_COST,
                    SEAL_T_COST,
                    SEAL_P_COST,
                    SEAL_KEY_LEN,
                );
                if derived.is_ok() && nonce.len() != 12 {
                    return None;
                }
            }
        }
        Some(Wallet::decrypt(file, password))
    }

    /// Opens a sealed wallet with a password.
    pub fn decrypt(file: &EncryptedWalletFile, password: &str) -> (r: Result<Wallet, String>)
        requires
            reaches_kdf(file@) ==> hex_decoded(file@.salt).len() >= 3,
            reaches_nonce(file@, password@) ==> hex_decoded(file@.nonce).len() == 12,
        ensures
            match decrypt_outcome(file@, password@) {
                Ok((secret, phrase)) => r matches Ok(w) && w.wf() && w.private_key@ == secret
                    && w.mnemonic_view() == phrase,
                Err(Some(e)) => r matches Err(m) && m@ == e,
                Err(None) => r is Err,
            },
    {
        if file.version != 3 {
            let mut msg: Vec<u8> = Vec::new();
            push_text(&mut msg, "Unsupported wallet file version: ");
            push_decimal(&mut msg, file.version as u64);
            push_text(&mut msg, ". Re-save your wallet with 'savewallet' to upgrade.");
            let ghost text = version_text(file.version);
            proof {
                lemma_decimal_text_utf8(file.version as nat);
                lemma_encode_utf8_concat("Unsupported wallet file version: "@, decimal_text(file.version as nat));
                lemma_encode_utf8_concat(
                    "Unsupported wallet file version: "@ + decimal_text(file.version as nat),
                    ". Re-save your wallet with 'savewallet' to upgrade."@,
                );
                assert(msg@ =~= encode_utf8(text));
            }
            return Err(text_of_utf8(msg, Ghost(text)));
        }
        let salt = match hex_decode(file.salt.as_str()) {
            Some(b) => b,
            None => {
                return Err("Invalid salt".to_string());
            },
        };
        let nonce = match hex_decode(file.nonce.as_str()) {
            Some(b) => b,
            None => {
                return Err("Invalid nonce".to_string());
            },
        };
        let ciphertext = match hex_decode(file.ciphertext.as_str()) {
            Some(b) => b,
            None => {
                return Err("Invalid ciphertext".to_string());
            },
        };
        let key = match argon2id_derive(
            password.as_bytes(),
            salt.as_slice(),
            SEAL_M_COST,
            SEAL_T_COST,
            SEAL_P_COST,
            SEAL_KEY_LEN,
        ) {
            Ok(k) => k,
            Err(e) => {
                return Err(e);
            },
        };
        let plaintext = match aes256gcm_decrypt(key.as_slice(), nonce.as_slice(), ciphertext.as_slice()) {
            Some(p) => p,
            None => {
                return Err("Wrong password or corrupted file".to_string());
            },
        };
        let ghost p = plaintext@;
        let content = match crate::crypto::utf8_to_string(plaintext) {
            Some(c) => c,
            None => {
                return Err("Invalid decrypted content".to_string());
            },
        };
        let text = content.as_str();
        let ghost c = text@;
        let n = text.unicode_len();
        let mut i: usize = 0;
        while i < n && text.get_char(i) != ':'
            invariant
                i <= n,
                n == c.len(),
                c == text@,
                forall|j: int| 0 <= j < i ==> c[j] != ':',
            decreases n - i,
        {
            i = i + 1;
        }
        proof {
            lemma_first_colon(c, i as int);
        }
        let key_hex = text.substring_char(0, i);
        assert(key_hex@ =~= key_part(c));
        let phrase: &str = if i < n {
            text.substring_char(i + 1, n)
        } else {
            ""
        };
        assert(phrase@ =~= phrase_part(c)) by {
            if i >= n {
                reveal_strlit("");
            }
        }
        let secret = match hex_decode(key_hex) {
            Some(b) => b,
            None => {
                return Err("Invalid private key hex".to_string());
            },
        };
        let public_key = match secp_public_key_of(secret.as_slice()) {
            Some(pk) => pk,
            None => {
                return Err("Invalid private key: malformed or out-of-range secret key".to_string());
            },
        };
        let mnemonic = if phrase.is_empty() {
            None
        } else {
            Some(phrase.to_string())
        };
        Ok(Wallet { private_key: secret, public_key, mnemonic })
    }

    /// Signs a 32-byte digest as it is.
    pub fn sign_msg(&self, msg: &[u8]) -> (r: Vec<u8>)
        requires
            self.wf(),
            msg@.len() == 32,
        ensures
            r@ == ecdsa_signature(self.private_key@, msg@),
            r@.len() > 0,
    {
        ecdsa_sign(self.private_key.as_slice(), msg)
    }

    /// Signs the SHA-256 digest of a message of any length.
    pub fn sign(&self, msg: &[u8]) -> (r: Vec<u8>)
        requires
            self.wf(),
        ensures
            r@ == message_signature(self.private_key@, msg@),
            r@.len() > 0,
            crate::crypto::ecdsa_accepts(sha256_digest(msg@), r@, self.public_key@),
    {
        let digest = sha256(msg);
        ecdsa_sign(self.private_key.as_slice(), digest.as_slice())
    }
}

} // verus!
