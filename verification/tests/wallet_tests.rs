use austro::models::wallet::{EncryptedWalletFile, Wallet};
use austro::models::wallet_store::WalletManager;

fn wallet_from_json(json: &str) -> Result<Wallet, String> {
    let v: serde_json::Value = serde_json::from_str(json).map_err(|e| e.to_string())?;
    let private_key = v["private_key"].as_str().ok_or("no private key")?.to_string();
    let mnemonic = v["mnemonic"].as_str().map(|s| s.to_string());
    Wallet::from_json_fields(&private_key, mnemonic)
}

const WIKI_SECRET: &str = "0c28fca386c7a227600b2fe50b7cae11ec86d3bf1fbe471be89827e19d72aa1d";

#[test]
fn new_wallet_produces_unique_keypairs() {
    let a = Wallet::new();
    let b = Wallet::new();
    assert_ne!(a.address(), b.address());
}

#[test]
fn address_is_64_char_hex() {
    let w = Wallet::new();
    let addr = w.address();
    assert_eq!(addr.len(), 64);
    assert!(addr.chars().all(|c: char| c.is_ascii_hexdigit()));
}

#[test]
fn pub_key_hash_matches_address() {
    let w = Wallet::new();
    assert_eq!(hex::encode(w.pub_key_hash()), w.address());
}

#[test]
fn wif_roundtrip_mainnet() {
    let source = Wallet::new();
    let wif = source.to_wif(false);
    let restored = Wallet::from_wif(&wif, false).expect("from_wif");
    assert_eq!(source.address(), restored.address());
}

#[test]
fn wif_roundtrip_testnet() {
    let source = Wallet::new();
    let wif = source.to_wif(true);
    let restored = Wallet::from_wif(&wif, true).expect("from_wif testnet");
    assert_eq!(source.address(), restored.address());
}

#[test]
fn wif_wrong_network_rejected() {
    let w = Wallet::new();
    let wif = w.to_wif(false);
    assert!(Wallet::from_wif(&wif, true).is_err());
}

#[test]
fn json_roundtrip() {
    let source = Wallet::new();
    let json = source.to_json();
    let restored = wallet_from_json(&json).expect("from_json");
    assert_eq!(source.address(), restored.address());
}

#[test]
fn sign_and_verify_message() {
    let wallet = Wallet::new();
    let msg_bytes = [0xab_u8; 32];
    let sig = wallet.sign_msg(&msg_bytes);
    assert!(!sig.is_empty());
}

#[test]
fn known_key_gives_known_wif() {
    let w = Wallet::from_json_fields(WIKI_SECRET, None).unwrap();
    assert_eq!(w.to_wif(false), "KwdMAjGmerYanjeui5SHS7JkmpZvVipYvB2LJGU1ZxJwYvP98617");
    let back = Wallet::from_wif("KwdMAjGmerYanjeui5SHS7JkmpZvVipYvB2LJGU1ZxJwYvP98617", false).unwrap();
    assert_eq!(hex::encode(&back.private_key), WIKI_SECRET);
    assert!(back.mnemonic.is_none());
}

#[test]
fn wif_errors_name_the_fault() {
    let w = Wallet::new();
    let wif = w.to_wif(false);
    assert_eq!(Wallet::from_wif("0OIl", false).unwrap_err(), "Invalid Base58 encoding");
    assert_eq!(Wallet::from_wif("111", false).unwrap_err(), "Invalid WIF length: 3 (expected 38)");
    assert_eq!(Wallet::from_wif(&wif, true).unwrap_err(), "Invalid WIF prefix: 0x80");
    let mut bytes = bs58::decode(&wif).into_vec().unwrap();
    bytes[37] ^= 1;
    let tampered = bs58::encode(&bytes).into_string();
    assert_eq!(Wallet::from_wif(&tampered, false).unwrap_err(), "Invalid WIF checksum");
    let mut uncompressed = bs58::decode(&wif).into_vec().unwrap();
    uncompressed[33] = 0;
    let bad = bs58::encode(&uncompressed).into_string();
    assert_eq!(Wallet::from_wif(&bad, false).unwrap_err(), "Only compressed keys supported");
}

#[test]
fn json_text_has_the_fields() {
    let w = Wallet::from_json_fields(WIKI_SECRET, Some("".to_string())).unwrap();
    assert!(w.mnemonic.is_none());
    let json = w.to_json();
    assert!(json.starts_with("{\n  \"version\": 1,\n  \"private_key\": \"0c28fca3"));
    assert!(json.ends_with("\",\n  \"mnemonic\": \"\"\n}"));
    let v: serde_json::Value = serde_json::from_str(&json).unwrap();
    assert_eq!(v["address"].as_str().unwrap(), w.address());
    assert_eq!(v["public_key"].as_str().unwrap(), hex::encode(&w.public_key));
}

#[test]
fn json_fields_errors() {
    assert_eq!(Wallet::from_json_fields("zz", None).unwrap_err(), "Invalid private key hex");
    assert_eq!(
        Wallet::from_json_fields(&"00".repeat(32), None).unwrap_err(),
        "Invalid private key: malformed or out-of-range secret key"
    );
}

#[test]
fn mnemonic_derivation_is_deterministic() {
    let phrase = "abandon abandon abandon abandon abandon abandon abandon abandon abandon abandon abandon about";
    let a = Wallet::from_mnemonic(phrase).unwrap();
    let b = Wallet::from_mnemonic(phrase).unwrap();
    assert_eq!(a.address(), b.address());
    assert_eq!(a.mnemonic.as_deref(), Some(phrase));
    let e = Wallet::from_mnemonic("not a phrase").unwrap_err();
    assert!(e.starts_with("Invalid mnemonic: "));
}

#[test]
fn fresh_mnemonic_wallet_recovers_from_its_phrase() {
    let (w, phrase) = Wallet::new_with_mnemonic().unwrap();
    assert_eq!(phrase.split(' ').count(), 12);
    let again = Wallet::from_mnemonic(&phrase).unwrap();
    assert_eq!(w.address(), again.address());
}

#[test]
fn encrypted_wallet_roundtrip() {
    let phrase = "abandon abandon abandon abandon abandon abandon abandon abandon abandon abandon abandon about";
    let w = Wallet::from_mnemonic(phrase).unwrap();
    let f = w.encrypt("correct horse").unwrap();
    assert_eq!(f.version, 3);
    assert_eq!(f.address, w.address());
    assert_eq!(f.salt.len(), 64);
    assert_eq!(f.nonce.len(), 24);
    let back = Wallet::decrypt(&f, "correct horse").unwrap();
    assert_eq!(back.private_key, w.private_key);
    assert_eq!(back.mnemonic.as_deref(), Some(phrase));
    assert_eq!(
        Wallet::decrypt(&f, "wrong").unwrap_err(),
        "Wrong password or corrupted file"
    );
}

#[test]
fn encrypted_wallet_checks_its_fields() {
    let w = Wallet::new();
    let f = w.encrypt("pw").unwrap();
    let old = EncryptedWalletFile {
        version: 2,
        salt: f.salt.clone(),
        nonce: f.nonce.clone(),
        ciphertext: f.ciphertext.clone(),
        address: f.address.clone(),
    };
    assert_eq!(
        Wallet::decrypt(&old, "pw").unwrap_err(),
        "Unsupported wallet file version: 2. Re-save your wallet with 'savewallet' to upgrade."
    );
    let bad_salt = EncryptedWalletFile {
        version: 3,
        salt: "xyz".to_string(),
        nonce: f.nonce.clone(),
        ciphertext: f.ciphertext.clone(),
        address: f.address.clone(),
    };
    assert_eq!(Wallet::decrypt(&bad_salt, "pw").unwrap_err(), "Invalid salt");
    let back = Wallet::decrypt(&f, "pw").unwrap();
    assert_eq!(back.address(), w.address());
    assert!(back.mnemonic.is_none());
}

// ── wallet manager ──────────────────────────────────────────────────────────

#[test]
fn default_wallet_created_on_first_run() {
    let wm = WalletManager::new();
    assert!(wm.get_wallet("default").is_some());
}

#[test]
fn create_wallet_returns_valid_address() {
    let mut wm = WalletManager::new();
    let addr = wm.create_wallet("alice").expect("create");
    assert_eq!(addr.len(), 64);
}

#[test]
fn duplicate_wallet_name_rejected() {
    let mut wm = WalletManager::new();
    wm.create_wallet("bob").unwrap();
    assert!(wm.create_wallet("bob").is_err());
}

#[test]
fn select_wallet_changes_active() {
    let mut wm = WalletManager::new();
    wm.create_wallet("carol").unwrap();
    wm.select_wallet("carol").expect("select");
    assert_eq!(wm.selected, "carol");
}

#[test]
fn select_nonexistent_wallet_fails() {
    let mut wm = WalletManager::new();
    assert!(wm.select_wallet("ghost").is_err());
}

#[test]
fn list_wallets_includes_all_created() {
    let mut wm = WalletManager::new();
    wm.create_wallet("w1").unwrap();
    wm.create_wallet("w2").unwrap();
    let list = wm.list_wallets();
    assert!(list.contains(&"default".to_string()));
    assert!(list.contains(&"w1".to_string()));
    assert!(list.contains(&"w2".to_string()));
}

#[test]
fn exported_texts_import_back() {
    let mut wm = WalletManager::new();
    let addr = wm.create_wallet("exp").unwrap();
    let wif = wm.export_wallet("exp", "wif").unwrap();
    let json = wm.export_wallet("exp", "json").unwrap();
    assert_eq!(Wallet::from_wif(&wif, false).unwrap().address(), addr);
    assert_eq!(wallet_from_json(&json).unwrap().address(), addr);
    assert_eq!(wm.export_wallet("exp", "pem").unwrap_err(), "Format must be 'wif' or 'json'");
    assert_eq!(wm.export_wallet("nobody", "wif").unwrap_err(), "Wallet not found");
    let imported = Wallet::from_wif(&wif, false).unwrap();
    assert_eq!(wm.insert_wallet("imported", imported), addr);
    assert_eq!(wm.current_wallet().address(), wm.get_wallet("default").unwrap().address());
}

#[test]
fn checked_decrypt_stops_on_short_salt_and_bad_nonce() {
    let file = |salt: &str, nonce: &str| EncryptedWalletFile {
        version: 3,
        salt: salt.to_string(),
        nonce: nonce.to_string(),
        ciphertext: "00".to_string(),
        address: String::new(),
    };
    assert!(Wallet::decrypt_checked(&file("0000", &"00".repeat(12)), "pw").is_none());
    assert!(Wallet::decrypt_checked(&file(&"11".repeat(16), "00"), "pw").is_none());
    match Wallet::decrypt_checked(&file("zz", "00"), "pw") {
        Some(Err(e)) => assert_eq!(e, "Invalid salt"),
        other => panic!("unexpected {:?}", other.map(|r| r.is_ok())),
    }
}
