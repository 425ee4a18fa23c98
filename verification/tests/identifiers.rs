use cougr_core::accounts::device_storage::DeviceStorage;
use cougr_core::accounts::recovery_storage::RecoveryStorage;
use cougr_core::accounts::secp256r1_auth::Secp256r1Storage;
use cougr_core::accounts::storage::SessionStorage;
use cougr_core::ids::{Address, Bytes32};
use cougr_core::incremental::keys::{component_key, entity_key, meta_key};
use cougr_core::symbol::Symbol;

#[test]
fn symbol_text_round_trip() {
    for text in ["pos", "a", "cougr_meta", "ABC_xyz_019", "abcdefghijklmnopqrstuvwxyz012345"] {
        let s = Symbol::new(text);
        assert_eq!(s.to_text(), Some(text.as_bytes().to_vec()));
    }
}

#[test]
fn symbol_text_of_empty_symbol() {
    let s = Symbol::new("");
    assert_eq!(s.to_text(), Some(Vec::new()));
}

#[test]
fn symbol_text_refuses_words_of_no_text() {
    // A zero byte followed by a nonzero byte is the packing of no text.
    let s = Symbol { hi: 1, lo: 0 };
    assert_eq!(s.to_text(), None);
    // A byte outside the symbol alphabet.
    let t = Symbol { hi: (b'-' as u128) << 120, lo: 0 };
    assert_eq!(t.to_text(), None);
}

#[test]
fn symbol_from_bytes_checks_alphabet_and_length() {
    assert_eq!(Symbol::from_bytes(b"hp"), Some(Symbol::new("hp")));
    assert_eq!(Symbol::from_bytes(b"h-p"), None);
    assert_eq!(Symbol::from_bytes(&[b'a'; 33]), None);
    assert!(Symbol::from_bytes(&[b'a'; 32]).is_some());
}

#[test]
fn symbol_order_is_text_order() {
    assert!(Symbol::new("abc").lt(&Symbol::new("abd")));
    assert!(Symbol::new("ab").lt(&Symbol::new("abc")));
    assert!(!Symbol::new("b").lt(&Symbol::new("abc")));
}

#[test]
fn bytes32_round_trip() {
    let mut raw = [0u8; 32];
    for (i, b) in raw.iter_mut().enumerate() {
        *b = (i as u8).wrapping_mul(37).wrapping_add(1);
    }
    let v = Bytes32::from_array(&raw);
    assert_eq!(v.to_bytes(), raw.to_vec());
    assert_eq!(Bytes32::from_slice(&raw), Some(v));
    assert_eq!(Bytes32::from_slice(&raw[..31]), None);
}

#[test]
fn incremental_storage_keys() {
    assert_eq!(meta_key(), Symbol::new("cougr_meta"));
    assert_eq!(entity_key(7), (Symbol::new("cougr_ent"), 7));
    let t = Symbol::new("pos");
    assert_eq!(component_key(7, &t), (Symbol::new("cougr_cmp"), 7, t));
}

#[test]
fn account_storage_keys() {
    let a = Address::account(Bytes32::from_array(&[3u8; 32]));
    assert_eq!(SessionStorage::storage_key(&a), (Symbol::new("sess_keys"), a));
    assert_eq!(DeviceStorage::devices_key(&a), (Symbol::new("dev_keys"), a));
    assert_eq!(DeviceStorage::policy_key(&a), (Symbol::new("dev_policy"), a));
    assert_eq!(Secp256r1Storage::storage_key(&a), (Symbol::new("p256_keys"), a));
    assert_eq!(RecoveryStorage::guardians_key(&a), (Symbol::new("rcv_guard"), a));
    assert_eq!(RecoveryStorage::config_key(&a), (Symbol::new("rcv_conf"), a));
    assert_eq!(RecoveryStorage::request_key(&a), (Symbol::new("rcv_req"), a));
}
