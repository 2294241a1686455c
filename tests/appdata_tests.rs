use uqoin_client::appdata::{default_validators, AppData, AppDataError};
use uqoin_client::coin::Word256;
use uqoin_client::storage::{seal, unseal};
use uqoin_client::utils::str_to_bytes;

fn key(n: u64) -> Word256 {
    Word256::from_words([n, 0, 0, 1])
}

fn nodes(items: &[&str]) -> Vec<String> {
    items.iter().map(|s| s.to_string()).collect()
}

#[test]
fn empty_account_has_default_validators() {
    let a = AppData::create_empty();
    assert!(a.is_empty());
    assert_eq!(a.check_not_empty(), Err(AppDataError::Empty));
    assert_eq!(a.list_validators(), &default_validators());
    assert_eq!(
        default_validators(),
        nodes(&[
            "http://85.99.244.254:5772",
            "http://89.179.245.236:5772",
            "http://89.179.245.236:5773",
        ])
    );
    assert!(a.get_wallets().is_empty());
}

#[test]
fn seeded_account_is_not_empty() {
    let a = AppData::from_seed(key(5));
    assert!(!a.is_empty());
    assert_eq!(a.check_not_empty(), Ok(()));
    assert_eq!(a.seed(), key(5));
}

#[test]
fn wallet_keys_are_found_by_public_key() {
    let mut a = AppData::from_seed(key(1));
    a.add_wallet("AB".to_string(), key(7));
    a.add_wallet("CD".to_string(), key(8));
    assert_eq!(a.get_wallets(), &nodes(&["AB", "CD"]));
    assert_eq!(a.get_wallet_key("CD"), Some(key(8)));
    assert_eq!(a.get_wallet_key("EF"), None);
}

#[test]
fn add_validator_once() {
    let mut a = AppData::new(key(1), vec![], vec![], nodes(&["a", "b"]));
    assert!(a.add_validator("c".to_string()));
    assert!(!a.add_validator("a".to_string()));
    assert_eq!(a.list_validators(), &nodes(&["a", "b", "c"]));
}

#[test]
fn remove_validator_present_and_absent() {
    let mut a = AppData::new(key(1), vec![], vec![], nodes(&["a", "b", "c"]));
    assert!(a.remove_validator("b"));
    assert!(!a.remove_validator("z"));
    assert_eq!(a.list_validators(), &nodes(&["a", "c"]));
}

#[test]
fn move_validator_to_position() {
    let mut a = AppData::new(key(1), vec![], vec![], nodes(&["a", "b", "c"]));
    assert!(a.move_validator("c", 1));
    assert_eq!(a.list_validators(), &nodes(&["c", "a", "b"]));
    assert!(a.move_validator("c", 3));
    assert_eq!(a.list_validators(), &nodes(&["a", "b", "c"]));
    assert!(!a.move_validator("z", 2));
}

#[test]
fn set_default_validators_restores_list() {
    let mut a = AppData::new(key(1), vec![], vec![], nodes(&["a"]));
    a.set_default_validators();
    assert_eq!(a.list_validators(), &default_validators());
}

#[test]
fn str_to_bytes_pads_and_cuts() {
    let b: [u8; 4] = str_to_bytes("ab");
    assert_eq!(b, [b'a', b'b', 0, 0]);
    let c: [u8; 2] = str_to_bytes("abcd");
    assert_eq!(c, [b'a', b'b']);
    let d: [u8; 3] = str_to_bytes("");
    assert_eq!(d, [0, 0, 0]);
}

#[test]
fn seal_then_unseal_gives_text_back() {
    let text = "{\"seed\":\"00\",\"validators\":[]}";
    let sealed = seal("secret", &text.as_bytes().to_vec());
    assert_eq!(sealed.len() % 16, 0);
    assert!(sealed.len() >= text.len());
    assert_ne!(&sealed[..text.len()], text.as_bytes());
    assert_eq!(unseal("secret", &sealed), Ok(text.to_string()));
}

#[test]
fn seal_pads_to_whole_blocks() {
    assert_eq!(seal("pw", &vec![1u8; 16]).len(), 16);
    assert_eq!(seal("pw", &vec![1u8; 17]).len(), 32);
    assert_eq!(seal("pw", &vec![]).len(), 0);
}

#[test]
fn unseal_rejects_partial_block() {
    assert_eq!(unseal("pw", &vec![0u8; 15]), Err(AppDataError::Corrupted));
}

#[test]
fn unseal_rejects_empty_data() {
    assert_eq!(unseal("pw", &vec![]), Err(AppDataError::WrongPassword));
}

#[test]
fn unseal_with_wrong_password_fails() {
    let text = "{\"validators\":[\"http://a\",\"http://b\",\"http://c\"],\"seed\":\"1234\"}";
    let sealed = seal("right", &text.as_bytes().to_vec());
    assert_ne!(unseal("wrong", &sealed), Ok(text.to_string()));
}
