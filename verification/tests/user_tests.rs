use mirams::user::to_hex;
use mirams::Store;

#[test]
fn user_store() {
    let mut store = Store::new();
    let user_store = store.users();
    user_store.set_password("alice", "password").unwrap();
    assert!(user_store.check_password("alice", "password").unwrap());
    assert!(!user_store.check_password("alice", "wrong").unwrap());
    let key = user_store.generate_api_key("alice").unwrap();
    assert_eq!(user_store.get_user_from_api_key(&key).unwrap(), Some("alice".to_string()));
}

#[test]
fn unknown_user_and_key() {
    let mut store = Store::new();
    let user_store = store.users();
    assert!(user_store.check_password("nobody", "pw").is_err());
    assert!(user_store.generate_api_key("nobody").is_err());
    assert_eq!(user_store.get_user_from_api_key("feedface").unwrap(), None);
}

#[test]
fn password_update_and_delete() {
    let mut store = Store::new();
    let user_store = store.users();
    user_store.set_password("bob", "first").unwrap();
    user_store.set_password("bob", "second").unwrap();
    assert!(!user_store.check_password("bob", "first").unwrap());
    assert!(user_store.check_password("bob", "second").unwrap());
    let key = user_store.generate_api_key("bob").unwrap();
    user_store.delete_user("bob").unwrap();
    assert!(user_store.check_password("bob", "second").is_err());
    assert_eq!(user_store.get_user_from_api_key(&key).unwrap(), None);
}

#[test]
fn list_users_in_creation_order() {
    let mut store = Store::new();
    let user_store = store.users();
    user_store.set_password("carol", "pw1").unwrap();
    user_store.set_password("dave", "pw2").unwrap();
    assert_eq!(user_store.list_users().unwrap(), vec!["carol".to_string(), "dave".to_string()]);
}

#[test]
fn api_keys_are_distinct_hex() {
    let mut store = Store::new();
    let user_store = store.users();
    user_store.set_password("erin", "pw").unwrap();
    let k1 = user_store.generate_api_key("erin").unwrap();
    let k2 = user_store.generate_api_key("erin").unwrap();
    assert_eq!(k1.len(), 64);
    assert_eq!(k2.len(), 64);
    assert_ne!(k1, k2);
    assert!(k1.chars().all(|c| c.is_ascii_hexdigit()));
}

#[test]
fn hex_encoding() {
    assert_eq!(to_hex(&[]), "");
    assert_eq!(to_hex(&[0x00, 0x01, 0xfe, 0xff]), "0001feff");
    assert_eq!(to_hex(&[0xde, 0xad, 0xbe, 0xef]), "deadbeef");
}
