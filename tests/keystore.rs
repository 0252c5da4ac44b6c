use lumberjack::error::ServiceError;
use lumberjack::keychain::decode_active_keys;
use lumberjack::keystore::{application_from_header, check_master, is_valid_secret, KeyStore};
use lumberjack::text::to_kebab_case;

fn secret(c: u8) -> Vec<u8> {
    vec![c; 64]
}

fn count(image: &[u8]) -> u32 {
    u32::from_be_bytes([image[4], image[5], image[6], image[7]])
}

#[test]
fn create_key_for_payments_api() {
    let app = to_kebab_case("Payments API");
    assert_eq!(app, "payments-api");
    let mut store = KeyStore::new();
    let mut image = Vec::new();
    let key = store.create_key(&app, &mut image).unwrap();
    assert_eq!(key.len(), 64);
    assert!(key.iter().all(|b| b.is_ascii_alphanumeric()));
    assert_eq!(&image[0..8], &[0, 0, 0, 1, 0, 0, 0, 1]);
    assert_eq!(store.list_active("payments-api"), Ok(vec![key]));
}

#[test]
fn create_list_revoke_and_reload() {
    let mut store = KeyStore::new();
    let mut image = Vec::new();
    let a = store.create_key("billing", &mut image).unwrap();
    let b = store.create_key("billing", &mut image).unwrap();
    assert_ne!(a, b);
    assert_eq!(store.list_active("billing"), Ok(vec![a.clone(), b.clone()]));
    assert_eq!(store.revoke_key("billing", &a, &mut image), Ok(true));
    assert_eq!(store.list_active("billing"), Ok(vec![b.clone()]));
    let mut reloaded = KeyStore::new();
    assert_eq!(reloaded.load_keychain("billing", &image), Ok(()));
    assert_eq!(reloaded.list_active("billing"), store.list_active("billing"));
    assert_eq!(decode_active_keys(&image), Ok(vec![b]));
}

#[test]
fn n_creations_raise_count_by_n() {
    let mut store = KeyStore::new();
    let mut image = Vec::new();
    for _ in 0..7 {
        store.create_key("search", &mut image).unwrap();
    }
    assert_eq!(count(&image), 7);
    assert_eq!(store.list_active("search").unwrap().len(), 7);
}

#[test]
fn revoking_unknown_key_changes_nothing() {
    let mut store = KeyStore::new();
    let mut image = Vec::new();
    store.create_key_with("app", &secret(b'a'), &mut image).unwrap();
    let before = image.clone();
    assert_eq!(store.revoke_key("app", &secret(b'z'), &mut image), Ok(false));
    assert_eq!(image, before);
    assert_eq!(store.list_active("app"), Ok(vec![secret(b'a')]));
    assert_eq!(store.revoke_key("app", &secret(b'a'), &mut image), Ok(true));
    let after = image.clone();
    assert_eq!(store.revoke_key("app", &secret(b'a'), &mut image), Ok(false));
    assert_eq!(image, after);
    assert_eq!(count(&image), 0);
    assert_eq!(store.list_active("app"), Ok(vec![]));
}

#[test]
fn revoke_clears_mirror_even_when_file_lacks_key() {
    let mut store = KeyStore::new();
    let mut image = Vec::new();
    store.create_key_with("app", &secret(b'a'), &mut image).unwrap();
    let mut other = Vec::new();
    assert_eq!(store.revoke_key("app", &secret(b'a'), &mut other), Err(ServiceError::CorruptStore));
    assert_eq!(store.list_active("app"), Ok(vec![]));
}

#[test]
fn list_unknown_application_fails() {
    let store = KeyStore::new();
    assert_eq!(store.list_active("nobody"), Err(ServiceError::AppNotFound));
}

#[test]
fn create_with_invalid_secret_is_refused() {
    let mut store = KeyStore::new();
    let mut image = Vec::new();
    let mut bad = secret(b'a');
    bad[3] = b' ';
    assert_eq!(store.create_key_with("app", &bad, &mut image), Err(ServiceError::ValidationError));
    assert!(image.is_empty());
    assert_eq!(store.list_active("app"), Err(ServiceError::AppNotFound));
    assert!(!is_valid_secret(&bad));
    assert!(is_valid_secret(&secret(b'Z')));
}

#[test]
fn create_on_corrupt_keychain_changes_nothing() {
    let mut store = KeyStore::new();
    let mut image = vec![0, 0, 0, 7, 0, 0, 0, 0];
    assert_eq!(store.create_key("app", &mut image), Err(ServiceError::CorruptStore));
    assert_eq!(image, vec![0, 0, 0, 7, 0, 0, 0, 0]);
    assert_eq!(store.list_active("app"), Err(ServiceError::AppNotFound));
}

#[test]
fn corrupt_keychain_is_skipped_at_load() {
    let mut store = KeyStore::new();
    let mut good = Vec::new();
    let mut scratch = KeyStore::new();
    scratch.create_key_with("good", &secret(b'g'), &mut good).unwrap();
    assert_eq!(store.load_keychain("bad", &[0, 0, 0, 1, 0, 0, 0, 3]), Err(ServiceError::CorruptStore));
    assert_eq!(store.load_keychain("good", &good), Ok(()));
    assert_eq!(store.list_active("bad"), Err(ServiceError::AppNotFound));
    assert_eq!(store.list_active("good"), Ok(vec![secret(b'g')]));
}

#[test]
fn authorize_master_and_application_keys() {
    let mut store = KeyStore::new();
    let mut image = Vec::new();
    store.create_key_with("app", &secret(b'k'), &mut image).unwrap();
    let master = b"master-secret".to_vec();
    assert!(store.authorize("app", &secret(b'k'), &master));
    assert!(store.authorize("unknown", &master, &master));
    assert!(!store.authorize("other", &secret(b'k'), &master));
    assert!(!store.authorize("app", &secret(b'q'), &master));
    assert_eq!(store.check_access("app", None, &master), Err(ServiceError::MissingCredential));
    assert_eq!(store.check_access("app", Some(secret(b'q').as_slice()), &master), Err(ServiceError::InvalidCredential));
    assert_eq!(store.check_access("app", Some(secret(b'k').as_slice()), &master), Ok(()));
}

#[test]
fn master_gate() {
    let master = b"m".to_vec();
    assert_eq!(check_master(None, &master), Err(ServiceError::MissingCredential));
    assert_eq!(check_master(Some(&b"x"[..]), &master), Err(ServiceError::InvalidCredential));
    assert_eq!(check_master(Some(&b"m"[..]), &master), Ok(()));
}

#[test]
fn application_header_is_normalized_or_refused() {
    assert_eq!(application_from_header(None), Err(ServiceError::ValidationError));
    assert_eq!(application_from_header(Some(" \t ")), Err(ServiceError::ValidationError));
    assert_eq!(application_from_header(Some(" Payments API ")), Ok("payments-api".to_string()));
}
