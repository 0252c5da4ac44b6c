use lumberjack::error::ServiceError;
use lumberjack::keychain::{
    append_new_key, decode_active_keys, encode_header_and_records, revoke_key, KeyRecord,
};

fn key(c: u8) -> Vec<u8> {
    vec![c; 64]
}

fn header(image: &[u8]) -> (u32, u32) {
    let v = u32::from_be_bytes([image[0], image[1], image[2], image[3]]);
    let c = u32::from_be_bytes([image[4], image[5], image[6], image[7]]);
    (v, c)
}

#[test]
fn round_trip_keeps_active_records_only() {
    let records = vec![
        KeyRecord { active: false, key: key(b'a') },
        KeyRecord { active: true, key: key(b'b') },
        KeyRecord { active: false, key: key(b'c') },
        KeyRecord { active: true, key: key(b'd') },
    ];
    let image = encode_header_and_records(&records);
    assert_eq!(image.len(), 8 + 4 * 65);
    assert_eq!(header(&image), (1, 2));
    assert_eq!(decode_active_keys(&image), Ok(vec![key(b'b'), key(b'd')]));
}

#[test]
fn round_trip_of_no_records() {
    let image = encode_header_and_records(&vec![]);
    assert_eq!(image, vec![0, 0, 0, 1, 0, 0, 0, 0]);
    assert_eq!(decode_active_keys(&image), Ok(vec![]));
}

#[test]
fn append_to_missing_keychain_writes_header_one_one() {
    let mut image = Vec::new();
    assert_eq!(append_new_key(&mut image, &key(b'x')), Ok(()));
    assert_eq!(image.len(), 73);
    assert_eq!(header(&image), (1, 1));
    assert_eq!(image[8], 1);
    assert_eq!(&image[9..], &key(b'x')[..]);
}

#[test]
fn appends_raise_count_by_exactly_their_number() {
    let mut image = Vec::new();
    for i in 0..5u8 {
        append_new_key(&mut image, &key(b'a' + i)).unwrap();
    }
    assert_eq!(header(&image), (1, 5));
    assert_eq!(image.len(), 8 + 5 * 65);
    let keys = decode_active_keys(&image).unwrap();
    assert_eq!(keys.len(), 5);
    assert_eq!(keys[4], key(b'e'));
}

#[test]
fn append_keeps_existing_records() {
    let mut image = Vec::new();
    append_new_key(&mut image, &key(b'a')).unwrap();
    let before = image.clone();
    append_new_key(&mut image, &key(b'b')).unwrap();
    assert_eq!(&image[8..73], &before[8..73]);
    assert_eq!(header(&image), (1, 2));
}

#[test]
fn append_refuses_short_key() {
    let mut image = Vec::new();
    assert_eq!(append_new_key(&mut image, &[b'a'; 10]), Err(ServiceError::ValidationError));
    assert!(image.is_empty());
}

#[test]
fn append_refuses_corrupt_image() {
    let mut image = vec![0, 0, 0, 2, 0, 0, 0, 0];
    assert_eq!(append_new_key(&mut image, &key(b'a')), Err(ServiceError::CorruptStore));
    let mut short = vec![0, 0, 0];
    assert_eq!(append_new_key(&mut short, &key(b'a')), Err(ServiceError::CorruptStore));
    let mut ragged = vec![0, 0, 0, 1, 0, 0, 0, 0, 1, 2];
    assert_eq!(append_new_key(&mut ragged, &key(b'a')), Err(ServiceError::CorruptStore));
    let mut full = vec![0, 0, 0, 1, 255, 255, 255, 255];
    assert_eq!(append_new_key(&mut full, &key(b'a')), Err(ServiceError::CorruptStore));
    assert_eq!(full, vec![0, 0, 0, 1, 255, 255, 255, 255]);
}

#[test]
fn decode_rejects_bad_version_short_header_and_missing_keys() {
    assert_eq!(decode_active_keys(&[0, 0, 0, 1]), Err(ServiceError::CorruptStore));
    assert_eq!(decode_active_keys(&[0, 0, 0, 2, 0, 0, 0, 0]), Err(ServiceError::CorruptStore));
    let mut image = Vec::new();
    append_new_key(&mut image, &key(b'a')).unwrap();
    image[7] = 2;
    assert_eq!(decode_active_keys(&image), Err(ServiceError::CorruptStore));
}

#[test]
fn decode_stops_once_count_is_reached() {
    let mut image = Vec::new();
    append_new_key(&mut image, &key(b'a')).unwrap();
    append_new_key(&mut image, &key(b'b')).unwrap();
    image[7] = 1;
    assert_eq!(decode_active_keys(&image), Ok(vec![key(b'a')]));
}

#[test]
fn revoke_tombstones_first_active_match() {
    let mut image = Vec::new();
    append_new_key(&mut image, &key(b'a')).unwrap();
    append_new_key(&mut image, &key(b'b')).unwrap();
    assert_eq!(revoke_key(&mut image, &key(b'b')), Ok(true));
    assert_eq!(header(&image), (1, 1));
    assert_eq!(image[8 + 65], 0);
    assert_eq!(image.len(), 8 + 2 * 65);
    assert_eq!(decode_active_keys(&image), Ok(vec![key(b'a')]));
}

#[test]
fn revoke_matches_trimmed_key() {
    let mut image = Vec::new();
    append_new_key(&mut image, &key(b'a')).unwrap();
    let mut target = b"  ".to_vec();
    target.extend_from_slice(&key(b'a'));
    target.extend_from_slice(b"\n");
    assert_eq!(revoke_key(&mut image, &target), Ok(true));
    assert_eq!(decode_active_keys(&image), Ok(vec![]));
}

#[test]
fn revoke_unknown_key_is_noop() {
    let mut image = Vec::new();
    append_new_key(&mut image, &key(b'a')).unwrap();
    let before = image.clone();
    assert_eq!(revoke_key(&mut image, &key(b'z')), Ok(false));
    assert_eq!(image, before);
}

#[test]
fn revoke_inactive_key_is_noop() {
    let mut image = Vec::new();
    append_new_key(&mut image, &key(b'a')).unwrap();
    append_new_key(&mut image, &key(b'b')).unwrap();
    revoke_key(&mut image, &key(b'a')).unwrap();
    let before = image.clone();
    assert_eq!(revoke_key(&mut image, &key(b'a')), Ok(false));
    assert_eq!(image, before);
    assert_eq!(header(&image), (1, 1));
}

#[test]
fn revoke_on_corrupt_image_fails() {
    let mut image = vec![0, 0, 0, 9, 0, 0, 0, 0];
    assert_eq!(revoke_key(&mut image, &key(b'a')), Err(ServiceError::CorruptStore));
    let mut inconsistent = vec![0, 0, 0, 1, 0, 0, 0, 0, 1];
    inconsistent.extend_from_slice(&key(b'a'));
    assert_eq!(revoke_key(&mut inconsistent, &key(b'a')), Err(ServiceError::CorruptStore));
    assert_eq!(inconsistent[8], 1);
}
