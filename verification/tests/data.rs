use ugit::object::ObjectError;
use ugit::object::ObjectStore;
use ugit::object::ObjectType;
use ugit::object::decode_object;
use ugit::object::encode_object;
use ugit::object::get_object;
use ugit::object::hash_object;
use ugit::object::header_names_other_type;

#[test]
fn test_hash_object() {
    let mut objects = ObjectStore::new();

    let content = "Hello world!";

    let oid = hash_object(content.as_bytes(), ObjectType::Blob, &mut objects);

    assert!(objects.contains(&oid));

    let retrieved =
        get_object(oid.as_str(), ObjectType::Blob, &objects).expect("Failed to retrieve object");

    assert_eq!(retrieved, content.as_bytes());
}

#[test]
fn object_id_is_sha1_of_header_and_content() {
    let mut objects = ObjectStore::new();
    let oid = hash_object(b"Hello world!", ObjectType::Blob, &mut objects);
    assert_eq!(oid, "e31e6d3746ef67dd874637b527f4b6e8ed7d1095");
    let empty = hash_object(b"", ObjectType::Blob, &mut objects);
    assert_eq!(empty, "48ede76ef68a65b7292840b4ad4d1f111359d82a");
    assert_eq!(objects.len(), 2);
}

#[test]
fn stored_object_has_type_header() {
    let mut objects = ObjectStore::new();
    let oid = hash_object(b"abc", ObjectType::Tree, &mut objects);
    assert_eq!(objects.raw(&oid).unwrap().as_slice(), b"tree\0abc");
    assert_eq!(encode_object(b"x", ObjectType::Commit), b"commit\0x".to_vec());
}

#[test]
fn type_names() {
    assert_eq!(ObjectType::Blob.as_str(), "blob");
    assert_eq!(ObjectType::Tree.as_str(), "tree");
    assert_eq!(ObjectType::Commit.as_str(), "commit");
    assert_eq!(ObjectType::Blob._as_bytes(), b"blob");
    assert_eq!(ObjectType::Commit._as_bytes(), b"commit");
}

#[test]
fn missing_object_is_not_found() {
    let objects = ObjectStore::new();
    assert_eq!(get_object("0000", ObjectType::Blob, &objects), Err(ObjectError::NotFound));
}

#[test]
fn object_without_nul_is_rejected() {
    assert_eq!(decode_object(b"blob content", ObjectType::Blob), Err(ObjectError::MissingNul));
    let mut objects = ObjectStore::new();
    objects.insert_raw("ab".to_string(), b"nonul".to_vec());
    assert_eq!(get_object("ab", ObjectType::Blob, &objects), Err(ObjectError::MissingNul));
}

#[test]
fn object_with_invalid_header_is_rejected() {
    assert_eq!(decode_object(&[0xff, 0xfe, 0, 1], ObjectType::Blob), Err(ObjectError::InvalidHeader));
}

#[test]
fn content_after_first_nul_is_kept_whole() {
    assert_eq!(decode_object(b"blob\0a\0b", ObjectType::Blob), Ok(b"a\0b".to_vec()));
    assert_eq!(decode_object(b"tree\0", ObjectType::Tree), Ok(Vec::new()));
}

#[test]
fn header_of_other_type_is_detected() {
    assert!(header_names_other_type(b"tree\0x", ObjectType::Blob));
    assert!(!header_names_other_type(b"blob\0x", ObjectType::Blob));
    assert!(!header_names_other_type(&[0xff, 0], ObjectType::Blob));
    assert!(!header_names_other_type(b"no nul", ObjectType::Blob));
}


#[test]
fn reading_as_another_type_is_an_error() {
    let mut store = ObjectStore::new();
    let oid = hash_object(b"abc", ObjectType::Blob, &mut store);
    assert_eq!(oid.len(), 40);
    assert_eq!(get_object(&oid, ObjectType::Tree, &store), Err(ObjectError::WrongType));
    assert_eq!(decode_object(b"tree\0x", ObjectType::Blob), Err(ObjectError::WrongType));
}
