use ugit::object::ObjectStore;
use ugit::object::ObjectType;
use ugit::object::hash_object;
use ugit::tree::TreeError;
use ugit::tree::iter_tree_entries;
use ugit::tree::parse_tree_text;
use ugit::tree::sort_entries;
use ugit::tree::tree_text_of;

fn e(t: ObjectType, oid: &str, name: &str) -> (ObjectType, String, String) {
    (t, oid.to_string(), name.to_string())
}

#[test]
fn tree_text_lines() {
    let es = vec![e(ObjectType::Blob, "b1", "a.txt"), e(ObjectType::Tree, "t1", "src")];
    assert_eq!(tree_text_of(&es), "blob b1 a.txt\ntree t1 src\n");
}

#[test]
fn tree_text_reads_back() {
    let es = vec![e(ObjectType::Blob, "b1", "a.txt"), e(ObjectType::Tree, "t1", "src")];
    assert_eq!(parse_tree_text(&tree_text_of(&es)).unwrap(), es);
}

#[test]
fn short_lines_skipped_and_extra_words_ignored() {
    let es = parse_tree_text("blob x\n\nblob a b c d\n").unwrap();
    assert_eq!(es, vec![e(ObjectType::Blob, "a", "b")]);
}

#[test]
fn unsupported_entry_type() {
    match parse_tree_text("blob a b\ncommit c d\nfoo e f\n") {
        Err(TreeError::UnsupportedType(t)) => assert_eq!(t, "commit"),
        _ => panic!("expected an unsupported type"),
    }
}

#[test]
fn entries_sorted_by_name() {
    let es = vec![e(ObjectType::Blob, "1", "b"), e(ObjectType::Blob, "2", "a"), e(ObjectType::Tree, "3", "B"),
        e(ObjectType::Blob, "4", "ab")];
    let sorted = sort_entries(es);
    let names: Vec<&str> = sorted.iter().map(|x| x.2.as_str()).collect();
    assert_eq!(names, vec!["B", "a", "ab", "b"]);
}

#[test]
fn tree_from_store() {
    let mut objects = ObjectStore::new();
    let oid = hash_object(b"blob b1 a.txt\n", ObjectType::Tree, &mut objects);
    assert_eq!(iter_tree_entries(&oid, &objects).unwrap(), vec![e(ObjectType::Blob, "b1", "a.txt")]);
    let bad = hash_object(&[0xc3], ObjectType::Tree, &mut objects);
    assert!(matches!(iter_tree_entries(&bad, &objects), Err(TreeError::InvalidUtf8)));
}
