use ugit::commit::Commit;
use ugit::commit::CommitError;
use ugit::commit::commit_text;
use ugit::commit::get_commit;
use ugit::commit::parse_commit_text;
use ugit::object::ObjectError;
use ugit::object::ObjectStore;
use ugit::object::ObjectType;
use ugit::object::hash_object;

#[test]
fn commit_display_text() {
    let c = Commit { tree: "t1".to_string(), parent: Some("p1".to_string()), message: "msg".to_string() };
    assert_eq!(c.to_text(), "tree t1\nparent p1\n\nmsg");
    let c = Commit { tree: "t1".to_string(), parent: None, message: "".to_string() };
    assert_eq!(c.to_text(), "tree t1\n\n");
}

#[test]
fn stored_commit_text() {
    assert_eq!(commit_text("t", Some("p"), "hello"), "tree t\nparent p\n\nhello\n");
    assert_eq!(commit_text("t", None, "a\nb"), "tree t\n\na\nb\n");
}

#[test]
fn commit_reads_back() {
    let text = commit_text("abc", Some("def"), "First message\n\nbody");
    let c = parse_commit_text(&text).unwrap();
    assert_eq!(c.tree, "abc");
    assert_eq!(c.parent, Some("def".to_string()));
    assert_eq!(c.message, "First message\n\nbody");
}

#[test]
fn header_details() {
    let c = parse_commit_text("parent a\ntree t\nparent b\n\nm").unwrap();
    assert_eq!(c.tree, "t");
    assert_eq!(c.parent, Some("b".to_string()));
    assert_eq!(c.message, "m");
    let c = parse_commit_text("tree t").unwrap();
    assert_eq!(c.message, "");
    let c = parse_commit_text("").unwrap();
    assert_eq!(c.tree, "");
    assert_eq!(c.parent, None);
}

#[test]
fn unknown_header_key() {
    match parse_commit_text("tree t\nauthor me\n\nm") {
        Err(CommitError::UnknownKey { line, text }) => {
            assert_eq!(line, 2);
            assert_eq!(text, "author me");
        }
        _ => panic!("expected an unknown key"),
    }
}

#[test]
fn malformed_header_line() {
    match parse_commit_text("tree a b\n\nm") {
        Err(CommitError::Malformed { line, text }) => {
            assert_eq!(line, 1);
            assert_eq!(text, "tree a b");
        }
        _ => panic!("expected a malformed line"),
    }
    assert!(matches!(parse_commit_text("tree\n"), Err(CommitError::Malformed { line: 1, .. })));
}

#[test]
fn commit_from_store() {
    let mut objects = ObjectStore::new();
    let text = commit_text("t", None, "m");
    let oid = hash_object(text.as_bytes(), ObjectType::Commit, &mut objects);
    let c = get_commit(&oid, &objects).unwrap();
    assert_eq!(c.tree, "t");
    assert!(matches!(get_commit("none", &objects), Err(CommitError::Object(ObjectError::NotFound))));
    let bad = hash_object(&[0xff], ObjectType::Commit, &mut objects);
    assert!(matches!(get_commit(&bad, &objects), Err(CommitError::InvalidUtf8)));
}

#[test]
fn displayed_commit_reads_back() {
    for (parent, message) in [(Some("p1"), "one\ntwo"), (None, ""), (None, "x")] {
        let c = Commit { tree: "t1".to_string(), parent: parent.map(|p| p.to_string()), message: message.to_string() };
        let back = parse_commit_text(&c.to_text()).unwrap();
        assert_eq!(back.tree, c.tree);
        assert_eq!(back.parent, c.parent);
        assert_eq!(back.message, c.message);
    }
}
