use ugit::refs::Follow;
use ugit::refs::RefError;
use ugit::refs::RefStore;
use ugit::refs::RefTarget;
use ugit::refs::format_target;
use ugit::refs::get_oid;
use ugit::refs::get_ref;
use ugit::refs::get_ref_internal;
use ugit::refs::iter_refs;
use ugit::refs::oid_lookup_ends;
use ugit::refs::parse_ref_text;
use ugit::refs::resolves_within;
use ugit::refs::tags_resolve;
use ugit::refs::update_ref;

fn store_with(entries: &[(&str, &str)]) -> RefStore {
    let mut refs = RefStore::new();
    for (name, text) in entries {
        refs.insert_raw(name.to_string(), text.as_bytes().to_vec());
    }
    refs
}

#[test]
fn ref_text_is_trimmed_and_symbolic_marker_recognised() {
    match parse_ref_text("  abc123 \n") {
        RefTarget::Direct(v) => assert_eq!(v, "abc123"),
        RefTarget::Symbolic(_) => panic!("expected a direct ref"),
    }
    match parse_ref_text("ref:  refs/heads/master\n") {
        RefTarget::Symbolic(v) => assert_eq!(v, "refs/heads/master"),
        RefTarget::Direct(_) => panic!("expected a symbolic ref"),
    }
    match parse_ref_text("ref:refs/heads/master") {
        RefTarget::Direct(v) => assert_eq!(v, "ref:refs/heads/master"),
        RefTarget::Symbolic(_) => panic!("a marker without its space is not symbolic"),
    }
}

#[test]
fn written_ref_text() {
    assert_eq!(format_target(&RefTarget::Direct("abc".to_string())), "abc");
    assert_eq!(format_target(&RefTarget::Symbolic("refs/heads/x".to_string())), "ref: refs/heads/x");
}

#[test]
fn following_links_reaches_the_id() {
    let refs = store_with(&[("HEAD", "ref: refs/heads/master\n"), ("refs/heads/master", "c0ffee\n")]);
    assert_eq!(get_ref("HEAD", &Follow::IfSymbolic, &refs).unwrap(), "c0ffee");
    assert_eq!(get_ref("HEAD", &Follow::Never, &refs).unwrap(), "refs/heads/master");
    let (path, target) = get_ref_internal("HEAD", true, &refs).unwrap();
    assert_eq!(path, "refs/heads/master");
    assert!(matches!(target, Some(RefTarget::Direct(ref v)) if v == "c0ffee"));
}

#[test]
fn missing_refs() {
    let refs = store_with(&[("HEAD", "ref: refs/heads/master\n")]);
    assert!(matches!(get_ref("nothing", &Follow::Never, &refs), Err(RefError::DoesNotExist)));
    assert!(matches!(get_ref("nothing", &Follow::IfSymbolic, &refs), Err(RefError::NoOid)));
    assert!(matches!(get_ref("HEAD", &Follow::IfSymbolic, &refs), Err(RefError::NoOid)));
    let (path, target) = get_ref_internal("HEAD", true, &refs).unwrap();
    assert_eq!(path, "refs/heads/master");
    assert!(target.is_none());
}

#[test]
fn unreadable_ref() {
    let mut refs = RefStore::new();
    refs.insert_raw("bad".to_string(), vec![0xff, 0xfe]);
    match get_ref("bad", &Follow::Never, &refs) {
        Err(RefError::Unreadable(name)) => assert_eq!(name, "bad"),
        _ => panic!("expected an unreadable ref"),
    }
}

#[test]
fn update_follows_links_and_reads_back() {
    let mut refs = store_with(&[("HEAD", "ref: refs/heads/master\n")]);
    let written = update_ref("HEAD", &RefTarget::Direct("1234".to_string()), &Follow::IfSymbolic, &mut refs)
        .unwrap();
    assert_eq!(written, "refs/heads/master");
    assert_eq!(refs.raw("refs/heads/master").unwrap().as_slice(), b"1234");
    assert_eq!(get_ref("HEAD", &Follow::IfSymbolic, &refs).unwrap(), "1234");
    assert_eq!(get_ref("HEAD", &Follow::Never, &refs).unwrap(), "refs/heads/master");
}

#[test]
fn update_without_following_needs_the_ref() {
    let mut refs = RefStore::new();
    let r = update_ref("HEAD", &RefTarget::Direct("1".to_string()), &Follow::Never, &mut refs);
    assert!(matches!(r, Err(RefError::DoesNotExist)));
    assert_eq!(refs.len(), 0);
    let mut refs = store_with(&[("HEAD", "ref: refs/heads/master")]);
    let written = update_ref("HEAD", &RefTarget::Direct("9".to_string()), &Follow::Never, &mut refs).unwrap();
    assert_eq!(written, "HEAD");
    assert_eq!(get_ref("HEAD", &Follow::Never, &refs).unwrap(), "9");
}

#[test]
fn cycles_are_detected_before_resolving() {
    let refs = store_with(&[("a", "ref: b"), ("b", "ref: a"), ("c", "ref: a")]);
    assert!(!resolves_within("c", &Follow::IfSymbolic, &refs, refs.len() + 1));
    assert!(resolves_within("c", &Follow::Never, &refs, 1));
    let fine = store_with(&[("HEAD", "ref: x"), ("x", "1")]);
    assert!(resolves_within("HEAD", &Follow::IfSymbolic, &fine, 2));
    assert!(!resolves_within("HEAD", &Follow::IfSymbolic, &fine, 1));
}

#[test]
fn tags_are_listed_with_their_targets() {
    let refs = store_with(&[
        ("HEAD", "1111"),
        ("refs/tags/v1", "aaaa\n"),
        ("refs/tags/dir/v2", "bbbb"),
        ("refs/tags/v3", "ref: HEAD"),
    ]);
    let tags = iter_refs(Follow::IfSymbolic, &refs).unwrap();
    assert_eq!(tags, vec![("v1".to_string(), "aaaa".to_string()), ("v3".to_string(), "1111".to_string())]);
    let raw = iter_refs(Follow::Never, &refs).unwrap();
    assert_eq!(raw[1], ("v3".to_string(), "HEAD".to_string()));
}

#[test]
fn listing_tags_fails_on_a_tag_without_id() {
    let refs = store_with(&[("refs/tags/v1", "ref: refs/heads/none")]);
    assert!(matches!(iter_refs(Follow::IfSymbolic, &refs), Err(RefError::NoOid)));
}

#[test]
fn names_resolve_through_ref_directories() {
    let refs = store_with(&[
        ("refs/tags/first", "t1"),
        ("refs/heads/main", "h1"),
        ("refs/x", "r1"),
        ("top", "p1"),
    ]);
    assert_eq!(get_oid("first", &refs), "t1");
    assert_eq!(get_oid("main", &refs), "h1");
    assert_eq!(get_oid("x", &refs), "r1");
    assert_eq!(get_oid("top", &refs), "p1");
    assert_eq!(get_oid("deadbeef", &refs), "deadbeef");
}

#[test]
fn lookup_check_stops_where_get_oid_stops() {
    // the name itself resolves, so the looping `refs/tags/v` is never tried
    let refs = store_with(&[("v", "1"), ("refs/tags/v", "ref: refs/tags/v")]);
    assert!(oid_lookup_ends("v", &refs));
    assert_eq!(get_oid("v", &refs), "1");
    // here the name is missing and `refs/v` has no id, so the loop is reached
    let refs = store_with(&[("refs/v", "ref: none"), ("refs/tags/v", "ref: refs/tags/v")]);
    assert!(!oid_lookup_ends("v", &refs));
    assert!(oid_lookup_ends("other", &refs));
}

#[test]
fn tag_check_stops_where_listing_stops() {
    let refs = store_with(&[("refs/tags/a", "ref: none"), ("refs/tags/b", "ref: refs/tags/b")]);
    assert!(tags_resolve(Follow::IfSymbolic, &refs));
    assert!(matches!(iter_refs(Follow::IfSymbolic, &refs), Err(RefError::NoOid)));
    let refs = store_with(&[("refs/tags/b", "ref: refs/tags/b"), ("refs/tags/a", "1")]);
    assert!(!tags_resolve(Follow::IfSymbolic, &refs));
    assert!(tags_resolve(Follow::Never, &refs));
}

#[test]
fn symbolic_update_reads_back() {
    let mut refs = RefStore::new();
    update_ref("HEAD", &RefTarget::Symbolic("refs/heads/main".to_string()), &Follow::IfSymbolic, &mut refs).unwrap();
    assert_eq!(refs.raw("HEAD").unwrap().as_slice(), b"ref: refs/heads/main");
    assert_eq!(get_ref("HEAD", &Follow::Never, &refs).unwrap(), "refs/heads/main");
}
