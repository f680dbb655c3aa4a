use ugit::object::ObjectStore;
use ugit::refs::Follow;
use ugit::refs::RefStore;
use ugit::refs::get_oid;
use ugit::refs::get_ref;
use ugit::refs::iter_refs;
use ugit::repo::CheckoutError;
use ugit::repo::checkout;
use ugit::repo::checkout_ok;
use ugit::repo::history_ok;
use ugit::repo::create_commit;
use ugit::repo::create_tag;
use ugit::repo::log;
use ugit::object::ObjectError;
use ugit::repo::LogError;
use ugit::commit::CommitError;
use ugit::tree::ReadTreeError;
use ugit::tree::RestoreStep;
use ugit::tree::read_tree;
use ugit::tree::read_tree_ok;
use ugit::worktree::WorkEntry;
use ugit::worktree::empty_working_dir;
use ugit::worktree::get_ignored_files;
use ugit::worktree::write_tree;

fn file(name: &str, content: &str) -> WorkEntry {
    WorkEntry::File { name: name.to_string(), content: content.as_bytes().to_vec() }
}

fn dir(name: &str, entries: Vec<WorkEntry>) -> WorkEntry {
    WorkEntry::Dir { name: name.to_string(), entries }
}

const IGNORE_FILE: &str = ".ugit/\n .ugitignore\n src/utils/helper_ignored.rs\n";

/// The working tree of a fresh repository with some files, and its
/// ignore file.
fn create_test_file_structure() -> Vec<WorkEntry> {
    vec![
        dir(".ugit", vec![dir("objects", vec![]), dir("refs", vec![])]),
        file("file1.txt", "Hello, World!"),
        file("file2.txt", "Test content"),
        file("README.md", "# My Project\n\nThis is a test."),
        dir(
            "src",
            vec![
                file("main.rs", "fn main() {\n    println!(\"Hello\");\n}"),
                file("lib.rs", "pub fn add(a: i32, b: i32) -> i32 {\n    a + b\n}"),
                dir(
                    "utils",
                    vec![
                        file("helper.rs", "pub fn helper() {}"),
                        file("helper_ignored.rs", "pub fn helper_ignored() {}"),
                    ],
                ),
            ],
        ),
        file(".ugitignore", IGNORE_FILE),
    ]
}

/// The paths of the working tree that are not ignored.
fn get_repository_contents(entries: &Vec<WorkEntry>, ignored: &Vec<String>) -> Vec<String> {
    empty_working_dir(entries, "", ignored).into_iter().map(|(p, _)| p).collect()
}

/// The paths present after restoring.
fn restored_paths(steps: &[RestoreStep]) -> Vec<String> {
    let mut v: Vec<String> = steps
        .iter()
        .map(|s| match s {
            RestoreStep::Dir(p) => p.clone(),
            RestoreStep::File(p, _) => p.clone(),
        })
        .collect();
    v.sort();
    v.dedup();
    v
}

#[test]
fn test_writing_tree() {
    let mut objects = ObjectStore::new();
    let entries = create_test_file_structure();
    let ignored = get_ignored_files(IGNORE_FILE);

    let tree_oid = write_tree(&entries, "", &ignored, &mut objects);

    println!("Tree OID: {}", tree_oid);
    assert!(!tree_oid.is_empty());

    assert!(objects.contains(&tree_oid));
}

#[test]
fn test_reading_tree() {
    let mut objects = ObjectStore::new();
    let entries = create_test_file_structure();
    let ignored = get_ignored_files(IGNORE_FILE);

    let mut entries_before = get_repository_contents(&entries, &ignored);
    entries_before.sort();
    let tree_oid = write_tree(&entries, "", &ignored, &mut objects);
    let steps = read_tree(&tree_oid, &objects).unwrap();
    let entries_after = restored_paths(&steps);

    assert_eq!(entries_before, entries_after);
}

#[test]
fn test_create_and_checkout_integrity() {
    let mut objects = ObjectStore::new();
    let mut refs = RefStore::new();
    let mut entries = create_test_file_structure();
    let ignored = get_ignored_files(IGNORE_FILE);

    // first commit
    let first_oid =
        create_commit("First message".to_string(), &entries, &ignored, &mut objects, &mut refs).unwrap();
    let mut state_one = get_repository_contents(&entries, &ignored);
    state_one.sort();

    // add extra file and create second commit
    entries.push(file("extra.txt", "new content"));
    let second_oid =
        create_commit("Second message".to_string(), &entries, &ignored, &mut objects, &mut refs).unwrap();
    let mut state_two = get_repository_contents(&entries, &ignored);
    state_two.sort();

    // checkout first commit and compare file system
    let steps = checkout(&first_oid, &objects, &mut refs).unwrap();
    let current_entries = restored_paths(&steps);

    assert_eq!(get_ref("HEAD", &Follow::IfSymbolic, &refs).unwrap(), first_oid);
    assert_eq!(current_entries, state_one, "FS should match first commit state");

    // checkout second commit
    let steps = checkout(&second_oid, &objects, &mut refs).unwrap();
    let current_entries = restored_paths(&steps);

    assert_eq!(get_ref("HEAD", &Follow::IfSymbolic, &refs).unwrap(), second_oid);
    assert_eq!(current_entries, state_two, "FS should match Second Commit state");
}

#[test]
fn test_k() {
    let mut objects = ObjectStore::new();
    let mut refs = RefStore::new();
    let mut entries = create_test_file_structure();
    let ignored = get_ignored_files(IGNORE_FILE);

    // first commit
    let first_oid =
        create_commit("first message".to_string(), &entries, &ignored, &mut objects, &mut refs).unwrap();
    create_tag("first commit", &first_oid, &mut refs).unwrap();
    // add extra file and create second commit
    entries.push(file("extra.txt", "new content"));
    let second_oid =
        create_commit("second message".to_string(), &entries, &ignored, &mut objects, &mut refs).unwrap();
    create_tag("second commit", &second_oid, &mut refs).unwrap();

    iter_refs(Follow::IfSymbolic, &refs).unwrap();
}

#[test]
fn test_tags() {
    let mut objects = ObjectStore::new();
    let mut refs = RefStore::new();
    let mut entries = create_test_file_structure();
    let ignored = get_ignored_files(IGNORE_FILE);

    // first commit
    let first_oid =
        create_commit("first message".to_string(), &entries, &ignored, &mut objects, &mut refs).unwrap();
    create_tag("first commit", &first_oid, &mut refs).unwrap();
    let mut state_one = get_repository_contents(&entries, &ignored);
    state_one.sort();

    // add extra file and create second commit
    entries.push(file("extra.txt", "new content"));
    let second_oid =
        create_commit("second message".to_string(), &entries, &ignored, &mut objects, &mut refs).unwrap();
    create_tag("second commit", &second_oid, &mut refs).unwrap();
    let mut _state_two = get_repository_contents(&entries, &ignored);
    _state_two.sort();

    // checkout first commit and compare file system
    let steps = checkout(&get_oid("first commit", &refs), &objects, &mut refs).unwrap();
    let current_entries = restored_paths(&steps);

    assert_eq!(get_ref("first_commit", &Follow::IfSymbolic, &refs).unwrap(), first_oid);
    assert_eq!(current_entries, state_one, "FS should match first commit state");
}

#[test]
fn restored_files_keep_their_content() {
    let mut objects = ObjectStore::new();
    let entries = create_test_file_structure();
    let ignored = get_ignored_files(IGNORE_FILE);
    let tree_oid = write_tree(&entries, "", &ignored, &mut objects);
    let steps = read_tree(&tree_oid, &objects).unwrap();
    let helper = steps.iter().find_map(|s| match s {
        RestoreStep::File(p, c) if p == "src/utils/helper.rs" => Some(c.clone()),
        _ => None,
    });
    assert_eq!(helper, Some(b"pub fn helper() {}".to_vec()));
    assert!(steps.iter().any(|s| matches!(s, RestoreStep::Dir(p) if p == "src/utils")));
    assert!(!steps.iter().any(|s| matches!(s, RestoreStep::File(p, _) if p.contains("helper_ignored"))));
    assert!(!steps.iter().any(|s| matches!(s, RestoreStep::Dir(p) if p.starts_with(".ugit"))));
}

#[test]
fn commits_chain_to_their_parents() {
    let mut objects = ObjectStore::new();
    let mut refs = RefStore::new();
    refs.insert_raw("HEAD".to_string(), b"ref: refs/heads/master\n".to_vec());
    let entries = vec![file("a", "1")];
    let ignored: Vec<String> = Vec::new();
    let first = create_commit("one".to_string(), &entries, &ignored, &mut objects, &mut refs).unwrap();
    let second = create_commit("two\nlines".to_string(), &entries, &ignored, &mut objects, &mut refs).unwrap();
    assert_eq!(get_ref("refs/heads/master", &Follow::Never, &refs).unwrap(), second);
    let history = log("HEAD", &objects, &refs).unwrap();
    assert_eq!(history.len(), 2);
    assert_eq!(history[0].0, second);
    assert_eq!(history[0].1, vec!["two".to_string(), "lines".to_string()]);
    assert_eq!(history[1].0, first);
    assert_eq!(history[1].1, vec!["one".to_string()]);
}

#[test]
fn log_of_an_id_is_not_a_reference() {
    let objects = ObjectStore::new();
    let refs = RefStore::new();
    assert!(log("abcdef", &objects, &refs).is_err());
}

#[test]
fn tags_name_commits() {
    let mut objects = ObjectStore::new();
    let mut refs = RefStore::new();
    let entries = vec![file("a", "1")];
    let ignored: Vec<String> = Vec::new();
    let first = create_commit("one".to_string(), &entries, &ignored, &mut objects, &mut refs).unwrap();
    create_tag("v1", &first, &mut refs).unwrap();
    assert_eq!(get_oid("v1", &refs), first);
    assert_eq!(iter_refs(Follow::IfSymbolic, &refs).unwrap(), vec![("v1".to_string(), first.clone())]);
}

#[test]
fn checkout_of_a_missing_commit_fails() {
    let objects = ObjectStore::new();
    let mut refs = RefStore::new();
    assert!(matches!(checkout("nothing", &objects, &mut refs), Err(CheckoutError::Commit(_))));
    assert_eq!(refs.len(), 0);
}

#[test]
fn ignore_file_paths_are_normalized() {
    let ignored = get_ignored_files(".ugit/\n .ugitignore\n\n ./src//utils/x.rs \n/abs\n");
    assert_eq!(ignored, vec![".ugit", ".ugitignore", "src/utils/x.rs", "/abs"]);
}

#[test]
fn clearing_goes_deepest_first_and_skips_ignored() {
    let entries = vec![dir("d", vec![file("x", "1"), file("y", "2")]), file("z", "3")];
    let ignored = vec!["d/y".to_string()];
    let plan = empty_working_dir(&entries, "", &ignored);
    assert_eq!(
        plan,
        vec![("d/x".to_string(), false), ("d".to_string(), true), ("z".to_string(), false)]
    );
}

#[test]
fn history_checks_accept_a_chain_and_refuse_a_cycle() {
    let mut objects = ObjectStore::new();
    let mut refs = RefStore::new();
    let entries = vec![file("a", "1")];
    let ignored: Vec<String> = Vec::new();
    let first = create_commit("one".to_string(), &entries, &ignored, &mut objects, &mut refs).unwrap();
    let second = create_commit("two".to_string(), &entries, &ignored, &mut objects, &mut refs).unwrap();
    assert!(history_ok(&second, &objects));
    assert!(history_ok(&first, &objects));
    assert!(history_ok("missing", &objects));
    // a commit that names itself as its parent
    objects.insert_raw("loop".to_string(), b"commit\0tree t\nparent loop\n\nm\n".to_vec());
    assert!(!history_ok("loop", &objects));
    // a blob read as a commit ends the history with an error
    objects.insert_raw("blob".to_string(), b"blob\0data".to_vec());
    assert!(history_ok("blob", &objects));
}

#[test]
fn checkout_check_looks_at_commit_and_tree() {
    let mut objects = ObjectStore::new();
    let mut refs = RefStore::new();
    let entries = vec![file("a", "1")];
    let ignored: Vec<String> = Vec::new();
    let first = create_commit("one".to_string(), &entries, &ignored, &mut objects, &mut refs).unwrap();
    assert!(checkout_ok(&first, &objects));
    assert!(checkout_ok("missing", &objects));
    objects.insert_raw("c".to_string(), b"commit\0tree b\n\nm\n".to_vec());
    objects.insert_raw("b".to_string(), b"blob\0x".to_vec());
    assert!(checkout_ok("c", &objects));
    assert!(checkout_ok("b", &objects));
    objects.insert_raw("d".to_string(), b"commit\0tree t\n\nm\n".to_vec());
    objects.insert_raw("t".to_string(), b"tree\0tree t sub\n".to_vec());
    assert!(!checkout_ok("d", &objects));
}

#[test]
fn tree_check_refuses_cycles_and_mistyped_blobs() {
    let mut objects = ObjectStore::new();
    objects.insert_raw("t".to_string(), b"tree\0tree t sub\n".to_vec());
    assert!(!read_tree_ok("t", &objects));
    objects.insert_raw("u".to_string(), b"tree\0blob c file\n".to_vec());
    objects.insert_raw("c".to_string(), b"commit\0x".to_vec());
    assert!(read_tree_ok("u", &objects));
    assert!(matches!(
        read_tree("u", &objects),
        Err(ReadTreeError::Object(ObjectError::WrongType))
    ));
    objects.insert_raw("w".to_string(), b"tree\0blob missing file\ntree none dir\n".to_vec());
    assert!(read_tree_ok("w", &objects));
    assert!(read_tree_ok("absent", &objects));
}

#[test]
fn wrong_types_are_errors() {
    let mut objects = ObjectStore::new();
    let mut refs = RefStore::new();
    let entries = vec![file("a", "1")];
    let ignored: Vec<String> = Vec::new();
    let first = create_commit("one".to_string(), &entries, &ignored, &mut objects, &mut refs).unwrap();
    // a commit whose parent names a blob
    objects.insert_raw("blob".to_string(), b"blob\0data".to_vec());
    let text = format!("commit\0tree x\nparent blob\n\nm\n");
    objects.insert_raw("child".to_string(), text.into_bytes());
    refs.insert_raw("refs/heads/w".to_string(), b"child".to_vec());
    assert!(matches!(
        log("refs/heads/w", &objects, &refs),
        Err(LogError::Commit(CommitError::Object(ObjectError::WrongType)))
    ));
    // checking out a blob is an error, and HEAD stays
    assert!(matches!(
        checkout("blob", &objects, &mut refs),
        Err(CheckoutError::Commit(CommitError::Object(ObjectError::WrongType)))
    ));
    assert_eq!(get_ref("HEAD", &Follow::IfSymbolic, &refs).unwrap(), first);
}

#[test]
fn checkout_of_a_missing_commit_needs_no_head() {
    let objects = ObjectStore::new();
    let mut refs = RefStore::new();
    refs.insert_raw("HEAD".to_string(), b"ref: HEAD".to_vec());
    assert!(matches!(checkout("nothing", &objects, &mut refs), Err(CheckoutError::Commit(_))));
}

#[test]
fn tags_go_under_refs_tags() {
    let mut refs = RefStore::new();
    create_tag("v1", "abc", &mut refs).unwrap();
    assert_eq!(get_ref("refs/tags/v1", &Follow::Never, &refs).unwrap(), "abc");
    assert_eq!(get_ref("v1", &Follow::Never, &refs).unwrap(), "abc");
    assert_eq!(iter_refs(Follow::IfSymbolic, &refs).unwrap(), vec![("v1".to_string(), "abc".to_string())]);
    assert_eq!(get_oid("v1", &refs), "abc");
}

#[test]
fn ignored_paths_are_listed_once() {
    let ignored = get_ignored_files("a\n./a\nb\na/\n");
    assert_eq!(ignored, vec!["a", "b"]);
}

#[test]
fn tree_id_ignores_order_and_ignored_entries() {
    let ignored = vec!["skip".to_string()];
    let mut o1 = ObjectStore::new();
    let a = write_tree(&vec![file("x", "1"), dir("d", vec![file("y", "2")])], "", &ignored, &mut o1);
    let mut o2 = ObjectStore::new();
    let b = write_tree(&vec![dir("d", vec![file("y", "2")]), file("skip", "?"), file("x", "1")], "", &ignored, &mut o2);
    assert_eq!(a, b);
    assert_eq!(a.len(), 40);
}

#[test]
fn written_tree_lists_its_entries_sorted() {
    let mut objects = ObjectStore::new();
    let entries = vec![file("b", "2"), file("a", "1"), dir("c", vec![file("z", "3")])];
    let ignored: Vec<String> = Vec::new();
    let tid = write_tree(&entries, "", &ignored, &mut objects);
    let listed = ugit::tree::iter_tree_entries(&tid, &objects).unwrap();
    let names: Vec<&str> = listed.iter().map(|e| e.2.as_str()).collect();
    assert_eq!(names, vec!["a", "b", "c"]);
    assert_eq!(ugit::object::get_object(&listed[0].1, ugit::object::ObjectType::Blob, &objects).unwrap(), b"1");
    let walked = ugit::tree::get_tree(&tid, "", &objects).unwrap();
    let steps = read_tree(&tid, &objects).unwrap();
    assert_eq!(walked.len(), steps.len());
    for (w, s) in walked.iter().zip(steps.iter()) {
        match s {
            RestoreStep::File(p, _) => assert_eq!(p, &w.0),
            RestoreStep::Dir(p) => assert_eq!(p, &w.0),
        }
    }
}

#[test]
fn log_text_layout() {
    let entries = vec![
        ("c2".to_string(), vec!["two".to_string(), "lines".to_string()]),
        ("c1".to_string(), vec![]),
    ];
    assert_eq!(
        ugit::repo::log_text(&entries, "commit"),
        "commit c2\n     | two\n     | lines\n     |\n\ncommit c1\n     |\n\n"
    );
    assert_eq!(ugit::repo::log_text(&Vec::new(), "commit"), "");
}

#[test]
fn tree_id_ignores_changes_under_ignored_paths() {
    let ignored = vec!["d/skip".to_string()];
    let mut o1 = ObjectStore::new();
    let a = write_tree(
        &vec![dir("d", vec![file("y", "2"), dir("skip", vec![file("z", "old")])])],
        "",
        &ignored,
        &mut o1,
    );
    let mut o2 = ObjectStore::new();
    let b = write_tree(
        &vec![dir("d", vec![dir("skip", vec![file("z", "new"), file("w", "more")]), file("y", "2")])],
        "",
        &ignored,
        &mut o2,
    );
    assert_eq!(a, b);
}
