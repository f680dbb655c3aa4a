//! Repository operations: committing the working tree, checking out a
//! commit, walking history and tagging.

use vstd::prelude::*;
use vstd::utf8::encode_utf8;
use crate::commit::Commit;
use crate::commit::CommitError;
use crate::commit::CommitErrorView;
use crate::commit::CommitView;
use crate::commit::commit_at;
use crate::commit::commit_record;
use crate::commit::commit_text;
use crate::commit::get_commit;
use crate::object::ObjectStore;
use crate::object::ObjectType;
use crate::object::hash_object;
use crate::object::object_bytes;
use crate::object::object_id;
use crate::refs::Follow;
use crate::refs::RefError;
use crate::refs::RefErrorView;
use crate::refs::RefStore;
use crate::refs::RefTarget;
use crate::refs::Resolution;
use crate::refs::TargetView;
use crate::refs::format_ref;
use crate::refs::get_ref;
use crate::refs::get_ref_result;
use crate::refs::resolved;
use crate::refs::tags_prefix;
use crate::refs::string_bytes;
use crate::refs::terminates;
use crate::refs::update_ref;
use crate::table::TableView;
use crate::table::store;
use crate::tree::ReadTreeError;
use crate::tree::ReadTreeErrorView;
use crate::tree::StepView;
use crate::tree::read_tree;
use crate::tree::read_tree_plan;
use crate::tree::step_views;
use crate::tree::RestoreStep;
use crate::worktree::WorkEntry;
use crate::worktree::dir_objects;
use crate::worktree::store_all;
use crate::worktree::string_views;
use crate::worktree::write_tree;

verus! {

/// The name `HEAD`.
pub open spec fn head_name() -> Seq<char> {
    seq!['H', 'E', 'A', 'D']
}

/// The parent of a new commit: what `HEAD` resolves to, if anything.
pub open spec fn head_parent(refs: TableView) -> Option<Seq<char>> {
    match get_ref_result(refs, head_name(), Follow::IfSymbolic) {
        Ok(v) => Some(v),
        Err(_) => None,
    }
}

/// The `HEAD` literal, with what it holds.
fn head() -> (r: &'static str)
    ensures
        r@ == head_name(),
{
    proof {
        reveal_strlit("HEAD");
    }
    let r = "HEAD";
    assert(r@ =~= head_name());
    r
}

/// Commits the working tree: writes its tree, then a commit of that tree
/// whose parent is what `HEAD` resolves to (if anything) and whose message
/// is `message`, and points `HEAD` (following links) at the commit.
/// Returns the commit's id.
pub fn create_commit(
    message: String,
    entries: &Vec<WorkEntry>,
    ignored: &Vec<String>,
    objects: &mut ObjectStore,
    refs: &mut RefStore,
) -> (r: Result<String, RefError>)
    requires
        old(objects).wf(),
        old(refs).wf(),
        terminates(old(refs)@, head_name(), true),
    ensures
        final(objects).wf(),
        final(refs).wf(),
        r matches Ok(cid) ==> cid@.len() == 40 && crate::text::is_word(cid@),
        r matches Ok(cid) ==> terminates(final(refs)@, head_name(), true) && get_ref_result(
            final(refs)@,
            head_name(),
            Follow::IfSymbolic,
        ) == Ok::<Seq<char>, RefErrorView>(cid@),
        r matches Ok(cid) ==> (!message@.contains('\r') && (head_parent(old(refs)@) matches Some(p)
            ==> crate::text::is_word(p)) ==> commit_at(final(objects)@, cid@) == Ok::<
            CommitView,
            CommitErrorView,
        >(
            CommitView {
                tree: dir_objects(entries@, seq![], string_views(ignored@)).0,
                parent: head_parent(old(refs)@),
                message: message@,
            },
        )),
        ({
            let (tid, ws) = dir_objects(entries@, seq![], string_views(ignored@));
            let content = encode_utf8(commit_record(tid, head_parent(old(refs)@), message@));
            let cid = object_id(ObjectType::Commit, content);
            &&& final(objects)@ == store(
                store_all(old(objects)@, ws),
                cid,
                object_bytes(ObjectType::Commit, content),
            )
            &&& match resolved(old(refs)@, head_name(), true) {
                Resolution::Found(p, _) => r is Ok && r->Ok_0@ == cid && final(refs)@ == store(
                    old(refs)@,
                    p,
                    encode_utf8(cid),
                ),
                Resolution::Unreadable(n) => r is Err && r->Err_0@ == RefErrorView::Unreadable(n)
                    && final(refs)@ == old(refs)@,
                _ => false,
            }
        }),
{
    let top = "";
    proof {
        reveal_strlit("");
        assert(top@ =~= Seq::<char>::empty());
        crate::refs::lemma_resolved_deref(refs@, head_name());
    }
    let tree_hash = write_tree(entries, top, ignored, objects);
    let head_ref = get_ref(head(), &Follow::IfSymbolic, refs);
    let text = match &head_ref {
        Ok(parent) => commit_text(tree_hash.as_str(), Some(parent.as_str()), message.as_str()),
        Err(_) => commit_text(tree_hash.as_str(), None, message.as_str()),
    };
    let bytes = string_bytes(&text);
    let commit_oid = hash_object(bytes.as_slice(), ObjectType::Commit, objects);
    let ghost refs0 = refs@;
    let target = RefTarget::Direct(commit_oid.clone());
    proof {
        let tid = tree_hash@;
        let parent = head_parent(refs0);
        let record = commit_record(tid, parent, message@);
        let ws = dir_objects(entries@, seq![], string_views(ignored@)).1;
        crate::worktree::lemma_store_all_unique(old(objects)@, ws);
        crate::object::law_get_after_hash(store_all(old(objects)@, ws), encode_utf8(record), ObjectType::Commit);
        vstd::utf8::encode_utf8_valid_utf8(record);
        vstd::utf8::encode_utf8_decode_utf8(record);
        if !message@.contains('\r') && (parent matches Some(p) ==> crate::text::is_word(p)) {
            crate::commit::law_commit_roundtrip(tid, parent, message@);
        }
        lemma_word_not_symbolic(commit_oid@);
        if resolved(refs0, head_name(), true) is Found {
            crate::refs::law_get_after_update(refs0, head_name(), commit_oid@, Follow::IfSymbolic);
            assert(format_ref(TargetView::Direct(commit_oid@)) == commit_oid@);
        }
    }
    match update_ref(head(), &target, &Follow::IfSymbolic, refs) {
        Err(e) => Err(e),
        Ok(_) => Ok(commit_oid),
    }
}

/// Why a checkout failed.
#[derive(Debug)]
pub enum CheckoutError {
    /// The commit could not be read.
    Commit(CommitError),
    /// Its tree could not be restored.
    Tree(ReadTreeError),
    /// `HEAD` could not be updated.
    Ref(RefError),
}

/// Checks out the commit `oid`: the steps that restore its tree (after the
/// working directory is cleared), with `HEAD` (following links) pointed at
/// the commit.
pub fn checkout(oid: &str, objects: &ObjectStore, refs: &mut RefStore) -> (r: Result<
    Vec<RestoreStep>,
    CheckoutError,
>)
    requires
        objects.wf(),
        old(refs).wf(),
        commit_at(objects@, oid@) matches Ok(c) ==> read_tree_plan(objects@, c.tree) is Some,
        commit_at(objects@, oid@) matches Ok(c) ==> (read_tree_plan(objects@, c.tree) matches Some(
            Ok(_),
        ) ==> terminates(old(refs)@, head_name(), true)),
    ensures
        final(refs).wf(),
        r is Ok && crate::text::is_word(oid@) ==> terminates(final(refs)@, head_name(), true)
            && get_ref_result(final(refs)@, head_name(), Follow::IfSymbolic) == Ok::<
            Seq<char>,
            RefErrorView,
        >(oid@),
        match commit_at(objects@, oid@) {
            Err(e) => r is Err && r->Err_0 is Commit && r->Err_0->Commit_0@ == e && final(refs)@
                == old(refs)@,
            Ok(c) => match read_tree_plan(objects@, c.tree) {
                Some(Err(e)) => r is Err && r->Err_0 is Tree && r->Err_0->Tree_0@ == e
                    && final(refs)@ == old(refs)@,
                Some(Ok(steps)) => match resolved(old(refs)@, head_name(), true) {
                    Resolution::Found(p, _) => r is Ok && step_views(r->Ok_0@) == steps
                        && final(refs)@ == store(old(refs)@, p, encode_utf8(oid@)),
                    Resolution::Unreadable(n) => r is Err && r->Err_0 is Ref && r->Err_0->Ref_0@
                        == RefErrorView::Unreadable(n) && final(refs)@ == old(refs)@,
                    _ => false,
                },
                None => false,
            },
        },
{
    let commit = match get_commit(oid, objects) {
        Err(e) => {
            return Err(CheckoutError::Commit(e));
        },
        Ok(c) => c,
    };
    let steps = match read_tree(commit.tree.as_str(), objects) {
        Err(e) => {
            return Err(CheckoutError::Tree(e));
        },
        Ok(s) => s,
    };
    proof {
        crate::refs::lemma_resolved_deref(refs@, head_name());
        if crate::text::is_word(oid@) && resolved(refs@, head_name(), true) is Found {
            lemma_word_not_symbolic(oid@);
            crate::refs::law_get_after_update(refs@, head_name(), oid@, Follow::IfSymbolic);
            assert(format_ref(TargetView::Direct(oid@)) == oid@);
        }
    }
    let target = RefTarget::Direct(crate::text::string_from(crate::text::chars_of(oid).as_slice()));
    match update_ref(head(), &target, &Follow::IfSymbolic, refs) {
        Err(e) => Err(CheckoutError::Ref(e)),
        Ok(_) => Ok(steps),
    }
}

/// The plain reference name under which a tag is also written: its name
/// with each space written as `_`.
pub open spec fn tag_alias(name: Seq<char>) -> Seq<char> {
    Seq::new(name.len(), |i: int| if name[i] == ' ' { '_' } else { name[i] })
}

/// The plain reference name of a tag.
fn tag_alias_of(name: &str) -> (r: String)
    ensures
        r@ == tag_alias(name@),
{
    let chars = crate::text::chars_of(name);
    let mut out: Vec<char> = Vec::new();
    let mut i: usize = 0;
    while i < chars.len()
        invariant
            i <= chars@.len(),
            chars@ == name@,
            out@ == tag_alias(name@).take(i as int),
        decreases chars@.len() - i,
    {
        let c = if chars[i] == ' ' { '_' } else { chars[i] };
        out.push(c);
        assert(out@ =~= tag_alias(name@).take(i + 1));
        i = i + 1;
    }
    assert(out@ =~= tag_alias(name@));
    crate::text::string_from(out.as_slice())
}

/// The id `oid` written as a reference reads back as itself, when it is a
/// single word.
proof fn lemma_id_reads_back(t: TableView, name: Seq<char>, oid: Seq<char>)
    requires
        crate::text::is_word(oid),
        crate::table::lookup(t, name) == Some(encode_utf8(oid)),
    ensures
        terminates(t, name, true),
        terminates(t, name, false),
        get_ref_result(t, name, Follow::IfSymbolic) == Ok::<Seq<char>, RefErrorView>(oid),
        get_ref_result(t, name, Follow::Never) == Ok::<Seq<char>, RefErrorView>(oid),
{
    lemma_word_not_symbolic(oid);
    crate::refs::law_ref_text_roundtrip(TargetView::Direct(oid));
    vstd::utf8::encode_utf8_valid_utf8(oid);
    vstd::utf8::encode_utf8_decode_utf8(oid);
    assert(format_ref(TargetView::Direct(oid)) == oid);
    assert(crate::refs::resolve(t, name, true, 1) == Resolution::Found(name, Some(TargetView::Direct(oid))));
    assert(crate::refs::resolve(t, name, false, 1) == Resolution::Found(name, Some(TargetView::Direct(oid))));
    crate::refs::lemma_resolved(t, name, true, 1);
    crate::refs::lemma_resolved(t, name, false, 1);
}

/// Tags the object `oid` as `name`: points the reference `refs/tags/<name>`
/// (following links) at it, and writes it too under the plain name with
/// spaces written as `_`.
pub fn create_tag(name: &str, oid: &str, refs: &mut RefStore) -> (r: Result<(), RefError>)
    requires
        old(refs).wf(),
        terminates(old(refs)@, tags_prefix() + name@, true),
    ensures
        final(refs).wf(),
        match resolved(old(refs)@, tags_prefix() + name@, true) {
            Resolution::Found(p, _) => r is Ok && final(refs)@ == store(
                store(old(refs)@, p, encode_utf8(oid@)),
                tag_alias(name@),
                encode_utf8(oid@),
            ),
            Resolution::Unreadable(n) => r is Err && r->Err_0@ == RefErrorView::Unreadable(n)
                && final(refs)@ == old(refs)@,
            _ => false,
        },
        r is Ok && crate::text::is_word(oid@) ==> {
            &&& terminates(final(refs)@, tag_alias(name@), true)
            &&& get_ref_result(final(refs)@, tag_alias(name@), Follow::IfSymbolic) == Ok::<
                Seq<char>,
                RefErrorView,
            >(oid@)
            &&& get_ref_result(final(refs)@, tag_alias(name@), Follow::Never) == Ok::<
                Seq<char>,
                RefErrorView,
            >(oid@)
        },
        r is Ok && crate::text::is_word(oid@) && crate::table::lookup(old(refs)@, tags_prefix() + name@)
            is None ==> terminates(final(refs)@, tags_prefix() + name@, true) && get_ref_result(
            final(refs)@,
            tags_prefix() + name@,
            Follow::IfSymbolic,
        ) == Ok::<Seq<char>, RefErrorView>(oid@),
{
    let tag = crate::refs::prefixed(
        crate::refs::tags_prefix_chars().as_slice(),
        crate::text::chars_of(name).as_slice(),
    );
    proof {
        crate::refs::lemma_resolved_deref(refs@, tag@);
    }
    let ghost t0 = refs@;
    let target = RefTarget::Direct(crate::text::string_from(crate::text::chars_of(oid).as_slice()));
    match update_ref(tag.as_str(), &target, &Follow::IfSymbolic, refs) {
        Err(e) => Err(e),
        Ok(_) => {
            let alias = tag_alias_of(name);
            let ghost t1 = refs@;
            let bytes = string_bytes(&target_text(oid));
            refs.insert_raw(alias, bytes);
            proof {
                let data = encode_utf8(oid@);
                let al = tag_alias(name@);
                crate::table::lemma_store(t1, al, data);
                if crate::text::is_word(oid@) {
                    lemma_id_reads_back(refs@, al, oid@);
                    if crate::table::lookup(t0, tag@) is None {
                        assert(crate::refs::resolve(t0, tag@, true, 1) == Resolution::Found(tag@, None));
                        crate::refs::lemma_resolved(t0, tag@, true, 1);
                        crate::table::lemma_store(t0, tag@, data);
                        assert(al != tag@) by {
                            assert(al.len() != tag@.len());
                        }
                        lemma_id_reads_back(refs@, tag@, oid@);
                    }
                }
            }
            Ok(())
        },
    }
}

/// The text of a direct reference to `oid`.
fn target_text(oid: &str) -> (r: String)
    ensures
        r@ == oid@,
{
    crate::text::string_from(crate::text::chars_of(oid).as_slice())
}


/// A commit of the history: its id and the lines of its message.
pub type LogEntry = (String, Vec<String>);

/// The abstract form of a history.
pub type HistoryView = Seq<(Seq<char>, Seq<Seq<char>>)>;

/// The abstract form of history entries.
pub open spec fn history_views(v: Seq<LogEntry>) -> HistoryView {
    Seq::new(v.len(), |i: int| (v[i].0@, string_views(v[i].1@)))
}

/// The history from the commit `oid` back through its parents, reading at
/// most `fuel` commits: each commit's id and message lines, newest first.
/// `None` when the fuel runs out.
pub open spec fn history(t: TableView, oid: Seq<char>, fuel: nat) -> Option<
    Result<HistoryView, CommitErrorView>,
>
    decreases fuel,
{
    if fuel == 0 {
        None
    } else {
        match commit_at(t, oid) {
            Err(e) => Some(Err(e)),
            Ok(c) => {
                let here = (oid, crate::text::lines(c.message));
                match c.parent {
                    None => Some(Ok(seq![here])),
                    Some(p) => match history(t, p, (fuel - 1) as nat) {
                        Some(Ok(rest)) => Some(Ok(seq![here] + rest)),
                        other => other,
                    },
                }
            },
        }
    }
}

/// The history from `oid` ends: no commit is its own ancestor.
pub open spec fn history_ends(t: TableView, oid: Seq<char>) -> bool {
    exists|fuel: nat| #[trigger] history(t, oid, fuel) is Some
}

/// The history from `oid`, when it ends.
pub open spec fn full_history(t: TableView, oid: Seq<char>) -> Result<HistoryView, CommitErrorView> {
    history(t, oid, choose|fuel: nat| #[trigger] history(t, oid, fuel) is Some)->Some_0
}

/// Why the history could not be read.
#[derive(Debug)]
pub enum LogError {
    /// The starting reference could not be resolved.
    Ref(RefError),
    /// A commit could not be read.
    Commit(CommitError),
}

/// `done` followed by a later history.
pub open spec fn after_history(
    done: HistoryView,
    later: Option<Result<HistoryView, CommitErrorView>>,
) -> Option<Result<HistoryView, CommitErrorView>> {
    match later {
        Some(Ok(rest)) => Some(Ok(done + rest)),
        other => other,
    }
}

/// Strings from character vectors.
fn strings_of(v: &Vec<Vec<char>>) -> (r: Vec<String>)
    ensures
        string_views(r@) == crate::text::views(v@),
{
    let mut out: Vec<String> = Vec::new();
    let mut i: usize = 0;
    while i < v.len()
        invariant
            i <= v@.len(),
            string_views(out@) == crate::text::views(v@).take(i as int),
        decreases v@.len() - i,
    {
        let ghost b = string_views(out@);
        out.push(crate::text::string_from(v[i].as_slice()));
        assert(string_views(out@) =~= b.push(v@[i as int]@));
        assert(crate::text::views(v@).take(i + 1) =~= crate::text::views(v@).take(i as int).push(
            v@[i as int]@,
        ));
        i = i + 1;
    }
    assert(crate::text::views(v@).take(v@.len() as int) =~= crate::text::views(v@));
    out
}

/// The history of commits from the one that `name` resolves to (following
/// links), back through their parents: each commit's id and the lines of
/// its message, newest first.
pub fn log(name: &str, objects: &ObjectStore, refs: &RefStore) -> (r: Result<Vec<LogEntry>, LogError>)
    requires
        objects.wf(),
        refs.wf(),
        terminates(refs@, name@, true),
        get_ref_result(refs@, name@, Follow::IfSymbolic) matches Ok(start) ==> history_ends(
            objects@,
            start,
        ),
    ensures
        match get_ref_result(refs@, name@, Follow::IfSymbolic) {
            Err(e) => r is Err && r->Err_0 is Ref && r->Err_0->Ref_0@ == e,
            Ok(start) => match full_history(objects@, start) {
                Ok(h) => r is Ok && history_views(r->Ok_0@) == h,
                Err(e) => r is Err && r->Err_0 is Commit && r->Err_0->Commit_0@ == e,
            },
        },
{
    let start = match get_ref(name, &Follow::IfSymbolic, refs) {
        Err(e) => {
            return Err(LogError::Ref(e));
        },
        Ok(s) => s,
    };
    let ghost s0 = start@;
    let ghost f0 = choose|fuel: nat| #[trigger] history(objects@, start@, fuel) is Some;
    let ghost mut fuel: nat = f0;
    let mut entries: Vec<LogEntry> = Vec::new();
    let mut current = start;
    proof {
        assert(history_views(entries@) =~= Seq::<(Seq<char>, Seq<Seq<char>>)>::empty());
        match history(objects@, current@, fuel) {
            Some(Ok(h)) => {
                assert(Seq::<(Seq<char>, Seq<Seq<char>>)>::empty() + h =~= h);
            },
            _ => {},
        }
    }
    loop
        invariant
            objects.wf(),
            get_ref_result(refs@, name@, Follow::IfSymbolic) == Ok::<Seq<char>, RefErrorView>(s0),
            history(objects@, s0, f0) == after_history(
                history_views(entries@),
                history(objects@, current@, fuel),
            ),
            history(objects@, current@, fuel) is Some,
            full_history(objects@, s0) == history(objects@, s0, f0)->Some_0,
        decreases fuel,
    {
        let commit = match get_commit(current.as_str(), objects) {
            Err(e) => {
                return Err(LogError::Commit(e));
            },
            Ok(c) => c,
        };
        let msg_lines = crate::text::lines_of(crate::text::chars_of(commit.message.as_str()).as_slice());
        let lines_s = strings_of(&msg_lines);
        let ghost before = history_views(entries@);
        let ghost here = (current@, crate::text::lines(commit.message@));
        entries.push((current, lines_s));
        assert(history_views(entries@) =~= before.push(here));
        match commit.parent {
            None => {
                assert(before + seq![here] =~= before.push(here));
                return Ok(entries);
            },
            Some(p) => {
                proof {
                    match history(objects@, p@, (fuel - 1) as nat) {
                        Some(Ok(rest)) => {
                            assert(before + (seq![here] + rest) =~= before.push(here) + rest);
                        },
                        _ => {},
                    }
                    fuel = (fuel - 1) as nat;
                }
                current = p;
            },
        }
    }
}


/// The link out of a commit: its parent, when it reads as a commit.
pub open spec fn commit_link(t: TableView) -> spec_fn(Seq<char>) -> Option<Seq<char>> {
    |x: Seq<char>|
        match commit_at(t, x) {
            Ok(c) => c.parent,
            Err(_) => None,
        }
}

/// A history that passes from parent to parent as many times as there is
/// fuel runs out of fuel.
proof fn lemma_history_steps(t: TableView, x: Seq<char>, f: nat)
    requires
        crate::chain::steps(commit_link(t), x, f),
    ensures
        history(t, x, f) is None,
    decreases f,
{
    if f > 0 {
        lemma_history_steps(t, commit_link(t)(x)->Some_0, (f - 1) as nat);
    }
}

/// A history that runs out of fuel passes from parent to parent as many
/// times as there is fuel.
proof fn lemma_history_none(t: TableView, x: Seq<char>, f: nat)
    requires
        history(t, x, f) is None,
    ensures
        crate::chain::steps(commit_link(t), x, f),
    decreases f,
{
    if f > 0 {
        let p = commit_at(t, x)->Ok_0.parent->Some_0;
        lemma_history_none(t, p, (f - 1) as nat);
    }
}

/// A history that ends reads at most one commit more than the store holds.
pub proof fn lemma_history_bound(t: TableView, x: Seq<char>)
    requires
        history_ends(t, x),
    ensures
        history(t, x, (t.len() + 1) as nat) is Some,
{
    let n = t.len() as nat;
    if history(t, x, n + 1) is None {
        let f = choose|fuel: nat| #[trigger] history(t, x, fuel) is Some;
        lemma_history_none(t, x, n + 1);
        crate::table::lemma_names_bound(t);
        assert forall|z: Seq<char>| (#[trigger] commit_link(t)(z)) is Some implies crate::table::names(
            t,
        ).contains(z) by {
            assert(crate::table::has_name(t, z));
        }
        crate::chain::lemma_long_chain_endless(commit_link(t), x, crate::table::names(t), n, f);
        lemma_history_steps(t, x, f);
    }
}

/// Checks that the history from `oid` ends within `fuel` commits.
fn check_history(oid: &str, objects: &ObjectStore, fuel: usize) -> (r: bool)
    requires
        objects.wf(),
    ensures
        r == (history(objects@, oid@, fuel as nat) is Some),
    decreases fuel,
{
    if fuel == 0 {
        return false;
    }
    match get_commit(oid, objects) {
        Err(_) => true,
        Ok(c) => match &c.parent {
            None => true,
            Some(p) => check_history(p.as_str(), objects, fuel - 1),
        },
    }
}

/// The start of a message line in the log: five spaces, `|` and a space.
pub open spec fn bar_prefix() -> Seq<char> {
    seq![' ', ' ', ' ', ' ', ' ', '|', ' ']
}

/// The end of a commit in the log: five spaces, `|`, and two line breaks.
pub open spec fn bar_end() -> Seq<char> {
    seq![' ', ' ', ' ', ' ', ' ', '|', '\n', '\n']
}

/// The message lines of a commit in the log, each after the bar prefix and
/// ended by a line break.
pub open spec fn message_text(ls: Seq<Seq<char>>) -> Seq<char>
    decreases ls.len(),
{
    if ls.len() == 0 {
        seq![]
    } else {
        message_text(ls.drop_last()) + bar_prefix() + ls.last() + seq!['\n']
    }
}

/// One commit in the log: `label id`, its message lines, and the bar end.
pub open spec fn entry_text(label: Seq<char>, id: Seq<char>, ls: Seq<Seq<char>>) -> Seq<char> {
    label + seq![' '] + id + seq!['\n'] + message_text(ls) + bar_end()
}

/// The log of a history: each commit's text in order.
pub open spec fn log_layout(h: HistoryView, label: Seq<char>) -> Seq<char>
    decreases h.len(),
{
    if h.len() == 0 {
        seq![]
    } else {
        log_layout(h.drop_last(), label) + entry_text(label, h.last().0, h.last().1)
    }
}

/// The log text of a history: for each commit, `label` (`commit`, which
/// the program shows in colour), a space and its id on a line; each line
/// of its message after `     | `; then `     |` and a blank line.
pub fn log_text(entries: &Vec<LogEntry>, label: &str) -> (r: String)
    ensures
        r@ == log_layout(history_views(entries@), label@),
{
    let label_chars = crate::text::chars_of(label);
    let prefix = vec![' ', ' ', ' ', ' ', ' ', '|', ' '];
    let end = vec![' ', ' ', ' ', ' ', ' ', '|', '\n', '\n'];
    assert(prefix@ =~= bar_prefix());
    assert(end@ =~= bar_end());
    let ghost h = history_views(entries@);
    let mut out: Vec<char> = Vec::new();
    let mut i: usize = 0;
    assert(h.take(0) =~= Seq::<(Seq<char>, Seq<Seq<char>>)>::empty());
    while i < entries.len()
        invariant
            i <= entries@.len(),
            h == history_views(entries@),
            label_chars@ == label@,
            prefix@ == bar_prefix(),
            end@ == bar_end(),
            out@ == log_layout(h.take(i as int), label@),
        decreases entries@.len() - i,
    {
        let e = &entries[i];
        let ghost before = out@;
        crate::text::push_all(&mut out, label_chars.as_slice());
        out.push(' ');
        crate::text::push_all(&mut out, crate::text::chars_of(e.0.as_str()).as_slice());
        out.push('\n');
        let ghost head = out@;
        let mut k: usize = 0;
        assert(crate::worktree::string_views(e.1@).take(0) =~= Seq::<Seq<char>>::empty());
        while k < e.1.len()
            invariant
                k <= e.1@.len(),
                prefix@ == bar_prefix(),
                out@ == head + message_text(crate::worktree::string_views(e.1@).take(k as int)),
            decreases e.1@.len() - k,
        {
            let ghost b2 = out@;
            crate::text::push_all(&mut out, prefix.as_slice());
            crate::text::push_all(&mut out, crate::text::chars_of(e.1[k].as_str()).as_slice());
            out.push('\n');
            proof {
                let ls = crate::worktree::string_views(e.1@);
                assert(ls.take(k + 1).drop_last() =~= ls.take(k as int));
                assert(ls.take(k + 1).last() == e.1@[k as int]@);
                assert(out@ =~= head + message_text(ls.take(k + 1)));
            }
            k = k + 1;
        }
        crate::text::push_all(&mut out, end.as_slice());
        proof {
            let ls = crate::worktree::string_views(e.1@);
            assert(ls.take(e.1@.len() as int) =~= ls);
            assert(h[i as int] == (e.0@, ls));
            assert(h.take(i + 1).drop_last() =~= h.take(i as int));
            assert(h.take(i + 1).last() == h[i as int]);
            assert(out@ =~= before + entry_text(label@, e.0@, ls));
        }
        i = i + 1;
    }
    assert(h.take(entries@.len() as int) =~= h);
    crate::text::string_from(out.as_slice())
}

/// Whether the history from `oid` ends (no commit is its own ancestor);
/// what [`log`] asks of its start.
pub fn history_ok(oid: &str, objects: &ObjectStore) -> (r: bool)
    requires
        objects.wf(),
    ensures
        r == history_ends(objects@, oid@),
{
    let r = match get_commit(oid, objects) {
        Err(_) => true,
        Ok(c) => match &c.parent {
            None => true,
            Some(p) => check_history(p.as_str(), objects, objects.len()),
        },
    };
    proof {
        let t = objects@;
        let n = t.len() as nat;
        assert(r == (history(t, oid@, n + 1) is Some));
        if r {
            assert(history_ends(t, oid@));
        } else if history_ends(t, oid@) {
            lemma_history_bound(t, oid@);
        }
    }
    r
}

/// Whether [`checkout`] may be asked to check out `oid`: when the commit
/// reads, restoring its tree ends.
pub fn checkout_ok(oid: &str, objects: &ObjectStore) -> (r: bool)
    requires
        objects.wf(),
    ensures
        r == (commit_at(objects@, oid@) matches Ok(c) ==> crate::tree::tree_checked(
            objects@,
            c.tree,
            crate::tree::level_limit(objects@.len()),
        )),
        r ==> (commit_at(objects@, oid@) matches Ok(c) ==> read_tree_plan(objects@, c.tree) is Some),
{
    match get_commit(oid, objects) {
        Err(_) => true,
        Ok(c) => crate::tree::read_tree_ok(c.tree.as_str(), objects),
    }
}

/// A single word never starts with `ref: ` (which holds a space).
pub proof fn lemma_word_not_symbolic(x: Seq<char>)
    requires
        crate::text::is_word(x),
    ensures
        crate::refs::clean(x),
        crate::text::strip_prefix(x, crate::refs::ref_prefix()) is None,
{
    assert(x.last() == x[x.len() - 1]);
    if x.len() >= 5 && x.take(5) == crate::refs::ref_prefix() {
        assert(x.take(5)[4] == ' ');
        assert(x[4] == ' ');
    }
}

/// A commit just written reads back as a commit of the tree, parent and
/// message it was made from, and `HEAD`, once pointed at it, resolves to
/// it; when the tree id and the parent are single words, the commit's id is
/// a single word (as every id written is) and the message holds no `'\r'`.
pub proof fn law_commit_reads_back(
    objects: TableView,
    refs: TableView,
    tid: Seq<char>,
    message: Seq<char>,
)
    requires
        crate::table::names_unique(objects),
        crate::table::names_unique(refs),
        terminates(refs, head_name(), true),
        resolved(refs, head_name(), true) is Found,
        crate::text::is_word(tid),
        head_parent(refs) matches Some(p) ==> crate::text::is_word(p),
        !message.contains('\r'),
        crate::text::is_word(
            object_id(
                ObjectType::Commit,
                encode_utf8(commit_record(tid, head_parent(refs), message)),
            ),
        ),
    ensures
        ({
            let content = encode_utf8(commit_record(tid, head_parent(refs), message));
            let cid = object_id(ObjectType::Commit, content);
            let objs = store(objects, cid, object_bytes(ObjectType::Commit, content));
            let refs2 = store(refs, resolved(refs, head_name(), true)->Found_0, encode_utf8(cid));
            &&& commit_at(objs, cid) == Ok::<CommitView, CommitErrorView>(
                CommitView { tree: tid, parent: head_parent(refs), message },
            )
            &&& terminates(refs2, head_name(), true)
            &&& get_ref_result(refs2, head_name(), Follow::IfSymbolic) == Ok::<
                Seq<char>,
                RefErrorView,
            >(cid)
        }),
{
    let text = commit_record(tid, head_parent(refs), message);
    let content = encode_utf8(text);
    let cid = object_id(ObjectType::Commit, content);
    crate::object::law_get_after_hash(objects, content, ObjectType::Commit);
    vstd::utf8::encode_utf8_valid_utf8(text);
    vstd::utf8::encode_utf8_decode_utf8(text);
    crate::commit::law_commit_roundtrip(tid, head_parent(refs), message);
    lemma_word_not_symbolic(cid);
    crate::refs::law_get_after_update(refs, head_name(), cid, Follow::IfSymbolic);
    assert(format_ref(TargetView::Direct(cid)) == cid);
}


/// Checking out one commit and then another leaves `HEAD` resolving to the
/// first, then to the second: each checkout writes its id where `HEAD`
/// (following links) ends, when the ids are single words.
pub proof fn law_checkout_moves_head(t: TableView, o1: Seq<char>, o2: Seq<char>)
    requires
        crate::table::names_unique(t),
        terminates(t, head_name(), true),
        resolved(t, head_name(), true) is Found,
        crate::text::is_word(o1),
        crate::text::is_word(o2),
    ensures
        ({
            let t1 = store(t, resolved(t, head_name(), true)->Found_0, encode_utf8(o1));
            let t2 = store(t1, resolved(t1, head_name(), true)->Found_0, encode_utf8(o2));
            &&& terminates(t1, head_name(), true)
            &&& get_ref_result(t1, head_name(), Follow::IfSymbolic) == Ok::<Seq<char>, RefErrorView>(o1)
            &&& terminates(t2, head_name(), true)
            &&& get_ref_result(t2, head_name(), Follow::IfSymbolic) == Ok::<Seq<char>, RefErrorView>(o2)
        }),
{
    let t1 = store(t, resolved(t, head_name(), true)->Found_0, encode_utf8(o1));
    lemma_word_not_symbolic(o1);
    lemma_word_not_symbolic(o2);
    assert(format_ref(TargetView::Direct(o1)) == o1);
    assert(format_ref(TargetView::Direct(o2)) == o2);
    crate::refs::law_get_after_update(t, head_name(), o1, Follow::IfSymbolic);
    crate::table::lemma_store(t, resolved(t, head_name(), true)->Found_0, encode_utf8(o1));
    assert(resolved(t1, head_name(), true) is Found);
    crate::refs::law_get_after_update(t1, head_name(), o2, Follow::IfSymbolic);
}


/// A history read within `fuel` commits starts at `oid`, goes from each
/// commit to its parent, ends at a commit without a parent, and gives for
/// each commit the lines of its message.
pub proof fn lemma_history_shape(t: TableView, oid: Seq<char>, fuel: nat)
    ensures
        history(t, oid, fuel) matches Some(Ok(h)) ==> {
            &&& h.len() > 0
            &&& h[0].0 == oid
            &&& forall|i: int|
                0 <= i < h.len() ==> (#[trigger] commit_at(t, h[i].0)) is Ok && h[i].1
                    == crate::text::lines(commit_at(t, h[i].0)->Ok_0.message)
            &&& forall|i: int|
                0 <= i < h.len() - 1 ==> (#[trigger] commit_at(t, h[i].0))->Ok_0.parent == Some(
                    h[i + 1].0,
                )
            &&& commit_at(t, h[h.len() - 1].0)->Ok_0.parent is None
        },
    decreases fuel,
{
    if fuel > 0 {
        match commit_at(t, oid) {
            Ok(c) => {
                match c.parent {
                    None => {},
                    Some(p) => {
                        lemma_history_shape(t, p, (fuel - 1) as nat);
                        match history(t, oid, fuel) {
                            Some(Ok(h)) => {
                                let rest = history(t, p, (fuel - 1) as nat)->Some_0->Ok_0;
                                assert(h == seq![(oid, crate::text::lines(c.message))] + rest);
                                assert forall|i: int| 0 <= i < h.len() implies (#[trigger] commit_at(
                                    t,
                                    h[i].0,
                                )) is Ok && h[i].1 == crate::text::lines(
                                    commit_at(t, h[i].0)->Ok_0.message,
                                ) by {
                                    if i > 0 {
                                        assert(h[i] == rest[i - 1]);
                                        assert(commit_at(t, rest[i - 1].0) is Ok);
                                    }
                                }
                                assert forall|i: int| 0 <= i < h.len() - 1 implies (#[trigger] commit_at(
                                    t,
                                    h[i].0,
                                ))->Ok_0.parent == Some(h[i + 1].0) by {
                                    assert(h[i + 1] == rest[i]);
                                    if i > 0 {
                                        assert(h[i] == rest[i - 1]);
                                        assert(commit_at(t, rest[i - 1].0)->Ok_0.parent == Some(
                                            rest[i].0,
                                        ));
                                    }
                                }
                                assert(h[h.len() - 1] == rest[rest.len() - 1]);
                            },
                            _ => {},
                        }
                    },
                }
            },
            Err(_) => {},
        }
    }
}

/// The log from a commit whose history ends: it starts at that commit,
/// goes from each commit to its parent, ends at a commit without a parent,
/// and gives for each commit exactly the lines of its message (`str::lines`
/// of the message, so a one-line message with spaces is one line).
pub proof fn law_log_lines(t: TableView, oid: Seq<char>)
    requires
        history_ends(t, oid),
    ensures
        full_history(t, oid) matches Ok(h) ==> {
            &&& h.len() > 0
            &&& h[0].0 == oid
            &&& forall|i: int|
                0 <= i < h.len() ==> (#[trigger] commit_at(t, h[i].0)) is Ok && h[i].1
                    == crate::text::lines(commit_at(t, h[i].0)->Ok_0.message)
            &&& forall|i: int|
                0 <= i < h.len() - 1 ==> (#[trigger] commit_at(t, h[i].0))->Ok_0.parent == Some(
                    h[i + 1].0,
                )
            &&& commit_at(t, h[h.len() - 1].0)->Ok_0.parent is None
        },
{
    let f = choose|fuel: nat| #[trigger] history(t, oid, fuel) is Some;
    lemma_history_shape(t, oid, f);
}

} // verus!
