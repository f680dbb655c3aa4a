//! Commits: a header of `tree` and `parent` lines, a blank line, then the
//! message.

use vstd::prelude::*;
use vstd::utf8::decode_utf8;
use vstd::utf8::valid_utf8;
use crate::object::ObjectError;
use crate::object::ObjectStore;
use crate::object::ObjectType;
use crate::object::fetch;
use crate::object::get_object;
use crate::object::str_from_utf8;
use crate::text::chars_eq;
use crate::text::chars_of;
use crate::text::join;
use crate::text::join_lines;
use crate::text::lines;
use crate::text::lines_of;
use crate::text::string_from;
use crate::text::views;
use crate::text::words;
use crate::text::words_of;
use crate::text::push_all;
use crate::text::is_word;
use crate::text::is_ws;
use crate::text::strip_cr;

verus! {

/// A commit: the id of its tree, the id of its parent commit if any, and
/// its message.
pub struct Commit {
    pub tree: String,
    pub parent: Option<String>,
    pub message: String,
}

/// The abstract form of a commit.
pub struct CommitView {
    pub tree: Seq<char>,
    pub parent: Option<Seq<char>>,
    pub message: Seq<char>,
}

impl View for Commit {
    type V = CommitView;

    open spec fn view(&self) -> CommitView {
        CommitView {
            tree: self.tree@,
            parent: match self.parent {
                Some(p) => Some(p@),
                None => None,
            },
            message: self.message@,
        }
    }
}

/// Why a commit could not be read.
#[derive(Debug)]
pub enum CommitError {
    /// The commit object could not be read.
    Object(ObjectError),
    /// The commit's bytes are not valid UTF-8.
    InvalidUtf8,
    /// A header line (numbered from 1) has a key other than `tree` or
    /// `parent`.
    UnknownKey { line: usize, text: String },
    /// A header line (numbered from 1) is not two words.
    Malformed { line: usize, text: String },
}

/// The abstract form of a commit error.
pub enum CommitErrorView {
    Object(ObjectError),
    InvalidUtf8,
    UnknownKey(int, Seq<char>),
    Malformed(int, Seq<char>),
}

impl View for CommitError {
    type V = CommitErrorView;

    open spec fn view(&self) -> CommitErrorView {
        match self {
            CommitError::Object(e) => CommitErrorView::Object(*e),
            CommitError::InvalidUtf8 => CommitErrorView::InvalidUtf8,
            CommitError::UnknownKey { line, text } => CommitErrorView::UnknownKey(
                *line as int,
                text@,
            ),
            CommitError::Malformed { line, text } => CommitErrorView::Malformed(
                *line as int,
                text@,
            ),
        }
    }
}

/// The header key `tree`.
pub open spec fn tree_key() -> Seq<char> {
    seq!['t', 'r', 'e', 'e']
}

/// The header key `parent`.
pub open spec fn parent_key() -> Seq<char> {
    seq!['p', 'a', 'r', 'e', 'n', 't']
}

/// Reading the header lines of a commit from line `i` on, with the tree
/// and parent read so far: each line is two words, `tree <id>` or
/// `parent <id>` (a later line overrides an earlier one); the first empty
/// line ends the header and the lines after it, joined by `'\n'`, are the
/// message.
pub open spec fn parse_header(
    ls: Seq<Seq<char>>,
    i: int,
    tree: Seq<char>,
    parent: Option<Seq<char>>,
) -> Result<CommitView, CommitErrorView>
    decreases ls.len() - i,
{
    if i < 0 || i >= ls.len() {
        Ok(CommitView { tree, parent, message: seq![] })
    } else if ls[i].len() == 0 {
        Ok(CommitView { tree, parent, message: join(ls.skip(i + 1), seq!['\n']) })
    } else {
        let w = words(ls[i]);
        if w.len() == 2 {
            if w[0] == tree_key() {
                parse_header(ls, i + 1, w[1], parent)
            } else if w[0] == parent_key() {
                parse_header(ls, i + 1, tree, Some(w[1]))
            } else {
                Err(CommitErrorView::UnknownKey(i + 1, ls[i]))
            }
        } else {
            Err(CommitErrorView::Malformed(i + 1, ls[i]))
        }
    }
}

/// A commit read from its text; with no `tree` line the tree is empty.
pub open spec fn parse_commit(text: Seq<char>) -> Result<CommitView, CommitErrorView> {
    parse_header(lines(text), 0, seq![], None)
}

/// The commit stored under `oid`, read from the object store.
pub open spec fn commit_at(t: crate::table::TableView, oid: Seq<char>) -> Result<
    CommitView,
    CommitErrorView,
> {
    match fetch(t, oid, ObjectType::Commit) {
        Err(e) => Err(CommitErrorView::Object(e)),
        Ok(bytes) => if !valid_utf8(bytes) {
            Err(CommitErrorView::InvalidUtf8)
        } else {
            parse_commit(decode_utf8(bytes))
        },
    }
}

/// The characters of `tree`.
fn tree_key_chars() -> (r: Vec<char>)
    ensures
        r@ == tree_key(),
{
    let r = vec!['t', 'r', 'e', 'e'];
    assert(r@ =~= tree_key());
    r
}

/// The characters of `parent`.
fn parent_key_chars() -> (r: Vec<char>)
    ensures
        r@ == parent_key(),
{
    let r = vec!['p', 'a', 'r', 'e', 'n', 't'];
    assert(r@ =~= parent_key());
    r
}

/// Reads a commit from its text.
pub fn parse_commit_text(text: &str) -> (r: Result<Commit, CommitError>)
    ensures
        r is Ok ==> parse_commit(text@) == Ok::<CommitView, CommitErrorView>(r->Ok_0@),
        r is Err ==> parse_commit(text@) == Err::<CommitView, CommitErrorView>(r->Err_0@),
{
    let chars = chars_of(text);
    let ls = lines_of(chars.as_slice());
    let ghost lv = views(ls@);
    let tree_k = tree_key_chars();
    let parent_k = parent_key_chars();
    let mut tree: Vec<char> = Vec::new();
    let mut parent: Option<Vec<char>> = None;
    let mut i: usize = 0;
    while i < ls.len()
        invariant
            lv == views(ls@),
            lv == lines(text@),
            tree_k@ == tree_key(),
            parent_k@ == parent_key(),
            i <= ls@.len(),
            parse_header(lv, 0, seq![], None) == parse_header(
                lv,
                i as int,
                tree@,
                match parent {
                    Some(p) => Some(p@),
                    None => None,
                },
            ),
        decreases ls@.len() - i,
    {
        let line = &ls[i];
        assert(line@ == lv[i as int]);
        if line.len() == 0 {
            let message = join_lines(&ls, i + 1);
            return Ok(
                Commit {
                    tree: string_from(tree.as_slice()),
                    parent: match parent {
                        Some(p) => Some(string_from(p.as_slice())),
                        None => None,
                    },
                    message: string_from(message.as_slice()),
                },
            );
        }
        let w = words_of(line.as_slice());
        let ghost wv = views(w@);
        assert(wv == words(lv[i as int]));
        if w.len() == 2 {
            assert(w@[0]@ == wv[0] && w@[1]@ == wv[1]);
            if chars_eq(w[0].as_slice(), tree_k.as_slice()) {
                tree = w[1].clone();
            } else if chars_eq(w[0].as_slice(), parent_k.as_slice()) {
                parent = Some(w[1].clone());
            } else {
                return Err(
                    CommitError::UnknownKey { line: i + 1, text: string_from(line.as_slice()) },
                );
            }
        } else {
            return Err(CommitError::Malformed { line: i + 1, text: string_from(line.as_slice()) });
        }
        i = i + 1;
    }
    Ok(
        Commit {
            tree: string_from(tree.as_slice()),
            parent: match parent {
                Some(p) => Some(string_from(p.as_slice())),
                None => None,
            },
            message: String::new(),
        },
    )
}

/// Reads the commit stored under `oid`.
pub fn get_commit(oid: &str, objects: &ObjectStore) -> (r: Result<Commit, CommitError>)
    requires
        objects.wf(),
    ensures
        r is Ok ==> commit_at(objects@, oid@) == Ok::<CommitView, CommitErrorView>(r->Ok_0@),
        r is Err ==> commit_at(objects@, oid@) == Err::<CommitView, CommitErrorView>(r->Err_0@),
{
    match get_object(oid, ObjectType::Commit, objects) {
        Err(e) => Err(CommitError::Object(e)),
        Ok(bytes) => match str_from_utf8(bytes.as_slice()) {
            None => Err(CommitError::InvalidUtf8),
            Some(text) => parse_commit_text(text),
        },
    }
}


/// The header lines: `tree <id>` and, when there is a parent,
/// `parent <id>`, each ended by `'\n'`.
pub open spec fn header_text(tree: Seq<char>, parent: Option<Seq<char>>) -> Seq<char> {
    let first = tree_key() + seq![' '] + tree + seq!['\n'];
    match parent {
        Some(p) => first + parent_key() + seq![' '] + p + seq!['\n'],
        None => first,
    }
}

/// A commit as displayed: the header, a blank line, the message.
pub open spec fn commit_display(c: CommitView) -> Seq<char> {
    header_text(c.tree, c.parent) + seq!['\n'] + c.message
}

/// A commit as stored: the header, a blank line, the message and `'\n'`.
pub open spec fn commit_record(tree: Seq<char>, parent: Option<Seq<char>>, message: Seq<char>) -> Seq<
    char,
> {
    header_text(tree, parent) + seq!['\n'] + message + seq!['\n']
}

/// The header lines of a commit.
fn header_chars(tree: &str, parent: Option<&str>) -> (r: Vec<char>)
    ensures
        r@ == header_text(
            tree@,
            match parent {
                Some(p) => Some(p@),
                None => None,
            },
        ),
{
    let mut out = tree_key_chars();
    out.push(' ');
    push_all(&mut out, chars_of(tree).as_slice());
    out.push('\n');
    match parent {
        Some(p) => {
            let ghost first = out@;
            push_all(&mut out, parent_key_chars().as_slice());
            out.push(' ');
            push_all(&mut out, chars_of(p).as_slice());
            out.push('\n');
            assert(out@ =~= first + parent_key() + seq![' '] + p@ + seq!['\n']);
        },
        None => {},
    }
    assert(out@ =~= header_text(
        tree@,
        match parent {
            Some(p) => Some(p@),
            None => None,
        },
    ));
    out
}

impl Commit {
    /// The commit as displayed: `tree <id>`, `parent <id>` when there is
    /// one, a blank line, then the message.
    pub fn to_text(&self) -> (r: String)
        ensures
            r@ == commit_display(self@),
    {
        let parent = match &self.parent {
            Some(p) => Some(p.as_str()),
            None => None,
        };
        let mut out = header_chars(self.tree.as_str(), parent);
        out.push('\n');
        push_all(&mut out, chars_of(self.message.as_str()).as_slice());
        string_from(out.as_slice())
    }
}

/// The stored text of a commit with this tree, parent and message.
pub fn commit_text(tree: &str, parent: Option<&str>, message: &str) -> (r: String)
    ensures
        r@ == commit_record(
            tree@,
            match parent {
                Some(p) => Some(p@),
                None => None,
            },
            message@,
        ),
{
    let mut out = header_chars(tree, parent);
    out.push('\n');
    push_all(&mut out, chars_of(message).as_slice());
    out.push('\n');
    string_from(out.as_slice())
}

/// A header line `key value` holds no line break and splits into its two
/// words.
proof fn lemma_key_value_line(k: Seq<char>, v: Seq<char>)
    requires
        is_word(k),
        is_word(v),
    ensures
        !(k + seq![' '] + v).contains('\n'),
        strip_cr(k + seq![' '] + v) == k + seq![' '] + v,
        words(k + seq![' '] + v) == seq![k, v],
{
    let l = k + seq![' '] + v;
    assert forall|j: int| 0 <= j < l.len() implies l[j] != '\n' && l[j] != '\r' by {
        if j < k.len() {
            assert(l[j] == k[j]);
        } else if j > k.len() {
            assert(l[j] == v[j - k.len() - 1]);
        }
    }
    assert(l.last() == l[l.len() - 1]);
    crate::text::lemma_words_pair(k, v);
}

/// The header keys are single words.
proof fn lemma_keys_are_words()
    ensures
        is_word(tree_key()),
        is_word(parent_key()),
{
    assert forall|i: int| 0 <= i < tree_key().len() implies !is_ws(#[trigger] tree_key()[i]) by {}
    assert forall|i: int| 0 <= i < parent_key().len() implies !is_ws(
        #[trigger] parent_key()[i],
    ) by {}
}

/// A commit written in its stored form reads back as the same tree, parent
/// and message, when the ids are single words and the message holds no
/// `'\r'`.
pub proof fn law_commit_roundtrip(tree: Seq<char>, parent: Option<Seq<char>>, message: Seq<char>)
    requires
        is_word(tree),
        parent matches Some(p) ==> is_word(p),
        !message.contains('\r'),
    ensures
        parse_commit(commit_record(tree, parent, message)) == Ok::<CommitView, CommitErrorView>(
            CommitView { tree, parent, message },
        ),
{
    lemma_keys_are_words();
    let l1 = tree_key() + seq![' '] + tree;
    lemma_key_value_line(tree_key(), tree);
    crate::text::lemma_join_lines_newline_ended(message);
    let body = message + seq!['\n'];
    let blank_and_body = Seq::<char>::empty() + seq!['\n'] + body;
    crate::text::lemma_lines_cons(Seq::<char>::empty(), body);
    assert(strip_cr(Seq::<char>::empty()) =~= Seq::<char>::empty());
    let text = commit_record(tree, parent, message);
    match parent {
        Some(p) => {
            let l2 = parent_key() + seq![' '] + p;
            lemma_key_value_line(parent_key(), p);
            let r2 = blank_and_body;
            let r1 = l2 + seq!['\n'] + r2;
            assert(text =~= l1 + seq!['\n'] + r1);
            crate::text::lemma_lines_cons(l1, r1);
            crate::text::lemma_lines_cons(l2, r2);
            let ls = lines(text);
            assert(ls =~= seq![l1, l2, Seq::<char>::empty()] + lines(body));
            assert(ls[0] == l1 && ls[1] == l2 && ls[2].len() == 0);
            assert(ls.skip(3) =~= lines(body));
            assert(parse_header(ls, 2, tree, Some(p)) == Ok::<CommitView, CommitErrorView>(
                CommitView { tree, parent, message },
            ));
            assert(parse_header(ls, 1, tree, None) == parse_header(ls, 2, tree, Some(p)));
            assert(parse_header(ls, 0, seq![], None) == parse_header(ls, 1, tree, None));
        },
        None => {
            let r1 = blank_and_body;
            assert(text =~= l1 + seq!['\n'] + r1);
            crate::text::lemma_lines_cons(l1, r1);
            let ls = lines(text);
            assert(ls =~= seq![l1, Seq::<char>::empty()] + lines(body));
            assert(ls[0] == l1 && ls[1].len() == 0);
            assert(ls.skip(2) =~= lines(body));
            assert(parse_header(ls, 1, tree, None) == Ok::<CommitView, CommitErrorView>(
                CommitView { tree, parent, message },
            ));
            assert(parse_header(ls, 0, seq![], None) == parse_header(ls, 1, tree, None));
        },
    }
}


/// A commit written in its displayed form reads back as the same commit,
/// when the ids are single words and the message holds no `'\r'` and does
/// not end with `'\n'`.
pub proof fn law_commit_display_roundtrip(c: CommitView)
    requires
        is_word(c.tree),
        c.parent matches Some(p) ==> is_word(p),
        !c.message.contains('\r'),
        c.message.len() > 0 ==> c.message.last() != '\n',
    ensures
        parse_commit(commit_display(c)) == Ok::<CommitView, CommitErrorView>(c),
{
    let d = commit_display(c);
    if c.message.len() > 0 {
        assert(commit_record(c.tree, c.parent, c.message) =~= d + seq!['\n']);
        assert(d.last() == c.message.last());
        assert(c.message.last() != '\r') by {
            assert(c.message[c.message.len() - 1] == c.message.last());
        }
        crate::text::lemma_lines_trailing(d, 0);
        law_commit_roundtrip(c.tree, c.parent, c.message);
    } else {
        lemma_keys_are_words();
        let l1 = tree_key() + seq![' '] + c.tree;
        lemma_key_value_line(tree_key(), c.tree);
        let blank = Seq::<char>::empty() + seq!['\n'] + Seq::<char>::empty();
        crate::text::lemma_lines_cons(Seq::<char>::empty(), Seq::<char>::empty());
        assert(strip_cr(Seq::<char>::empty()) =~= Seq::<char>::empty());
        assert(lines(Seq::<char>::empty()) =~= Seq::<Seq<char>>::empty());
        match c.parent {
            Some(p) => {
                let l2 = parent_key() + seq![' '] + p;
                lemma_key_value_line(parent_key(), p);
                let r1 = l2 + seq!['\n'] + blank;
                assert(d =~= l1 + seq!['\n'] + r1);
                crate::text::lemma_lines_cons(l1, r1);
                crate::text::lemma_lines_cons(l2, blank);
                let ls = lines(d);
                assert(ls =~= seq![l1, l2, Seq::<char>::empty()]);
                assert(ls.skip(3) =~= Seq::<Seq<char>>::empty());
                assert(c.message =~= Seq::<char>::empty());
                assert(parse_header(ls, 2, c.tree, Some(p)) == Ok::<CommitView, CommitErrorView>(c));
                assert(parse_header(ls, 1, c.tree, None) == parse_header(ls, 2, c.tree, Some(p)));
                assert(parse_header(ls, 0, seq![], None) == parse_header(ls, 1, c.tree, None));
            },
            None => {
                assert(d =~= l1 + seq!['\n'] + blank);
                crate::text::lemma_lines_cons(l1, blank);
                let ls = lines(d);
                assert(ls =~= seq![l1, Seq::<char>::empty()]);
                assert(ls.skip(2) =~= Seq::<Seq<char>>::empty());
                assert(c.message =~= Seq::<char>::empty());
                assert(parse_header(ls, 1, c.tree, None) == Ok::<CommitView, CommitErrorView>(c));
                assert(parse_header(ls, 0, seq![], None) == parse_header(ls, 1, c.tree, None));
            },
        }
    }
}

} // verus!
