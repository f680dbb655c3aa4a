//! Trees: one line `<type> <id> <name>` per entry, listing the files and
//! subdirectories of a directory.

use vstd::prelude::*;
use vstd::utf8::decode_utf8;
use vstd::utf8::valid_utf8;
use crate::object::ObjectError;
use crate::object::ObjectStore;
use crate::object::ObjectType;
use crate::object::fetch;
use crate::object::get_object;
use crate::object::kind_name;
use crate::object::str_from_utf8;
use crate::table::TableView;
use crate::text::chars_eq;
use crate::text::chars_of;
use crate::text::is_word;
use crate::text::lines;
use crate::text::lines_of;
use crate::text::push_all;
use crate::text::string_from;
use crate::text::strip_cr;
use crate::text::views;
use crate::text::words;
use crate::text::words_of;

verus! {

/// An entry of a tree: its type, its object id and its name.
pub type TreeEntry = (ObjectType, String, String);

/// The abstract form of a tree entry.
pub type EntryView = (ObjectType, Seq<char>, Seq<char>);

/// The abstract form of a sequence of entries.
pub open spec fn entry_views(es: Seq<TreeEntry>) -> Seq<EntryView> {
    Seq::new(es.len(), |i: int| (es[i].0, es[i].1@, es[i].2@))
}

/// The line of a tree entry, without its line break.
pub open spec fn entry_line(e: EntryView) -> Seq<char> {
    kind_name(e.0) + seq![' '] + e.1 + seq![' '] + e.2
}

/// The text of a tree: one line per entry, each ended by `'\n'`.
pub open spec fn tree_text(es: Seq<EntryView>) -> Seq<char>
    decreases es.len(),
{
    if es.len() == 0 {
        seq![]
    } else {
        entry_line(es[0]) + seq!['\n'] + tree_text(es.drop_first())
    }
}

/// The text of a tree with one more entry is the old text with the entry's line appended.
pub proof fn lemma_tree_text_push(es: Seq<EntryView>, e: EntryView)
    ensures
        tree_text(es.push(e)) == tree_text(es) + entry_line(e) + seq!['\n'],
    decreases es.len(),
{
    if es.len() == 0 {
        assert(es.push(e).drop_first() =~= Seq::<EntryView>::empty());
        assert(es.push(e)[0] == e);
        assert(tree_text(es.push(e).drop_first()) == Seq::<char>::empty());
        assert(tree_text(es) == Seq::<char>::empty());
        assert(tree_text(es.push(e)) =~= tree_text(es) + entry_line(e) + seq!['\n']);
    } else {
        assert(es.push(e).drop_first() =~= es.drop_first().push(e));
        assert(es.push(e)[0] == es[0]);
        lemma_tree_text_push(es.drop_first(), e);
        assert(tree_text(es.push(e)) == entry_line(es[0]) + seq!['\n'] + tree_text(
            es.drop_first().push(e),
        ));
        assert(tree_text(es.push(e)) =~= tree_text(es) + entry_line(e) + seq!['\n']);
    }
}

/// The text of a tree with these entries.
pub fn tree_text_of(entries: &Vec<TreeEntry>) -> (r: String)
    ensures
        r@ == tree_text(entry_views(entries@)),
{
    let mut out: Vec<char> = Vec::new();
    let mut i: usize = 0;
    while i < entries.len()
        invariant
            i <= entries@.len(),
            out@ == tree_text(entry_views(entries@).take(i as int)),
        decreases entries@.len() - i,
    {
        let ghost before = out@;
        let e = &entries[i];
        push_all(&mut out, chars_of(e.0.as_str()).as_slice());
        out.push(' ');
        push_all(&mut out, chars_of(e.1.as_str()).as_slice());
        out.push(' ');
        push_all(&mut out, chars_of(e.2.as_str()).as_slice());
        out.push('\n');
        proof {
            let ev = entry_views(entries@);
            assert(ev.take(i + 1) =~= ev.take(i as int).push(ev[i as int]));
            lemma_tree_text_push(ev.take(i as int), ev[i as int]);
            assert(out@ =~= before + entry_line(ev[i as int]) + seq!['\n']);
        }
        i = i + 1;
    }
    assert(entry_views(entries@).take(entries@.len() as int) =~= entry_views(entries@));
    string_from(out.as_slice())
}

/// Why a tree could not be read.
#[derive(Debug)]
pub enum TreeError {
    /// The tree object could not be read.
    Object(ObjectError),
    /// The tree's bytes are not valid UTF-8.
    InvalidUtf8,
    /// An entry names a type other than `blob` or `tree`.
    UnsupportedType(String),
}

/// The abstract form of a tree error.
pub enum TreeErrorView {
    Object(ObjectError),
    InvalidUtf8,
    UnsupportedType(Seq<char>),
}

impl View for TreeError {
    type V = TreeErrorView;

    open spec fn view(&self) -> TreeErrorView {
        match self {
            TreeError::Object(e) => TreeErrorView::Object(*e),
            TreeError::InvalidUtf8 => TreeErrorView::InvalidUtf8,
            TreeError::UnsupportedType(s) => TreeErrorView::UnsupportedType(s@),
        }
    }
}

/// The entries read from the lines of a tree from line `i` on: a line of
/// fewer than three words is skipped; otherwise the first word must be
/// `blob` or `tree`, and the next two are the id and the name (further
/// words are ignored).
pub open spec fn parse_tree_from(ls: Seq<Seq<char>>, i: int) -> Result<Seq<EntryView>, TreeErrorView>
    decreases ls.len() - i,
{
    if i < 0 || i >= ls.len() {
        Ok(seq![])
    } else {
        let w = words(ls[i]);
        if ls[i].len() == 0 || w.len() < 3 {
            parse_tree_from(ls, i + 1)
        } else {
            let kind = if w[0] == kind_name(ObjectType::Blob) {
                Some(ObjectType::Blob)
            } else if w[0] == kind_name(ObjectType::Tree) {
                Some(ObjectType::Tree)
            } else {
                None
            };
            match kind {
                None => Err(TreeErrorView::UnsupportedType(w[0])),
                Some(k) => match parse_tree_from(ls, i + 1) {
                    Ok(rest) => Ok(seq![(k, w[1], w[2])] + rest),
                    Err(e) => Err(e),
                },
            }
        }
    }
}

/// The entries of a tree's text.
pub open spec fn parse_tree(text: Seq<char>) -> Result<Seq<EntryView>, TreeErrorView> {
    parse_tree_from(lines(text), 0)
}

/// The entries of the tree stored under `oid`.
pub open spec fn tree_at(t: TableView, oid: Seq<char>) -> Result<Seq<EntryView>, TreeErrorView> {
    match fetch(t, oid, ObjectType::Tree) {
        Err(e) => Err(TreeErrorView::Object(e)),
        Ok(bytes) => if !valid_utf8(bytes) {
            Err(TreeErrorView::InvalidUtf8)
        } else {
            parse_tree(decode_utf8(bytes))
        },
    }
}

/// `listed` followed by a later result.
pub open spec fn after_entries(
    listed: Seq<EntryView>,
    later: Result<Seq<EntryView>, TreeErrorView>,
) -> Result<Seq<EntryView>, TreeErrorView> {
    match later {
        Ok(rest) => Ok(listed + rest),
        Err(e) => Err(e),
    }
}

/// The characters of a type name.
fn kind_chars(t: ObjectType) -> (r: Vec<char>)
    ensures
        r@ == kind_name(t),
{
    chars_of(t.as_str())
}

/// The entries of a tree's text.
pub fn parse_tree_text(text: &str) -> (r: Result<Vec<TreeEntry>, TreeError>)
    ensures
        r is Ok ==> parse_tree(text@) == Ok::<Seq<EntryView>, TreeErrorView>(entry_views(r->Ok_0@)),
        r is Err ==> parse_tree(text@) == Err::<Seq<EntryView>, TreeErrorView>(r->Err_0@),
{
    let chars = chars_of(text);
    let ls = lines_of(chars.as_slice());
    let ghost lv = views(ls@);
    let blob_k = kind_chars(ObjectType::Blob);
    let tree_k = kind_chars(ObjectType::Tree);
    let mut entries: Vec<TreeEntry> = Vec::new();
    let mut i: usize = 0;
    while i < ls.len()
        invariant
            lv == views(ls@),
            lv == lines(text@),
            blob_k@ == kind_name(ObjectType::Blob),
            tree_k@ == kind_name(ObjectType::Tree),
            i <= ls@.len(),
            parse_tree_from(lv, 0) == after_entries(entry_views(entries@), parse_tree_from(lv, i as int)),
        decreases ls@.len() - i,
    {
        let line = &ls[i];
        assert(line@ == lv[i as int]);
        let w = words_of(line.as_slice());
        let ghost wv = views(w@);
        assert(wv == words(lv[i as int]));
        if line.len() != 0 && w.len() >= 3 {
            assert(w@[0]@ == wv[0] && w@[1]@ == wv[1] && w@[2]@ == wv[2]);
            let kind = if chars_eq(w[0].as_slice(), blob_k.as_slice()) {
                ObjectType::Blob
            } else if chars_eq(w[0].as_slice(), tree_k.as_slice()) {
                ObjectType::Tree
            } else {
                return Err(TreeError::UnsupportedType(string_from(w[0].as_slice())));
            };
            let ghost before = entry_views(entries@);
            let oid = string_from(w[1].as_slice());
            let name = string_from(w[2].as_slice());
            entries.push((kind, oid, name));
            proof {
                assert(entry_views(entries@) =~= before.push((kind, wv[1], wv[2])));
                match parse_tree_from(lv, i + 1) {
                    Ok(rest) => {
                        assert(before + (seq![(kind, wv[1], wv[2])] + rest) =~= before.push(
                            (kind, wv[1], wv[2]),
                        ) + rest);
                    },
                    Err(_) => {},
                }
            }
        }
        i = i + 1;
    }
    assert(entry_views(entries@) + Seq::<EntryView>::empty() =~= entry_views(entries@));
    Ok(entries)
}

/// The entries of the tree stored under `oid`; reading an object whose
/// header names another type is an error.
pub fn iter_tree_entries(oid: &str, objects: &ObjectStore) -> (r: Result<Vec<TreeEntry>, TreeError>)
    requires
        objects.wf(),
    ensures
        r is Ok ==> tree_at(objects@, oid@) == Ok::<Seq<EntryView>, TreeErrorView>(
            entry_views(r->Ok_0@),
        ),
        r is Err ==> tree_at(objects@, oid@) == Err::<Seq<EntryView>, TreeErrorView>(r->Err_0@),
{
    match get_object(oid, ObjectType::Tree, objects) {
        Err(e) => Err(TreeError::Object(e)),
        Ok(bytes) => match str_from_utf8(bytes.as_slice()) {
            None => Err(TreeError::InvalidUtf8),
            Some(text) => parse_tree_text(text),
        },
    }
}

/// An entry that reads back from its line: a blob or a tree, with an id
/// and a name that are single words.
pub open spec fn entry_writable(e: EntryView) -> bool {
    &&& !(e.0 is Commit)
    &&& is_word(e.1)
    &&& is_word(e.2)
}

/// Parsing tree lines after a prefix of lines is parsing them alone.
pub proof fn lemma_parse_tree_shift(pre: Seq<Seq<char>>, ls: Seq<Seq<char>>, i: int)
    requires
        0 <= i <= ls.len(),
    ensures
        parse_tree_from(pre + ls, pre.len() + i) == parse_tree_from(ls, i),
    decreases ls.len() - i,
{
    if i < ls.len() {
        assert((pre + ls)[pre.len() + i] == ls[i]);
        lemma_parse_tree_shift(pre, ls, i + 1);
    }
}

/// A type's name is a single word.
proof fn lemma_kind_word(t: ObjectType)
    ensures
        is_word(kind_name(t)),
{
    assert forall|i: int| 0 <= i < kind_name(t).len() implies !crate::text::is_ws(
        #[trigger] kind_name(t)[i],
    ) by {}
}

/// A tree's text read back gives its entries, when each entry is a blob or
/// a tree whose id and name are single words.
pub proof fn law_tree_roundtrip(es: Seq<EntryView>)
    requires
        forall|i: int| 0 <= i < es.len() ==> entry_writable(#[trigger] es[i]),
    ensures
        parse_tree(tree_text(es)) == Ok::<Seq<EntryView>, TreeErrorView>(es),
    decreases es.len(),
{
    if es.len() == 0 {
        assert(lines(Seq::<char>::empty()) =~= Seq::<Seq<char>>::empty());
        assert(es =~= Seq::<EntryView>::empty());
    } else {
        let e = es[0];
        assert(entry_writable(e));
        let rest = es.drop_first();
        assert forall|i: int| 0 <= i < rest.len() implies entry_writable(#[trigger] rest[i]) by {
            assert(rest[i] == es[i + 1]);
        }
        law_tree_roundtrip(rest);
        let l = entry_line(e);
        lemma_kind_word(e.0);
        crate::text::lemma_words_single(e.2);
        crate::text::lemma_words_cons(e.1, e.2);
        assert(l =~= kind_name(e.0) + seq![' '] + (e.1 + seq![' '] + e.2));
        crate::text::lemma_words_cons(kind_name(e.0), e.1 + seq![' '] + e.2);
        assert(words(l) =~= seq![kind_name(e.0), e.1, e.2]);
        assert forall|j: int| 0 <= j < l.len() implies l[j] != '\n' && l[j] != '\r' by {
            let n0 = kind_name(e.0).len() as int;
            let n1 = e.1.len() as int;
            if j < n0 {
                assert(l[j] == kind_name(e.0)[j]);
            } else if j == n0 || j == n0 + n1 + 1 {
            } else if j < n0 + n1 + 1 {
                assert(l[j] == e.1[j - n0 - 1]);
            } else {
                assert(l[j] == e.2[j - n0 - n1 - 2]);
            }
        }
        assert(!l.contains('\n'));
        assert(l.last() == l[l.len() - 1]);
        assert(strip_cr(l) == l);
        crate::text::lemma_lines_cons(l, tree_text(rest));
        let ls = lines(tree_text(es));
        assert(ls =~= seq![l] + lines(tree_text(rest)));
        lemma_parse_tree_shift(seq![l], lines(tree_text(rest)), 0);
        assert(ls[0] == l);
        let kind_ok = if words(l)[0] == kind_name(ObjectType::Blob) {
            Some(ObjectType::Blob)
        } else if words(l)[0] == kind_name(ObjectType::Tree) {
            Some(ObjectType::Tree)
        } else {
            None
        };
        assert(kind_ok == Some(e.0)) by {
            match e.0 {
                ObjectType::Blob => {},
                ObjectType::Tree => {
                    assert(kind_name(ObjectType::Tree) != kind_name(ObjectType::Blob)) by {
                        assert(kind_name(ObjectType::Tree)[0] != kind_name(ObjectType::Blob)[0]);
                    }
                },
                ObjectType::Commit => {},
            }
        }
        assert(parse_tree_from(ls, 0) =~= Ok::<Seq<EntryView>, TreeErrorView>(
            seq![e] + rest,
        ));
        assert(seq![e] + rest =~= es);
    }
}


/// Strict lexicographic order on names, character by character (the order
/// of `String`).
pub open spec fn name_lt(a: Seq<char>, b: Seq<char>) -> bool
    decreases a.len(),
{
    if b.len() == 0 {
        false
    } else if a.len() == 0 {
        true
    } else if a[0] != b[0] {
        a[0] < b[0]
    } else {
        name_lt(a.drop_first(), b.drop_first())
    }
}

/// The order of names is the order of strings: after a common prefix of
/// length `i`, the name with the smaller character at `i` comes first, a
/// name that ends there comes before a longer one, and a name never comes
/// before one that it continues or equals.
pub proof fn law_name_order(a: Seq<char>, b: Seq<char>, i: int)
    requires
        0 <= i <= a.len(),
        i <= b.len(),
        a.take(i) == b.take(i),
    ensures
        i < a.len() && i < b.len() && a[i] != b[i] ==> (name_lt(a, b) <==> a[i] < b[i]),
        i == a.len() ==> (name_lt(a, b) <==> a.len() < b.len()),
        i == b.len() ==> !name_lt(a, b),
    decreases i,
{
    if i > 0 {
        assert(a[0] == a.take(i)[0] && b[0] == b.take(i)[0]);
        let a1 = a.drop_first();
        let b1 = b.drop_first();
        assert(a1.take(i - 1) =~= a.take(i).drop_first());
        assert(b1.take(i - 1) =~= b.take(i).drop_first());
        law_name_order(a1, b1, i - 1);
        if i < a.len() && i < b.len() {
            assert(a1[i - 1] == a[i] && b1[i - 1] == b[i]);
        }
    }
}

/// Whether `a` comes strictly before `b` by name.
pub fn exec_name_lt(a: &[char], b: &[char]) -> (r: bool)
    ensures
        r == name_lt(a@, b@),
{
    let mut i: usize = 0;
    assert(a@.skip(0) =~= a@);
    assert(b@.skip(0) =~= b@);
    while i < a.len() && i < b.len()
        invariant
            i <= a@.len(),
            i <= b@.len(),
            name_lt(a@, b@) == name_lt(a@.skip(i as int), b@.skip(i as int)),
        decreases a@.len() - i,
    {
        if a[i] != b[i] {
            return a[i] < b[i];
        }
        proof {
            assert(a@.skip(i as int).drop_first() =~= a@.skip(i + 1));
            assert(b@.skip(i as int).drop_first() =~= b@.skip(i + 1));
        }
        i = i + 1;
    }
    i < b.len()
}

/// `x` placed into `s` before the first entry whose name is greater than
/// its own.
pub open spec fn insert_by_name(s: Seq<EntryView>, x: EntryView) -> Seq<EntryView>
    decreases s.len(),
{
    if s.len() == 0 {
        seq![x]
    } else if name_lt(x.2, s[0].2) {
        seq![x] + s
    } else {
        seq![s[0]] + insert_by_name(s.drop_first(), x)
    }
}

/// The entries in order of name, entries of equal name keeping their order
/// (a stable sort).
pub open spec fn sort_by_name(s: Seq<EntryView>) -> Seq<EntryView>
    decreases s.len(),
{
    if s.len() == 0 {
        seq![]
    } else {
        insert_by_name(sort_by_name(s.drop_last()), s.last())
    }
}

/// No two entries share a name.
pub open spec fn names_distinct(s: Seq<EntryView>) -> bool {
    forall|i: int, j: int| 0 <= i < j < s.len() ==> #[trigger] s[i].2 != #[trigger] s[j].2
}

/// Entries in strictly increasing order of name.
pub open spec fn strictly_sorted(s: Seq<EntryView>) -> bool {
    forall|i: int, j: int| 0 <= i < j < s.len() ==> name_lt(#[trigger] s[i].2, #[trigger] s[j].2)
}

/// Sorting entries of distinct names orders them strictly.
pub proof fn lemma_sort_strict(s: Seq<EntryView>)
    requires
        names_distinct(s),
    ensures
        strictly_sorted(sort_by_name(s)),
{
    broadcast use vstd::seq_lib::group_to_multiset_ensures;
    let t = sort_by_name(s);
    lemma_sort_by_name(s);
    assert(s.no_duplicates()) by {
        assert forall|i: int, j: int| 0 <= i < s.len() && 0 <= j < s.len() && i != j implies s[i] != s[j] by {
            if i < j {
                assert(s[i].2 != s[j].2);
            } else {
                assert(s[j].2 != s[i].2);
            }
        }
    }
    s.lemma_multiset_has_no_duplicates();
    t.lemma_multiset_has_no_duplicates_conv();
    assert forall|i: int, j: int| 0 <= i < j < t.len() implies name_lt(#[trigger] t[i].2, #[trigger] t[j].2) by {
        assert(t[i] != t[j]);
        assert(t.contains(t[i]) && t.contains(t[j]));
        assert(s.to_multiset().count(t[i]) > 0);
        assert(s.to_multiset().count(t[j]) > 0);
        let p = choose|p: int| 0 <= p < s.len() && s[p] == t[i];
        let q = choose|q: int| 0 <= q < s.len() && s[q] == t[j];
        assert(p != q);
        if p < q {
            assert(s[p].2 != s[q].2);
        } else {
            assert(s[q].2 != s[p].2);
        }
        lemma_name_lt_total(t[i].2, t[j].2);
    }
}

/// A strictly sorted sequence and a sorted one with the same entries are
/// the same.
pub proof fn lemma_sorted_unique(s: Seq<EntryView>, t: Seq<EntryView>)
    requires
        strictly_sorted(s),
        sorted_by_name(t),
        s.to_multiset() == t.to_multiset(),
    ensures
        s == t,
    decreases s.len(),
{
    broadcast use vstd::seq_lib::group_to_multiset_ensures;
    if s.len() == 0 {
        assert(t.to_multiset().len() == 0);
        assert(t =~= s);
    } else {
        assert(t.len() > 0) by {
            assert(t.to_multiset().len() == s.len());
        }
        assert(s.contains(s[0]) && t.contains(t[0]));
        assert(t.to_multiset().count(s[0]) > 0);
        assert(s.to_multiset().count(t[0]) > 0);
        if s[0] != t[0] {
            let i = choose|i: int| 0 <= i < s.len() && s[i] == t[0];
            let j = choose|j: int| 0 <= j < t.len() && t[j] == s[0];
            assert(i > 0 && j > 0);
            assert(name_lt(s[0].2, s[i].2));
            assert(!name_lt(t[j].2, t[0].2));
        }
        let s1 = s.drop_first();
        let t1 = t.drop_first();
        assert(s.remove(0) =~= s1);
        assert(t.remove(0) =~= t1);
        assert(s1.to_multiset() == t1.to_multiset());
        assert forall|i: int, j: int| 0 <= i < j < s1.len() implies name_lt(#[trigger] s1[i].2, #[trigger] s1[j].2) by {
            assert(s1[i] == s[i + 1] && s1[j] == s[j + 1]);
        }
        assert forall|i: int, j: int| 0 <= i < j < t1.len() implies !name_lt(#[trigger] t1[j].2, #[trigger] t1[i].2) by {
            assert(t1[i] == t[i + 1] && t1[j] == t[j + 1]);
        }
        lemma_sorted_unique(s1, t1);
        assert(s =~= t) by {
            assert forall|k: int| 0 <= k < s.len() implies s[k] == t[k] by {
                if k > 0 {
                    assert(s[k] == s1[k - 1] && t[k] == t1[k - 1]);
                }
            }
        }
    }
}

/// Entries with the same multiset and distinct names sort alike.
pub proof fn lemma_sort_order_free(a: Seq<EntryView>, b: Seq<EntryView>)
    requires
        a.to_multiset() == b.to_multiset(),
        names_distinct(a),
    ensures
        sort_by_name(a) == sort_by_name(b),
{
    lemma_sort_strict(a);
    lemma_sort_by_name(a);
    lemma_sort_by_name(b);
    lemma_sorted_unique(sort_by_name(a), sort_by_name(b));
}

/// Entries in order of name.
pub open spec fn sorted_by_name(s: Seq<EntryView>) -> bool {
    forall|i: int, j: int| 0 <= i < j < s.len() ==> !name_lt(#[trigger] s[j].2, #[trigger] s[i].2)
}

/// No name is before itself.
pub proof fn lemma_name_lt_irreflexive(a: Seq<char>)
    ensures
        !name_lt(a, a),
    decreases a.len(),
{
    if a.len() > 0 {
        lemma_name_lt_irreflexive(a.drop_first());
    }
}

/// The order of names is transitive.
pub proof fn lemma_name_lt_transitive(a: Seq<char>, b: Seq<char>, c: Seq<char>)
    requires
        name_lt(a, b),
        name_lt(b, c),
    ensures
        name_lt(a, c),
    decreases a.len(),
{
    if a.len() > 0 && b.len() > 0 && c.len() > 0 && a[0] == b[0] && b[0] == c[0] {
        lemma_name_lt_transitive(a.drop_first(), b.drop_first(), c.drop_first());
    }
}

/// Of two different names, one is before the other.
pub proof fn lemma_name_lt_total(a: Seq<char>, b: Seq<char>)
    ensures
        name_lt(a, b) || name_lt(b, a) || a == b,
    decreases a.len(),
{
    if a.len() > 0 && b.len() > 0 {
        if a[0] == b[0] {
            lemma_name_lt_total(a.drop_first(), b.drop_first());
            if a.drop_first() == b.drop_first() {
                assert(a =~= seq![a[0]] + a.drop_first());
                assert(b =~= seq![b[0]] + b.drop_first());
            }
        } else {
        }
    } else if a.len() == 0 && b.len() == 0 {
        assert(a =~= b);
    }
}

/// `x` inserted by name into sorted entries keeps them sorted, and adds
/// exactly `x`.
pub proof fn lemma_insert_by_name(s: Seq<EntryView>, x: EntryView)
    requires
        sorted_by_name(s),
    ensures
        sorted_by_name(insert_by_name(s, x)),
        insert_by_name(s, x).to_multiset() == s.to_multiset().insert(x),
        insert_by_name(s, x).len() == s.len() + 1,
        forall|k: int| 0 <= k < insert_by_name(s, x).len() ==> (#[trigger] insert_by_name(s, x)[k]
            == x || s.contains(insert_by_name(s, x)[k])),
    decreases s.len(),
{
    broadcast use vstd::seq_lib::group_to_multiset_ensures;
    let r = insert_by_name(s, x);
    if s.len() == 0 {
        assert(r =~= Seq::<EntryView>::empty().push(x));
        assert(s =~= Seq::<EntryView>::empty());
    } else if name_lt(x.2, s[0].2) {
        assert forall|i: int, j: int| 0 <= i < j < r.len() implies !name_lt(
            #[trigger] r[j].2,
            #[trigger] r[i].2,
        ) by {
            if i == 0 {
                if name_lt(r[j].2, x.2) {
                    if j - 1 > 0 {
                        assert(!name_lt(s[j - 1].2, s[0].2));
                        lemma_name_lt_transitive(s[j - 1].2, x.2, s[0].2);
                    } else {
                        lemma_name_lt_transitive(x.2, s[0].2, x.2);
                        lemma_name_lt_irreflexive(x.2);
                    }
                }
            } else {
                assert(r[i] == s[i - 1] && r[j] == s[j - 1]);
            }
        }
        assert(r =~= seq![x] + s);
        assert(seq![x] + s =~= s.insert(0, x));
        assert(s.insert(0, x).remove(0) =~= s);
        assert(r.to_multiset().remove(x) =~= s.to_multiset());
        assert(r.to_multiset() =~= s.to_multiset().insert(x));
        assert forall|k: int| 0 <= k < r.len() implies (#[trigger] r[k] == x || s.contains(r[k])) by {
            if k > 0 {
                assert(r[k] == s[k - 1]);
            }
        }
    } else {
        let t = s.drop_first();
        assert(sorted_by_name(t)) by {
            assert forall|i: int, j: int| 0 <= i < j < t.len() implies !name_lt(
                #[trigger] t[j].2,
                #[trigger] t[i].2,
            ) by {
                assert(t[i] == s[i + 1] && t[j] == s[j + 1]);
            }
        }
        lemma_insert_by_name(t, x);
        let rt = insert_by_name(t, x);
        assert(r =~= seq![s[0]] + rt);
        assert forall|i: int, j: int| 0 <= i < j < r.len() implies !name_lt(
            #[trigger] r[j].2,
            #[trigger] r[i].2,
        ) by {
            if i == 0 {
                assert(r[j] == rt[j - 1]);
                if rt[j - 1] == x {
                } else {
                    let k = choose|k: int| 0 <= k < t.len() && t[k] == rt[j - 1];
                    assert(t[k] == s[k + 1]);
                }
            } else {
                assert(r[i] == rt[i - 1] && r[j] == rt[j - 1]);
            }
        }
        assert(s =~= seq![s[0]] + t);
        assert(r.to_multiset() =~= s.to_multiset().insert(x)) by {
            assert(r =~= rt.insert(0, s[0]));
            assert(rt.insert(0, s[0]).remove(0) =~= rt);
            assert(s =~= t.insert(0, s[0]));
            assert(t.insert(0, s[0]).remove(0) =~= t);
            assert(r.to_multiset().remove(s[0]) =~= rt.to_multiset());
            assert(s.to_multiset().remove(s[0]) =~= t.to_multiset());
            assert(r.contains(s[0])) by {
                assert(r[0] == s[0]);
            }
            assert(s.contains(s[0])) by {
                assert(s[0] == s[0]);
            }
        }
        assert forall|k: int| 0 <= k < r.len() implies (#[trigger] r[k] == x || s.contains(r[k])) by {
            if k == 0 {
                assert(s[0] == r[0]);
            } else {
                assert(r[k] == rt[k - 1]);
                if rt[k - 1] != x {
                    let m = choose|m: int| 0 <= m < t.len() && t[m] == rt[k - 1];
                    assert(s[m + 1] == t[m]);
                }
            }
        }
    }
}

/// Sorting by name gives entries in order of name that are the same
/// entries as before.
pub proof fn lemma_sort_by_name(s: Seq<EntryView>)
    ensures
        sorted_by_name(sort_by_name(s)),
        sort_by_name(s).to_multiset() == s.to_multiset(),
    decreases s.len(),
{
    broadcast use vstd::seq_lib::group_to_multiset_ensures;
    if s.len() == 0 {
        assert(sort_by_name(s) =~= s);
    } else {
        lemma_sort_by_name(s.drop_last());
        lemma_insert_by_name(sort_by_name(s.drop_last()), s.last());
        assert(s =~= s.drop_last().push(s.last()));
    }
}

/// The position at which `x` goes: before the first entry whose name is
/// greater than its own.
pub proof fn lemma_insert_by_name_at(s: Seq<EntryView>, x: EntryView, pos: int)
    requires
        0 <= pos <= s.len(),
        forall|k: int| 0 <= k < pos ==> !name_lt(x.2, #[trigger] s[k].2),
        pos == s.len() || name_lt(x.2, s[pos].2),
    ensures
        insert_by_name(s, x) == s.insert(pos, x),
    decreases s.len(),
{
    if s.len() == 0 {
        assert(s.insert(pos, x) =~= seq![x]);
    } else if pos == 0 {
        assert(s.insert(pos, x) =~= seq![x] + s);
    } else {
        let t = s.drop_first();
        assert forall|k: int| 0 <= k < pos - 1 implies !name_lt(x.2, #[trigger] t[k].2) by {
            assert(t[k] == s[k + 1]);
        }
        if pos - 1 < t.len() {
            assert(t[pos - 1] == s[pos]);
        }
        lemma_insert_by_name_at(t, x, pos - 1);
        assert(s.insert(pos, x) =~= seq![s[0]] + t.insert(pos - 1, x));
    }
}

/// Sorts entries by name, stably.
pub fn sort_entries(entries: Vec<TreeEntry>) -> (r: Vec<TreeEntry>)
    ensures
        entry_views(r@) == sort_by_name(entry_views(entries@)),
{
    let mut out: Vec<TreeEntry> = Vec::new();
    let mut i: usize = 0;
    let ghost ev = entry_views(entries@);
    while i < entries.len()
        invariant
            i <= entries@.len(),
            ev == entry_views(entries@),
            entry_views(out@) == sort_by_name(ev.take(i as int)),
        decreases entries@.len() - i,
    {
        let e = &entries[i];
        let name = chars_of(e.2.as_str());
        let mut pos: usize = 0;
        while pos < out.len() && !exec_name_lt(name.as_slice(), chars_of(out[pos].2.as_str()).as_slice())
            invariant
                pos <= out@.len(),
                name@ == e.2@,
                forall|k: int| 0 <= k < pos ==> !name_lt(e.2@, #[trigger] entry_views(out@)[k].2),
            decreases out@.len() - pos,
        {
            pos = pos + 1;
        }
        let ghost before = entry_views(out@);
        let x = (e.0, e.1.clone(), e.2.clone());
        out.insert(pos, x);
        proof {
            let xv = (x.0, x.1@, x.2@);
            assert(xv == ev[i as int]);
            lemma_insert_by_name_at(before, xv, pos as int);
            assert(entry_views(out@) =~= before.insert(pos as int, xv));
            assert(ev.take(i + 1).drop_last() =~= ev.take(i as int));
            assert(ev.take(i + 1).last() == xv);
        }
        i = i + 1;
    }
    assert(ev.take(entries@.len() as int) =~= ev);
    out
}


/// A path found by walking a tree: the path, the entry's type and its id.
pub type Listed = (String, ObjectType, String);

/// The abstract form of a walked path.
pub type ListedView = (Seq<char>, ObjectType, Seq<char>);

/// The abstract form of walked paths.
pub open spec fn listed_views(v: Seq<Listed>) -> Seq<ListedView> {
    Seq::new(v.len(), |i: int| (v[i].0@, v[i].1, v[i].2@))
}

/// Walking the tree stored under `oid` whose entries lie under the path
/// `base`, reading at most `fuel` levels: each entry's path, type and id,
/// every subtree walked right after its own entry. `None` when the fuel
/// runs out.
pub open spec fn walk(t: TableView, oid: Seq<char>, base: Seq<char>, fuel: nat) -> Option<
    Result<Seq<ListedView>, TreeErrorView>,
>
    decreases fuel, 0int,
{
    if fuel == 0 {
        None
    } else {
        match tree_at(t, oid) {
            Err(e) => Some(Err(e)),
            Ok(es) => walk_entries(t, es, base, (fuel - 1) as nat),
        }
    }
}

/// Walking the entries `es` of a tree under the path `base`.
pub open spec fn walk_entries(t: TableView, es: Seq<EntryView>, base: Seq<char>, fuel: nat) -> Option<
    Result<Seq<ListedView>, TreeErrorView>,
>
    decreases fuel, es.len(),
{
    if es.len() == 0 {
        Some(Ok(seq![]))
    } else {
        let e = es[0];
        let path = crate::worktree::child_path(base, e.2);
        let sub = if e.0 is Tree {
            walk(t, e.1, path, fuel)
        } else {
            Some(Ok(seq![]))
        };
        match sub {
            None => None,
            Some(Err(err)) => Some(Err(err)),
            Some(Ok(inner)) => match walk_entries(t, es.drop_first(), base, fuel) {
                None => None,
                Some(Err(err)) => Some(Err(err)),
                Some(Ok(rest)) => Some(Ok(seq![(path, e.0, e.1)] + inner + rest)),
            },
        }
    }
}

/// Walking the tree under `oid` ends: no tree contains itself.
pub open spec fn walk_ends(t: TableView, oid: Seq<char>, base: Seq<char>) -> bool {
    exists|fuel: nat| #[trigger] walk(t, oid, base, fuel) is Some
}

/// What walking the tree under `oid` gives, when it ends.
pub open spec fn tree_walk(t: TableView, oid: Seq<char>, base: Seq<char>) -> Result<
    Seq<ListedView>,
    TreeErrorView,
> {
    walk(t, oid, base, choose|fuel: nat| #[trigger] walk(t, oid, base, fuel) is Some)->Some_0
}

/// `done` followed by a later walk.
pub open spec fn after_walk(
    done: Seq<ListedView>,
    later: Option<Result<Seq<ListedView>, TreeErrorView>>,
) -> Option<Result<Seq<ListedView>, TreeErrorView>> {
    match later {
        Some(Ok(rest)) => Some(Ok(done + rest)),
        other => other,
    }
}

fn walk_exec(oid: &str, base: &[char], objects: &ObjectStore, Ghost(fuel): Ghost<nat>) -> (r: Result<
    Vec<Listed>,
    TreeError,
>)
    requires
        objects.wf(),
        walk(objects@, oid@, base@, fuel) is Some,
    ensures
        r is Ok ==> walk(objects@, oid@, base@, fuel) == Some(
            Ok::<Seq<ListedView>, TreeErrorView>(listed_views(r->Ok_0@)),
        ),
        r is Err ==> walk(objects@, oid@, base@, fuel) == Some(
            Err::<Seq<ListedView>, TreeErrorView>(r->Err_0@),
        ),
    decreases fuel,
{
    let entries = match iter_tree_entries(oid, objects) {
        Err(e) => {
            return Err(e);
        },
        Ok(es) => es,
    };
    let ghost es = entry_views(entries@);
    let ghost f = (fuel - 1) as nat;
    let mut result: Vec<Listed> = Vec::new();
    let mut i: usize = 0;
    proof {
        assert(fuel > 0);
        assert(es.skip(0) =~= es);
        assert(listed_views(result@) =~= Seq::<ListedView>::empty());
        assert(walk(objects@, oid@, base@, fuel) == walk_entries(objects@, es, base@, f));
        match walk_entries(objects@, es, base@, f) {
            Some(Ok(r0)) => {
                assert(Seq::<ListedView>::empty() + r0 =~= r0);
            },
            _ => {},
        }
    }
    while i < entries.len()
        invariant
            objects.wf(),
            fuel > 0,
            f == fuel - 1,
            es == entry_views(entries@),
            i <= entries@.len(),
            walk(objects@, oid@, base@, fuel) == after_walk(
                listed_views(result@),
                walk_entries(objects@, es.skip(i as int), base@, f),
            ),
            walk(objects@, oid@, base@, fuel) is Some,
        decreases entries@.len() - i,
    {
        let ghost before = listed_views(result@);
        let ghost rest = es.skip(i as int);
        assert(rest[0] == es[i as int]);
        assert(rest.drop_first() =~= es.skip(i + 1));
        let e = &entries[i];
        let path = crate::worktree::child_path_of(base, chars_of(e.2.as_str()).as_slice());
        let path_str = string_from(path.as_slice());
        result.push((path_str, e.0, e.1.clone()));
        let ghost here = listed_views(result@);
        assert(here =~= before.push((path@, e.0, e.1@)));
        match e.0 {
            ObjectType::Tree => {
                let sub = walk_exec(e.1.as_str(), path.as_slice(), objects, Ghost(f));
                match sub {
                    Err(err) => {
                        return Err(err);
                    },
                    Ok(items) => {
                        let ghost iv = listed_views(items@);
                        let mut k: usize = 0;
                        while k < items.len()
                            invariant
                                k <= items@.len(),
                                iv == listed_views(items@),
                                listed_views(result@) == here + iv.take(k as int),
                            decreases items@.len() - k,
                        {
                            let it = &items[k];
                            let ghost b2 = listed_views(result@);
                            result.push((it.0.clone(), it.1, it.2.clone()));
                            assert(listed_views(result@) =~= b2.push(iv[k as int]));
                            assert(iv.take(k + 1) =~= iv.take(k as int).push(iv[k as int]));
                            k = k + 1;
                        }
                        assert(iv.take(items@.len() as int) =~= iv);
                        proof {
                            match walk_entries(objects@, es.skip(i + 1), base@, f) {
                                Some(Ok(r2)) => {
                                    assert(before + (seq![(path@, e.0, e.1@)] + iv + r2) =~= here
                                        + iv + r2);
                                },
                                _ => {},
                            }
                        }
                    },
                }
            },
            _ => {
                proof {
                    match walk_entries(objects@, es.skip(i + 1), base@, f) {
                        Some(Ok(r2)) => {
                            assert(before + (seq![(path@, e.0, e.1@)] + Seq::<ListedView>::empty()
                                + r2) =~= here + r2);
                        },
                        _ => {},
                    }
                }
            },
        }
        i = i + 1;
    }
    assert(listed_views(result@) + Seq::<ListedView>::empty() =~= listed_views(result@));
    Ok(result)
}

/// Walks the tree stored under `oid` and all its subtrees: each entry's
/// path (under `base_path`), type and id, each subtree right after its own
/// entry. Walking is required to end (no tree contains itself).
pub fn get_tree(oid: &str, base_path: &str, objects: &ObjectStore) -> (r: Result<Vec<Listed>, TreeError>)
    requires
        objects.wf(),
        walk_ends(objects@, oid@, base_path@),
    ensures
        r is Ok ==> tree_walk(objects@, oid@, base_path@) == Ok::<Seq<ListedView>, TreeErrorView>(
            listed_views(r->Ok_0@),
        ),
        r is Err ==> tree_walk(objects@, oid@, base_path@) == Err::<Seq<ListedView>, TreeErrorView>(
            r->Err_0@,
        ),
{
    let ghost fuel = choose|fuel: nat| #[trigger] walk(objects@, oid@, base_path@, fuel) is Some;
    let base = chars_of(base_path);
    walk_exec(oid, base.as_slice(), objects, Ghost(fuel))
}


/// One step of restoring a tree into the working directory.
#[derive(Debug)]
pub enum RestoreStep {
    /// Create this directory (and its parents).
    Dir(String),
    /// Write these bytes to this file (creating its parent directories).
    File(String, Vec<u8>),
}

/// The abstract form of a restore step.
pub enum StepView {
    Dir(Seq<char>),
    File(Seq<char>, Seq<u8>),
}

/// The abstract form of restore steps.
pub open spec fn step_views(v: Seq<RestoreStep>) -> Seq<StepView> {
    Seq::new(
        v.len(),
        |i: int|
            match v[i] {
                RestoreStep::Dir(p) => StepView::Dir(p@),
                RestoreStep::File(p, c) => StepView::File(p@, c@),
            },
    )
}

/// Why a tree could not be restored.
#[derive(Debug)]
pub enum ReadTreeError {
    /// Walking the tree failed.
    Tree(TreeError),
    /// A file's blob could not be read.
    Object(ObjectError),
}

/// The abstract form of a restore error.
pub enum ReadTreeErrorView {
    Tree(TreeErrorView),
    Object(ObjectError),
}

impl View for ReadTreeError {
    type V = ReadTreeErrorView;

    open spec fn view(&self) -> ReadTreeErrorView {
        match self {
            ReadTreeError::Tree(e) => ReadTreeErrorView::Tree(e@),
            ReadTreeError::Object(e) => ReadTreeErrorView::Object(*e),
        }
    }
}

/// The steps that restore the walked paths `ls`, in order: a directory for
/// each tree, the blob's content for each file. `None` when a blob read is
/// a fault.
pub open spec fn restore_steps(t: TableView, ls: Seq<ListedView>) -> Option<
    Result<Seq<StepView>, ReadTreeErrorView>,
>
    decreases ls.len(),
{
    if ls.len() == 0 {
        Some(Ok(seq![]))
    } else {
        let (path, kind, id) = ls[0];
        let step: Result<StepView, ReadTreeErrorView> = if kind is Blob {
            match fetch(t, id, ObjectType::Blob) {
                Ok(c) => Ok(StepView::File(path, c)),
                Err(e) => Err(ReadTreeErrorView::Object(e)),
            }
        } else {
            Ok(StepView::Dir(path))
        };
        match step {
            Err(e) => Some(Err(e)),
            Ok(st) => match restore_steps(t, ls.drop_first()) {
                Some(Ok(rest)) => Some(Ok(seq![st] + rest)),
                other => other,
            },
        }
    }
}

/// Restoring the tree stored under `oid` into the top of the working
/// directory. `None` when walking it does not end.
pub open spec fn read_tree_plan(t: TableView, oid: Seq<char>) -> Option<
    Result<Seq<StepView>, ReadTreeErrorView>,
> {
    if !walk_ends(t, oid, seq![]) {
        None
    } else {
        match tree_walk(t, oid, seq![]) {
            Err(e) => Some(Err(ReadTreeErrorView::Tree(e))),
            Ok(ls) => restore_steps(t, ls),
        }
    }
}

/// `done` followed by later steps.
pub open spec fn after_steps(
    done: Seq<StepView>,
    later: Option<Result<Seq<StepView>, ReadTreeErrorView>>,
) -> Option<Result<Seq<StepView>, ReadTreeErrorView>> {
    match later {
        Some(Ok(rest)) => Some(Ok(done + rest)),
        other => other,
    }
}

/// The steps that restore the tree stored under `oid` into the working
/// directory (which is emptied first, see `removal_plan`): directories to
/// create and files to write, with paths relative to the top directory.
pub fn read_tree(oid: &str, objects: &ObjectStore) -> (r: Result<Vec<RestoreStep>, ReadTreeError>)
    requires
        objects.wf(),
        read_tree_plan(objects@, oid@) is Some,
    ensures
        r is Ok ==> read_tree_plan(objects@, oid@) == Some(
            Ok::<Seq<StepView>, ReadTreeErrorView>(step_views(r->Ok_0@)),
        ),
        r is Err ==> read_tree_plan(objects@, oid@) == Some(
            Err::<Seq<StepView>, ReadTreeErrorView>(r->Err_0@),
        ),
{
    let top = "";
    proof {
        reveal_strlit("");
        assert(top@ =~= Seq::<char>::empty());
    }
    let listed = match get_tree(oid, top, objects) {
        Err(e) => {
            return Err(ReadTreeError::Tree(e));
        },
        Ok(l) => l,
    };
    let ghost lv = listed_views(listed@);
    let mut steps: Vec<RestoreStep> = Vec::new();
    let mut i: usize = 0;
    proof {
        assert(lv.skip(0) =~= lv);
        match restore_steps(objects@, lv) {
            Some(Ok(r0)) => {
                assert(Seq::<StepView>::empty() + r0 =~= r0);
            },
            _ => {},
        }
        assert(step_views(steps@) =~= Seq::<StepView>::empty());
    }
    while i < listed.len()
        invariant
            objects.wf(),
            lv == listed_views(listed@),
            i <= listed@.len(),
            read_tree_plan(objects@, oid@) == after_steps(
                step_views(steps@),
                restore_steps(objects@, lv.skip(i as int)),
            ),
            read_tree_plan(objects@, oid@) is Some,
        decreases listed@.len() - i,
    {
        let ghost before = step_views(steps@);
        let ghost rest = lv.skip(i as int);
        assert(rest[0] == lv[i as int]);
        assert(rest.drop_first() =~= lv.skip(i + 1));
        let item = &listed[i];
        let ghost sv: StepView;
        match item.1 {
            ObjectType::Blob => {
                match get_object(item.2.as_str(), ObjectType::Blob, objects) {
                    Err(e) => {
                        return Err(ReadTreeError::Object(e));
                    },
                    Ok(content) => {
                        proof {
                            sv = StepView::File(item.0@, content@);
                        }
                        steps.push(RestoreStep::File(item.0.clone(), content));
                    },
                }
            },
            _ => {
                proof {
                    sv = StepView::Dir(item.0@);
                }
                steps.push(RestoreStep::Dir(item.0.clone()));
            },
        }
        proof {
            assert(step_views(steps@) =~= before.push(sv));
            match restore_steps(objects@, lv.skip(i + 1)) {
                Some(Ok(r2)) => {
                    assert(before + (seq![sv] + r2) =~= before.push(sv) + r2);
                },
                _ => {},
            }
        }
        i = i + 1;
    }
    assert(step_views(steps@) + Seq::<StepView>::empty() =~= step_views(steps@));
    Ok(steps)
}


/// The restore steps of a listing are always defined.
pub proof fn lemma_restore_some(t: TableView, l: Seq<ListedView>)
    ensures
        restore_steps(t, l) is Some,
    decreases l.len(),
{
    if l.len() > 0 {
        lemma_restore_some(t, l.drop_first());
    }
}

/// Restoring walked paths writes, in order and one step each, every file
/// that the walk lists (with its blob's content) and every directory.
pub proof fn law_restore_follows_listing(t: TableView, l: Seq<ListedView>)
    ensures
        restore_steps(t, l) matches Some(Ok(st)) ==> {
            &&& st.len() == l.len()
            &&& forall|i: int| 0 <= i < l.len() ==> #[trigger] st[i] == (if l[i].1 is Blob {
                StepView::File(l[i].0, fetch(t, l[i].2, ObjectType::Blob)->Ok_0)
            } else {
                StepView::Dir(l[i].0)
            })
        },
    decreases l.len(),
{
    if l.len() > 0 {
        let rest = l.drop_first();
        law_restore_follows_listing(t, rest);
        match restore_steps(t, l) {
            Some(Ok(st)) => {
                let r = restore_steps(t, rest)->Some_0->Ok_0;
                assert forall|i: int| 0 <= i < l.len() implies #[trigger] st[i] == (if l[i].1 is Blob {
                    StepView::File(l[i].0, fetch(t, l[i].2, ObjectType::Blob)->Ok_0)
                } else {
                    StepView::Dir(l[i].0)
                }) by {
                    if i > 0 {
                        assert(st[i] == r[i - 1]);
                        assert(l[i] == rest[i - 1]);
                    }
                }
            },
            _ => {},
        }
    }
}

/// The tree under `oid` and, within `fuel` levels, every tree that it lists
/// at any depth can be read or fail to be read: no chain of subtrees is
/// deeper than `fuel`. Every listed tree is checked, whatever comes before
/// it.
pub open spec fn tree_checked(t: TableView, oid: Seq<char>, fuel: nat) -> bool
    decreases fuel,
{
    if fuel == 0 {
        false
    } else {
        match tree_at(t, oid) {
            Err(_) => true,
            Ok(es) => forall|i: int|
                0 <= i < es.len() && (#[trigger] es[i]).0 is Tree ==> tree_checked(
                    t,
                    es[i].1,
                    (fuel - 1) as nat,
                ),
        }
    }
}

/// A listed entry checked within `fuel` levels: a tree as `tree_checked`
/// says; any other entry needs no check.
pub open spec fn entry_checked(t: TableView, e: EntryView, fuel: nat) -> bool {
    e.0 is Tree ==> tree_checked(t, e.1, fuel)
}

/// A checked tree can be walked within the same number of levels.
pub proof fn lemma_checked_walks(t: TableView, oid: Seq<char>, base: Seq<char>, fuel: nat)
    requires
        tree_checked(t, oid, fuel),
    ensures
        walk(t, oid, base, fuel) is Some,
    decreases fuel, 0int,
{
    match tree_at(t, oid) {
        Err(_) => {},
        Ok(es) => {
            assert forall|i: int| 0 <= i < es.len() implies entry_checked(
                t,
                #[trigger] es[i],
                (fuel - 1) as nat,
            ) by {}
            lemma_checked_entries(t, es, base, (fuel - 1) as nat);
        },
    }
}

/// Checked entries can be walked within the same number of levels.
pub proof fn lemma_checked_entries(t: TableView, es: Seq<EntryView>, base: Seq<char>, fuel: nat)
    requires
        forall|i: int| 0 <= i < es.len() ==> entry_checked(t, #[trigger] es[i], fuel),
    ensures
        walk_entries(t, es, base, fuel) is Some,
    decreases fuel, es.len(),
{
    if es.len() > 0 {
        let e = es[0];
        assert(entry_checked(t, e, fuel));
        if e.0 is Tree {
            lemma_checked_walks(t, e.1, crate::worktree::child_path(base, e.2), fuel);
        }
        let rest = es.drop_first();
        assert forall|i: int| 0 <= i < rest.len() implies entry_checked(t, #[trigger] rest[i], fuel) by {
            assert(rest[i] == es[i + 1]);
        }
        lemma_checked_entries(t, rest, base, fuel);
    }
}

/// The number of levels that restoring checks: one more than there are
/// objects (as many as fit in a machine word).
pub open spec fn level_limit(n: nat) -> nat {
    if n < usize::MAX {
        n + 1
    } else {
        n
    }
}

/// Checks that no chain of subtrees under `oid` is deeper than `fuel`
/// levels; then walking the tree ends.
fn check_walk(oid: &str, base: &[char], objects: &ObjectStore, fuel: usize) -> (r: bool)
    requires
        objects.wf(),
    ensures
        r == tree_checked(objects@, oid@, fuel as nat),
        r ==> walk(objects@, oid@, base@, fuel as nat) is Some,
    decreases fuel,
{
    if fuel == 0 {
        return false;
    }
    let entries = match iter_tree_entries(oid, objects) {
        Err(_) => {
            proof {
                lemma_checked_walks(objects@, oid@, base@, fuel as nat);
            }
            return true;
        },
        Ok(es) => es,
    };
    let ghost es = entry_views(entries@);
    let ghost f = (fuel - 1) as nat;
    let mut i: usize = 0;
    while i < entries.len()
        invariant
            objects.wf(),
            fuel > 0,
            f == fuel - 1,
            es == entry_views(entries@),
            i <= entries@.len(),
            tree_at(objects@, oid@) == Ok::<Seq<EntryView>, TreeErrorView>(es),
            forall|j: int| 0 <= j < i ==> #[trigger] entry_checked(objects@, es[j], f),
        decreases entries@.len() - i,
    {
        let e = &entries[i];
        assert(es[i as int] == (e.0, e.1@, e.2@));
        match e.0 {
            ObjectType::Tree => {
                let path = crate::worktree::child_path_of(base, chars_of(e.2.as_str()).as_slice());
                if !check_walk(e.1.as_str(), path.as_slice(), objects, fuel - 1) {
                    proof {
                        assert(!entry_checked(objects@, es[i as int], f));
                        assert(!tree_checked(objects@, oid@, fuel as nat));
                    }
                    return false;
                }
            },
            _ => {},
        }
        assert(entry_checked(objects@, es[i as int], f));
        i = i + 1;
    }
    proof {
        assert forall|j: int| 0 <= j < es.len() && (#[trigger] es[j]).0 is Tree implies tree_checked(
            objects@,
            es[j].1,
            f,
        ) by {
            assert(entry_checked(objects@, es[j], f));
        }
        assert(tree_checked(objects@, oid@, fuel as nat));
        lemma_checked_walks(objects@, oid@, base@, fuel as nat);
    }
    true
}

/// Whether restoring the tree under `oid` ends, checked as no chain of
/// subtrees being deeper than one level more than there are objects: when
/// it does, `read_tree` may be called.
pub fn read_tree_ok(oid: &str, objects: &ObjectStore) -> (r: bool)
    requires
        objects.wf(),
    ensures
        r == tree_checked(objects@, oid@, level_limit(objects@.len())),
        r ==> read_tree_plan(objects@, oid@) is Some,
{
    let limit = if objects.len() < usize::MAX { objects.len() + 1 } else { objects.len() };
    let top: Vec<char> = Vec::new();
    if !check_walk(oid, top.as_slice(), objects, limit) {
        return false;
    }
    proof {
        let t = objects@;
        let f = limit as nat;
        assert(top@ =~= Seq::<char>::empty());
        assert(walk_ends(t, oid@, seq![]));
        let g = choose|fuel: nat| #[trigger] walk(t, oid@, seq![], fuel) is Some;
        if g <= f {
            crate::restore::lemma_walk_fuel(t, oid@, seq![], g, f);
        } else {
            crate::restore::lemma_walk_fuel(t, oid@, seq![], f, g);
        }
        match tree_walk(t, oid@, seq![]) {
            Ok(l) => {
                lemma_restore_some(t, l);
            },
            Err(_) => {},
        }
    }
    true
}

} // verus!
