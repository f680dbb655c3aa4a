//! The working directory as plain values: files with their bytes and
//! directories with their entries, in the order they are listed; and the
//! rules that turn it into trees, decide what is ignored, and what is
//! cleared before a checkout.

use vstd::prelude::*;
use vstd::utf8::encode_utf8;
use vstd::multiset::Multiset;
use crate::object::ObjectStore;
use crate::object::ObjectType;
use crate::object::hash_object;
use crate::object::hex_lower;
use crate::object::object_bytes;
use crate::object::object_id;
use crate::object::sha1_digest;
use crate::refs::string_bytes;
use crate::table::TableView;
use crate::table::names_unique;
use crate::table::store;
use crate::text::chars_eq;
use crate::text::copy_range;
use crate::text::join;
use crate::text::lines;
use crate::text::lines_of;
use crate::text::trim;
use crate::text::trim_chars;
use crate::text::chars_of;
use crate::text::push_all;
use crate::text::string_from;
use crate::tree::EntryView;
use crate::tree::TreeEntry;
use crate::tree::entry_views;
use crate::tree::sort_by_name;
use crate::tree::sort_entries;
use crate::tree::tree_text;
use crate::tree::tree_text_of;

verus! {

/// A file or directory of the working tree, by its name within its
/// directory.
pub enum WorkEntry {
    File { name: String, content: Vec<u8> },
    Dir { name: String, entries: Vec<WorkEntry> },
}

/// The characters of strings.
pub open spec fn string_views(v: Seq<String>) -> Seq<Seq<char>> {
    Seq::new(v.len(), |i: int| v[i]@)
}

/// The path of `name` inside the directory at relative path `rel` (the
/// empty path is the top directory).
pub open spec fn child_path(rel: Seq<char>, name: Seq<char>) -> Seq<char> {
    if rel.len() == 0 {
        name
    } else {
        rel + seq!['/'] + name
    }
}

/// The table after each write in turn.
pub open spec fn store_all(t: TableView, ws: Seq<(Seq<char>, Seq<u8>)>) -> TableView
    decreases ws.len(),
{
    if ws.len() == 0 {
        t
    } else {
        store(store_all(t, ws.drop_last()), ws.last().0, ws.last().1)
    }
}

/// Storing two runs of objects is storing the first, then the second.
pub proof fn lemma_store_all_append(
    t: TableView,
    a: Seq<(Seq<char>, Seq<u8>)>,
    b: Seq<(Seq<char>, Seq<u8>)>,
)
    ensures
        store_all(t, a + b) == store_all(store_all(t, a), b),
    decreases b.len(),
{
    if b.len() == 0 {
        assert(a + b =~= a);
    } else {
        assert((a + b).drop_last() =~= a + b.drop_last());
        assert((a + b).last() == b.last());
        lemma_store_all_append(t, a, b.drop_last());
    }
}

/// Storing objects keeps names unique.
pub proof fn lemma_store_all_unique(t: TableView, ws: Seq<(Seq<char>, Seq<u8>)>)
    requires
        names_unique(t),
    ensures
        names_unique(store_all(t, ws)),
    decreases ws.len(),
{
    if ws.len() > 0 {
        lemma_store_all_unique(t, ws.drop_last());
        crate::table::lemma_store(store_all(t, ws.drop_last()), ws.last().0, ws.last().1);
    }
}

/// The listing of directory entries `es` at relative path `rel`: the tree
/// entries of those not ignored, in listing order, and the objects
/// written for them, in the order they are written.
pub open spec fn listing(es: Seq<WorkEntry>, rel: Seq<char>, ign: Seq<Seq<char>>) -> (
    Seq<EntryView>,
    Seq<(Seq<char>, Seq<u8>)>,
)
    decreases es, 1int,
{
    if es.len() == 0 {
        (seq![], seq![])
    } else {
        let (ents, ws) = listing(es.drop_last(), rel, ign);
        let last = es[es.len() - 1];
        match last {
            WorkEntry::File { name, content } => if ign.contains(child_path(rel, name@)) {
                (ents, ws)
            } else {
                let bytes = object_bytes(ObjectType::Blob, content@);
                let id = object_id(ObjectType::Blob, content@);
                (ents.push((ObjectType::Blob, id, name@)), ws.push((id, bytes)))
            },
            WorkEntry::Dir { name, entries } => if ign.contains(child_path(rel, name@)) {
                (ents, ws)
            } else {
                let (tid, sub) = dir_objects(entries@, child_path(rel, name@), ign);
                (ents.push((ObjectType::Tree, tid, name@)), ws + sub)
            },
        }
    }
}

/// The id of the tree of directory entries `es` at relative path `rel`, and
/// all objects written for it, the tree itself last: its entries sorted by
/// name make the tree's text.
pub open spec fn dir_objects(es: Seq<WorkEntry>, rel: Seq<char>, ign: Seq<Seq<char>>) -> (
    Seq<char>,
    Seq<(Seq<char>, Seq<u8>)>,
)
    decreases es, 2int,
{
    let (ents, ws) = listing(es, rel, ign);
    let content = encode_utf8(tree_text(sort_by_name(ents)));
    let id = object_id(ObjectType::Tree, content);
    (id, ws.push((id, object_bytes(ObjectType::Tree, content))))
}


/// The name of a working-tree entry.
pub open spec fn entry_name(e: WorkEntry) -> Seq<char> {
    match e {
        WorkEntry::File { name, .. } => name@,
        WorkEntry::Dir { name, .. } => name@,
    }
}

/// The entries of the directory at `rel` whose paths are not ignored.
pub open spec fn kept_entries(es: Seq<WorkEntry>, rel: Seq<char>, ign: Seq<Seq<char>>) -> Seq<WorkEntry> {
    es.filter(|e: WorkEntry| !ign.contains(child_path(rel, entry_name(e))))
}

/// Ignored entries change nothing in a directory's tree: its listing, its
/// id and the objects written are those of the entries that are kept.
pub proof fn law_ignored_entries_unused(es: Seq<WorkEntry>, rel: Seq<char>, ign: Seq<Seq<char>>)
    ensures
        listing(kept_entries(es, rel, ign), rel, ign) == listing(es, rel, ign),
        dir_objects(kept_entries(es, rel, ign), rel, ign) == dir_objects(es, rel, ign),
    decreases es.len(),
{
    reveal(Seq::filter);
    let pred = |e: WorkEntry| !ign.contains(child_path(rel, entry_name(e)));
    if es.len() > 0 {
        let pre = es.drop_last();
        law_ignored_entries_unused(pre, rel, ign);
        let k = kept_entries(es, rel, ign);
        let k0 = kept_entries(pre, rel, ign);
        assert(k == (if pred(es.last()) { k0.push(es.last()) } else { k0 }));
        if pred(es.last()) {
            assert(k.drop_last() =~= k0);
            assert(k[k.len() - 1] == es[es.len() - 1]);
        }
    }
}

/// Two directories' entries agree outside the ignored paths: the entries
/// that are kept match one for one, in order, files by name and content and
/// directories by name and, recursively, their own entries.
pub open spec fn same_outside(a: Seq<WorkEntry>, b: Seq<WorkEntry>, rel: Seq<char>, ign: Seq<Seq<char>>) -> bool
    decreases a, b,
{
    if a.len() > 0 && ign.contains(child_path(rel, entry_name(a.last()))) {
        same_outside(a.drop_last(), b, rel, ign)
    } else if b.len() > 0 && ign.contains(child_path(rel, entry_name(b.last()))) {
        same_outside(a, b.drop_last(), rel, ign)
    } else if a.len() == 0 || b.len() == 0 {
        a.len() == 0 && b.len() == 0
    } else {
        same_entry(a.last(), b.last(), rel, ign) && same_outside(a.drop_last(), b.drop_last(), rel, ign)
    }
}

/// Two entries agree outside the ignored paths (see `same_outside`).
pub open spec fn same_entry(x: WorkEntry, y: WorkEntry, rel: Seq<char>, ign: Seq<Seq<char>>) -> bool
    decreases x, y,
{
    match x {
        WorkEntry::File { name, content } => match y {
            WorkEntry::File { name: n2, content: c2 } => name@ == n2@ && content@ == c2@,
            _ => false,
        },
        WorkEntry::Dir { name, entries } => match y {
            WorkEntry::Dir { name: n2, entries: e2 } => name@ == n2@ && same_outside(
                entries@,
                e2@,
                child_path(rel, name@),
                ign,
            ),
            _ => false,
        },
    }
}

/// Entries that agree outside the ignored paths are listed alike.
pub proof fn lemma_same_listing(a: Seq<WorkEntry>, b: Seq<WorkEntry>, rel: Seq<char>, ign: Seq<Seq<char>>)
    requires
        same_outside(a, b, rel, ign),
    ensures
        listing(a, rel, ign).0 == listing(b, rel, ign).0,
    decreases a, b,
{
    if a.len() > 0 && ign.contains(child_path(rel, entry_name(a.last()))) {
        lemma_listing_last(a, rel, ign);
        lemma_same_listing(a.drop_last(), b, rel, ign);
    } else if b.len() > 0 && ign.contains(child_path(rel, entry_name(b.last()))) {
        lemma_listing_last(b, rel, ign);
        lemma_same_listing(a, b.drop_last(), rel, ign);
    } else if a.len() == 0 || b.len() == 0 {
    } else {
        lemma_listing_last(a, rel, ign);
        lemma_listing_last(b, rel, ign);
        lemma_same_listing(a.drop_last(), b.drop_last(), rel, ign);
        lemma_same_entry_view(a.last(), b.last(), rel, ign);
    }
}

/// Entries that agree outside the ignored paths give the same tree entry.
pub proof fn lemma_same_entry_view(x: WorkEntry, y: WorkEntry, rel: Seq<char>, ign: Seq<Seq<char>>)
    requires
        same_entry(x, y, rel, ign),
    ensures
        entry_name(x) == entry_name(y),
        listed_view(x, rel, ign) == listed_view(y, rel, ign),
    decreases x, y,
{
    match x {
        WorkEntry::File { .. } => {},
        WorkEntry::Dir { name, entries } => match y {
            WorkEntry::Dir { name: n2, entries: e2 } => {
                lemma_same_listing(entries@, e2@, child_path(rel, name@), ign);
            },
            _ => {},
        },
    }
}

/// What lies under ignored paths, at any depth, changes nothing in a
/// directory's tree: directories whose entries agree outside the ignored
/// paths have the same tree id.
pub proof fn law_ignored_paths_unused(a: Seq<WorkEntry>, b: Seq<WorkEntry>, rel: Seq<char>, ign: Seq<Seq<char>>)
    requires
        same_outside(a, b, rel, ign),
    ensures
        dir_objects(a, rel, ign).0 == dir_objects(b, rel, ign).0,
{
    lemma_same_listing(a, b, rel, ign);
}

/// The tree entry that the listing adds for `e` when it is kept.
pub open spec fn listed_view(e: WorkEntry, rel: Seq<char>, ign: Seq<Seq<char>>) -> EntryView {
    match e {
        WorkEntry::File { name, content } => (
            ObjectType::Blob,
            object_id(ObjectType::Blob, content@),
            name@,
        ),
        WorkEntry::Dir { name, entries } => (
            ObjectType::Tree,
            dir_objects(entries@, child_path(rel, name@), ign).0,
            name@,
        ),
    }
}

/// The listing of entries with one more at the end: the entry is added
/// when its path is not ignored.
pub proof fn lemma_listing_last(es: Seq<WorkEntry>, rel: Seq<char>, ign: Seq<Seq<char>>)
    requires
        es.len() > 0,
    ensures
        listing(es, rel, ign).0 == (if ign.contains(child_path(rel, entry_name(es.last()))) {
            listing(es.drop_last(), rel, ign).0
        } else {
            listing(es.drop_last(), rel, ign).0.push(listed_view(es.last(), rel, ign))
        }),
{
}

/// What the listing adds for `e`, as a multiset: its tree entry when its
/// path is not ignored, nothing otherwise.
pub open spec fn kept_view(e: WorkEntry, rel: Seq<char>, ign: Seq<Seq<char>>) -> Multiset<EntryView> {
    if ign.contains(child_path(rel, entry_name(e))) {
        Multiset::empty()
    } else {
        Multiset::empty().insert(listed_view(e, rel, ign))
    }
}

/// The listing of entries, as a multiset, is that of all but the last with
/// what the last adds.
proof fn lemma_listing_ms_last(es: Seq<WorkEntry>, rel: Seq<char>, ign: Seq<Seq<char>>)
    requires
        es.len() > 0,
    ensures
        listing(es, rel, ign).0.to_multiset() == listing(es.drop_last(), rel, ign).0.to_multiset().add(
            kept_view(es.last(), rel, ign),
        ),
{
    broadcast use vstd::seq_lib::group_to_multiset_ensures;
    broadcast use vstd::multiset::group_multiset_axioms;
    lemma_listing_last(es, rel, ign);
    let m = listing(es.drop_last(), rel, ign).0.to_multiset();
    assert(m.add(Multiset::empty()) =~= m);
    assert(m.insert(listed_view(es.last(), rel, ign)) =~= m.add(
        Multiset::empty().insert(listed_view(es.last(), rel, ign)),
    ));
}

/// The listing of entries, as a multiset, is that of the entries without
/// the one at `j` with what that one adds.
proof fn lemma_listing_remove(b: Seq<WorkEntry>, rel: Seq<char>, ign: Seq<Seq<char>>, j: int)
    requires
        0 <= j < b.len(),
    ensures
        listing(b, rel, ign).0.to_multiset() == listing(b.remove(j), rel, ign).0.to_multiset().add(
            kept_view(b[j], rel, ign),
        ),
    decreases b.len(),
{
    broadcast use vstd::multiset::group_multiset_axioms;
    let n = b.len() - 1;
    if j == n {
        assert(b.remove(j) =~= b.drop_last());
        lemma_listing_ms_last(b, rel, ign);
    } else {
        let bd = b.drop_last();
        let br = b.remove(j);
        assert(br.drop_last() =~= bd.remove(j));
        assert(br.last() == b.last());
        assert(bd[j] == b[j]);
        lemma_listing_remove(bd, rel, ign, j);
        lemma_listing_ms_last(b, rel, ign);
        lemma_listing_ms_last(br, rel, ign);
        let m = listing(bd.remove(j), rel, ign).0.to_multiset();
        let kj = kept_view(b[j], rel, ign);
        let kl = kept_view(b.last(), rel, ign);
        assert(m.add(kj).add(kl) =~= m.add(kl).add(kj));
    }
}

/// Entries that are the same up to order are listed, as a multiset, alike.
pub proof fn lemma_listing_perm(a: Seq<WorkEntry>, b: Seq<WorkEntry>, rel: Seq<char>, ign: Seq<Seq<char>>)
    requires
        a.to_multiset() == b.to_multiset(),
    ensures
        listing(a, rel, ign).0.to_multiset() == listing(b, rel, ign).0.to_multiset(),
    decreases a.len(),
{
    broadcast use vstd::seq_lib::group_to_multiset_ensures;
    broadcast use vstd::multiset::group_multiset_axioms;
    if a.len() == 0 {
        assert(b.to_multiset().len() == 0);
        assert(b =~= a);
    } else {
        let x = a.last();
        let ad = a.drop_last();
        assert(ad.push(x) =~= a);
        assert(a.contains(x));
        assert(b.to_multiset().count(x) > 0);
        let j = choose|j: int| 0 <= j < b.len() && b[j] == x;
        assert(ad.to_multiset() =~= b.remove(j).to_multiset()) by {
            assert(a.to_multiset() == ad.to_multiset().insert(x));
            assert(b.remove(j).to_multiset() == b.to_multiset().remove(x));
        }
        lemma_listing_perm(ad, b.remove(j), rel, ign);
        lemma_listing_ms_last(a, rel, ign);
        lemma_listing_remove(b, rel, ign, j);
    }
}

/// The id of a directory's tree does not depend on the order in which its
/// entries are listed: entries that are the same up to order, with the kept
/// ones of distinct names, give the same id.
pub proof fn law_tree_id_order_free(a: Seq<WorkEntry>, b: Seq<WorkEntry>, rel: Seq<char>, ign: Seq<Seq<char>>)
    requires
        a.to_multiset() == b.to_multiset(),
        crate::tree::names_distinct(listing(a, rel, ign).0),
    ensures
        dir_objects(a, rel, ign).0 == dir_objects(b, rel, ign).0,
{
    lemma_listing_perm(a, b, rel, ign);
    crate::tree::lemma_sort_order_free(listing(a, rel, ign).0, listing(b, rel, ign).0);
}

/// Whether `path` is one of the ignored paths.
fn is_ignored(ignored: &Vec<String>, path: &[char]) -> (r: bool)
    ensures
        r == string_views(ignored@).contains(path@),
{
    let mut i: usize = 0;
    while i < ignored.len()
        invariant
            i <= ignored@.len(),
            forall|k: int| 0 <= k < i ==> ignored@[k]@ != path@,
        decreases ignored@.len() - i,
    {
        let cand = chars_of(ignored[i].as_str());
        if chars_eq(cand.as_slice(), path) {
            assert(string_views(ignored@)[i as int] == path@);
            return true;
        }
        i = i + 1;
    }
    assert(!string_views(ignored@).contains(path@)) by {
        if string_views(ignored@).contains(path@) {
            let k = choose|k: int| 0 <= k < string_views(ignored@).len() && string_views(ignored@)[k] == path@;
            assert(ignored@[k]@ == path@);
        }
    }
    false
}

/// The path of `name` inside the directory at `rel`.
pub fn child_path_of(rel: &[char], name: &[char]) -> (r: Vec<char>)
    ensures
        r@ == child_path(rel@, name@),
{
    let mut out: Vec<char> = Vec::new();
    if rel.len() > 0 {
        push_all(&mut out, rel);
        out.push('/');
    }
    push_all(&mut out, name);
    assert(out@ =~= child_path(rel@, name@));
    out
}

/// Writes the tree of the directory entries `entries` at relative path
/// `rel` to the object store, with the objects of its files and
/// subdirectories (entries whose path is in `ignored` are left out), and
/// returns the tree's id. Entries are hashed in listing order and the
/// tree lists them sorted by name.
pub fn write_tree(
    entries: &Vec<WorkEntry>,
    rel: &str,
    ignored: &Vec<String>,
    objects: &mut ObjectStore,
) -> (oid: String)
    requires
        old(objects).wf(),
    ensures
        oid@ == dir_objects(entries@, rel@, string_views(ignored@)).0,
        oid@.len() == 40,
        crate::text::is_word(oid@),
        final(objects)@ == store_all(
            old(objects)@,
            dir_objects(entries@, rel@, string_views(ignored@)).1,
        ),
        final(objects).wf(),
    decreases entries@,
{
    let ghost ign = string_views(ignored@);
    let rel_chars = chars_of(rel);
    let mut tree_entries: Vec<TreeEntry> = Vec::new();
    let ghost mut ws: Seq<(Seq<char>, Seq<u8>)> = seq![];
    let mut i: usize = 0;
    while i < entries.len()
        invariant
            i <= entries@.len(),
            ign == string_views(ignored@),
            rel_chars@ == rel@,
            (entry_views(tree_entries@), ws) == listing(entries@.take(i as int), rel@, ign),
            objects@ == store_all(old(objects)@, ws),
            objects.wf(),
        decreases entries@.len() - i,
    {
        let ghost ents0 = entry_views(tree_entries@);
        let ghost ws0 = ws;
        let ghost stored0 = objects@;
        proof {
            assert(entries@.take(i + 1).drop_last() =~= entries@.take(i as int));
            assert(entries@.take(i + 1)[i as int] == entries@[i as int]);
        }
        match &entries[i] {
            WorkEntry::File { name, content } => {
                let path = child_path_of(rel_chars.as_slice(), chars_of(name.as_str()).as_slice());
                if !is_ignored(ignored, path.as_slice()) {
                    let oid = hash_object(content.as_slice(), ObjectType::Blob, objects);
                    tree_entries.push((ObjectType::Blob, oid, name.clone()));
                    proof {
                        ws = ws0.push((oid@, object_bytes(ObjectType::Blob, content@)));
                        assert(entry_views(tree_entries@) =~= ents0.push(
                            (ObjectType::Blob, oid@, name@),
                        ));
                        assert(ws.drop_last() =~= ws0);
                    }
                }
            },
            WorkEntry::Dir { name, entries: sub } => {
                let path = child_path_of(rel_chars.as_slice(), chars_of(name.as_str()).as_slice());
                if !is_ignored(ignored, path.as_slice()) {
                    let path_str = string_from(path.as_slice());
                    let oid = write_tree(sub, path_str.as_str(), ignored, objects);
                    tree_entries.push((ObjectType::Tree, oid, name.clone()));
                    proof {
                        let subws = dir_objects(sub@, path@, ign).1;
                        lemma_store_all_append(old(objects)@, ws0, subws);
                        ws = ws0 + subws;
                        assert(entry_views(tree_entries@) =~= ents0.push(
                            (ObjectType::Tree, oid@, name@),
                        ));
                    }
                }
            },
        }
        i = i + 1;
    }
    proof {
        assert(entries@.take(entries@.len() as int) =~= entries@);
    }
    let sorted = sort_entries(tree_entries);
    let text = tree_text_of(&sorted);
    let bytes = string_bytes(&text);
    let oid = hash_object(bytes.as_slice(), ObjectType::Tree, objects);
    proof {
        let wsf = ws.push((oid@, object_bytes(ObjectType::Tree, bytes@)));
        assert(wsf.drop_last() =~= ws);
    }
    oid
}


/// Index of the first `'/'` at or after `i`, or the length.
pub open spec fn comp_end(s: Seq<char>, i: int) -> int
    decreases s.len() - i,
{
    if 0 <= i < s.len() && s[i] != '/' {
        comp_end(s, i + 1)
    } else {
        i
    }
}

/// `comp_end` stays within the text and passes no `/`.
pub proof fn lemma_comp_end_bounds(s: Seq<char>, i: int)
    requires
        0 <= i <= s.len(),
    ensures
        i <= comp_end(s, i) <= s.len(),
        forall|k: int| i <= k < comp_end(s, i) ==> s[k] != '/',
    decreases s.len() - i,
{
    if i < s.len() && s[i] != '/' {
        lemma_comp_end_bounds(s, i + 1);
    }
}

/// The components of the path `s[i..]`: the pieces between `'/'`, without
/// empty pieces and `.` (as `Path::components` reads a path inside another).
pub open spec fn comps_from(s: Seq<char>, i: int) -> Seq<Seq<char>>
    decreases s.len() - i,
{
    if i < 0 || i >= s.len() {
        seq![]
    } else {
        let e = comp_end(s, i);
        let c = s.subrange(i, e);
        let rest = if e >= s.len() {
            seq![]
        } else {
            proof {
                lemma_comp_end_bounds(s, i);
            }
            comps_from(s, e + 1)
        };
        if c.len() == 0 || c == seq!['.'] {
            rest
        } else {
            seq![c] + rest
        }
    }
}

/// A path written with single `'/'` between its components; an absolute
/// path keeps its leading `'/'`.
pub open spec fn normalize(s: Seq<char>) -> Seq<char> {
    let body = join(comps_from(s, 0), seq!['/']);
    if s.len() > 0 && s[0] == '/' {
        seq!['/'] + body
    } else {
        body
    }
}

/// The ignored paths listed by the lines `ls`: each non-empty line,
/// trimmed, as a path relative to the top directory.
pub open spec fn ignore_lines(ls: Seq<Seq<char>>) -> Seq<Seq<char>>
    decreases ls.len(),
{
    if ls.len() == 0 {
        seq![]
    } else if ls[0].len() == 0 {
        ignore_lines(ls.drop_first())
    } else {
        seq![normalize(trim(ls[0]))] + ignore_lines(ls.drop_first())
    }
}

/// The ignored paths of an ignore file's text.
pub open spec fn ignored_paths(content: Seq<char>) -> Seq<Seq<char>> {
    ignore_lines(lines(content))
}

/// A path written with single `'/'` between its components.
pub fn normalize_path(s: &[char]) -> (r: Vec<char>)
    ensures
        r@ == normalize(s@),
{
    let mut out: Vec<char> = Vec::new();
    if s.len() > 0 && s[0] == '/' {
        out.push('/');
    }
    let ghost lead = out@;
    let ghost mut acc: Seq<Seq<char>> = seq![];
    let mut any = false;
    let mut i: usize = 0;
    while i < s.len()
        invariant
            i <= s@.len(),
            any == (acc.len() > 0),
            lead == (if s@.len() > 0 && s@[0] == '/' {
                seq!['/']
            } else {
                Seq::<char>::empty()
            }),
            comps_from(s@, 0) == acc + comps_from(s@, i as int),
            out@ == lead + join(acc, seq!['/']),
        decreases s@.len() - i,
    {
        let mut e = i;
        while e < s.len() && s[e] != '/'
            invariant
                i <= e <= s@.len(),
                comp_end(s@, e as int) == comp_end(s@, i as int),
            decreases s@.len() - e,
        {
            e = e + 1;
        }
        proof {
            lemma_comp_end_bounds(s@, i as int);
        }
        let c = copy_range(s, i, e);
        let is_dot = c.len() == 1 && c[0] == '.';
        proof {
            assert(is_dot == (c@ == seq!['.'])) by {
                if c@.len() == 1 && c@[0] == '.' {
                    assert(c@ =~= seq!['.']);
                }
            }
        }
        if c.len() > 0 && !is_dot {
            let ghost acc0 = acc;
            if any {
                out.push('/');
            }
            push_all(&mut out, c.as_slice());
            any = true;
            proof {
                acc = acc0.push(c@);
                assert(acc.drop_last() =~= acc0);
                if acc0.len() > 0 {
                    assert(out@ =~= lead + (join(acc0, seq!['/']) + seq!['/'] + c@));
                } else {
                    assert(out@ =~= lead + c@);
                }
                assert(acc0 + (seq![c@] + comps_from(s@, e + 1)) =~= acc + comps_from(
                    s@,
                    e + 1,
                ));
            }
        }
        if e >= s.len() {
            i = s.len();
        } else {
            i = e + 1;
        }
    }
    proof {
        assert(acc + Seq::<Seq<char>>::empty() =~= acc);
    }
    out
}

/// Whether `p` is one of the paths `v`.
fn contains_path(v: &Vec<String>, p: &[char]) -> (r: bool)
    ensures
        r == string_views(v@).contains(p@),
{
    let mut k: usize = 0;
    while k < v.len()
        invariant
            k <= v@.len(),
            forall|j: int| 0 <= j < k ==> v@[j]@ != p@,
        decreases v@.len() - k,
    {
        if chars_eq(chars_of(v[k].as_str()).as_slice(), p) {
            assert(string_views(v@)[k as int] == p@);
            return true;
        }
        k = k + 1;
    }
    assert forall|j: int| 0 <= j < string_views(v@).len() implies string_views(v@)[j] != p@ by {
        assert(v@[j]@ != p@);
    }
    false
}

/// The ignored paths listed in an ignore file's text, one per non-empty
/// line, trimmed, each relative to the top directory; each path once.
pub fn get_ignored_files(content: &str) -> (r: Vec<String>)
    ensures
        string_views(r@).no_duplicates(),
        forall|p: Seq<char>| string_views(r@).contains(p) <==> ignored_paths(content@).contains(p),
{
    let chars = chars_of(content);
    let ls = lines_of(chars.as_slice());
    let ghost lv = crate::text::views(ls@);
    let mut out: Vec<String> = Vec::new();
    let ghost mut done: Seq<Seq<char>> = seq![];
    let mut i: usize = 0;
    proof {
        assert(lv.skip(0) =~= lv);
        assert(done + ignore_lines(lv.skip(0)) =~= ignore_lines(lv));
    }
    while i < ls.len()
        invariant
            lv == crate::text::views(ls@),
            lv == lines(content@),
            i <= ls@.len(),
            ignored_paths(content@) == done + ignore_lines(lv.skip(i as int)),
            string_views(out@).no_duplicates(),
            forall|p: Seq<char>| string_views(out@).contains(p) <==> done.contains(p),
        decreases ls@.len() - i,
    {
        let ghost before = string_views(out@);
        let ghost done0 = done;
        let ghost rest = lv.skip(i as int);
        assert(rest[0] == lv[i as int]);
        assert(rest.drop_first() =~= lv.skip(i + 1));
        let line = &ls[i];
        if line.len() > 0 {
            let t = trim_chars(line.as_slice());
            let n = normalize_path(t.as_slice());
            proof {
                done = done0.push(n@);
                assert(done0 + (seq![n@] + ignore_lines(lv.skip(i + 1))) =~= done + ignore_lines(
                    lv.skip(i + 1),
                ));
                assert forall|p: Seq<char>| done.contains(p) <==> (done0.contains(p) || p == n@) by {
                    if done.contains(p) && p != n@ {
                        let j = choose|j: int| 0 <= j < done.len() && done[j] == p;
                        assert(done0[j] == p);
                    }
                    if done0.contains(p) {
                        let j = choose|j: int| 0 <= j < done0.len() && done0[j] == p;
                        assert(done[j] == p);
                    }
                    if p == n@ {
                        assert(done[done0.len() as int] == p);
                    }
                }
            }
            if !contains_path(&out, n.as_slice()) {
                out.push(string_from(n.as_slice()));
                proof {
                    let after = string_views(out@);
                    assert(after =~= before.push(n@));
                    assert forall|p: Seq<char>| after.contains(p) <==> (before.contains(p) || p == n@) by {
                        if after.contains(p) && p != n@ {
                            let j = choose|j: int| 0 <= j < after.len() && after[j] == p;
                            assert(before[j] == p);
                        }
                        if before.contains(p) {
                            let j = choose|j: int| 0 <= j < before.len() && before[j] == p;
                            assert(after[j] == p);
                        }
                        if p == n@ {
                            assert(after[before.len() as int] == p);
                        }
                    }
                    assert forall|a: int, b: int|
                        0 <= a < after.len() && 0 <= b < after.len() && a != b implies after[a]
                        != after[b] by {
                        if a < before.len() && b < before.len() {
                            assert(after[a] == before[a] && after[b] == before[b]);
                        } else if a < before.len() {
                            assert(after[a] == before[a]);
                            assert(before.contains(before[a]));
                        } else if b < before.len() {
                            assert(after[b] == before[b]);
                            assert(before.contains(before[b]));
                        }
                    }
                }
            }
        } else {
            assert(done + (ignore_lines(lv.skip(i + 1))) =~= done + ignore_lines(lv.skip(i as int)));
        }
        i = i + 1;
    }
    proof {
        assert(ignore_lines(lv.skip(ls@.len() as int)) =~= Seq::<Seq<char>>::empty());
        assert(done + Seq::<Seq<char>>::empty() =~= done);
    }
    out
}

/// Whether the path `p` lies at or under the path `q` (component-wise;
/// every path lies under the top directory, the empty path).
pub open spec fn under(p: Seq<char>, q: Seq<char>) -> bool {
    ||| q.len() == 0
    ||| p == q
    ||| (p.len() > q.len() && p.take(q.len() as int) == q && p[q.len() as int] == '/')
}

/// A path that lies under no ignored path.
pub open spec fn kept(p: Seq<char>, ign: Seq<Seq<char>>) -> bool {
    forall|k: int| 0 <= k < ign.len() ==> !under(p, #[trigger] ign[k])
}

/// What clearing the working directory removes of the entries `es` at
/// relative path `rel`, deepest first: each file, and each directory after
/// its contents, that lies under no ignored path; `true` marks a directory.
pub open spec fn removals(es: Seq<WorkEntry>, rel: Seq<char>, ign: Seq<Seq<char>>) -> Seq<
    (Seq<char>, bool),
>
    decreases es,
{
    if es.len() == 0 {
        seq![]
    } else {
        let before = removals(es.drop_last(), rel, ign);
        match es[es.len() - 1] {
            WorkEntry::File { name, content } => {
                let p = child_path(rel, name@);
                if kept(p, ign) {
                    before.push((p, false))
                } else {
                    before
                }
            },
            WorkEntry::Dir { name, entries } => {
                let p = child_path(rel, name@);
                let inner = removals(entries@, p, ign);
                if kept(p, ign) {
                    before + inner.push((p, true))
                } else {
                    before + inner
                }
            },
        }
    }
}

/// Whether `p` lies at or under `q`.
fn exec_under(p: &[char], q: &[char]) -> (r: bool)
    ensures
        r == under(p@, q@),
{
    if q.len() == 0 {
        return true;
    }
    if chars_eq(p, q) {
        return true;
    }
    if p.len() <= q.len() {
        return false;
    }
    let head = copy_range(p, 0, q.len());
    chars_eq(head.as_slice(), q) && p[q.len()] == '/'
}

/// Whether `p` lies under no ignored path.
fn exec_kept(p: &[char], ignored: &Vec<String>) -> (r: bool)
    ensures
        r == kept(p@, string_views(ignored@)),
{
    let mut k: usize = 0;
    while k < ignored.len()
        invariant
            k <= ignored@.len(),
            forall|j: int| 0 <= j < k ==> !under(p@, #[trigger] string_views(ignored@)[j]),
        decreases ignored@.len() - k,
    {
        let q = chars_of(ignored[k].as_str());
        if exec_under(p, q.as_slice()) {
            assert(under(p@, string_views(ignored@)[k as int]));
            return false;
        }
        k = k + 1;
    }
    true
}

/// Appends the pairs of `src` to `dst`.
fn append_pairs(dst: &mut Vec<(String, bool)>, src: Vec<(String, bool)>)
    ensures
        pair_views(final(dst)@) == pair_views(old(dst)@) + pair_views(src@),
{
    let mut k: usize = 0;
    let ghost start = pair_views(dst@);
    while k < src.len()
        invariant
            k <= src@.len(),
            pair_views(dst@) == start + pair_views(src@).take(k as int),
            start == pair_views(old(dst)@),
        decreases src@.len() - k,
    {
        let ghost b = pair_views(dst@);
        dst.push((src[k].0.clone(), src[k].1));
        assert(pair_views(dst@) =~= b.push(pair_views(src@)[k as int]));
        assert(pair_views(src@).take(k + 1) =~= pair_views(src@).take(k as int).push(
            pair_views(src@)[k as int],
        ));
        k = k + 1;
    }
    assert(pair_views(src@).take(src@.len() as int) =~= pair_views(src@));
}

/// The abstract form of (path, flag) pairs.
pub open spec fn pair_views(v: Seq<(String, bool)>) -> Seq<(Seq<char>, bool)> {
    Seq::new(v.len(), |i: int| (v[i].0@, v[i].1))
}

/// What clearing the working directory removes, deepest first: the files,
/// and each directory after its contents, of the entries `entries` at
/// relative path `rel` that lie under no ignored path; `true` marks a
/// directory. A directory that still holds an ignored entry is not empty,
/// and removing it fails, which is ignored.
pub fn empty_working_dir(entries: &Vec<WorkEntry>, rel: &str, ignored: &Vec<String>) -> (r: Vec<
    (String, bool),
>)
    ensures
        pair_views(r@) == removals(entries@, rel@, string_views(ignored@)),
    decreases entries@,
{
    let ghost ign = string_views(ignored@);
    let rel_chars = chars_of(rel);
    let mut out: Vec<(String, bool)> = Vec::new();
    let mut i: usize = 0;
    while i < entries.len()
        invariant
            i <= entries@.len(),
            ign == string_views(ignored@),
            rel_chars@ == rel@,
            pair_views(out@) == removals(entries@.take(i as int), rel@, ign),
        decreases entries@.len() - i,
    {
        proof {
            assert(entries@.take(i + 1).drop_last() =~= entries@.take(i as int));
            assert(entries@.take(i + 1)[i as int] == entries@[i as int]);
        }
        let ghost before = pair_views(out@);
        match &entries[i] {
            WorkEntry::File { name, content } => {
                let path = child_path_of(rel_chars.as_slice(), chars_of(name.as_str()).as_slice());
                if exec_kept(path.as_slice(), ignored) {
                    out.push((string_from(path.as_slice()), false));
                    assert(pair_views(out@) =~= before.push((path@, false)));
                }
            },
            WorkEntry::Dir { name, entries: sub } => {
                let path = child_path_of(rel_chars.as_slice(), chars_of(name.as_str()).as_slice());
                let path_str = string_from(path.as_slice());
                let inner = empty_working_dir(sub, path_str.as_str(), ignored);
                let ghost iv = pair_views(inner@);
                append_pairs(&mut out, inner);
                if exec_kept(path.as_slice(), ignored) {
                    let ghost mid = pair_views(out@);
                    out.push((path_str, true));
                    assert(pair_views(out@) =~= mid.push((path@, true)));
                    assert(before + iv.push((path@, true)) =~= mid.push((path@, true)));
                }
            },
        }
        i = i + 1;
    }
    proof {
        assert(entries@.take(entries@.len() as int) =~= entries@);
    }
    out
}


/// The paths that `ignore_lines` gives are exactly the non-empty lines,
/// trimmed and normalized.
proof fn lemma_ignore_lines(ls: Seq<Seq<char>>)
    ensures
        forall|i: int|
            0 <= i < ls.len() && (#[trigger] ls[i]).len() > 0 ==> ignore_lines(ls).contains(
                normalize(trim(ls[i])),
            ),
        forall|p: Seq<char>|
            ignore_lines(ls).contains(p) ==> exists|i: int|
                0 <= i < ls.len() && (#[trigger] ls[i]).len() > 0 && p == normalize(trim(ls[i])),
    decreases ls.len(),
{
    if ls.len() > 0 {
        let rest = ls.drop_first();
        lemma_ignore_lines(rest);
        let r = ignore_lines(rest);
        let all = ignore_lines(ls);
        assert forall|i: int| 0 <= i < ls.len() && (#[trigger] ls[i]).len() > 0 implies all.contains(
            normalize(trim(ls[i])),
        ) by {
            if i == 0 {
                assert(all[0] == normalize(trim(ls[0])));
            } else {
                assert(ls[i] == rest[i - 1]);
                assert(r.contains(normalize(trim(rest[i - 1]))));
                let j = choose|j: int| 0 <= j < r.len() && r[j] == normalize(trim(rest[i - 1]));
                if ls[0].len() == 0 {
                    assert(all == r);
                } else {
                    assert(all[j + 1] == r[j]);
                }
            }
        }
        assert forall|p: Seq<char>| all.contains(p) implies exists|i: int|
            0 <= i < ls.len() && (#[trigger] ls[i]).len() > 0 && p == normalize(trim(ls[i])) by {
            let j = choose|j: int| 0 <= j < all.len() && all[j] == p;
            if ls[0].len() == 0 {
                assert(r.contains(p));
                let i = choose|i: int| 0 <= i < rest.len() && (#[trigger] rest[i]).len() > 0 && p == normalize(trim(rest[i]));
                assert(ls[i + 1] == rest[i]);
            } else if j == 0 {
                assert(ls[0].len() > 0);
            } else {
                assert(all[j] == r[j - 1]);
                assert(r.contains(p));
                let i = choose|i: int| 0 <= i < rest.len() && (#[trigger] rest[i]).len() > 0 && p == normalize(trim(rest[i]));
                assert(ls[i + 1] == rest[i]);
            }
        }
    }
}

/// The ignored paths of an ignore file are exactly its non-empty lines
/// (`str::lines`, so the last line counts whether or not a newline ends
/// it), each trimmed and normalized.
pub proof fn law_ignored_paths_lines(content: Seq<char>)
    ensures
        forall|i: int|
            0 <= i < lines(content).len() && (#[trigger] lines(content)[i]).len() > 0
                ==> ignored_paths(content).contains(normalize(trim(lines(content)[i]))),
        forall|p: Seq<char>|
            ignored_paths(content).contains(p) ==> exists|i: int|
                0 <= i < lines(content).len() && (#[trigger] lines(content)[i]).len() > 0 && p
                    == normalize(trim(lines(content)[i])),
{
    lemma_ignore_lines(lines(content));
}

/// Every removal planned lies under no ignored path: its path is no ignored
/// path, and does not start with one followed by `/`.
proof fn lemma_removals_kept(es: Seq<WorkEntry>, rel: Seq<char>, ign: Seq<Seq<char>>)
    ensures
        forall|i: int| 0 <= i < removals(es, rel, ign).len() ==> kept(#[trigger] removals(es, rel, ign)[i].0, ign),
    decreases es,
{
    if es.len() > 0 {
        let pre = es.drop_last();
        lemma_removals_kept(pre, rel, ign);
        let before = removals(pre, rel, ign);
        let all = removals(es, rel, ign);
        match es[es.len() - 1] {
            WorkEntry::File { name, content } => {
                assert forall|i: int| 0 <= i < all.len() implies kept(#[trigger] all[i].0, ign) by {
                    if i < before.len() {
                        assert(all[i] == before[i]);
                    }
                }
            },
            WorkEntry::Dir { name, entries } => {
                let p = child_path(rel, name@);
                let inner = removals(entries@, p, ign);
                lemma_removals_kept(entries@, p, ign);
                assert forall|i: int| 0 <= i < all.len() implies kept(#[trigger] all[i].0, ign) by {
                    if i < before.len() {
                        assert(all[i] == before[i]);
                    } else if i < before.len() + inner.len() {
                        assert(all[i] == inner[i - before.len()]);
                    }
                }
            },
        }
    }
}

/// Clearing the working directory removes nothing at or under an ignored
/// path: no removal's path equals an ignored path or starts with one
/// followed by `/`.
pub proof fn law_removals_spare_ignored(es: Seq<WorkEntry>, rel: Seq<char>, ign: Seq<Seq<char>>)
    ensures
        forall|i: int, k: int|
            0 <= i < removals(es, rel, ign).len() && 0 <= k < ign.len() ==> {
                let p = (#[trigger] removals(es, rel, ign)[i]).0;
                let q = #[trigger] ign[k];
                &&& p != q
                &&& !(p.len() > q.len() && p.take(q.len() as int) == q && p[q.len() as int] == '/')
            },
{
    lemma_removals_kept(es, rel, ign);
    assert forall|i: int, k: int|
        0 <= i < removals(es, rel, ign).len() && 0 <= k < ign.len() implies {
            let p = (#[trigger] removals(es, rel, ign)[i]).0;
            let q = #[trigger] ign[k];
            &&& p != q
            &&& !(p.len() > q.len() && p.take(q.len() as int) == q && p[q.len() as int] == '/')
        } by {
        assert(kept(removals(es, rel, ign)[i].0, ign));
        assert(!under(removals(es, rel, ign)[i].0, ign[k]));
    }
}

/// Clearing the working directory removes every file and directory of the
/// top directory that lies under no ignored path.
pub proof fn law_removals_cover_kept(es: Seq<WorkEntry>, rel: Seq<char>, ign: Seq<Seq<char>>)
    ensures
        forall|i: int|
            0 <= i < es.len() && (forall|k: int| 0 <= k < ign.len() ==> {
                let p = child_path(rel, entry_name(es[i]));
                let q = #[trigger] ign[k];
                &&& q.len() > 0
                &&& p != q
                &&& !(p.len() > q.len() && p.take(q.len() as int) == q && p[q.len() as int] == '/')
            }) ==> removals(es, rel, ign).contains(
                (child_path(rel, entry_name(#[trigger] es[i])), es[i] is Dir),
            ),
    decreases es,
{
    if es.len() > 0 {
        let pre = es.drop_last();
        law_removals_cover_kept(pre, rel, ign);
        let before = removals(pre, rel, ign);
        let all = removals(es, rel, ign);
        let n = es.len() - 1;
        assert forall|i: int|
            0 <= i < es.len() && (forall|k: int| 0 <= k < ign.len() ==> {
                let p = child_path(rel, entry_name(es[i]));
                let q = #[trigger] ign[k];
                &&& q.len() > 0
                &&& p != q
                &&& !(p.len() > q.len() && p.take(q.len() as int) == q && p[q.len() as int] == '/')
            }) implies all.contains((child_path(rel, entry_name(#[trigger] es[i])), es[i] is Dir)) by {
            let p = child_path(rel, entry_name(es[i]));
            assert(kept(p, ign)) by {
                assert forall|k: int| 0 <= k < ign.len() implies !under(p, #[trigger] ign[k]) by {}
            }
            if i < n {
                assert(es[i] == pre[i]);
                let x = (p, es[i] is Dir);
                assert(before.contains(x));
                let j = choose|j: int| 0 <= j < before.len() && before[j] == x;
                match es[n] {
                    WorkEntry::File { .. } => {
                        assert(all[j] == before[j]);
                    },
                    WorkEntry::Dir { name, entries } => {
                        assert(all[j] == before[j]);
                    },
                }
            } else {
                match es[n] {
                    WorkEntry::File { .. } => {
                        assert(all[all.len() - 1] == (p, false));
                    },
                    WorkEntry::Dir { name, entries } => {
                        assert(all[all.len() - 1] == (p, true));
                    },
                }
            }
        }
    }
}

} // verus!
