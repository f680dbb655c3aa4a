//! What restoring a tree gives back of the working tree it was written
//! from.

use vstd::prelude::*;
use vstd::utf8::encode_utf8;
use crate::object::ObjectType;
use crate::object::fetch;
use crate::object::object_bytes;
use crate::object::object_id;
use crate::object::read_result;
use crate::table::TableView;
use crate::table::lookup;
use crate::table::names_unique;
use crate::table::store;
use crate::text::is_word;
use crate::tree::EntryView;
use crate::tree::ListedView;
use crate::tree::StepView;
use crate::tree::TreeErrorView;
use crate::tree::entry_writable;
use crate::tree::sort_by_name;
use crate::tree::tree_at;
use crate::tree::tree_text;
use crate::tree::walk;
use crate::tree::walk_entries;
use crate::tree::read_tree_plan;
use crate::tree::restore_steps;
use crate::tree::tree_walk;
use crate::tree::walk_ends;
use crate::tree::ReadTreeErrorView;
use crate::worktree::WorkEntry;
use crate::worktree::child_path;
use crate::worktree::dir_objects;
use crate::worktree::listing;
use crate::worktree::store_all;

verus! {

/// The deepest nesting of directories among the entries.
pub open spec fn depth(es: Seq<WorkEntry>) -> nat
    decreases es,
{
    if es.len() == 0 {
        0
    } else {
        let d = depth(es.drop_last());
        match es[es.len() - 1] {
            WorkEntry::File { .. } => d,
            WorkEntry::Dir { name, entries } => {
                let s = 1 + depth(entries@);
                if s > d {
                    s
                } else {
                    d
                }
            },
        }
    }
}

/// Every entry that is not ignored has a single-word name, in every
/// directory below.
pub open spec fn names_ok(es: Seq<WorkEntry>, rel: Seq<char>, ign: Seq<Seq<char>>) -> bool
    decreases es,
{
    if es.len() == 0 {
        true
    } else {
        &&& names_ok(es.drop_last(), rel, ign)
        &&& match es[es.len() - 1] {
            WorkEntry::File { name, content } => ign.contains(child_path(rel, name@)) || is_word(
                name@,
            ),
            WorkEntry::Dir { name, entries } => ign.contains(child_path(rel, name@)) || (is_word(
                name@,
            ) && names_ok(entries@, child_path(rel, name@), ign)),
        }
    }
}

/// What restoring the entries should give: each file that is not ignored
/// with its content, and each directory that is not ignored followed by
/// what restoring its entries should give.
pub open spec fn expected_steps(es: Seq<WorkEntry>, rel: Seq<char>, ign: Seq<Seq<char>>) -> Seq<
    StepView,
>
    decreases es,
{
    if es.len() == 0 {
        seq![]
    } else {
        let before = expected_steps(es.drop_last(), rel, ign);
        match es[es.len() - 1] {
            WorkEntry::File { name, content } => {
                let p = child_path(rel, name@);
                if ign.contains(p) {
                    before
                } else {
                    before.push(StepView::File(p, content@))
                }
            },
            WorkEntry::Dir { name, entries } => {
                let p = child_path(rel, name@);
                if ign.contains(p) {
                    before
                } else {
                    before.push(StepView::Dir(p)) + expected_steps(entries@, p, ign)
                }
            },
        }
    }
}

/// Every write is held by the table.
pub open spec fn holds_all(t: TableView, ws: Seq<(Seq<char>, Seq<u8>)>) -> bool {
    forall|i: int| 0 <= i < ws.len() ==> lookup(t, #[trigger] ws[i].0) == Some(ws[i].1)
}

/// Writes under the same id write the same bytes: no two objects written
/// share an id.
pub open spec fn no_collision(ws: Seq<(Seq<char>, Seq<u8>)>) -> bool {
    forall|i: int, j: int|
        0 <= i < ws.len() && 0 <= j < ws.len() && #[trigger] ws[i].0 == #[trigger] ws[j].0 ==> ws[i].1
            == ws[j].1
}

/// Every id written is a single word.
pub open spec fn ids_words(ws: Seq<(Seq<char>, Seq<u8>)>) -> bool {
    forall|i: int| 0 <= i < ws.len() ==> is_word(#[trigger] ws[i].0)
}

/// After a run of writes with no collision, the table holds each of them.
pub proof fn lemma_holds_all(t0: TableView, ws: Seq<(Seq<char>, Seq<u8>)>)
    requires
        names_unique(t0),
        no_collision(ws),
    ensures
        holds_all(store_all(t0, ws), ws),
    decreases ws.len(),
{
    if ws.len() > 0 {
        let pre = ws.drop_last();
        assert(no_collision(pre)) by {
            assert forall|i: int, j: int|
                0 <= i < pre.len() && 0 <= j < pre.len() && #[trigger] pre[i].0 == #[trigger] pre[j].0 implies pre[i].1
                == pre[j].1 by {
                assert(pre[i] == ws[i] && pre[j] == ws[j]);
            }
        }
        lemma_holds_all(t0, pre);
        let x = store_all(t0, pre);
        crate::worktree::lemma_store_all_unique(t0, pre);
        crate::table::lemma_store(x, ws.last().0, ws.last().1);
        assert forall|i: int| 0 <= i < ws.len() implies lookup(
            store_all(t0, ws),
            #[trigger] ws[i].0,
        ) == Some(ws[i].1) by {
            let n = ws.len() - 1;
            if ws[i].0 == ws[n].0 {
                assert(ws[i].1 == ws[n].1);
            } else {
                assert(ws[i] == pre[i]);
            }
        }
    }
}

/// A store holding the objects of a concatenation holds those of each part.
pub proof fn lemma_holds_parts(t: TableView, a: Seq<(Seq<char>, Seq<u8>)>, b: Seq<(Seq<char>, Seq<u8>)>)
    requires
        holds_all(t, a + b),
    ensures
        holds_all(t, a),
        holds_all(t, b),
{
    assert forall|i: int| 0 <= i < a.len() implies lookup(t, #[trigger] a[i].0) == Some(a[i].1) by {
        assert((a + b)[i] == a[i]);
    }
    assert forall|i: int| 0 <= i < b.len() implies lookup(t, #[trigger] b[i].0) == Some(b[i].1) by {
        assert((a + b)[a.len() + i] == b[i]);
    }
}

/// The ids of a concatenation are words when each part's are.
pub proof fn lemma_words_parts(a: Seq<(Seq<char>, Seq<u8>)>, b: Seq<(Seq<char>, Seq<u8>)>)
    requires
        ids_words(a + b),
    ensures
        ids_words(a),
        ids_words(b),
{
    assert forall|i: int| 0 <= i < a.len() implies is_word(#[trigger] a[i].0) by {
        assert((a + b)[i] == a[i]);
    }
    assert forall|i: int| 0 <= i < b.len() implies is_word(#[trigger] b[i].0) by {
        assert((a + b)[a.len() + i] == b[i]);
    }
}

/// Walking one tree entry: its own item, then (for a tree) its subtree.
pub open spec fn entry_walk(t: TableView, e: EntryView, base: Seq<char>, f: nat) -> Option<
    Result<Seq<ListedView>, TreeErrorView>,
> {
    let path = child_path(base, e.2);
    let sub = if e.0 is Tree {
        walk(t, e.1, path, f)
    } else {
        Some(Ok(seq![]))
    };
    match sub {
        Some(Ok(inner)) => Some(Ok(seq![(path, e.0, e.1)] + inner)),
        other => other,
    }
}

/// A walked item reads without fault: a blob's object reads as a blob.
pub open spec fn item_ok(t: TableView, x: ListedView) -> bool {
    x.1 is Blob ==> fetch(t, x.2, ObjectType::Blob) is Ok
}

/// The restore step of a walked item.
pub open spec fn step_of(t: TableView, x: ListedView) -> StepView {
    if x.1 is Blob {
        StepView::File(x.0, fetch(t, x.2, ObjectType::Blob)->Ok_0)
    } else {
        StepView::Dir(x.0)
    }
}

/// One of the walked items restores as `st`.
pub open spec fn seq_gives(t: TableView, l: Seq<ListedView>, st: StepView) -> bool {
    exists|i: int| 0 <= i < l.len() && step_of(t, #[trigger] l[i]) == st
}

/// The walk of an entry succeeds, and one of its items restores as `st`.
pub open spec fn entry_gives(t: TableView, e: EntryView, base: Seq<char>, f: nat, st: StepView) -> bool {
    &&& entry_walk(t, e, base, f) is Some
    &&& entry_walk(t, e, base, f)->Some_0 is Ok
    &&& seq_gives(t, entry_walk(t, e, base, f)->Some_0->Ok_0, st)
}

/// The walk of one of the entries gives `st`.
pub open spec fn entries_give(t: TableView, s: Seq<EntryView>, base: Seq<char>, f: nat, st: StepView) -> bool {
    exists|j: int| 0 <= j < s.len() && entry_gives(t, #[trigger] s[j], base, f, st)
}

/// All walked items read without fault.
pub open spec fn items_ok(t: TableView, l: Seq<ListedView>) -> bool {
    forall|i: int| 0 <= i < l.len() ==> item_ok(t, #[trigger] l[i])
}

/// The walk of an entry succeeds and reads without fault.
pub open spec fn entry_walk_ok(t: TableView, e: EntryView, base: Seq<char>, f: nat) -> bool {
    &&& entry_walk(t, e, base, f) is Some
    &&& entry_walk(t, e, base, f)->Some_0 is Ok
    &&& items_ok(t, entry_walk(t, e, base, f)->Some_0->Ok_0)
}

/// Walking entries whose walks each succeed succeeds, and holds exactly the
/// items of those walks.
pub proof fn lemma_walk_entries(t: TableView, s: Seq<EntryView>, base: Seq<char>, f: nat)
    requires
        forall|j: int| 0 <= j < s.len() ==> entry_walk_ok(t, #[trigger] s[j], base, f),
    ensures
        walk_entries(t, s, base, f) is Some,
        walk_entries(t, s, base, f)->Some_0 is Ok,
        items_ok(t, walk_entries(t, s, base, f)->Some_0->Ok_0),
        forall|st: StepView|
            #[trigger] seq_gives(t, walk_entries(t, s, base, f)->Some_0->Ok_0, st) <==> entries_give(
                t,
                s,
                base,
                f,
                st,
            ),
    decreases s.len(),
{
    if s.len() == 0 {
    } else {
        let rest = s.drop_first();
        assert forall|j: int| 0 <= j < rest.len() implies entry_walk_ok(t, #[trigger] rest[j], base, f) by {
            assert(rest[j] == s[j + 1]);
            assert(entry_walk_ok(t, s[j + 1], base, f));
        }
        lemma_walk_entries(t, rest, base, f);
        assert(entry_walk_ok(t, s[0], base, f));
        let head = entry_walk(t, s[0], base, f)->Some_0->Ok_0;
        let tail = walk_entries(t, rest, base, f)->Some_0->Ok_0;
        let e = s[0];
        let path = child_path(base, e.2);
        assert(walk_entries(t, s, base, f) == Some(Ok::<Seq<ListedView>, TreeErrorView>(head + tail))) by {
            if e.0 is Tree {
                let inner = walk(t, e.1, path, f)->Some_0->Ok_0;
                assert(head == seq![(path, e.0, e.1)] + inner);
                assert(seq![(path, e.0, e.1)] + inner + tail =~= head + tail);
            } else {
                assert(head =~= seq![(path, e.0, e.1)] + Seq::<ListedView>::empty());
                assert(seq![(path, e.0, e.1)] + Seq::<ListedView>::empty() + tail =~= head + tail);
            }
        }
        let all = head + tail;
        assert forall|i: int| 0 <= i < all.len() implies item_ok(t, #[trigger] all[i]) by {
            if i < head.len() {
                assert(all[i] == head[i]);
            } else {
                assert(all[i] == tail[i - head.len()]);
            }
        }
        assert forall|st: StepView| #[trigger] seq_gives(t, all, st) <==> entries_give(t, s, base, f, st) by {
            if seq_gives(t, all, st) {
                let i = choose|i: int| 0 <= i < all.len() && step_of(t, #[trigger] all[i]) == st;
                if i < head.len() {
                    assert(all[i] == head[i]);
                    assert(seq_gives(t, head, st));
                    assert(entry_gives(t, s[0], base, f, st));
                } else {
                    assert(all[i] == tail[i - head.len()]);
                    assert(seq_gives(t, tail, st));
                    let j = choose|j: int| 0 <= j < rest.len() && entry_gives(t, #[trigger] rest[j], base, f, st);
                    assert(rest[j] == s[j + 1]);
                    assert(entry_gives(t, s[j + 1], base, f, st));
                }
            }
            if entries_give(t, s, base, f, st) {
                let j = choose|j: int| 0 <= j < s.len() && entry_gives(t, #[trigger] s[j], base, f, st);
                if j == 0 {
                    let i = choose|i: int| 0 <= i < head.len() && step_of(t, #[trigger] head[i]) == st;
                    assert(all[i] == head[i]);
                } else {
                    assert(rest[j - 1] == s[j]);
                    assert(entry_gives(t, rest[j - 1], base, f, st));
                    assert(entries_give(t, rest, base, f, st));
                    assert(seq_gives(t, tail, st));
                    let i = choose|i: int| 0 <= i < tail.len() && step_of(t, #[trigger] tail[i]) == st;
                    assert(all[head.len() + i] == tail[i]);
                }
            }
        }
    }
}


/// The entry written for a file reads back as that file.
proof fn lemma_blob_entry(t: TableView, path: Seq<char>, content: Seq<u8>, id: Seq<char>, base: Seq<char>, name: Seq<char>, f: nat)
    requires
        id == object_id(ObjectType::Blob, content),
        lookup(t, id) == Some(object_bytes(ObjectType::Blob, content)),
        path == child_path(base, name),
    ensures
        entry_walk_ok(t, (ObjectType::Blob, id, name), base, f),
        forall|st: StepView| #[trigger] entry_gives(t, (ObjectType::Blob, id, name), base, f, st) <==> st == StepView::File(path, content),
{
    crate::object::lemma_read_own_object(ObjectType::Blob, content);
    let e = (ObjectType::Blob, id, name);
    let l = entry_walk(t, e, base, f)->Some_0->Ok_0;
    assert(l =~= seq![(path, ObjectType::Blob, id)]);
    assert(step_of(t, l[0]) == StepView::File(path, content));
    assert forall|st: StepView| #[trigger] entry_gives(t, e, base, f, st) <==> st == StepView::File(path, content) by {
        if st == StepView::File(path, content) {
            assert(step_of(t, l[0]) == st);
        }
    }
}

/// The tree written for a directory's entries walks, with fuel beyond its
/// depth, to exactly what restoring the directory should give.
pub proof fn lemma_dir_walk(t: TableView, es: Seq<WorkEntry>, rel: Seq<char>, ign: Seq<Seq<char>>, f: nat)
    requires
        names_ok(es, rel, ign),
        holds_all(t, dir_objects(es, rel, ign).1),
        ids_words(dir_objects(es, rel, ign).1),
        f > depth(es),
    ensures
        walk(t, dir_objects(es, rel, ign).0, rel, f) is Some,
        walk(t, dir_objects(es, rel, ign).0, rel, f)->Some_0 is Ok,
        items_ok(t, walk(t, dir_objects(es, rel, ign).0, rel, f)->Some_0->Ok_0),
        forall|st: StepView|
            #[trigger] seq_gives(t, walk(t, dir_objects(es, rel, ign).0, rel, f)->Some_0->Ok_0, st)
                <==> expected_steps(es, rel, ign).contains(st),
    decreases es, 2int,
{
    broadcast use vstd::seq_lib::group_to_multiset_ensures;
    let (ents, ws) = listing(es, rel, ign);
    let sorted = sort_by_name(ents);
    let text = tree_text(sorted);
    let content = encode_utf8(text);
    let id = object_id(ObjectType::Tree, content);
    let all = dir_objects(es, rel, ign).1;
    assert(all == ws.push((id, object_bytes(ObjectType::Tree, content))));
    assert(ws.push((id, object_bytes(ObjectType::Tree, content))) =~= ws + seq![(id, object_bytes(ObjectType::Tree, content))]);
    lemma_holds_parts(t, ws, seq![(id, object_bytes(ObjectType::Tree, content))]);
    lemma_words_parts(ws, seq![(id, object_bytes(ObjectType::Tree, content))]);
    assert(lookup(t, id) == Some(object_bytes(ObjectType::Tree, content))) by {
        assert(seq![(id, object_bytes(ObjectType::Tree, content))][0].0 == id);
    }
    lemma_listing_walks(t, es, rel, ign, (f - 1) as nat);
    crate::tree::lemma_sort_by_name(ents);
    assert forall|i: int| 0 <= i < sorted.len() implies ents.contains(#[trigger] sorted[i]) by {
        assert(sorted.to_multiset().count(sorted[i]) > 0);
    }
    assert forall|i: int| 0 <= i < sorted.len() implies entry_writable(#[trigger] sorted[i]) by {
        assert(ents.contains(sorted[i]));
        let j = choose|j: int| 0 <= j < ents.len() && ents[j] == sorted[i];
        assert(entry_writable(ents[j]));
    }
    crate::tree::law_tree_roundtrip(sorted);
    crate::object::lemma_read_own_object(ObjectType::Tree, content);
    vstd::utf8::encode_utf8_valid_utf8(text);
    vstd::utf8::encode_utf8_decode_utf8(text);
    assert(tree_at(t, id) == Ok::<Seq<EntryView>, TreeErrorView>(sorted));
    let g = (f - 1) as nat;
    assert(walk(t, id, rel, f) == walk_entries(t, sorted, rel, g));
    assert forall|j: int| 0 <= j < sorted.len() implies entry_walk_ok(t, #[trigger] sorted[j], rel, g) by {
        assert(ents.contains(sorted[j]));
        let k = choose|k: int| 0 <= k < ents.len() && ents[k] == sorted[j];
        assert(entry_walk_ok(t, ents[k], rel, g));
    }
    lemma_walk_entries(t, sorted, rel, g);
    assert forall|st: StepView| entries_give(t, sorted, rel, g, st) <==> #[trigger] entries_give(t, ents, rel, g, st) by {
        if entries_give(t, sorted, rel, g, st) {
            let j = choose|j: int| 0 <= j < sorted.len() && entry_gives(t, #[trigger] sorted[j], rel, g, st);
            assert(ents.contains(sorted[j]));
            let k = choose|k: int| 0 <= k < ents.len() && ents[k] == sorted[j];
            assert(entry_gives(t, ents[k], rel, g, st));
        }
        if entries_give(t, ents, rel, g, st) {
            let k = choose|k: int| 0 <= k < ents.len() && entry_gives(t, #[trigger] ents[k], rel, g, st);
            assert(ents.to_multiset().count(ents[k]) > 0);
            assert(sorted.contains(ents[k]));
            let j = choose|j: int| 0 <= j < sorted.len() && sorted[j] == ents[k];
            assert(entry_gives(t, sorted[j], rel, g, st));
        }
    }
    assert(dir_objects(es, rel, ign).0 == id);
    let l = walk_entries(t, sorted, rel, g)->Some_0->Ok_0;
    assert forall|st: StepView| #[trigger] seq_gives(t, walk(t, dir_objects(es, rel, ign).0, rel, f)->Some_0->Ok_0, st)
        <==> expected_steps(es, rel, ign).contains(st) by {
        assert(seq_gives(t, l, st) <==> entries_give(t, sorted, rel, g, st));
        assert(entries_give(t, ents, rel, g, st) <==> expected_steps(es, rel, ign).contains(st));
    }
}

/// The tree entries written for a directory's entries each walk without
/// fault and can be read back from a tree's text, and together they walk
/// to exactly what restoring those entries should give.
pub proof fn lemma_listing_walks(t: TableView, es: Seq<WorkEntry>, rel: Seq<char>, ign: Seq<Seq<char>>, f: nat)
    requires
        names_ok(es, rel, ign),
        holds_all(t, listing(es, rel, ign).1),
        ids_words(listing(es, rel, ign).1),
        f >= depth(es),
    ensures
        forall|j: int|
            0 <= j < listing(es, rel, ign).0.len() ==> entry_walk_ok(t, #[trigger] listing(es, rel, ign).0[j], rel, f)
                && entry_writable(listing(es, rel, ign).0[j]),
        forall|st: StepView|
            #[trigger] entries_give(t, listing(es, rel, ign).0, rel, f, st) <==> expected_steps(es, rel, ign).contains(
                st,
            ),
    decreases es, 1int,
{
    if es.len() > 0 {
        let pre = es.drop_last();
        let (ents0, ws0) = listing(pre, rel, ign);
        let (ents, ws) = listing(es, rel, ign);
        let exp0 = expected_steps(pre, rel, ign);
        let exp = expected_steps(es, rel, ign);
        match es[es.len() - 1] {
            WorkEntry::File { name, content } => {
                let p = child_path(rel, name@);
                if ign.contains(p) {
                    lemma_listing_walks(t, pre, rel, ign, f);
                } else {
                    let id = object_id(ObjectType::Blob, content@);
                    let bytes = object_bytes(ObjectType::Blob, content@);
                    assert(ws == ws0.push((id, bytes)));
                    assert(ws0.push((id, bytes)) =~= ws0 + seq![(id, bytes)]);
                    lemma_holds_parts(t, ws0, seq![(id, bytes)]);
                    lemma_words_parts(ws0, seq![(id, bytes)]);
                    assert(seq![(id, bytes)][0].0 == id);
                    lemma_listing_walks(t, pre, rel, ign, f);
                    let e = (ObjectType::Blob, id, name@);
                    assert(ents == ents0.push(e));
                    lemma_blob_entry(t, p, content@, id, rel, name@, f);
                    assert forall|j: int| 0 <= j < ents.len() implies entry_walk_ok(t, #[trigger] ents[j], rel, f)
                        && entry_writable(ents[j]) by {
                        if j < ents0.len() {
                            assert(ents[j] == ents0[j]);
                        }
                    }
                    assert forall|st: StepView| #[trigger] entries_give(t, ents, rel, f, st) <==> exp.contains(st) by {
                        assert(exp == exp0.push(StepView::File(p, content@)));
                        if entries_give(t, ents, rel, f, st) {
                            let j = choose|j: int| 0 <= j < ents.len() && entry_gives(t, #[trigger] ents[j], rel, f, st);
                            if j < ents0.len() {
                                assert(ents[j] == ents0[j]);
                                assert(entries_give(t, ents0, rel, f, st));
                                let k = choose|k: int| 0 <= k < exp0.len() && exp0[k] == st;
                                assert(exp[k] == st);
                            } else {
                                assert(exp[exp0.len() as int] == st);
                            }
                        }
                        if exp.contains(st) {
                            let k = choose|k: int| 0 <= k < exp.len() && exp[k] == st;
                            if k < exp0.len() {
                                assert(exp0[k] == st);
                                assert(exp0.contains(st));
                                assert(entries_give(t, ents0, rel, f, st));
                                let j = choose|j: int| 0 <= j < ents0.len() && entry_gives(t, #[trigger] ents0[j], rel, f, st);
                                assert(ents[j] == ents0[j]);
                            } else {
                                assert(entry_gives(t, ents[ents0.len() as int], rel, f, st));
                            }
                        }
                    }
                }
            },
            WorkEntry::Dir { name, entries } => {
                let p = child_path(rel, name@);
                if ign.contains(p) {
                    lemma_listing_walks(t, pre, rel, ign, f);
                } else {
                    let (tid, subws) = dir_objects(entries@, p, ign);
                    assert(ws == ws0 + subws);
                    lemma_holds_parts(t, ws0, subws);
                    lemma_words_parts(ws0, subws);
                    lemma_listing_walks(t, pre, rel, ign, f);
                    lemma_dir_walk(t, entries@, p, ign, f);
                    assert(subws.last().0 == tid);
                    assert(is_word(subws[subws.len() - 1].0));
                    let e = (ObjectType::Tree, tid, name@);
                    assert(ents == ents0.push(e));
                    let inner = walk(t, tid, p, f)->Some_0->Ok_0;
                    let l = entry_walk(t, e, rel, f)->Some_0->Ok_0;
                    assert(l == seq![(p, ObjectType::Tree, tid)] + inner);
                    assert(items_ok(t, l)) by {
                        assert forall|i: int| 0 <= i < l.len() implies item_ok(t, #[trigger] l[i]) by {
                            if i > 0 {
                                assert(l[i] == inner[i - 1]);
                            }
                        }
                    }
                    let sub_exp = expected_steps(entries@, p, ign);
                    assert forall|st: StepView| #[trigger] entry_gives(t, e, rel, f, st) <==> (st == StepView::Dir(p)
                        || sub_exp.contains(st)) by {
                        if entry_gives(t, e, rel, f, st) {
                            let i = choose|i: int| 0 <= i < l.len() && step_of(t, #[trigger] l[i]) == st;
                            if i > 0 {
                                assert(l[i] == inner[i - 1]);
                                assert(seq_gives(t, inner, st));
                            }
                        }
                        if st == StepView::Dir(p) {
                            assert(step_of(t, l[0]) == st);
                        } else if sub_exp.contains(st) {
                            assert(seq_gives(t, inner, st));
                            let i = choose|i: int| 0 <= i < inner.len() && step_of(t, #[trigger] inner[i]) == st;
                            assert(l[i + 1] == inner[i]);
                        }
                    }
                    assert forall|j: int| 0 <= j < ents.len() implies entry_walk_ok(t, #[trigger] ents[j], rel, f)
                        && entry_writable(ents[j]) by {
                        if j < ents0.len() {
                            assert(ents[j] == ents0[j]);
                        }
                    }
                    assert(exp == exp0.push(StepView::Dir(p)) + sub_exp);
                    assert forall|st: StepView| #[trigger] entries_give(t, ents, rel, f, st) <==> exp.contains(st) by {
                        let n0 = exp0.len() as int;
                        if entries_give(t, ents, rel, f, st) {
                            let j = choose|j: int| 0 <= j < ents.len() && entry_gives(t, #[trigger] ents[j], rel, f, st);
                            if j < ents0.len() {
                                assert(ents[j] == ents0[j]);
                                assert(entries_give(t, ents0, rel, f, st));
                                let k = choose|k: int| 0 <= k < exp0.len() && exp0[k] == st;
                                assert(exp[k] == st);
                            } else {
                                assert(entry_gives(t, e, rel, f, st));
                                if st == StepView::Dir(p) {
                                    assert(exp[n0] == st);
                                } else {
                                    let k = choose|k: int| 0 <= k < sub_exp.len() && sub_exp[k] == st;
                                    assert(exp[n0 + 1 + k] == st);
                                }
                            }
                        }
                        if exp.contains(st) {
                            let k = choose|k: int| 0 <= k < exp.len() && exp[k] == st;
                            if k < n0 {
                                assert(exp0[k] == st);
                                assert(exp0.contains(st));
                                assert(entries_give(t, ents0, rel, f, st));
                                let j = choose|j: int| 0 <= j < ents0.len() && entry_gives(t, #[trigger] ents0[j], rel, f, st);
                                assert(ents[j] == ents0[j]);
                            } else if k == n0 {
                                assert(entry_gives(t, e, rel, f, st));
                                assert(ents[ents0.len() as int] == e);
                            } else {
                                assert(sub_exp[k - n0 - 1] == st);
                                assert(sub_exp.contains(st));
                                assert(entry_gives(t, e, rel, f, st));
                                assert(ents[ents0.len() as int] == e);
                            }
                        }
                    }
                }
            },
        }
    }
}


/// More fuel does not change a walk that ended.
pub proof fn lemma_walk_fuel(t: TableView, oid: Seq<char>, base: Seq<char>, f1: nat, f2: nat)
    requires
        f1 <= f2,
        walk(t, oid, base, f1) is Some,
    ensures
        walk(t, oid, base, f2) == walk(t, oid, base, f1),
    decreases f1, 0int,
{
    match tree_at(t, oid) {
        Err(_) => {},
        Ok(es) => {
            lemma_walk_entries_fuel(t, es, base, (f1 - 1) as nat, (f2 - 1) as nat);
        },
    }
}

/// More fuel does not change a walk of entries that ended.
pub proof fn lemma_walk_entries_fuel(t: TableView, es: Seq<EntryView>, base: Seq<char>, f1: nat, f2: nat)
    requires
        f1 <= f2,
        walk_entries(t, es, base, f1) is Some,
    ensures
        walk_entries(t, es, base, f2) == walk_entries(t, es, base, f1),
    decreases f1, es.len(),
{
    if es.len() > 0 {
        let e = es[0];
        let path = child_path(base, e.2);
        if e.0 is Tree {
            lemma_walk_fuel(t, e.1, path, f1, f2);
        }
        let sub = if e.0 is Tree {
            walk(t, e.1, path, f1)
        } else {
            Some(Ok(seq![]))
        };
        match sub {
            Some(Ok(_)) => {
                lemma_walk_entries_fuel(t, es.drop_first(), base, f1, f2);
            },
            _ => {},
        }
    }
}

/// Walked items that read without fault restore to exactly their steps.
pub proof fn lemma_restore_steps(t: TableView, l: Seq<ListedView>)
    requires
        items_ok(t, l),
    ensures
        restore_steps(t, l) is Some,
        restore_steps(t, l)->Some_0 is Ok,
        forall|st: StepView|
            #[trigger] restore_steps(t, l)->Some_0->Ok_0.contains(st) <==> seq_gives(t, l, st),
    decreases l.len(),
{
    if l.len() > 0 {
        let rest = l.drop_first();
        assert forall|i: int| 0 <= i < rest.len() implies item_ok(t, #[trigger] rest[i]) by {
            assert(rest[i] == l[i + 1]);
            assert(item_ok(t, l[i + 1]));
        }
        lemma_restore_steps(t, rest);
        assert(item_ok(t, l[0]));
        let st0 = step_of(t, l[0]);
        let r = restore_steps(t, rest)->Some_0->Ok_0;
        assert(restore_steps(t, l) == Some(Ok::<Seq<StepView>, ReadTreeErrorView>(seq![st0] + r)));
        assert forall|st: StepView| #[trigger] (seq![st0] + r).contains(st) <==> seq_gives(t, l, st) by {
            let all = seq![st0] + r;
            if all.contains(st) {
                let k = choose|k: int| 0 <= k < all.len() && all[k] == st;
                if k == 0 {
                    assert(step_of(t, l[0]) == st);
                } else {
                    assert(r[k - 1] == st);
                    assert(r.contains(st));
                    assert(seq_gives(t, rest, st));
                    let i = choose|i: int| 0 <= i < rest.len() && step_of(t, #[trigger] rest[i]) == st;
                    assert(rest[i] == l[i + 1]);
                }
            }
            if seq_gives(t, l, st) {
                let i = choose|i: int| 0 <= i < l.len() && step_of(t, #[trigger] l[i]) == st;
                if i == 0 {
                    assert(all[0] == st);
                } else {
                    assert(rest[i - 1] == l[i]);
                    assert(seq_gives(t, rest, st));
                    assert(r.contains(st));
                    let k = choose|k: int| 0 <= k < r.len() && r[k] == st;
                    assert(all[k + 1] == st);
                }
            }
        }
    }
}

/// Restoring the tree written for a working tree, from a store that holds
/// every object written for it, gives back exactly its files that are not
/// ignored, each with its content, and its directories that are not
/// ignored.
pub proof fn lemma_restore_holding(t: TableView, es: Seq<WorkEntry>, ign: Seq<Seq<char>>)
    requires
        names_ok(es, seq![], ign),
        holds_all(t, dir_objects(es, seq![], ign).1),
        ids_words(dir_objects(es, seq![], ign).1),
    ensures
        ({
            let tid = dir_objects(es, seq![], ign).0;
            &&& read_tree_plan(t, tid) is Some
            &&& read_tree_plan(t, tid)->Some_0 is Ok
            &&& forall|st: StepView|
                #[trigger] read_tree_plan(t, tid)->Some_0->Ok_0.contains(st) <==> expected_steps(
                    es,
                    seq![],
                    ign,
                ).contains(st)
        }),
{
    let tid = dir_objects(es, seq![], ign).0;
    let f = depth(es) + 1;
    lemma_dir_walk(t, es, seq![], ign, f);
    assert(walk_ends(t, tid, seq![]));
    let g = choose|fuel: nat| #[trigger] walk(t, tid, seq![], fuel) is Some;
    if g <= f {
        lemma_walk_fuel(t, tid, seq![], g, f);
    } else {
        lemma_walk_fuel(t, tid, seq![], f, g);
    }
    let l = walk(t, tid, seq![], f)->Some_0->Ok_0;
    assert(tree_walk(t, tid, seq![]) == Ok::<Seq<ListedView>, TreeErrorView>(l));
    lemma_restore_steps(t, l);
}

/// Restoring the tree just written for a working tree gives back exactly
/// its files that are not ignored, each with its content, and its
/// directories that are not ignored; when every name is a single word, no
/// two objects written share an id, and every id is a single word.
pub proof fn law_restore_after_write(t0: TableView, es: Seq<WorkEntry>, ign: Seq<Seq<char>>)
    requires
        names_unique(t0),
        names_ok(es, seq![], ign),
        no_collision(dir_objects(es, seq![], ign).1),
        ids_words(dir_objects(es, seq![], ign).1),
    ensures
        ({
            let (tid, ws) = dir_objects(es, seq![], ign);
            let t = store_all(t0, ws);
            &&& read_tree_plan(t, tid) is Some
            &&& read_tree_plan(t, tid)->Some_0 is Ok
            &&& forall|st: StepView|
                #[trigger] read_tree_plan(t, tid)->Some_0->Ok_0.contains(st) <==> expected_steps(
                    es,
                    seq![],
                    ign,
                ).contains(st)
        }),
{
    let ws = dir_objects(es, seq![], ign).1;
    lemma_holds_all(t0, ws);
    lemma_restore_holding(store_all(t0, ws), es, ign);
}

/// Checking out a commit just made of a working tree reads the commit back
/// and restores exactly the working tree's files that are not ignored, with
/// their contents, and its directories that are not ignored; when every
/// name and id is a single word, the message holds no `'\r'`, and no two
/// objects written share an id.
pub proof fn law_checkout_after_commit(
    t0: TableView,
    es: Seq<WorkEntry>,
    ign: Seq<Seq<char>>,
    parent: Option<Seq<char>>,
    message: Seq<char>,
)
    requires
        names_unique(t0),
        names_ok(es, seq![], ign),
        ids_words(dir_objects(es, seq![], ign).1),
        parent matches Some(p) ==> is_word(p),
        !message.contains('\r'),
        ({
            let (tid, ws) = dir_objects(es, seq![], ign);
            let content = encode_utf8(crate::commit::commit_record(tid, parent, message));
            no_collision(
                ws.push((object_id(ObjectType::Commit, content), object_bytes(ObjectType::Commit, content))),
            )
        }),
    ensures
        ({
            let (tid, ws) = dir_objects(es, seq![], ign);
            let content = encode_utf8(crate::commit::commit_record(tid, parent, message));
            let cid = object_id(ObjectType::Commit, content);
            let t = store(store_all(t0, ws), cid, object_bytes(ObjectType::Commit, content));
            &&& crate::commit::commit_at(t, cid) == Ok::<
                crate::commit::CommitView,
                crate::commit::CommitErrorView,
            >(crate::commit::CommitView { tree: tid, parent, message })
            &&& read_tree_plan(t, tid) is Some
            &&& read_tree_plan(t, tid)->Some_0 is Ok
            &&& forall|st: StepView|
                #[trigger] read_tree_plan(t, tid)->Some_0->Ok_0.contains(st) <==> expected_steps(
                    es,
                    seq![],
                    ign,
                ).contains(st)
        }),
{
    let (tid, ws) = dir_objects(es, seq![], ign);
    let record = crate::commit::commit_record(tid, parent, message);
    let content = encode_utf8(record);
    let cid = object_id(ObjectType::Commit, content);
    let cobj = (cid, object_bytes(ObjectType::Commit, content));
    let all = ws.push(cobj);
    let t = store(store_all(t0, ws), cid, object_bytes(ObjectType::Commit, content));
    assert(all.drop_last() =~= ws);
    assert(store_all(t0, all) == t);
    lemma_holds_all(t0, all);
    assert(all =~= ws + seq![cobj]);
    lemma_holds_parts(t, ws, seq![cobj]);
    assert(lookup(t, cid) == Some(object_bytes(ObjectType::Commit, content))) by {
        assert(all[all.len() - 1] == cobj);
    }
    crate::object::lemma_read_own_object(ObjectType::Commit, content);
    vstd::utf8::encode_utf8_valid_utf8(record);
    vstd::utf8::encode_utf8_decode_utf8(record);
    assert(is_word(tid)) by {
        assert(ws[ws.len() - 1].0 == tid);
    }
    crate::commit::law_commit_roundtrip(tid, parent, message);
    lemma_restore_holding(t, es, ign);
}


/// What the listing of a directory's entries holds for each entry that is
/// not ignored: a file's blob entry and object, a directory's tree entry.
pub open spec fn listed_entry(es: Seq<WorkEntry>, rel: Seq<char>, ign: Seq<Seq<char>>, e: WorkEntry) -> bool {
    let (ents, ws) = listing(es, rel, ign);
    match e {
        WorkEntry::File { name, content } => !ign.contains(child_path(rel, name@)) ==> {
            &&& ents.contains((ObjectType::Blob, object_id(ObjectType::Blob, content@), name@))
            &&& ws.contains(
                (object_id(ObjectType::Blob, content@), object_bytes(ObjectType::Blob, content@)),
            )
        },
        WorkEntry::Dir { name, entries } => !ign.contains(child_path(rel, name@)) ==> ents.contains(
            (ObjectType::Tree, dir_objects(entries@, child_path(rel, name@), ign).0, name@),
        ),
    }
}

/// Every entry that is not ignored is in the listing of its directory.
pub proof fn lemma_listing_has(es: Seq<WorkEntry>, rel: Seq<char>, ign: Seq<Seq<char>>)
    ensures
        forall|i: int| 0 <= i < es.len() ==> listed_entry(es, rel, ign, #[trigger] es[i]),
    decreases es.len(),
{
    if es.len() > 0 {
        let pre = es.drop_last();
        lemma_listing_has(pre, rel, ign);
        let (ents0, ws0) = listing(pre, rel, ign);
        let (ents, ws) = listing(es, rel, ign);
        assert forall|x: EntryView| ents0.contains(x) implies ents.contains(x) by {
            let k = choose|k: int| 0 <= k < ents0.len() && ents0[k] == x;
            assert(ents[k] == x);
        }
        assert forall|x: (Seq<char>, Seq<u8>)| ws0.contains(x) implies ws.contains(x) by {
            let k = choose|k: int| 0 <= k < ws0.len() && ws0[k] == x;
            assert(ws[k] == x);
        }
        let n = es.len() - 1;
        assert forall|i: int| 0 <= i < es.len() implies listed_entry(es, rel, ign, #[trigger] es[i]) by {
            if i < n {
                assert(es[i] == pre[i]);
                assert(listed_entry(pre, rel, ign, pre[i]));
            } else {
                match es[n] {
                    WorkEntry::File { name, content } => {
                        if !ign.contains(child_path(rel, name@)) {
                            assert(ents[ents.len() - 1] == (
                                ObjectType::Blob,
                                object_id(ObjectType::Blob, content@),
                                name@,
                            ));
                            assert(ws[ws.len() - 1] == (
                                object_id(ObjectType::Blob, content@),
                                object_bytes(ObjectType::Blob, content@),
                            ));
                        }
                    },
                    WorkEntry::Dir { name, entries } => {
                        if !ign.contains(child_path(rel, name@)) {
                            assert(ents[ents.len() - 1] == (
                                ObjectType::Tree,
                                dir_objects(entries@, child_path(rel, name@), ign).0,
                                name@,
                            ));
                        }
                    },
                }
            }
        }
    }
}

/// The tree just written for a working tree reads back as its entries
/// sorted by name, with a blob entry for each file that is
/// not ignored, whose object reads back as the file's content, and a tree
/// entry for each directory that is not ignored; when every name is a
/// single word, no two objects written share an id, and every id is a
/// single word.
pub proof fn law_tree_after_write(t0: TableView, es: Seq<WorkEntry>, ign: Seq<Seq<char>>)
    requires
        names_unique(t0),
        names_ok(es, seq![], ign),
        no_collision(dir_objects(es, seq![], ign).1),
        ids_words(dir_objects(es, seq![], ign).1),
    ensures
        ({
            let (tid, ws) = dir_objects(es, seq![], ign);
            let t = store_all(t0, ws);
            let sorted = sort_by_name(listing(es, seq![], ign).0);
            &&& tree_at(t, tid) == Ok::<Seq<EntryView>, TreeErrorView>(sorted)
            &&& crate::tree::sorted_by_name(sorted)
            &&& forall|i: int| 0 <= i < es.len() ==> match #[trigger] es[i] {
                WorkEntry::File { name, content } => !ign.contains(name@) ==> {
                    &&& sorted.contains((ObjectType::Blob, object_id(ObjectType::Blob, content@), name@))
                    &&& fetch(t, object_id(ObjectType::Blob, content@), ObjectType::Blob) == Ok::<
                        Seq<u8>,
                        crate::object::ObjectError,
                    >(content@)
                },
                WorkEntry::Dir { name, entries } => !ign.contains(name@) ==> sorted.contains(
                    (ObjectType::Tree, dir_objects(entries@, name@, ign).0, name@),
                ),
            }
        }),
{
    broadcast use vstd::seq_lib::group_to_multiset_ensures;
    let rel = Seq::<char>::empty();
    let (tid, all) = dir_objects(es, rel, ign);
    let t = store_all(t0, all);
    lemma_holds_all(t0, all);
    let (ents, ws) = listing(es, rel, ign);
    let sorted = sort_by_name(ents);
    let text = tree_text(sorted);
    let content = encode_utf8(text);
    let tree_obj = seq![(tid, object_bytes(ObjectType::Tree, content))];
    assert(all =~= ws + tree_obj);
    lemma_holds_parts(t, ws, tree_obj);
    lemma_words_parts(ws, tree_obj);
    assert(lookup(t, tid) == Some(object_bytes(ObjectType::Tree, content))) by {
        assert(tree_obj[0].0 == tid);
    }
    lemma_listing_walks(t, es, rel, ign, depth(es));
    crate::tree::lemma_sort_by_name(ents);
    assert forall|x: EntryView| ents.contains(x) implies sorted.contains(x) by {
        assert(ents.to_multiset().count(x) > 0);
    }
    assert forall|i: int| 0 <= i < sorted.len() implies ents.contains(#[trigger] sorted[i]) by {
        assert(sorted.to_multiset().count(sorted[i]) > 0);
    }
    assert forall|i: int| 0 <= i < sorted.len() implies entry_writable(#[trigger] sorted[i]) by {
        assert(ents.contains(sorted[i]));
        let j = choose|j: int| 0 <= j < ents.len() && ents[j] == sorted[i];
        assert(entry_writable(ents[j]));
    }
    crate::tree::law_tree_roundtrip(sorted);
    crate::object::lemma_read_own_object(ObjectType::Tree, content);
    vstd::utf8::encode_utf8_valid_utf8(text);
    vstd::utf8::encode_utf8_decode_utf8(text);
    assert(tree_at(t, tid) == Ok::<Seq<EntryView>, TreeErrorView>(sorted));
    lemma_listing_has(es, rel, ign);
    assert forall|i: int| 0 <= i < es.len() implies match #[trigger] es[i] {
        WorkEntry::File { name, content } => !ign.contains(name@) ==> {
            &&& sorted.contains((ObjectType::Blob, object_id(ObjectType::Blob, content@), name@))
            &&& fetch(t, object_id(ObjectType::Blob, content@), ObjectType::Blob) == Ok::<
                Seq<u8>,
                crate::object::ObjectError,
            >(content@)
        },
        WorkEntry::Dir { name, entries } => !ign.contains(name@) ==> sorted.contains(
            (ObjectType::Tree, dir_objects(entries@, name@, ign).0, name@),
        ),
    } by {
        assert(listed_entry(es, rel, ign, es[i]));
        match es[i] {
            WorkEntry::File { name, content } => {
                assert(child_path(rel, name@) == name@);
                if !ign.contains(name@) {
                    let id = object_id(ObjectType::Blob, content@);
                    let bytes = object_bytes(ObjectType::Blob, content@);
                    let k = choose|k: int| 0 <= k < ws.len() && ws[k] == (id, bytes);
                    assert(lookup(t, ws[k].0) == Some(ws[k].1));
                    crate::object::lemma_read_own_object(ObjectType::Blob, content@);
                }
            },
            WorkEntry::Dir { name, entries } => {
                assert(child_path(rel, name@) == name@);
            },
        }
    }
}

} // verus!
