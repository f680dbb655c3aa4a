//! References: named files holding either an object id or `ref: ` and the
//! name of another reference, resolved by following such links.

use vstd::prelude::*;
use vstd::utf8::decode_utf8;
use vstd::utf8::encode_utf8;
use vstd::utf8::valid_utf8;
use crate::object::str_from_utf8;
use crate::object::copy_bytes;
use crate::table::Table;
use crate::table::TableView;
use crate::table::lookup;
use crate::table::names_unique;
use crate::text::chars_of;
use crate::text::string_from;
use crate::text::strip_prefix;
use crate::text::strip_prefix_chars;
use crate::text::trim;
use crate::text::trim_chars;
use crate::text::is_ws;
use crate::text::skip_ws;
use crate::text::rskip_ws;

verus! {

/// What a reference holds.
#[derive(Debug)]
pub enum RefTarget {
    /// Points directly to an object id.
    Direct(String),
    /// Points to another reference (e.g. `ref: refs/heads/master`).
    Symbolic(String),
}

/// The abstract content of a reference.
pub enum TargetView {
    Direct(Seq<char>),
    Symbolic(Seq<char>),
}

impl View for RefTarget {
    type V = TargetView;

    open spec fn view(&self) -> TargetView {
        match self {
            RefTarget::Direct(s) => TargetView::Direct(s@),
            RefTarget::Symbolic(s) => TargetView::Symbolic(s@),
        }
    }
}

/// The view of an optional reference content.
pub open spec fn opt_target(t: Option<RefTarget>) -> Option<TargetView> {
    match t {
        Some(x) => Some(x@),
        None => None,
    }
}

/// Whether to follow symbolic references.
#[derive(Clone, Copy, Debug, PartialEq, Eq, Structural)]
pub enum Follow {
    /// Follow symbolic refs to the ultimate target.
    IfSymbolic,
    /// Act on the ref itself.
    Never,
}

/// Whether `follow` asks to follow symbolic references.
pub open spec fn derefs(follow: Follow) -> bool {
    follow is IfSymbolic
}

/// The marker that opens a symbolic reference.
pub open spec fn ref_prefix() -> Seq<char> {
    seq!['r', 'e', 'f', ':', ' ']
}

/// The content of a reference file: the trimmed text, which is symbolic
/// (with its target trimmed again) when it starts with `ref: `.
pub open spec fn parse_ref(text: Seq<char>) -> TargetView {
    let t = trim(text);
    match strip_prefix(t, ref_prefix()) {
        Some(rest) => TargetView::Symbolic(trim(rest)),
        None => TargetView::Direct(t),
    }
}

/// The text written for a reference content.
pub open spec fn format_ref(v: TargetView) -> Seq<char> {
    match v {
        TargetView::Direct(x) => x,
        TargetView::Symbolic(x) => ref_prefix() + x,
    }
}

/// Where resolving a reference name ends.
pub enum Resolution {
    /// At this name, with this content (`None` when following links ends at
    /// a name with no file).
    Found(Seq<char>, Option<TargetView>),
    /// Not following links, the name has no file.
    Missing,
    /// The file of this name is not valid UTF-8.
    Unreadable(Seq<char>),
    /// More links than the fuel allows.
    Diverges,
}

/// Resolves `name` in the reference table `t`, following at most `fuel`
/// files.
pub open spec fn resolve(t: TableView, name: Seq<char>, deref: bool, fuel: nat) -> Resolution
    decreases fuel,
{
    if fuel == 0 {
        Resolution::Diverges
    } else {
        match lookup(t, name) {
            None => if deref {
                Resolution::Found(name, None)
            } else {
                Resolution::Missing
            },
            Some(bytes) => if !valid_utf8(bytes) {
                Resolution::Unreadable(name)
            } else {
                match parse_ref(decode_utf8(bytes)) {
                    TargetView::Symbolic(next) => if deref {
                        resolve(t, next, deref, (fuel - 1) as nat)
                    } else {
                        Resolution::Found(name, Some(TargetView::Symbolic(next)))
                    },
                    TargetView::Direct(oid) => Resolution::Found(
                        name,
                        Some(TargetView::Direct(oid)),
                    ),
                }
            },
        }
    }
}

/// Resolving `name` ends: its chain of links has no cycle.
pub open spec fn terminates(t: TableView, name: Seq<char>, deref: bool) -> bool {
    exists|fuel: nat| !(#[trigger] resolve(t, name, deref, fuel) is Diverges)
}

/// Where resolving `name` ends, when it does.
pub open spec fn resolved(t: TableView, name: Seq<char>, deref: bool) -> Resolution {
    resolve(t, name, deref, choose|fuel: nat| !(#[trigger] resolve(t, name, deref, fuel) is Diverges))
}

/// More fuel does not change a resolution that ended.
pub proof fn lemma_resolve_fuel(t: TableView, name: Seq<char>, deref: bool, f1: nat, f2: nat)
    requires
        f1 <= f2,
        !(resolve(t, name, deref, f1) is Diverges),
    ensures
        resolve(t, name, deref, f2) == resolve(t, name, deref, f1),
    decreases f1,
{
    if f1 > 0 {
        match lookup(t, name) {
            None => {},
            Some(bytes) => {
                if valid_utf8(bytes) {
                    match parse_ref(decode_utf8(bytes)) {
                        TargetView::Symbolic(next) => {
                            if deref {
                                lemma_resolve_fuel(t, next, deref, (f1 - 1) as nat, (f2 - 1) as nat);
                            }
                        },
                        TargetView::Direct(_) => {},
                    }
                }
            },
        }
    }
}

/// Any fuel with which resolution ends gives the resolution.
pub proof fn lemma_resolved(t: TableView, name: Seq<char>, deref: bool, f: nat)
    requires
        !(resolve(t, name, deref, f) is Diverges),
    ensures
        terminates(t, name, deref),
        resolved(t, name, deref) == resolve(t, name, deref, f),
{
    let g = choose|fuel: nat| !(#[trigger] resolve(t, name, deref, fuel) is Diverges);
    if g <= f {
        lemma_resolve_fuel(t, name, deref, g, f);
    } else {
        lemma_resolve_fuel(t, name, deref, f, g);
    }
}

/// Following links never ends at a missing name with an error, and when it
/// ends it ends at a name or at an unreadable file.
pub proof fn lemma_resolve_deref(t: TableView, name: Seq<char>, f: nat)
    ensures
        !(resolve(t, name, true, f) is Missing),
    decreases f,
{
    if f > 0 {
        match lookup(t, name) {
            None => {},
            Some(bytes) => {
                if valid_utf8(bytes) {
                    match parse_ref(decode_utf8(bytes)) {
                        TargetView::Symbolic(next) => {
                            lemma_resolve_deref(t, next, (f - 1) as nat);
                        },
                        TargetView::Direct(_) => {},
                    }
                }
            },
        }
    }
}

/// Following links from a name whose chain ends gives a name or an
/// unreadable file.
pub proof fn lemma_resolved_deref(t: TableView, name: Seq<char>)
    requires
        terminates(t, name, true),
    ensures
        resolved(t, name, true) is Found || resolved(t, name, true) is Unreadable,
{
    let f = choose|fuel: nat| !(#[trigger] resolve(t, name, true, fuel) is Diverges);
    lemma_resolve_deref(t, name, f);
}

/// Why a reference could not be resolved.
#[derive(Debug)]
pub enum RefError {
    /// Not following links, the reference has no file.
    DoesNotExist,
    /// The file of this reference could not be read as text.
    Unreadable(String),
    /// The reference resolves to a name that has no object id yet.
    NoOid,
}

/// The abstract form of a reference error.
pub enum RefErrorView {
    DoesNotExist,
    Unreadable(Seq<char>),
    NoOid,
}

impl View for RefError {
    type V = RefErrorView;

    open spec fn view(&self) -> RefErrorView {
        match self {
            RefError::DoesNotExist => RefErrorView::DoesNotExist,
            RefError::Unreadable(s) => RefErrorView::Unreadable(s@),
            RefError::NoOid => RefErrorView::NoOid,
        }
    }
}

/// The references: names (relative to the repository directory) mapped to
/// their files' bytes.
pub struct RefStore {
    table: Table,
}

impl View for RefStore {
    type V = TableView;

    closed spec fn view(&self) -> TableView {
        self.table@
    }
}

impl RefStore {
    /// The store's invariant: each name occurs once.
    pub open spec fn wf(&self) -> bool {
        names_unique(self@)
    }

    /// An empty store.
    pub fn new() -> (r: RefStore)
        ensures
            r@ == Seq::<(Seq<char>, Seq<u8>)>::empty(),
            r.wf(),
    {
        RefStore { table: Table::new() }
    }

    /// The bytes stored under `name`, if any.
    pub fn raw(&self, name: &str) -> (r: Option<&Vec<u8>>)
        requires
            self.wf(),
        ensures
            r matches Some(v) ==> lookup(self@, name@) == Some(v@),
            r is None ==> lookup(self@, name@) is None,
    {
        self.table.get(name)
    }

    /// Stores `data` under `name`, as it was found on disk.
    pub fn insert_raw(&mut self, name: String, data: Vec<u8>)
        requires
            old(self).wf(),
        ensures
            final(self)@ == crate::table::store(old(self)@, name@, data@),
            final(self).wf(),
    {
        self.table.put(name, data);
    }

    /// The number of references.
    pub fn len(&self) -> (r: usize)
        ensures
            r == self@.len(),
    {
        self.table.len()
    }

    /// The name of entry `i`.
    pub fn name_at(&self, i: usize) -> (r: &String)
        requires
            i < self@.len(),
        ensures
            r@ == self@[i as int].0,
    {
        self.table.name_at(i)
    }

    /// The bytes of entry `i`.
    pub fn bytes_at(&self, i: usize) -> (r: &Vec<u8>)
        requires
            i < self@.len(),
        ensures
            r@ == self@[i as int].1,
    {
        self.table.data_at(i)
    }
}

/// The characters of `ref: `.
fn ref_prefix_chars() -> (r: Vec<char>)
    ensures
        r@ == ref_prefix(),
{
    let r = vec!['r', 'e', 'f', ':', ' '];
    assert(r@ =~= ref_prefix());
    r
}

/// One reading step: the content of a reference file's text.
pub fn parse_ref_text(text: &str) -> (r: RefTarget)
    ensures
        r@ == parse_ref(text@),
{
    let chars = chars_of(text);
    let t = trim_chars(chars.as_slice());
    let prefix = ref_prefix_chars();
    match strip_prefix_chars(t.as_slice(), prefix.as_slice()) {
        Some(rest) => {
            let target = trim_chars(rest.as_slice());
            RefTarget::Symbolic(string_from(target.as_slice()))
        },
        None => RefTarget::Direct(string_from(t.as_slice())),
    }
}

/// Resolves a reference name to its target. Following links, it goes on
/// through `ref: ` pointers until it reaches an object id or a name without
/// a file; it returns the last name visited and what it holds.
pub fn get_ref_internal(ref_name: &str, deref: bool, refs: &RefStore) -> (r: Result<
    (String, Option<RefTarget>),
    RefError,
>)
    requires
        refs.wf(),
        terminates(refs@, ref_name@, deref),
    ensures
        match resolved(refs@, ref_name@, deref) {
            Resolution::Found(p, tgt) => r is Ok && r->Ok_0.0@ == p && opt_target(r->Ok_0.1) == tgt,
            Resolution::Missing => r is Err && r->Err_0@ == RefErrorView::DoesNotExist,
            Resolution::Unreadable(n) => r is Err && r->Err_0@ == RefErrorView::Unreadable(n),
            Resolution::Diverges => false,
        },
{
    let ghost fuel0 = choose|fuel: nat| !(#[trigger] resolve(refs@, ref_name@, deref, fuel) is Diverges);
    let ghost mut fuel: nat = fuel0;
    let mut cur = string_from(chars_of(ref_name).as_slice());
    loop
        invariant
            refs.wf(),
            resolve(refs@, cur@, deref, fuel) == resolved(refs@, ref_name@, deref),
            !(resolve(refs@, cur@, deref, fuel) is Diverges),
        decreases fuel,
    {
        match refs.raw(cur.as_str()) {
            None => {
                if deref {
                    return Ok((cur, None));
                } else {
                    return Err(RefError::DoesNotExist);
                }
            },
            Some(bytes) => {
                match str_from_utf8(bytes.as_slice()) {
                    None => {
                        return Err(RefError::Unreadable(cur));
                    },
                    Some(text) => {
                        let target = parse_ref_text(text);
                        match target {
                            RefTarget::Symbolic(next) => {
                                if deref {
                                    cur = next;
                                    proof {
                                        fuel = (fuel - 1) as nat;
                                    }
                                } else {
                                    return Ok((cur, Some(RefTarget::Symbolic(next))));
                                }
                            },
                            RefTarget::Direct(oid) => {
                                return Ok((cur, Some(RefTarget::Direct(oid))));
                            },
                        }
                    },
                }
            },
        }
    }
}


/// What `get_ref` gives: the object id or symbolic target that `name`
/// resolves to.
pub open spec fn get_ref_result(t: TableView, name: Seq<char>, follow: Follow) -> Result<
    Seq<char>,
    RefErrorView,
> {
    match resolved(t, name, derefs(follow)) {
        Resolution::Found(_, Some(TargetView::Direct(oid))) => Ok(oid),
        Resolution::Found(_, Some(TargetView::Symbolic(path))) => Ok(path),
        Resolution::Found(_, None) => Err(RefErrorView::NoOid),
        Resolution::Missing => Err(RefErrorView::DoesNotExist),
        Resolution::Unreadable(n) => Err(RefErrorView::Unreadable(n)),
        Resolution::Diverges => Err(RefErrorView::NoOid),
    }
}

/// Fetches a reference value: the object id (or, not following links, the
/// symbolic target) that `name` holds.
pub fn get_ref(name: &str, follow: &Follow, refs: &RefStore) -> (r: Result<String, RefError>)
    requires
        refs.wf(),
        terminates(refs@, name@, derefs(*follow)),
    ensures
        r is Ok ==> get_ref_result(refs@, name@, *follow) == Ok::<Seq<char>, RefErrorView>(
            r->Ok_0@,
        ),
        r is Err ==> get_ref_result(refs@, name@, *follow) == Err::<Seq<char>, RefErrorView>(
            r->Err_0@,
        ),
{
    let deref = match follow {
        Follow::IfSymbolic => true,
        Follow::Never => false,
    };
    match get_ref_internal(name, deref, refs) {
        Err(e) => Err(e),
        Ok((_, target)) => match target {
            Some(RefTarget::Direct(oid)) => Ok(oid),
            Some(RefTarget::Symbolic(path)) => Ok(path),
            None => Err(RefError::NoOid),
        },
    }
}

/// The text written for a reference content.
pub fn format_target(value: &RefTarget) -> (r: String)
    ensures
        r@ == format_ref(value@),
{
    match value {
        RefTarget::Direct(v) => v.clone(),
        RefTarget::Symbolic(v) => {
            let mut text = ref_prefix_chars();
            let rest = chars_of(v.as_str());
            let mut k: usize = 0;
            let ghost start = text@;
            while k < rest.len()
                invariant
                    k <= rest@.len(),
                    text@ == start + rest@.take(k as int),
                decreases rest@.len() - k,
            {
                text.push(rest[k]);
                proof {
                    assert(rest@.take(k as int).push(rest@[k as int]) =~= rest@.take(k + 1));
                }
                k = k + 1;
            }
            assert(rest@.take(rest@.len() as int) =~= rest@);
            string_from(text.as_slice())
        },
    }
}

/// The UTF-8 bytes of a string.
pub fn string_bytes(s: &String) -> (r: Vec<u8>)
    ensures
        r@ == encode_utf8(s@),
{
    let b = s.as_str().as_bytes();
    copy_bytes(b, 0, b.len())
}

/// Writes `ref_value` to the reference `name` or, following links, to the
/// name its chain of links ends at; returns the name written.
pub fn update_ref(name: &str, ref_value: &RefTarget, follow: &Follow, refs: &mut RefStore) -> (r:
    Result<String, RefError>)
    requires
        old(refs).wf(),
        terminates(old(refs)@, name@, derefs(*follow)),
    ensures
        final(refs).wf(),
        match resolved(old(refs)@, name@, derefs(*follow)) {
            Resolution::Found(p, _) => {
                &&& r is Ok
                &&& r->Ok_0@ == p
                &&& final(refs)@ == crate::table::store(
                    old(refs)@,
                    p,
                    encode_utf8(format_ref(ref_value@)),
                )
            },
            Resolution::Missing => r is Err && r->Err_0@ == RefErrorView::DoesNotExist
                && final(refs)@ == old(refs)@,
            Resolution::Unreadable(n) => r is Err && r->Err_0@ == RefErrorView::Unreadable(n)
                && final(refs)@ == old(refs)@,
            Resolution::Diverges => false,
        },
{
    let deref = match follow {
        Follow::IfSymbolic => true,
        Follow::Never => false,
    };
    match get_ref_internal(name, deref, refs) {
        Err(e) => Err(e),
        Ok((target_path, _)) => {
            let text = format_target(ref_value);
            let bytes = string_bytes(&text);
            refs.insert_raw(target_path.clone(), bytes);
            Ok(target_path)
        },
    }
}

/// Whether resolving `name` ends within `limit` files.
pub fn resolves_within(name: &str, follow: &Follow, refs: &RefStore, limit: usize) -> (r: bool)
    requires
        refs.wf(),
    ensures
        r == !(resolve(refs@, name@, derefs(*follow), limit as nat) is Diverges),
        r ==> terminates(refs@, name@, derefs(*follow)),
{
    let deref = match follow {
        Follow::IfSymbolic => true,
        Follow::Never => false,
    };
    let mut left = limit;
    let mut cur = string_from(chars_of(name).as_slice());
    let mut r: bool = false;
    loop
        invariant
            refs.wf(),
            deref == derefs(*follow),
            resolve(refs@, cur@, deref, left as nat) == resolve(refs@, name@, deref, limit as nat),
        ensures
            r == !(resolve(refs@, name@, deref, limit as nat) is Diverges),
        decreases left,
    {
        if left == 0 {
            r = false;
            break;
        }
        match refs.raw(cur.as_str()) {
            None => {
                r = true;
                        break;
            },
            Some(bytes) => {
                match str_from_utf8(bytes.as_slice()) {
                    None => {
                        r = true;
                        break;
                    },
                    Some(text) => {
                        match parse_ref_text(text) {
                            RefTarget::Symbolic(next) => {
                                if deref {
                                    cur = next;
                                    left = left - 1;
                                } else {
                                    r = true;
                        break;
                                }
                            },
                            RefTarget::Direct(_) => {
                                r = true;
                        break;
                            },
                        }
                    },
                }
            },
        }
    }
    proof {
        if r {
            lemma_resolved(refs@, name@, deref, limit as nat);
        }
    }
    r
}


/// Text with no whitespace at either end (and not empty).
pub open spec fn clean(x: Seq<char>) -> bool {
    x.len() > 0 && !is_ws(x[0]) && !is_ws(x.last())
}

/// Trimming text without surrounding white space leaves it as it is.
pub proof fn lemma_trim_clean(x: Seq<char>)
    requires
        clean(x),
    ensures
        trim(x) == x,
{
    assert(skip_ws(x, 0) == 0);
    assert(rskip_ws(x, 0, x.len() as int) == x.len());
    assert(x.subrange(0, x.len() as int) =~= x);
}

/// A reference content written and read back is the same content, when
/// the id or target has no whitespace at its ends and an id does not start
/// with `ref: `.
pub proof fn law_ref_text_roundtrip(v: TargetView)
    requires
        match v {
            TargetView::Direct(x) => clean(x) && strip_prefix(x, ref_prefix()) is None,
            TargetView::Symbolic(x) => clean(x),
        },
    ensures
        parse_ref(format_ref(v)) == v,
{
    match v {
        TargetView::Direct(x) => {
            lemma_trim_clean(x);
        },
        TargetView::Symbolic(x) => {
            let text = ref_prefix() + x;
            assert(text[0] == 'r');
            assert(text.last() == x.last());
            lemma_trim_clean(text);
            assert(text.take(5) =~= ref_prefix());
            assert(text.skip(5) =~= x);
            lemma_trim_clean(x);
        },
    }
}

/// Following links ends at a name with no file or with an id.
pub proof fn lemma_resolve_end(t: TableView, m: Seq<char>, g: nat)
    requires
        resolve(t, m, true, g) is Found,
    ensures
        ({
            let p = resolve(t, m, true, g)->Found_0;
            let tgt = resolve(t, m, true, g)->Found_1;
            ||| (lookup(t, p) is None && tgt is None)
            ||| (lookup(t, p) is Some && valid_utf8(lookup(t, p)->Some_0) && parse_ref(
                decode_utf8(lookup(t, p)->Some_0),
            ) is Direct && tgt == Some(parse_ref(decode_utf8(lookup(t, p)->Some_0))))
        }),
    decreases g,
{
    match lookup(t, m) {
        None => {},
        Some(bytes) => {
            if valid_utf8(bytes) {
                match parse_ref(decode_utf8(bytes)) {
                    TargetView::Symbolic(next) => {
                        lemma_resolve_end(t, next, (g - 1) as nat);
                    },
                    TargetView::Direct(_) => {},
                }
            }
        },
    }
}

/// Writing an id where following links ends makes following links end
/// there, at that id.
pub proof fn lemma_resolve_after_write(
    t: TableView,
    n: Seq<char>,
    f: nat,
    data: Seq<u8>,
    oid: Seq<char>,
)
    requires
        names_unique(t),
        resolve(t, n, true, f) is Found,
        valid_utf8(data),
        parse_ref(decode_utf8(data)) == TargetView::Direct(oid),
    ensures
        resolve(crate::table::store(t, resolve(t, n, true, f)->Found_0, data), n, true, f)
            == Resolution::Found(resolve(t, n, true, f)->Found_0, Some(TargetView::Direct(oid))),
    decreases f,
{
    let p = resolve(t, n, true, f)->Found_0;
    let after = crate::table::store(t, p, data);
    crate::table::lemma_store(t, p, data);
    match lookup(t, n) {
        None => {},
        Some(bytes) => {
            if valid_utf8(bytes) {
                match parse_ref(decode_utf8(bytes)) {
                    TargetView::Symbolic(next) => {
                        lemma_resolve_end(t, next, (f - 1) as nat);
                        assert(n != p);
                        assert(lookup(after, n) == lookup(t, n));
                        lemma_resolve_after_write(t, next, (f - 1) as nat, data, oid);
                    },
                    TargetView::Direct(_) => {},
                }
            }
        },
    }
}

/// Writing an object id to a reference and reading the reference back
/// the same way (following links or not) gives that id, when the id has
/// no whitespace at its ends and does not start with `ref: `.
pub proof fn law_get_after_update(t: TableView, name: Seq<char>, oid: Seq<char>, follow: Follow)
    requires
        names_unique(t),
        terminates(t, name, derefs(follow)),
        resolved(t, name, derefs(follow)) is Found,
        clean(oid),
        strip_prefix(oid, ref_prefix()) is None,
    ensures
        ({
            let p = resolved(t, name, derefs(follow))->Found_0;
            let after = crate::table::store(
                t,
                p,
                encode_utf8(format_ref(TargetView::Direct(oid))),
            );
            &&& terminates(after, name, derefs(follow))
            &&& get_ref_result(after, name, follow) == Ok::<Seq<char>, RefErrorView>(oid)
        }),
{
    let d = derefs(follow);
    let f = choose|fuel: nat| !(#[trigger] resolve(t, name, d, fuel) is Diverges);
    let p = resolved(t, name, d)->Found_0;
    let data = encode_utf8(oid);
    vstd::utf8::encode_utf8_valid_utf8(oid);
    vstd::utf8::encode_utf8_decode_utf8(oid);
    law_ref_text_roundtrip(TargetView::Direct(oid));
    assert(parse_ref(decode_utf8(data)) == TargetView::Direct(oid));
    let after = crate::table::store(t, p, data);
    crate::table::lemma_store(t, p, data);
    if d {
        lemma_resolve_after_write(t, name, f, data, oid);
        lemma_resolved(after, name, d, f);
    } else {
        assert(p == name);
        assert(resolve(after, name, d, 1) == Resolution::Found(
            name,
            Some(TargetView::Direct(oid)),
        ));
        lemma_resolved(after, name, d, 1);
    }
}


/// The link out of a reference file: the name it points to, when its text
/// is valid UTF-8 and symbolic.
pub open spec fn ref_link(t: TableView) -> spec_fn(Seq<char>) -> Option<Seq<char>> {
    |x: Seq<char>|
        match lookup(t, x) {
            Some(bytes) => if valid_utf8(bytes) {
                match parse_ref(decode_utf8(bytes)) {
                    TargetView::Symbolic(next) => Some(next),
                    TargetView::Direct(_) => None,
                }
            } else {
                None
            },
            None => None,
        }
}

/// Following links, resolution runs out of fuel exactly when the chain of
/// links makes as many steps as there is fuel.
pub proof fn lemma_resolve_steps(t: TableView, x: Seq<char>, f: nat)
    ensures
        (resolve(t, x, true, f) is Diverges) == crate::chain::steps(ref_link(t), x, f),
    decreases f,
{
    if f > 0 {
        match ref_link(t)(x) {
            Some(y) => {
                lemma_resolve_steps(t, y, (f - 1) as nat);
            },
            None => {},
        }
    }
}

/// Resolving a name that ends reads at most one file more than the table
/// holds.
pub proof fn lemma_resolve_bound(t: TableView, name: Seq<char>, deref: bool)
    requires
        terminates(t, name, deref),
    ensures
        !(resolve(t, name, deref, (t.len() + 1) as nat) is Diverges),
{
    let n = t.len() as nat;
    if deref && resolve(t, name, deref, n + 1) is Diverges {
        let f = choose|fuel: nat| !(#[trigger] resolve(t, name, deref, fuel) is Diverges);
        lemma_resolve_steps(t, name, n + 1);
        crate::table::lemma_names_bound(t);
        assert forall|z: Seq<char>| (#[trigger] ref_link(t)(z)) is Some implies crate::table::names(
            t,
        ).contains(z) by {
            assert(crate::table::has_name(t, z));
        }
        crate::chain::lemma_long_chain_endless(ref_link(t), name, crate::table::names(t), n, f);
        lemma_resolve_steps(t, name, f);
    }
}

/// Whether resolving `name` ends: its chain of links has no cycle.
fn resolution_ends(name: &str, follow: &Follow, refs: &RefStore) -> (r: bool)
    requires
        refs.wf(),
    ensures
        r == terminates(refs@, name@, derefs(*follow)),
{
    let r = match refs.raw(name) {
        None => true,
        Some(bytes) => match str_from_utf8(bytes.as_slice()) {
            None => true,
            Some(text) => match parse_ref_text(text) {
                RefTarget::Direct(_) => true,
                RefTarget::Symbolic(next) => match follow {
                    Follow::Never => true,
                    Follow::IfSymbolic => resolves_within(next.as_str(), follow, refs, refs.len()),
                },
            },
        },
    };
    proof {
        let t = refs@;
        let d = derefs(*follow);
        let n = t.len() as nat;
        assert(r == !(resolve(t, name@, d, n + 1) is Diverges));
        if r {
            assert(terminates(t, name@, d));
        } else if terminates(t, name@, d) {
            lemma_resolve_bound(t, name@, d);
        }
    }
    r
}

/// A reference made to point at another reference reads back, not
/// following links, as that reference's name, when the name has no white
/// space at its ends.
pub proof fn law_get_after_symbolic_update(t: TableView, name: Seq<char>, target: Seq<char>)
    requires
        names_unique(t),
        clean(target),
    ensures
        ({
            let after = crate::table::store(
                t,
                name,
                encode_utf8(format_ref(TargetView::Symbolic(target))),
            );
            &&& terminates(after, name, false)
            &&& get_ref_result(after, name, Follow::Never) == Ok::<Seq<char>, RefErrorView>(target)
        }),
{
    let text = format_ref(TargetView::Symbolic(target));
    let data = encode_utf8(text);
    vstd::utf8::encode_utf8_valid_utf8(text);
    vstd::utf8::encode_utf8_decode_utf8(text);
    law_ref_text_roundtrip(TargetView::Symbolic(target));
    let after = crate::table::store(t, name, data);
    crate::table::lemma_store(t, name, data);
    assert(resolve(after, name, false, 1) == Resolution::Found(
        name,
        Some(TargetView::Symbolic(target)),
    ));
    lemma_resolved(after, name, false, 1);
}

/// The directory of tags, `refs/tags/`.
pub open spec fn tags_prefix() -> Seq<char> {
    seq!['r', 'e', 'f', 's', '/', 't', 'a', 'g', 's', '/']
}

/// The directory of references, `refs/`.
pub open spec fn refs_prefix() -> Seq<char> {
    seq!['r', 'e', 'f', 's', '/']
}

/// The directory of branch heads, `refs/heads/`.
pub open spec fn heads_prefix() -> Seq<char> {
    seq!['r', 'e', 'f', 's', '/', 'h', 'e', 'a', 'd', 's', '/']
}

/// The file name of a tag: a reference directly inside `refs/tags/`.
pub open spec fn tag_file(name: Seq<char>) -> Option<Seq<char>> {
    match strip_prefix(name, tags_prefix()) {
        Some(rest) => if rest.len() > 0 && !rest.contains('/') {
            Some(rest)
        } else {
            None
        },
        None => None,
    }
}

/// The tags from entry `i` on, in table order, each with what it resolves
/// to; the first tag that fails to resolve gives the error. `None` when a
/// tag consulted has a cycle of links.
pub open spec fn tag_listing(t: TableView, i: int, follow: Follow) -> Option<
    Result<Seq<(Seq<char>, Seq<char>)>, RefErrorView>,
>
    decreases t.len() - i,
{
    if i < 0 || i >= t.len() {
        Some(Ok(seq![]))
    } else {
        match tag_file(t[i].0) {
            None => tag_listing(t, i + 1, follow),
            Some(file) => if !terminates(t, t[i].0, derefs(follow)) {
                None
            } else {
                match get_ref_result(t, t[i].0, follow) {
                    Err(e) => Some(Err(e)),
                    Ok(v) => match tag_listing(t, i + 1, follow) {
                        Some(Ok(rest)) => Some(Ok(seq![(file, v)] + rest)),
                        other => other,
                    },
                }
            },
        }
    }
}

/// A tag's file name gives back the reference it came from.
pub proof fn lemma_tag_file_name(x: Seq<char>)
    requires
        tag_file(x) is Some,
    ensures
        x == tags_prefix() + tag_file(x)->Some_0,
{
    assert(x =~= x.take(10) + x.skip(10));
}

/// What the tag listing from entry `i` on gives: each file name is that
/// of a tag at entry `i` or later, and no file name is listed twice.
pub proof fn lemma_tag_listing_names(t: TableView, i: int, follow: Follow)
    requires
        names_unique(t),
        0 <= i,
    ensures
        tag_listing(t, i, follow) matches Some(Ok(l)) ==> {
            &&& forall|a: int|
                0 <= a < l.len() ==> exists|k: int|
                    i <= k < t.len() && tag_file(t[k].0) == Some(#[trigger] l[a].0)
            &&& forall|a: int, b: int| 0 <= a < b < l.len() ==> l[a].0 != l[b].0
            &&& forall|k: int|
                i <= k < t.len() && (#[trigger] tag_file(t[k].0)) is Some ==> exists|a: int|
                    0 <= a < l.len() && l[a] == (
                        tag_file(t[k].0)->Some_0,
                        get_ref_result(t, t[k].0, follow)->Ok_0,
                    )
        },
    decreases t.len() - i,
{
    if i < t.len() {
        lemma_tag_listing_names(t, i + 1, follow);
        match tag_listing(t, i, follow) {
            Some(Ok(l)) => {
                match tag_file(t[i].0) {
                    None => {
                        assert forall|a: int| 0 <= a < l.len() implies exists|k: int|
                            i <= k < t.len() && tag_file(t[k].0) == Some(#[trigger] l[a].0) by {
                            let k = choose|k: int| i + 1 <= k < t.len() && tag_file(t[k].0) == Some(l[a].0);
                        }
                        assert forall|k: int|
                            i <= k < t.len() && (#[trigger] tag_file(t[k].0)) is Some implies exists|a: int|
                                0 <= a < l.len() && l[a] == (
                                    tag_file(t[k].0)->Some_0,
                                    get_ref_result(t, t[k].0, follow)->Ok_0,
                                ) by {
                            assert(k != i);
                        }
                    },
                    Some(file) => {
                        let v = get_ref_result(t, t[i].0, follow)->Ok_0;
                        let rest = tag_listing(t, i + 1, follow)->Some_0->Ok_0;
                        assert(l == seq![(file, v)] + rest);
                        assert forall|a: int| 0 <= a < l.len() implies exists|k: int|
                            i <= k < t.len() && tag_file(t[k].0) == Some(#[trigger] l[a].0) by {
                            if a == 0 {
                                assert(tag_file(t[i].0) == Some(l[0].0));
                            } else {
                                assert(l[a] == rest[a - 1]);
                                let k = choose|k: int|
                                    i + 1 <= k < t.len() && tag_file(t[k].0) == Some(rest[a - 1].0);
                            }
                        }
                        assert forall|k: int|
                            i <= k < t.len() && (#[trigger] tag_file(t[k].0)) is Some implies exists|a: int|
                                0 <= a < l.len() && l[a] == (
                                    tag_file(t[k].0)->Some_0,
                                    get_ref_result(t, t[k].0, follow)->Ok_0,
                                ) by {
                            if k == i {
                                assert(l[0] == (file, v));
                            } else {
                                let a = choose|a: int|
                                    0 <= a < rest.len() && rest[a] == (
                                        tag_file(t[k].0)->Some_0,
                                        get_ref_result(t, t[k].0, follow)->Ok_0,
                                    );
                                assert(l[a + 1] == rest[a]);
                            }
                        }
                        assert forall|a: int, b: int| 0 <= a < b < l.len() implies l[a].0 != l[b].0 by {
                            assert(l[b] == rest[b - 1]);
                            if a > 0 {
                                assert(l[a] == rest[a - 1]);
                            } else if l[a].0 == l[b].0 {
                                let k = choose|k: int|
                                    i + 1 <= k < t.len() && tag_file(t[k].0) == Some(rest[b - 1].0);
                                lemma_tag_file_name(t[k].0);
                                lemma_tag_file_name(t[i].0);
                                assert(t[k].0 == t[i].0);
                            }
                        }
                    },
                }
            },
            _ => {},
        }
    }
}

/// Listing the tags names each tag once, with what it resolves to, and
/// names nothing else.
pub proof fn law_tag_listing(t: TableView, follow: Follow)
    requires
        names_unique(t),
    ensures
        tag_listing(t, 0, follow) matches Some(Ok(l)) ==> {
            &&& forall|a: int, b: int| 0 <= a < b < l.len() ==> l[a].0 != l[b].0
            &&& forall|a: int|
                0 <= a < l.len() ==> exists|k: int|
                    0 <= k < t.len() && tag_file(t[k].0) == Some(#[trigger] l[a].0)
            &&& forall|k: int|
                0 <= k < t.len() && (#[trigger] tag_file(t[k].0)) is Some ==> exists|a: int|
                    0 <= a < l.len() && l[a] == (
                        tag_file(t[k].0)->Some_0,
                        get_ref_result(t, t[k].0, follow)->Ok_0,
                    )
        },
{
    lemma_tag_listing_names(t, 0, follow);
}

/// Every reference directly inside `refs/tags/` (a non-empty name without
/// `/` after the prefix, whatever other characters it holds) is listed as
/// that name with what it resolves to.
pub proof fn law_every_tag_listed(t: TableView, follow: Follow)
    requires
        names_unique(t),
    ensures
        tag_listing(t, 0, follow) matches Some(Ok(l)) ==> forall|k: int|
            0 <= k < t.len() && (#[trigger] t[k]).0.len() > tags_prefix().len()
                && t[k].0.take(tags_prefix().len() as int) == tags_prefix() && !t[k].0.skip(
                tags_prefix().len() as int,
            ).contains('/') ==> exists|a: int|
                0 <= a < l.len() && l[a] == (
                    t[k].0.skip(tags_prefix().len() as int),
                    get_ref_result(t, t[k].0, follow)->Ok_0,
                ),
{
    lemma_tag_listing_names(t, 0, follow);
    match tag_listing(t, 0, follow) {
        Some(Ok(l)) => {
            assert forall|k: int|
                0 <= k < t.len() && (#[trigger] t[k]).0.len() > tags_prefix().len()
                    && t[k].0.take(tags_prefix().len() as int) == tags_prefix() && !t[k].0.skip(
                    tags_prefix().len() as int,
                ).contains('/') implies exists|a: int|
                    0 <= a < l.len() && l[a] == (
                        t[k].0.skip(tags_prefix().len() as int),
                        get_ref_result(t, t[k].0, follow)->Ok_0,
                    ) by {
                assert(tag_file(t[k].0) == Some(t[k].0.skip(tags_prefix().len() as int)));
            }
        },
        _ => {},
    }
}

/// A tag written under `refs/tags/<name>` is found by `get_oid` from its
/// bare name, when no reference `<name>` or `refs/<name>` exists and the
/// id is a single word.
pub proof fn law_get_oid_finds_tag(t: TableView, name: Seq<char>, oid: Seq<char>)
    requires
        names_unique(t),
        lookup(t, name) is None,
        lookup(t, refs_prefix() + name) is None,
        lookup(t, tags_prefix() + name) is None,
        clean(oid),
        strip_prefix(oid, ref_prefix()) is None,
    ensures
        ({
            let after = crate::table::store(
                t,
                tags_prefix() + name,
                encode_utf8(format_ref(TargetView::Direct(oid))),
            );
            first_oid(after, oid_candidates(name), 0) == Some(Some(oid))
        }),
{
    let tag = tags_prefix() + name;
    let c = oid_candidates(name);
    let after = crate::table::store(t, tag, encode_utf8(format_ref(TargetView::Direct(oid))));
    assert(resolve(t, tag, true, 1) == Resolution::Found(tag, None));
    lemma_resolved(t, tag, true, 1);
    law_get_after_update(t, tag, oid, Follow::IfSymbolic);
    crate::table::lemma_store(t, tag, encode_utf8(format_ref(TargetView::Direct(oid))));
    assert(c[0] != tag) by {
        assert(c[0].len() != tag.len());
    }
    assert(c[1] != tag) by {
        assert(c[1].len() != tag.len());
    }
    assert(lookup(after, c[0]) is None);
    assert(lookup(after, c[1]) is None);
    assert(resolve(after, c[0], true, 1) == Resolution::Found(c[0], None));
    lemma_resolved(after, c[0], true, 1);
    assert(resolve(after, c[1], true, 1) == Resolution::Found(c[1], None));
    lemma_resolved(after, c[1], true, 1);
    assert(c[2] == tag);
    assert(first_oid(after, c, 2) == Some(Some(oid)));
    assert(first_oid(after, c, 1) == first_oid(after, c, 2));
}

/// `listed` followed by a later listing.
pub open spec fn after_listed(
    listed: Seq<(Seq<char>, Seq<char>)>,
    later: Option<Result<Seq<(Seq<char>, Seq<char>)>, RefErrorView>>,
) -> Option<Result<Seq<(Seq<char>, Seq<char>)>, RefErrorView>> {
    match later {
        Some(Ok(rest)) => Some(Ok(listed + rest)),
        other => other,
    }
}

/// The views of a vector of string pairs.
pub open spec fn pair_views(v: Seq<(String, String)>) -> Seq<(Seq<char>, Seq<char>)> {
    Seq::new(v.len(), |i: int| (v[i].0@, v[i].1@))
}

/// The characters of a fixed ASCII directory prefix.
pub(crate) fn tags_prefix_chars() -> (r: Vec<char>)
    ensures
        r@ == tags_prefix(),
{
    let r = vec!['r', 'e', 'f', 's', '/', 't', 'a', 'g', 's', '/'];
    assert(r@ =~= tags_prefix());
    r
}

/// The file name of a tag, if `name` is one.
fn exec_tag_file(name: &str) -> (r: Option<String>)
    ensures
        r matches Some(f) ==> tag_file(name@) == Some(f@),
        r is None ==> tag_file(name@) is None,
{
    let chars = chars_of(name);
    let prefix = tags_prefix_chars();
    match strip_prefix_chars(chars.as_slice(), prefix.as_slice()) {
        None => None,
        Some(rest) => {
            if rest.len() == 0 {
                return None;
            }
            let mut k: usize = 0;
            while k < rest.len()
                invariant
                    k <= rest@.len(),
                    rest@.len() > 0,
                    strip_prefix(name@, tags_prefix()) == Some(rest@),
                    forall|j: int| 0 <= j < k ==> rest@[j] != '/',
                decreases rest@.len() - k,
            {
                if rest[k] == '/' {
                    assert(rest@[k as int] == '/');
                    assert(rest@.contains('/'));
                    return None;
                }
                k = k + 1;
            }
            assert(!rest@.contains('/'));
            Some(string_from(rest.as_slice()))
        },
    }
}

/// The tags (references directly inside `refs/tags/`), each with its file
/// name and what it resolves to.
pub fn iter_refs(follow: Follow, refs: &RefStore) -> (r: Result<Vec<(String, String)>, RefError>)
    requires
        refs.wf(),
        tag_listing(refs@, 0, follow) is Some,
    ensures
        r is Ok ==> tag_listing(refs@, 0, follow) == Some(
            Ok::<Seq<(Seq<char>, Seq<char>)>, RefErrorView>(pair_views(r->Ok_0@)),
        ),
        r is Err ==> tag_listing(refs@, 0, follow) == Some(
            Err::<Seq<(Seq<char>, Seq<char>)>, RefErrorView>(r->Err_0@),
        ),
{
    let mut entries: Vec<(String, String)> = Vec::new();
    let mut i: usize = 0;
    while i < refs.len()
        invariant
            refs.wf(),
            i <= refs@.len(),
            tag_listing(refs@, 0, follow) == after_listed(
                pair_views(entries@),
                tag_listing(refs@, i as int, follow),
            ),
            tag_listing(refs@, 0, follow) is Some,
        decreases refs@.len() - i,
    {
        let name = refs.name_at(i);
        match exec_tag_file(name.as_str()) {
            None => {},
            Some(file) => {
                match get_ref(name.as_str(), &follow, refs) {
                    Err(e) => {
                        return Err(e);
                    },
                    Ok(v) => {
                        let ghost before = pair_views(entries@);
                        entries.push((file, v));
                        assert(pair_views(entries@) =~= before.push((file@, v@)));
                        proof {
                            match tag_listing(refs@, i + 1, follow) {
                                Some(Ok(rest)) => {
                                    assert(before + (seq![(file@, v@)] + rest) =~= before.push(
                                        (file@, v@),
                                    ) + rest);
                                },
                                _ => {},
                            }
                        }
                    },
                }
            },
        }
        i = i + 1;
    }
    assert(pair_views(entries@) + seq![] =~= pair_views(entries@));
    Ok(entries)
}

/// The names tried, in order, when resolving a name given by a user.
pub open spec fn oid_candidates(name: Seq<char>) -> Seq<Seq<char>> {
    seq![name, refs_prefix() + name, tags_prefix() + name, heads_prefix() + name]
}

/// What the first candidate from `i` on that resolves gives, following
/// links; `Some(None)` when none does, `None` when a candidate consulted has
/// a cycle of links.
pub open spec fn first_oid(t: TableView, c: Seq<Seq<char>>, i: int) -> Option<Option<Seq<char>>>
    decreases c.len() - i,
{
    if i < 0 || i >= c.len() {
        Some(None)
    } else if !terminates(t, c[i], true) {
        None
    } else {
        match get_ref_result(t, c[i], Follow::IfSymbolic) {
            Ok(v) => Some(Some(v)),
            Err(_) => first_oid(t, c, i + 1),
        }
    }
}

/// `prefix` followed by `name`, as a string.
pub(crate) fn prefixed(prefix: &[char], name: &[char]) -> (r: String)
    ensures
        r@ == prefix@ + name@,
{
    let mut v: Vec<char> = Vec::new();
    let mut k: usize = 0;
    while k < prefix.len()
        invariant
            k <= prefix@.len(),
            v@ == prefix@.take(k as int),
        decreases prefix@.len() - k,
    {
        v.push(prefix[k]);
        proof {
            assert(prefix@.take(k as int).push(prefix@[k as int]) =~= prefix@.take(k + 1));
        }
        k = k + 1;
    }
    let mut j: usize = 0;
    while j < name.len()
        invariant
            j <= name@.len(),
            v@ == prefix@ + name@.take(j as int),
        decreases name@.len() - j,
    {
        v.push(name[j]);
        proof {
            assert(name@.take(j as int).push(name@[j as int]) =~= name@.take(j + 1));
        }
        j = j + 1;
    }
    assert(prefix@.take(prefix@.len() as int) =~= prefix@);
    assert(name@.take(name@.len() as int) =~= name@);
    string_from(v.as_slice())
}

/// Resolves a name to an object id: the name itself, then `refs/<name>`,
/// `refs/tags/<name>` and `refs/heads/<name>` are tried as references
/// (following links), and the first that resolves gives the id; when none
/// does, the name is taken to be an id itself.
pub fn get_oid(name: &str, refs: &RefStore) -> (r: String)
    requires
        refs.wf(),
        first_oid(refs@, oid_candidates(name@), 0) is Some,
    ensures
        r@ == match first_oid(refs@, oid_candidates(name@), 0)->Some_0 {
            Some(v) => v,
            None => name@,
        },
{
    let chars = chars_of(name);
    let mut candidates: Vec<String> = Vec::new();
    candidates.push(string_from(chars.as_slice()));
    let refs_dir = vec!['r', 'e', 'f', 's', '/'];
    candidates.push(prefixed(refs_dir.as_slice(), chars.as_slice()));
    let tags_dir = tags_prefix_chars();
    candidates.push(prefixed(tags_dir.as_slice(), chars.as_slice()));
    let heads_dir = vec!['r', 'e', 'f', 's', '/', 'h', 'e', 'a', 'd', 's', '/'];
    candidates.push(prefixed(heads_dir.as_slice(), chars.as_slice()));
    let ghost c = oid_candidates(name@);
    assert(refs_dir@ =~= refs_prefix());
    assert(heads_dir@ =~= heads_prefix());
    assert(candidates@.len() == 4);
    assert(forall|k: int| 0 <= k < 4 ==> #[trigger] candidates@[k]@ == c[k]);
    let mut i: usize = 0;
    while i < candidates.len()
        invariant
            refs.wf(),
            i <= candidates@.len() == c.len() == 4,
            c == oid_candidates(name@),
            forall|k: int| 0 <= k < 4 ==> #[trigger] candidates@[k]@ == c[k],
            first_oid(refs@, c, 0) == first_oid(refs@, c, i as int),
            first_oid(refs@, c, 0) is Some,
        decreases candidates@.len() - i,
    {
        let cand = &candidates[i];
        assert(cand@ == c[i as int]);
        match get_ref(cand.as_str(), &Follow::IfSymbolic, refs) {
            Ok(id) => {
                assert(terminates(refs@, c[i as int], true));
                assert(get_ref_result(refs@, c[i as int], Follow::IfSymbolic) == Ok::<
                    Seq<char>,
                    RefErrorView,
                >(id@));
                assert(first_oid(refs@, c, i as int) == Some(Some(id@)));
                return id;
            },
            Err(_) => {},
        }
        i = i + 1;
    }
    string_from(chars.as_slice())
}


/// Whether resolving `name` as a user-given name ends: the candidates are
/// tried in order, as `get_oid` tries them, until one resolves, and none
/// tried has a cycle of links. When it does, `get_oid` may be called.
pub fn oid_lookup_ends(name: &str, refs: &RefStore) -> (r: bool)
    requires
        refs.wf(),
    ensures
        r == (first_oid(refs@, oid_candidates(name@), 0) is Some),
{
    let chars = chars_of(name);
    let mut candidates: Vec<String> = Vec::new();
    candidates.push(string_from(chars.as_slice()));
    let refs_dir = vec!['r', 'e', 'f', 's', '/'];
    candidates.push(prefixed(refs_dir.as_slice(), chars.as_slice()));
    let tags_dir = tags_prefix_chars();
    candidates.push(prefixed(tags_dir.as_slice(), chars.as_slice()));
    let heads_dir = vec!['r', 'e', 'f', 's', '/', 'h', 'e', 'a', 'd', 's', '/'];
    candidates.push(prefixed(heads_dir.as_slice(), chars.as_slice()));
    let ghost c = oid_candidates(name@);
    assert(refs_dir@ =~= refs_prefix());
    assert(heads_dir@ =~= heads_prefix());
    assert(forall|k: int| 0 <= k < 4 ==> #[trigger] candidates@[k]@ == c[k]);
    let mut i: usize = 0;
    while i < candidates.len()
        invariant
            refs.wf(),
            i <= candidates@.len() == c.len() == 4,
            c == oid_candidates(name@),
            forall|k: int| 0 <= k < 4 ==> #[trigger] candidates@[k]@ == c[k],
            first_oid(refs@, c, 0) == first_oid(refs@, c, i as int),
        decreases candidates@.len() - i,
    {
        let cand = &candidates[i];
        assert(cand@ == c[i as int]);
        if !resolution_ends(cand.as_str(), &Follow::IfSymbolic, refs) {
            return false;
        }
        if get_ref(cand.as_str(), &Follow::IfSymbolic, refs).is_ok() {
            return true;
        }
        i = i + 1;
    }
    true
}

/// Whether listing the tags ends: the tags are read in table order, as
/// `iter_refs` reads them, until one fails to resolve, and none read has a
/// cycle of links. When it does, `iter_refs` may be called.
pub fn tags_resolve(follow: Follow, refs: &RefStore) -> (r: bool)
    requires
        refs.wf(),
    ensures
        r == (tag_listing(refs@, 0, follow) is Some),
{
    let mut i: usize = 0;
    while i < refs.len()
        invariant
            refs.wf(),
            i <= refs@.len(),
            (tag_listing(refs@, 0, follow) is Some) == (tag_listing(refs@, i as int, follow) is Some),
        decreases refs@.len() - i,
    {
        let name = refs.name_at(i);
        match exec_tag_file(name.as_str()) {
            None => {},
            Some(_) => {
                if !resolution_ends(name.as_str(), &follow, refs) {
                    return false;
                }
                if get_ref(name.as_str(), &follow, refs).is_err() {
                    return true;
                }
            },
        }
        i = i + 1;
    }
    true
}

} // verus!
