//! Objects: a typed header, a NUL byte and the content, stored under the
//! hexadecimal SHA-1 of the whole.

use vstd::prelude::*;
use vstd::utf8::*;
use sha1::Digest;
use crate::table::Table;
use crate::table::TableView;
use crate::table::lookup;
use crate::table::names_unique;

verus! {

/// Names the SHA-1 digest of `data` as the `sha1` crate computes it.
pub uninterp spec fn sha1_digest(data: Seq<u8>) -> Seq<u8>;

/// Calls the `sha1` crate's `Sha1` hasher (`new`, `update`, `finalize`) on
/// `data`. The contract claims that the result is the digest named
/// `sha1_digest` of `data` and has 20 bytes (the crate's output size is
/// `U20`); nothing is claimed of the digest's bits.
#[verifier::external_body]
fn sha1_of(data: &[u8]) -> (r: Vec<u8>)
    ensures
        r@ == sha1_digest(data@),
        r@.len() == 20,
{
    let mut hasher = sha1::Sha1::new();
    hasher.update(data);
    hasher.finalize().to_vec()
}

/// The lower-case hexadecimal digit for `n` (below 16).
pub open spec fn hex_digit(n: u8) -> char {
    if n < 10 {
        (48 + n) as char
    } else {
        (87 + n) as char
    }
}

/// Each byte as two lower-case hexadecimal digits, high nibble first.
pub open spec fn hex_lower(data: Seq<u8>) -> Seq<char>
    decreases data.len(),
{
    if data.len() == 0 {
        seq![]
    } else {
        seq![hex_digit(data[0] / 16), hex_digit(data[0] % 16)] + hex_lower(data.drop_first())
    }
}

/// A lower-case hexadecimal digit.
pub open spec fn is_hex_char(c: char) -> bool {
    ('0' <= c && c <= '9') || ('a' <= c && c <= 'f')
}

/// The hexadecimal form has two digits per byte, each a lower-case hexadecimal digit.
pub proof fn lemma_hex_lower(data: Seq<u8>)
    ensures
        hex_lower(data).len() == 2 * data.len(),
        forall|i: int| 0 <= i < hex_lower(data).len() ==> is_hex_char(#[trigger] hex_lower(data)[i]),
    decreases data.len(),
{
    if data.len() > 0 {
        lemma_hex_lower(data.drop_first());
        let hi = data[0] / 16;
        let lo = data[0] % 16;
        assert(is_hex_char(hex_digit(hi)) && is_hex_char(hex_digit(lo))) by {
            vstd::utf8::char_u32_cast(hex_digit(hi), (if hi < 10 { 48 + hi } else { 87 + hi }) as u32);
        }
        let h = hex_lower(data);
        let t = hex_lower(data.drop_first());
        assert forall|i: int| 0 <= i < h.len() implies is_hex_char(#[trigger] h[i]) by {
            if i >= 2 {
                assert(h[i] == t[i - 2]);
            }
        }
    }
}

/// The hexadecimal form of non-empty bytes is a single word.
pub proof fn lemma_hex_word(data: Seq<u8>)
    requires
        data.len() > 0,
    ensures
        crate::text::is_word(hex_lower(data)),
{
    lemma_hex_lower(data);
    let h = hex_lower(data);
    assert forall|i: int| 0 <= i < h.len() implies !crate::text::is_ws(#[trigger] h[i]) by {
        assert(is_hex_char(h[i]));
    }
}

/// Calls `hex::encode`, which the `hex` crate writes as two characters of
/// `0123456789abcdef` per byte, high nibble first; the contract states that.
#[verifier::external_body]
fn hex_encode(data: &[u8]) -> (r: String)
    ensures
        r@ == hex_lower(data@),
{
    hex::encode(data)
}

/// Calls `std::str::from_utf8`, which succeeds exactly on valid UTF-8 and
/// then gives the string that the bytes encode.
#[verifier::external_body]
pub(crate) fn str_from_utf8(bytes: &[u8]) -> (r: Option<&str>)
    ensures
        r is Some <==> valid_utf8(bytes@),
        r matches Some(s) ==> s@ == decode_utf8(bytes@),
{
    std::str::from_utf8(bytes).ok()
}

/// The kind of an object.
#[derive(Clone, Copy, Debug, PartialEq, Eq, Structural)]
pub enum ObjectType {
    Blob,
    Tree,
    Commit,
}

/// The name of an object type as it is written in headers and trees.
pub open spec fn kind_name(t: ObjectType) -> Seq<char> {
    match t {
        ObjectType::Blob => seq!['b', 'l', 'o', 'b'],
        ObjectType::Tree => seq!['t', 'r', 'e', 'e'],
        ObjectType::Commit => seq!['c', 'o', 'm', 'm', 'i', 't'],
    }
}

/// The bytes of a type name (ASCII).
pub open spec fn type_bytes(t: ObjectType) -> Seq<u8> {
    match t {
        ObjectType::Blob => seq![98u8, 108u8, 111u8, 98u8],
        ObjectType::Tree => seq![116u8, 114u8, 101u8, 101u8],
        ObjectType::Commit => seq![99u8, 111u8, 109u8, 109u8, 105u8, 116u8],
    }
}

impl ObjectType {
    /// The type's name as bytes.
    pub fn _as_bytes(&self) -> (r: &'static [u8])
        ensures
            r@ == type_bytes(*self),
    {
        match self {
            ObjectType::Blob => {
                let s = "blob";
                proof {
                    reveal_strlit("blob");
                    vstd::string::is_ascii_spec_bytes(s);
                }
                let b = s.as_bytes();
                assert(b@ =~= type_bytes(*self));
                b
            },
            ObjectType::Tree => {
                let s = "tree";
                proof {
                    reveal_strlit("tree");
                    vstd::string::is_ascii_spec_bytes(s);
                }
                let b = s.as_bytes();
                assert(b@ =~= type_bytes(*self));
                b
            },
            ObjectType::Commit => {
                let s = "commit";
                proof {
                    reveal_strlit("commit");
                    vstd::string::is_ascii_spec_bytes(s);
                }
                let b = s.as_bytes();
                assert(b@ =~= type_bytes(*self));
                b
            },
        }
    }

    /// The type's name.
    pub fn as_str(&self) -> (r: &'static str)
        ensures
            r@ == kind_name(*self),
    {
        match self {
            ObjectType::Blob => {
                proof {
                    reveal_strlit("blob");
                }
                "blob"
            },
            ObjectType::Tree => {
                proof {
                    reveal_strlit("tree");
                }
                "tree"
            },
            ObjectType::Commit => {
                proof {
                    reveal_strlit("commit");
                }
                "commit"
            },
        }
    }
}


/// An object as stored: the type's name, a NUL byte, then the content.
pub open spec fn object_bytes(t: ObjectType, content: Seq<u8>) -> Seq<u8> {
    type_bytes(t) + seq![0u8] + content
}

/// The id under which an object is stored: the hexadecimal SHA-1 of its
/// stored bytes.
pub open spec fn object_id(t: ObjectType, content: Seq<u8>) -> Seq<char> {
    hex_lower(sha1_digest(object_bytes(t, content)))
}

/// Index of the first NUL byte at or after `i`, or the length.
pub open spec fn next_nul(obj: Seq<u8>, i: int) -> int
    decreases obj.len() - i,
{
    if 0 <= i < obj.len() && obj[i] != 0 {
        next_nul(obj, i + 1)
    } else {
        i
    }
}

/// `next_nul` stays within the bytes and stops only at a NUL or the end.
pub proof fn lemma_next_nul_bounds(obj: Seq<u8>, i: int)
    requires
        0 <= i <= obj.len(),
    ensures
        i <= next_nul(obj, i) <= obj.len(),
        forall|k: int| i <= k < next_nul(obj, i) ==> obj[k] != 0,
        next_nul(obj, i) < obj.len() ==> obj[next_nul(obj, i)] == 0,
    decreases obj.len() - i,
{
    if i < obj.len() && obj[i] != 0 {
        lemma_next_nul_bounds(obj, i + 1);
    }
}

/// What reading stored bytes as an object of an expected type gives.
pub enum ObjectRead {
    /// The header names the expected type; the content follows the NUL.
    Content(Seq<u8>),
    /// There is no NUL byte.
    NoNul,
    /// The header is not valid UTF-8.
    BadHeader,
    /// The header is text naming another type.
    WrongType,
}

/// Reading stored bytes `obj` as an object of type `expected`.
pub open spec fn read_object(obj: Seq<u8>, expected: ObjectType) -> ObjectRead {
    let p = next_nul(obj, 0);
    if p >= obj.len() {
        ObjectRead::NoNul
    } else if obj.take(p) == type_bytes(expected) {
        ObjectRead::Content(obj.skip(p + 1))
    } else if !valid_utf8(obj.take(p)) {
        ObjectRead::BadHeader
    } else {
        ObjectRead::WrongType
    }
}

/// Why an object could not be read.
#[derive(Clone, Copy, Debug, PartialEq, Eq, Structural)]
pub enum ObjectError {
    /// No object is stored under the id.
    NotFound,
    /// The stored bytes hold no NUL byte ending the header.
    MissingNul,
    /// The header is not valid UTF-8.
    InvalidHeader,
    /// The header names another type than the one expected.
    WrongType,
}

/// The bytes `s[i..j]` copied into a new vector.
pub fn copy_bytes(s: &[u8], i: usize, j: usize) -> (r: Vec<u8>)
    requires
        i <= j <= s@.len(),
    ensures
        r@ == s@.subrange(i as int, j as int),
{
    let mut v: Vec<u8> = Vec::new();
    let mut k: usize = i;
    while k < j
        invariant
            i <= k <= j <= s@.len(),
            v@ == s@.subrange(i as int, k as int),
        decreases j - k,
    {
        v.push(s[k]);
        proof {
            assert(s@.subrange(i as int, k as int).push(s@[k as int]) =~= s@.subrange(
                i as int,
                k + 1,
            ));
        }
        k = k + 1;
    }
    v
}

/// Appends `src` to `dst`.
pub fn append_bytes(dst: &mut Vec<u8>, src: &[u8])
    ensures
        final(dst)@ == old(dst)@ + src@,
{
    let mut k: usize = 0;
    while k < src.len()
        invariant
            k <= src@.len(),
            dst@ == old(dst)@ + src@.take(k as int),
        decreases src@.len() - k,
    {
        dst.push(src[k]);
        proof {
            assert(src@.take(k as int).push(src@[k as int]) =~= src@.take(k + 1));
        }
        k = k + 1;
    }
    assert(src@.take(src@.len() as int) =~= src@);
}

/// The stored form of an object: type name, NUL, content.
pub fn encode_object(content: &[u8], type_: ObjectType) -> (r: Vec<u8>)
    ensures
        r@ == object_bytes(type_, content@),
{
    let mut obj: Vec<u8> = Vec::new();
    append_bytes(&mut obj, type_._as_bytes());
    obj.push(0u8);
    append_bytes(&mut obj, content);
    assert(obj@ =~= object_bytes(type_, content@));
    obj
}

/// Whether reading `obj` as an object of type `expected` would find a text
/// header naming another type.
pub fn header_names_other_type(obj: &[u8], expected: ObjectType) -> (r: bool)
    ensures
        r == (read_object(obj@, expected) is WrongType),
{
    match decode_parts(obj, expected) {
        Err(_) => false,
        Ok((p, same)) => {
            if same {
                false
            } else {
                let header = copy_bytes(obj, 0, p);
                str_from_utf8(header.as_slice()).is_some()
            }
        },
    }
}

/// Finds the NUL ending the header and whether the header names `expected`.
fn decode_parts(obj: &[u8], expected: ObjectType) -> (r: Result<(usize, bool), ObjectError>)
    ensures
        r is Ok ==> {
            &&& r->Ok_0.0 == next_nul(obj@, 0)
            &&& r->Ok_0.0 < obj@.len()
            &&& r->Ok_0.1 == (obj@.take(r->Ok_0.0 as int) == type_bytes(expected))
        },
        r matches Err(e) ==> e == ObjectError::MissingNul && next_nul(obj@, 0) >= obj@.len(),
{
    let mut p: usize = 0;
    while p < obj.len() && obj[p] != 0
        invariant
            p <= obj@.len(),
            next_nul(obj@, p as int) == next_nul(obj@, 0),
        decreases obj@.len() - p,
    {
        p = p + 1;
    }
    if p >= obj.len() {
        return Err(ObjectError::MissingNul);
    }
    let name = expected._as_bytes();
    if name.len() != p {
        assert(obj@.take(p as int).len() != type_bytes(expected).len());
        return Ok((p, false));
    }
    let mut k: usize = 0;
    while k < p
        invariant
            k <= p < obj@.len(),
            p == next_nul(obj@, 0),
            name@ == type_bytes(expected),
            name@.len() == p,
            forall|j: int| 0 <= j < k ==> obj@[j] == name@[j],
        decreases p - k,
    {
        if obj[k] != name[k] {
            assert(obj@.take(p as int)[k as int] == obj@[k as int]);
            assert(obj@.take(p as int)[k as int] != type_bytes(expected)[k as int]);
            return Ok((p, false));
        }
        k = k + 1;
    }
    assert(obj@.take(p as int) =~= type_bytes(expected));
    Ok((p, true))
}

/// The content of stored bytes read as an object of type `expected`; a
/// header naming another type is an error.
pub fn decode_object(obj: &[u8], expected: ObjectType) -> (r: Result<Vec<u8>, ObjectError>)
    ensures
        r matches Ok(c) ==> read_object(obj@, expected) == ObjectRead::Content(c@),
        r == Err::<Vec<u8>, ObjectError>(ObjectError::MissingNul) <==> read_object(obj@, expected) is NoNul,
        r == Err::<Vec<u8>, ObjectError>(ObjectError::InvalidHeader) <==> read_object(obj@, expected) is BadHeader,
        r == Err::<Vec<u8>, ObjectError>(ObjectError::WrongType) <==> read_object(obj@, expected) is WrongType,
        !(r == Err::<Vec<u8>, ObjectError>(ObjectError::NotFound)),
{
    match decode_parts(obj, expected) {
        Err(e) => Err(e),
        Ok((p, same)) => {
            let n = obj.len();
            assert(p < n);
            if same {
                Ok(copy_bytes(obj, p + 1, n))
            } else {
                let header = copy_bytes(obj, 0, p);
                if str_from_utf8(header.as_slice()).is_some() {
                    Err(ObjectError::WrongType)
                } else {
                    Err(ObjectError::InvalidHeader)
                }
            }
        },
    }
}


/// The result of reading stored bytes as an object of type `expected`.
pub open spec fn read_result(obj: Seq<u8>, expected: ObjectType) -> Result<Seq<u8>, ObjectError> {
    match read_object(obj, expected) {
        ObjectRead::Content(c) => Ok(c),
        ObjectRead::NoNul => Err(ObjectError::MissingNul),
        ObjectRead::BadHeader => Err(ObjectError::InvalidHeader),
        ObjectRead::WrongType => Err(ObjectError::WrongType),
    }
}

/// The result of reading the object stored under `oid` as type `expected`.
pub open spec fn fetch(t: TableView, oid: Seq<char>, expected: ObjectType) -> Result<Seq<u8>, ObjectError> {
    match lookup(t, oid) {
        None => Err(ObjectError::NotFound),
        Some(obj) => read_result(obj, expected),
    }
}

/// The content of stored bytes read as an object of type `expected`.
pub fn read_stored(obj: &[u8], expected: ObjectType) -> (r: Result<Vec<u8>, ObjectError>)
    ensures
        r is Ok ==> read_result(obj@, expected) == Ok::<Seq<u8>, ObjectError>(r->Ok_0@),
        r is Err ==> read_result(obj@, expected) == Err::<Seq<u8>, ObjectError>(r->Err_0),
{
    match decode_object(obj, expected) {
        Ok(c) => Ok(c),
        Err(e) => Err(e),
    }
}

/// The object database: object ids mapped to stored object bytes.
pub struct ObjectStore {
    table: Table,
}

impl View for ObjectStore {
    type V = TableView;

    closed spec fn view(&self) -> TableView {
        self.table@
    }
}

impl ObjectStore {
    /// The store's invariant: each id occurs once.
    pub open spec fn wf(&self) -> bool {
        names_unique(self@)
    }

    /// An empty store.
    pub fn new() -> (r: ObjectStore)
        ensures
            r@ == Seq::<(Seq<char>, Seq<u8>)>::empty(),
            r.wf(),
    {
        ObjectStore { table: Table::new() }
    }

    /// Whether an object is stored under `oid`.
    pub fn contains(&self, oid: &str) -> (r: bool)
        requires
            self.wf(),
        ensures
            r == (lookup(self@, oid@) is Some),
    {
        self.table.get(oid).is_some()
    }

    /// The stored bytes under `oid`, if any.
    pub fn raw(&self, oid: &str) -> (r: Option<&Vec<u8>>)
        requires
            self.wf(),
        ensures
            r matches Some(v) ==> lookup(self@, oid@) == Some(v@),
            r is None ==> lookup(self@, oid@) is None,
    {
        self.table.get(oid)
    }

    /// Stores `data` under `oid`, as it was found on disk.
    pub fn insert_raw(&mut self, oid: String, data: Vec<u8>)
        requires
            old(self).wf(),
        ensures
            final(self)@ == crate::table::store(old(self)@, oid@, data@),
            final(self).wf(),
    {
        self.table.put(oid, data);
    }

    /// The number of stored objects.
    pub fn len(&self) -> (r: usize)
        ensures
            r == self@.len(),
    {
        self.table.len()
    }

    /// The id of entry `i`.
    pub fn id_at(&self, i: usize) -> (r: &String)
        requires
            i < self@.len(),
        ensures
            r@ == self@[i as int].0,
    {
        self.table.name_at(i)
    }

    /// The stored bytes of entry `i`.
    pub fn bytes_at(&self, i: usize) -> (r: &Vec<u8>)
        requires
            i < self@.len(),
        ensures
            r@ == self@[i as int].1,
    {
        self.table.data_at(i)
    }
}

/// Stores `content` as an object of type `type_` and returns its id, the
/// hexadecimal SHA-1 of the stored bytes.
pub fn hash_object(content: &[u8], type_: ObjectType, store: &mut ObjectStore) -> (oid: String)
    requires
        old(store).wf(),
    ensures
        oid@ == object_id(type_, content@),
        oid@.len() == 40,
        crate::text::is_word(oid@),
        final(store)@ == crate::table::store(old(store)@, oid@, object_bytes(type_, content@)),
        final(store).wf(),
{
    let obj = encode_object(content, type_);
    let digest = sha1_of(obj.as_slice());
    proof {
        lemma_hex_word(digest@);
        lemma_hex_lower(digest@);
    }
    let oid = hex_encode(digest.as_slice());
    store.insert_raw(oid.clone(), obj);
    oid
}

/// The content of the object stored under `oid`, read as type `expected`:
/// an error when nothing is stored there, the header has no NUL, is not
/// UTF-8, or names another type.
pub fn get_object(oid: &str, expected: ObjectType, store: &ObjectStore) -> (r: Result<Vec<u8>, ObjectError>)
    requires
        store.wf(),
    ensures
        r is Ok ==> fetch(store@, oid@, expected) == Ok::<Seq<u8>, ObjectError>(r->Ok_0@),
        r is Err ==> fetch(store@, oid@, expected) == Err::<Seq<u8>, ObjectError>(r->Err_0),
{
    match store.raw(oid) {
        None => Err(ObjectError::NotFound),
        Some(obj) => read_stored(obj.as_slice(), expected),
    }
}

/// The first NUL at or after `i` is at `p` when `p` holds one and none comes before.
pub proof fn lemma_next_nul_at(obj: Seq<u8>, i: int, p: int)
    requires
        0 <= i <= p < obj.len(),
        obj[p] == 0,
        forall|k: int| i <= k < p ==> obj[k] != 0,
    ensures
        next_nul(obj, i) == p,
    decreases p - i,
{
    if i < p {
        lemma_next_nul_at(obj, i + 1, p);
    }
}

/// Stored bytes of an object read back as its own type give its content.
pub proof fn lemma_read_own_object(t: ObjectType, content: Seq<u8>)
    ensures
        read_result(object_bytes(t, content), t) == Ok::<Seq<u8>, ObjectError>(content),
{
    let obj = object_bytes(t, content);
    let n = type_bytes(t).len() as int;
    assert(obj[n] == 0);
    assert forall|k: int| 0 <= k < n implies obj[k] != 0 by {
        assert(obj[k] == type_bytes(t)[k]);
    }
    lemma_next_nul_at(obj, 0, n);
    assert(obj.take(n) =~= type_bytes(t));
    assert(obj.skip(n + 1) =~= content);
}

/// Once an object has been stored, reading its id as its type gives back
/// its content.
pub proof fn law_get_after_hash(t: TableView, content: Seq<u8>, ty: ObjectType)
    requires
        names_unique(t),
    ensures
        ({
            let oid = object_id(ty, content);
            let after = crate::table::store(t, oid, object_bytes(ty, content));
            &&& fetch(after, oid, ty) == Ok::<Seq<u8>, ObjectError>(content)
        }),
{
    let oid = object_id(ty, content);
    crate::table::lemma_store(t, oid, object_bytes(ty, content));
    lemma_read_own_object(ty, content);
}

} // verus!
