//! Character-level text handling: Unicode whitespace, trimming, line and
//! word splitting, and UTF-8 decoding, each with its specification.

use vstd::prelude::*;

verus! {

/// The Unicode `White_Space` property.
pub open spec fn is_ws(c: char) -> bool {
    ||| ('\t' <= c && c <= '\r')
    ||| c == ' '
    ||| c == '\u{85}'
    ||| c == '\u{a0}'
    ||| c == '\u{1680}'
    ||| ('\u{2000}' <= c && c <= '\u{200a}')
    ||| c == '\u{2028}'
    ||| c == '\u{2029}'
    ||| c == '\u{202f}'
    ||| c == '\u{205f}'
    ||| c == '\u{3000}'
}

/// Whether `c` has the Unicode `White_Space` property, as
/// `char::is_whitespace` tests.
pub(crate) fn char_is_whitespace(c: char) -> (r: bool)
    ensures
        r == is_ws(c),
{
    ('\t' <= c && c <= '\r') || c == ' ' || c == '\u{85}' || c == '\u{a0}' || c == '\u{1680}'
        || ('\u{2000}' <= c && c <= '\u{200a}') || c == '\u{2028}' || c == '\u{2029}'
        || c == '\u{202f}' || c == '\u{205f}' || c == '\u{3000}'
}

/// Calls `String::push`, which appends one character.
#[verifier::external_body]
fn string_push(s: &mut String, c: char)
    ensures
        final(s)@ == old(s)@.push(c),
{
    s.push(c)
}

/// The characters of a string slice, in order.
pub fn chars_of(s: &str) -> (r: Vec<char>)
    ensures
        r@ == s@,
{
    let mut v: Vec<char> = Vec::new();
    for c in it: s.chars()
        invariant
            v@ == it.seq().take(it.index() as int),
            it.seq() == s@,
    {
        v.push(c);
    }
    v
}


/// The characters as an owned string.
pub fn string_from(v: &[char]) -> (r: String)
    ensures
        r@ == v@,
{
    let mut s = String::new();
    let mut i: usize = 0;
    while i < v.len()
        invariant
            i <= v@.len(),
            s@ == v@.take(i as int),
        decreases v@.len() - i,
    {
        string_push(&mut s, v[i]);
        proof {
            assert(v@.take(i as int).push(v@[i as int]) =~= v@.take(i + 1));
        }
        i = i + 1;
    }
    proof {
        assert(v@.take(v@.len() as int) =~= v@);
    }
    s
}

/// The characters `s[i..j]` copied into a new vector.
pub fn copy_range(s: &[char], i: usize, j: usize) -> (r: Vec<char>)
    requires
        i <= j <= s@.len(),
    ensures
        r@ == s@.subrange(i as int, j as int),
{
    let mut v: Vec<char> = Vec::new();
    let mut k: usize = i;
    while k < j
        invariant
            i <= k <= j <= s@.len(),
            v@ == s@.subrange(i as int, k as int),
        decreases j - k,
    {
        v.push(s[k]);
        proof {
            assert(s@.subrange(i as int, k as int).push(s@[k as int]) =~= s@.subrange(
                i as int,
                k + 1,
            ));
        }
        k = k + 1;
    }
    v
}

/// Whether two character sequences are equal.
pub fn chars_eq(a: &[char], b: &[char]) -> (r: bool)
    ensures
        r == (a@ == b@),
{
    if a.len() != b.len() {
        return false;
    }
    let mut i: usize = 0;
    while i < a.len()
        invariant
            a@.len() == b@.len(),
            i <= a@.len(),
            forall|k: int| 0 <= k < i ==> a@[k] == b@[k],
        decreases a@.len() - i,
    {
        if a[i] != b[i] {
            return false;
        }
        i = i + 1;
    }
    proof {
        assert(a@ =~= b@);
    }
    true
}

/// First index at or after `i` that holds no whitespace, or the length.
pub open spec fn skip_ws(s: Seq<char>, i: int) -> int
    decreases s.len() - i,
{
    if 0 <= i < s.len() && is_ws(s[i]) {
        skip_ws(s, i + 1)
    } else {
        i
    }
}

/// Moving left from `j` (but not past `lo`), the first end that does not
/// follow a whitespace character.
pub open spec fn rskip_ws(s: Seq<char>, lo: int, j: int) -> int
    decreases j - lo,
{
    if lo < j <= s.len() && is_ws(s[j - 1]) {
        rskip_ws(s, lo, j - 1)
    } else {
        j
    }
}

/// `s` without leading and trailing whitespace (`str::trim`).
pub open spec fn trim(s: Seq<char>) -> Seq<char> {
    let a = skip_ws(s, 0);
    s.subrange(a, rskip_ws(s, a, s.len() as int))
}

/// `skip_ws` stays within the text and passes only white space.
pub proof fn lemma_skip_ws_bounds(s: Seq<char>, i: int)
    requires
        0 <= i <= s.len(),
    ensures
        i <= skip_ws(s, i) <= s.len(),
        forall|k: int| i <= k < skip_ws(s, i) ==> is_ws(s[k]),
        skip_ws(s, i) < s.len() ==> !is_ws(s[skip_ws(s, i)]),
    decreases s.len() - i,
{
    if i < s.len() && is_ws(s[i]) {
        lemma_skip_ws_bounds(s, i + 1);
    }
}

/// `rskip_ws` stays within `lo..j` and passes only white space.
pub proof fn lemma_rskip_ws_bounds(s: Seq<char>, lo: int, j: int)
    requires
        0 <= lo <= j <= s.len(),
    ensures
        lo <= rskip_ws(s, lo, j) <= j,
        forall|k: int| rskip_ws(s, lo, j) <= k < j ==> is_ws(s[k]),
        rskip_ws(s, lo, j) > lo ==> !is_ws(s[rskip_ws(s, lo, j) - 1]),
    decreases j - lo,
{
    if lo < j && is_ws(s[j - 1]) {
        lemma_rskip_ws_bounds(s, lo, j - 1);
    }
}

/// Index of the first non-whitespace character at or after `i`.
fn exec_skip_ws(s: &[char], i: usize) -> (r: usize)
    requires
        i <= s@.len(),
    ensures
        r == skip_ws(s@, i as int),
{
    let mut k = i;
    while k < s.len() && char_is_whitespace(s[k])
        invariant
            i <= k <= s@.len(),
            skip_ws(s@, k as int) == skip_ws(s@, i as int),
        decreases s@.len() - k,
    {
        k = k + 1;
    }
    k
}

/// `str::trim`: the characters without leading and trailing whitespace.
pub fn trim_chars(s: &[char]) -> (r: Vec<char>)
    ensures
        r@ == trim(s@),
{
    let a = exec_skip_ws(s, 0);
    proof {
        lemma_skip_ws_bounds(s@, 0);
    }
    let mut b = s.len();
    while b > a && char_is_whitespace(s[b - 1])
        invariant
            a <= b <= s@.len(),
            rskip_ws(s@, a as int, b as int) == rskip_ws(s@, a as int, s@.len() as int),
        decreases b - a,
    {
        b = b - 1;
    }
    copy_range(s, a, b)
}

/// `s` with `prefix` removed from its front, if `s` starts with it.
pub open spec fn strip_prefix(s: Seq<char>, prefix: Seq<char>) -> Option<Seq<char>> {
    if prefix.len() <= s.len() && s.take(prefix.len() as int) == prefix {
        Some(s.skip(prefix.len() as int))
    } else {
        None
    }
}

/// `str::strip_prefix` on characters.
pub fn strip_prefix_chars(s: &[char], prefix: &[char]) -> (r: Option<Vec<char>>)
    ensures
        r matches Some(v) ==> strip_prefix(s@, prefix@) == Some(v@),
        r is None ==> strip_prefix(s@, prefix@) is None,
{
    if prefix.len() > s.len() {
        return None;
    }
    let mut i: usize = 0;
    while i < prefix.len()
        invariant
            prefix@.len() <= s@.len(),
            i <= prefix@.len(),
            forall|k: int| 0 <= k < i ==> s@[k] == prefix@[k],
        decreases prefix@.len() - i,
    {
        if s[i] != prefix[i] {
            proof {
                assert(s@.take(prefix@.len() as int)[i as int] != prefix@[i as int]);
            }
            return None;
        }
        i = i + 1;
    }
    proof {
        assert(s@.take(prefix@.len() as int) =~= prefix@);
    }
    Some(copy_range(s, prefix.len(), s.len()))
}


/// The character sequences held by a vector of character vectors.
pub open spec fn views(v: Seq<Vec<char>>) -> Seq<Seq<char>> {
    Seq::new(v.len(), |i: int| v[i]@)
}

/// The views of a pushed sequence are the views pushed with the new view.
pub proof fn lemma_views_push(v: Seq<Vec<char>>, x: Vec<char>)
    ensures
        views(v.push(x)) == views(v).push(x@),
{
    assert(views(v.push(x)) =~= views(v).push(x@));
}

/// Index of the first `'\n'` at or after `i`, or the length.
pub open spec fn next_newline(s: Seq<char>, i: int) -> int
    decreases s.len() - i,
{
    if 0 <= i < s.len() && s[i] != '\n' {
        next_newline(s, i + 1)
    } else {
        i
    }
}

/// `next_newline` stays within the text and stops only at a newline or the end.
pub proof fn lemma_next_newline_bounds(s: Seq<char>, i: int)
    requires
        0 <= i <= s.len(),
    ensures
        i <= next_newline(s, i) <= s.len(),
        forall|k: int| i <= k < next_newline(s, i) ==> s[k] != '\n',
        next_newline(s, i) < s.len() ==> s[next_newline(s, i)] == '\n',
    decreases s.len() - i,
{
    if i < s.len() && s[i] != '\n' {
        lemma_next_newline_bounds(s, i + 1);
    }
}

/// A line without the `'\r'` of a `"\r\n"` ending.
pub open spec fn strip_cr(l: Seq<char>) -> Seq<char> {
    if l.len() > 0 && l.last() == '\r' {
        l.drop_last()
    } else {
        l
    }
}

/// The lines of `s[i..]` (`str::lines`): pieces ended by `'\n'`, each
/// without its `"\n"` or `"\r\n"` ending; a last piece without a
/// `'\n'` is kept whole, and an empty last piece is not a line.
pub open spec fn lines_from(s: Seq<char>, i: int) -> Seq<Seq<char>>
    decreases s.len() - i,
{
    if i < 0 || i >= s.len() {
        seq![]
    } else {
        let e = next_newline(s, i);
        if e < s.len() {
            proof {
                lemma_next_newline_bounds(s, i);
            }
            seq![strip_cr(s.subrange(i, e))] + lines_from(s, e + 1)
        } else {
            seq![s.subrange(i, s.len() as int)]
        }
    }
}

/// The lines of `s` (`str::lines`).
pub open spec fn lines(s: Seq<char>) -> Seq<Seq<char>> {
    lines_from(s, 0)
}

/// `str::lines` on characters.
pub fn lines_of(s: &[char]) -> (r: Vec<Vec<char>>)
    ensures
        views(r@) == lines(s@),
{
    let mut out: Vec<Vec<char>> = Vec::new();
    let mut i: usize = 0;
    while i < s.len()
        invariant
            i <= s@.len(),
            views(out@) + lines_from(s@, i as int) == lines(s@),
        decreases s@.len() - i,
    {
        let ghost before = views(out@);
        let mut e = i;
        while e < s.len() && s[e] != '\n'
            invariant
                i <= e <= s@.len(),
                next_newline(s@, e as int) == next_newline(s@, i as int),
            decreases s@.len() - e,
        {
            e = e + 1;
        }
        proof {
            lemma_next_newline_bounds(s@, i as int);
        }
        if e < s.len() {
            let mut end = e;
            if end > i && s[end - 1] == '\r' {
                end = end - 1;
            }
            let line = copy_range(s, i, end);
            proof {
                assert(line@ =~= strip_cr(s@.subrange(i as int, e as int)));
            }
            proof {
                lemma_views_push(out@, line);
            }
            out.push(line);
            proof {
                assert(views(out@) =~= before.push(strip_cr(s@.subrange(i as int, e as int))));
                assert(before + lines_from(s@, i as int) =~= views(out@) + lines_from(
                    s@,
                    e + 1,
                ));
            }
            i = e + 1;
        } else {
            let line = copy_range(s, i, s.len());
            proof {
                lemma_views_push(out@, line);
            }
            out.push(line);
            proof {
                assert(views(out@) =~= before.push(s@.subrange(i as int, s@.len() as int)));
                assert(before + lines_from(s@, i as int) =~= views(out@) + lines_from(
                    s@,
                    s@.len() as int,
                ));
            }
            i = s.len();
        }
    }
    proof {
        assert(views(out@) + lines_from(s@, i as int) =~= views(out@));
    }
    out
}

/// Moving right from `i`, the first index that holds whitespace, or the length.
pub open spec fn word_end(s: Seq<char>, i: int) -> int
    decreases s.len() - i,
{
    if 0 <= i < s.len() && !is_ws(s[i]) {
        word_end(s, i + 1)
    } else {
        i
    }
}

/// `word_end` stays within the text and passes no white space.
pub proof fn lemma_word_end_bounds(s: Seq<char>, i: int)
    requires
        0 <= i <= s.len(),
    ensures
        i <= word_end(s, i) <= s.len(),
        forall|k: int| i <= k < word_end(s, i) ==> !is_ws(s[k]),
        word_end(s, i) < s.len() ==> is_ws(s[word_end(s, i)]),
    decreases s.len() - i,
{
    if i < s.len() && !is_ws(s[i]) {
        lemma_word_end_bounds(s, i + 1);
    }
}

/// The whitespace-separated words of `s[i..]` (`str::split_whitespace`).
pub open spec fn words_from(s: Seq<char>, i: int) -> Seq<Seq<char>>
    decreases s.len() - i,
{
    if i < 0 || i > s.len() {
        seq![]
    } else {
        let p = skip_ws(s, i);
        if p >= s.len() {
            seq![]
        } else {
            proof {
                lemma_skip_ws_bounds(s, i);
                lemma_word_end_bounds(s, p);
            }
            let e = word_end(s, p);
            seq![s.subrange(p, e)] + words_from(s, e)
        }
    }
}

/// The whitespace-separated words of `s` (`str::split_whitespace`).
pub open spec fn words(s: Seq<char>) -> Seq<Seq<char>> {
    words_from(s, 0)
}

/// `str::split_whitespace` on characters.
pub fn words_of(s: &[char]) -> (r: Vec<Vec<char>>)
    ensures
        views(r@) == words(s@),
{
    let mut out: Vec<Vec<char>> = Vec::new();
    let mut i: usize = 0;
    loop
        invariant
            i <= s@.len(),
            views(out@) + words_from(s@, i as int) == words(s@),
        decreases s@.len() - i,
    {
        let ghost before = views(out@);
        let p = exec_skip_ws(s, i);
        proof {
            lemma_skip_ws_bounds(s@, i as int);
        }
        if p >= s.len() {
            proof {
                assert(views(out@) =~= words(s@));
            }
            return out;
        }
        let mut e = p;
        while e < s.len() && !char_is_whitespace(s[e])
            invariant
                p <= e <= s@.len(),
                word_end(s@, e as int) == word_end(s@, p as int),
            decreases s@.len() - e,
        {
            e = e + 1;
        }
        proof {
            lemma_word_end_bounds(s@, p as int);
        }
        let w = copy_range(s, p, e);
        proof {
            lemma_views_push(out@, w);
        }
        out.push(w);
        proof {
            assert(views(out@) =~= before.push(s@.subrange(p as int, e as int)));
            assert(before + words_from(s@, i as int) =~= views(out@) + words_from(
                s@,
                e as int,
            ));
        }
        i = e;
    }
}

/// The pieces joined with `sep` between neighbours (`[String]::join`).
pub open spec fn join(pieces: Seq<Seq<char>>, sep: Seq<char>) -> Seq<char>
    decreases pieces.len(),
{
    if pieces.len() == 0 {
        seq![]
    } else if pieces.len() == 1 {
        pieces[0]
    } else {
        join(pieces.drop_last(), sep) + sep + pieces.last()
    }
}

/// The pieces `ls[from..]` joined with `'\n'` between neighbours.
pub fn join_lines(ls: &Vec<Vec<char>>, from: usize) -> (r: Vec<char>)
    requires
        from <= ls@.len(),
    ensures
        r@ == join(views(ls@).skip(from as int), seq!['\n']),
{
    let mut out: Vec<char> = Vec::new();
    let mut k: usize = from;
    while k < ls.len()
        invariant
            from <= k <= ls@.len(),
            out@ == join(views(ls@).subrange(from as int, k as int), seq!['\n']),
        decreases ls@.len() - k,
    {
        let ghost before = out@;
        if k > from {
            out.push('\n');
        }
        let piece = &ls[k];
        let mut j: usize = 0;
        let ghost mid = out@;
        while j < piece.len()
            invariant
                j <= piece@.len(),
                out@ == mid + piece@.take(j as int),
            decreases piece@.len() - j,
        {
            out.push(piece[j]);
            proof {
                assert(piece@.take(j as int).push(piece@[j as int]) =~= piece@.take(j + 1));
            }
            j = j + 1;
        }
        proof {
            let dv = views(ls@);
            let next = dv.subrange(from as int, k + 1);
            assert(next.drop_last() =~= dv.subrange(from as int, k as int));
            assert(piece@.take(j as int) =~= piece@);
            assert(next.last() == piece@);
            if k > from {
                assert(out@ =~= join(next.drop_last(), seq!['\n']) + seq!['\n'] + next.last());
            } else {
                assert(out@ =~= next[0]);
            }
        }
        k = k + 1;
    }
    proof {
        assert(views(ls@).subrange(from as int, ls@.len() as int) =~= views(ls@).skip(
            from as int,
        ));
    }
    out
}


/// Appends the characters of `src` to `dst`.
pub fn push_all(dst: &mut Vec<char>, src: &[char])
    ensures
        final(dst)@ == old(dst)@ + src@,
{
    let mut k: usize = 0;
    while k < src.len()
        invariant
            k <= src@.len(),
            dst@ == old(dst)@ + src@.take(k as int),
        decreases src@.len() - k,
    {
        dst.push(src[k]);
        proof {
            assert(src@.take(k as int).push(src@[k as int]) =~= src@.take(k + 1));
        }
        k = k + 1;
    }
    assert(src@.take(src@.len() as int) =~= src@);
}

/// A non-empty run of characters none of which is whitespace.
pub open spec fn is_word(x: Seq<char>) -> bool {
    x.len() > 0 && forall|i: int| 0 <= i < x.len() ==> !is_ws(#[trigger] x[i])
}

/// The next newline from `i` is at `e` when `e` holds one (or is the end) and none comes before.
pub proof fn lemma_next_newline_at(s: Seq<char>, i: int, e: int)
    requires
        0 <= i <= e <= s.len(),
        forall|k: int| i <= k < e ==> s[k] != '\n',
        e == s.len() || s[e] == '\n',
    ensures
        next_newline(s, i) == e,
    decreases e - i,
{
    if i < e {
        lemma_next_newline_at(s, i + 1, e);
    }
}

/// Searching for a newline in `b` after a prefix `p` is searching in `b`, shifted.
pub proof fn lemma_next_newline_shift(p: Seq<char>, b: Seq<char>, j: int)
    requires
        0 <= j <= b.len(),
    ensures
        next_newline(p + b, p.len() + j) == p.len() + next_newline(b, j),
    decreases b.len() - j,
{
    let s = p + b;
    if j < b.len() {
        assert(s[p.len() + j] == b[j]);
        if b[j] != '\n' {
            lemma_next_newline_shift(p, b, j + 1);
        }
    }
}

/// The lines of `b` after a prefix `p`, from a position in `b`, are those of `b`.
pub proof fn lemma_lines_shift(p: Seq<char>, b: Seq<char>, j: int)
    requires
        0 <= j <= b.len(),
    ensures
        lines_from(p + b, p.len() + j) == lines_from(b, j),
    decreases b.len() - j,
{
    let s = p + b;
    if j < b.len() {
        lemma_next_newline_shift(p, b, j);
        lemma_next_newline_bounds(b, j);
        let e = next_newline(b, j);
        if e < b.len() {
            assert(s.subrange(p.len() + j, p.len() + e) =~= b.subrange(j, e));
            lemma_lines_shift(p, b, e + 1);
        } else {
            assert(s.subrange(p.len() + j, s.len() as int) =~= b.subrange(j, b.len() as int));
        }
    }
}

/// No line of `s[i..]` holds a line break.
proof fn lemma_lines_no_newline(s: Seq<char>, i: int)
    requires
        0 <= i,
    ensures
        forall|k: int| 0 <= k < lines_from(s, i).len() ==> !(#[trigger] lines_from(s, i)[k]).contains('\n'),
    decreases s.len() - i,
{
    if i < s.len() {
        lemma_next_newline_bounds(s, i);
        let e = next_newline(s, i);
        let piece = s.subrange(i, e);
        assert(!piece.contains('\n')) by {
            if piece.contains('\n') {
                let j = choose|j: int| 0 <= j < piece.len() && piece[j] == '\n';
                assert(s[i + j] == '\n');
            }
        }
        if e < s.len() {
            lemma_lines_no_newline(s, e + 1);
            let first = strip_cr(piece);
            assert(!first.contains('\n')) by {
                if first.contains('\n') {
                    let j = choose|j: int| 0 <= j < first.len() && first[j] == '\n';
                    assert(piece[j] == '\n');
                }
            }
            let all = lines_from(s, i);
            let rest = lines_from(s, e + 1);
            assert forall|k: int| 0 <= k < all.len() implies !(#[trigger] all[k]).contains('\n') by {
                if k > 0 {
                    assert(all[k] == rest[k - 1]);
                }
            }
        }
    }
}

/// Lines are what `str::lines` gives: none holds a line break, joined by
/// `'\n'` they give back the text they came from (when it ends with a line
/// break and holds no `'\r'`), and a last line without a line break counts
/// as a line.
pub proof fn law_lines(m: Seq<char>)
    requires
        !m.contains('\r'),
    ensures
        forall|k: int| 0 <= k < lines(m).len() ==> !(#[trigger] lines(m)[k]).contains('\n'),
        join(lines(m + seq!['\n']), seq!['\n']) == m,
        m.len() > 0 && m.last() != '\n' ==> lines(m + seq!['\n']) == lines(m),
{
    lemma_lines_no_newline(m, 0);
    lemma_join_lines_newline_ended(m);
    if m.len() > 0 && m.last() != '\n' {
        assert(m.last() != '\r') by {
            assert(m[m.len() - 1] == m.last());
        }
        lemma_lines_trailing(m, 0);
    }
}

/// A final `'\n'` after text that does not end a line adds no line.
pub proof fn lemma_lines_trailing(m: Seq<char>, i: int)
    requires
        0 <= i < m.len(),
        m.last() != '\n',
        m.last() != '\r',
    ensures
        lines_from(m + seq!['\n'], i) == lines_from(m, i),
    decreases m.len() - i,
{
    let s = m + seq!['\n'];
    lemma_next_newline_bounds(m, i);
    let e = next_newline(m, i);
    assert forall|k: int| i <= k < e implies s[k] != '\n' by {
        assert(s[k] == m[k]);
    }
    assert(s[e] == '\n');
    lemma_next_newline_at(s, i, e);
    if e < m.len() {
        assert(m[e] == '\n');
        assert(e + 1 < m.len()) by {
            if e + 1 >= m.len() {
                assert(m.last() == m[e]);
            }
        }
        assert(s.subrange(i, e) =~= m.subrange(i, e));
        lemma_lines_trailing(m, e + 1);
    } else {
        assert(s.subrange(i, e) =~= m.subrange(i, m.len() as int));
        assert(lines_from(s, e + 1) =~= Seq::<Seq<char>>::empty());
        let piece = m.subrange(i, m.len() as int);
        assert(piece.last() == m.last());
        assert(strip_cr(piece) == piece);
    }
}

/// A line followed by `'\n'` and more text splits into that line (less a
/// `'\r'` before the `'\n'`) and the lines of the rest.
pub proof fn lemma_lines_cons(a: Seq<char>, b: Seq<char>)
    requires
        !a.contains('\n'),
    ensures
        lines(a + seq!['\n'] + b) == seq![strip_cr(a)] + lines(b),
{
    let s = a + seq!['\n'] + b;
    assert forall|k: int| 0 <= k < a.len() implies s[k] != '\n' by {
        assert(s[k] == a[k]);
        if a[k] == '\n' {
            assert(a.contains('\n'));
        }
    }
    lemma_next_newline_at(s, 0, a.len() as int);
    assert(s.subrange(0, a.len() as int) =~= a);
    assert(s == (a + seq!['\n']) + b);
    lemma_lines_shift(a + seq!['\n'], b, 0);
}

/// Joining a first piece with more pieces.
pub proof fn lemma_join_cons(x: Seq<char>, rest: Seq<Seq<char>>, sep: Seq<char>)
    requires
        rest.len() > 0,
    ensures
        join(seq![x] + rest, sep) == x + sep + join(rest, sep),
    decreases rest.len(),
{
    let all = seq![x] + rest;
    if rest.len() == 1 {
        assert(all.drop_last() =~= seq![x]);
        assert(join(seq![x], sep) == x);
        assert(all.last() == rest[0]);
        assert(join(rest, sep) == rest[0]);
        assert(join(all, sep) == join(all.drop_last(), sep) + sep + all.last());
        assert(join(all, sep) =~= x + sep + join(rest, sep));
    } else {
        assert(all.drop_last() =~= seq![x] + rest.drop_last());
        lemma_join_cons(x, rest.drop_last(), sep);
        assert(all.last() == rest.last());
        assert(join(all, sep) == join(all.drop_last(), sep) + sep + all.last());
        assert(join(rest, sep) == join(rest.drop_last(), sep) + sep + rest.last());
        assert(join(all, sep) =~= x + sep + join(rest, sep));
    }
}

/// A text without `'\r'` and with `'\n'` after it is given back by joining
/// its lines with `'\n'`.
pub proof fn lemma_join_lines_newline_ended(m: Seq<char>)
    requires
        !m.contains('\r'),
    ensures
        lines(m + seq!['\n']).len() > 0,
        join(lines(m + seq!['\n']), seq!['\n']) == m,
    decreases m.len(),
{
    lemma_next_newline_bounds(m, 0);
    let e = next_newline(m, 0);
    if e == m.len() {
        assert(!m.contains('\n'));
        assert(m + seq!['\n'] =~= m + seq!['\n'] + Seq::<char>::empty());
        lemma_lines_cons(m, Seq::<char>::empty());
        if m.len() > 0 {
            assert(m.last() != '\r') by {
                assert(m[m.len() - 1] == m.last());
            }
        }
        assert(lines(Seq::<char>::empty()) =~= Seq::<Seq<char>>::empty());
        assert(seq![strip_cr(m)] + Seq::<Seq<char>>::empty() =~= seq![m]);
    } else {
        let a = m.subrange(0, e);
        let rest = m.subrange(e + 1, m.len() as int);
        assert(!a.contains('\n')) by {
            if a.contains('\n') {
                let k = choose|k: int| 0 <= k < a.len() && a[k] == '\n';
                assert(m[k] == '\n');
            }
        }
        assert(!rest.contains('\r')) by {
            if rest.contains('\r') {
                let k = choose|k: int| 0 <= k < rest.len() && rest[k] == '\r';
                assert(m[e + 1 + k] == '\r');
            }
        }
        assert(m + seq!['\n'] =~= a + seq!['\n'] + (rest + seq!['\n']));
        lemma_lines_cons(a, rest + seq!['\n']);
        if a.len() > 0 {
            assert(a.last() != '\r') by {
                assert(a.last() == m[a.len() - 1]);
            }
        }
        assert(strip_cr(a) == a);
        lemma_join_lines_newline_ended(rest);
        lemma_join_cons(a, lines(rest + seq!['\n']), seq!['\n']);
        assert(a + seq!['\n'] + rest =~= m);
    }
}

/// Skipping white space from `i` stops at `p` when only white space comes before it.
pub proof fn lemma_skip_ws_at(s: Seq<char>, i: int, p: int)
    requires
        0 <= i <= p <= s.len(),
        forall|k: int| i <= k < p ==> is_ws(s[k]),
        p == s.len() || !is_ws(s[p]),
    ensures
        skip_ws(s, i) == p,
    decreases p - i,
{
    if i < p {
        lemma_skip_ws_at(s, i + 1, p);
    }
}

/// The word from `i` ends at `e` when no white space comes before it.
pub proof fn lemma_word_end_at(s: Seq<char>, i: int, e: int)
    requires
        0 <= i <= e <= s.len(),
        forall|k: int| i <= k < e ==> !is_ws(s[k]),
        e == s.len() || is_ws(s[e]),
    ensures
        word_end(s, i) == e,
    decreases e - i,
{
    if i < e {
        lemma_word_end_at(s, i + 1, e);
    }
}

/// Two words with one space between them split into those two words.
pub proof fn lemma_words_pair(k: Seq<char>, v: Seq<char>)
    requires
        is_word(k),
        is_word(v),
    ensures
        words(k + seq![' '] + v) == seq![k, v],
{
    let s = k + seq![' '] + v;
    let n = k.len() as int;
    assert forall|j: int| 0 <= j < n implies !is_ws(s[j]) by {
        assert(s[j] == k[j]);
    }
    assert forall|j: int| n + 1 <= j < s.len() implies !is_ws(s[j]) by {
        assert(s[j] == v[j - n - 1]);
    }
    assert(s[n] == ' ');
    assert(!is_ws(s[0])) by {
        assert(s[0] == k[0]);
    }
    lemma_skip_ws_at(s, 0, 0);
    lemma_word_end_at(s, 0, n);
    assert(!is_ws(s[n + 1])) by {
        assert(s[n + 1] == v[0]);
    }
    lemma_skip_ws_at(s, n, n + 1);
    lemma_word_end_at(s, n + 1, s.len() as int);
    lemma_skip_ws_at(s, s.len() as int, s.len() as int);
    assert(s.subrange(0, n) =~= k);
    assert(s.subrange(n + 1, s.len() as int) =~= v);
    assert(words_from(s, s.len() as int) =~= Seq::<Seq<char>>::empty());
    assert(words_from(s, n + 1) =~= seq![v]);
    assert(words_from(s, n) =~= seq![v]);
    assert(words_from(s, 0) =~= seq![k] + words_from(s, n));
    assert(words(s) =~= seq![k, v]);
}


/// Skipping white space in `b` after a prefix `p` is skipping in `b`, shifted.
pub proof fn lemma_skip_ws_shift(p: Seq<char>, b: Seq<char>, j: int)
    requires
        0 <= j <= b.len(),
    ensures
        skip_ws(p + b, p.len() + j) == p.len() + skip_ws(b, j),
    decreases b.len() - j,
{
    let s = p + b;
    if j < b.len() {
        assert(s[p.len() + j] == b[j]);
        if is_ws(b[j]) {
            lemma_skip_ws_shift(p, b, j + 1);
        }
    }
}

/// The end of a word in `b` after a prefix `p` is its end in `b`, shifted.
pub proof fn lemma_word_end_shift(p: Seq<char>, b: Seq<char>, j: int)
    requires
        0 <= j <= b.len(),
    ensures
        word_end(p + b, p.len() + j) == p.len() + word_end(b, j),
    decreases b.len() - j,
{
    let s = p + b;
    if j < b.len() {
        assert(s[p.len() + j] == b[j]);
        if !is_ws(b[j]) {
            lemma_word_end_shift(p, b, j + 1);
        }
    }
}

/// The words of `b` after a prefix `p`, from a position in `b`, are those of `b`.
pub proof fn lemma_words_shift(p: Seq<char>, b: Seq<char>, j: int)
    requires
        0 <= j <= b.len(),
    ensures
        words_from(p + b, p.len() + j) == words_from(b, j),
    decreases b.len() - j,
{
    let s = p + b;
    lemma_skip_ws_shift(p, b, j);
    lemma_skip_ws_bounds(b, j);
    let q = skip_ws(b, j);
    if q < b.len() {
        lemma_word_end_shift(p, b, q);
        lemma_word_end_bounds(b, q);
        let e = word_end(b, q);
        assert(s.subrange(p.len() + q, p.len() + e) =~= b.subrange(q, e));
        lemma_words_shift(p, b, e);
    }
}

/// A word followed by a space and more text splits into that word and the
/// words of the rest.
pub proof fn lemma_words_cons(k: Seq<char>, rest: Seq<char>)
    requires
        is_word(k),
    ensures
        words(k + seq![' '] + rest) == seq![k] + words(rest),
{
    let s = k + seq![' '] + rest;
    let n = k.len() as int;
    assert forall|j: int| 0 <= j < n implies !is_ws(s[j]) by {
        assert(s[j] == k[j]);
    }
    assert(s[n] == ' ');
    assert(!is_ws(s[0])) by {
        assert(s[0] == k[0]);
    }
    lemma_skip_ws_at(s, 0, 0);
    lemma_word_end_at(s, 0, n);
    assert(s.subrange(0, n) =~= k);
    assert(s == (k + seq![' ']) + rest);
    lemma_skip_ws_shift(k + seq![' '], rest, 0);
    assert(skip_ws(s, n) == skip_ws(s, n + 1));
    lemma_words_shift(k + seq![' '], rest, 0);
    assert(words_from(s, n) == words_from(s, n + 1));
    assert(words_from(s, 0) =~= seq![k] + words_from(s, n));
}

/// A single word splits into itself.
pub proof fn lemma_words_single(k: Seq<char>)
    requires
        is_word(k),
    ensures
        words(k) == seq![k],
{
    lemma_skip_ws_at(k, 0, 0);
    lemma_word_end_at(k, 0, k.len() as int);
    lemma_skip_ws_at(k, k.len() as int, k.len() as int);
    assert(k.subrange(0, k.len() as int) =~= k);
    assert(words_from(k, k.len() as int) =~= Seq::<Seq<char>>::empty());
    assert(words(k) =~= seq![k]);
}

} // verus!
