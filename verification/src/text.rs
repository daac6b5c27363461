//! Character-level text helpers: white space as Unicode defines it,
//! trimming, searching for a character, and the conversions between
//! strings, byte buffers and character vectors.

use vstd::prelude::*;
use vstd::utf8::{valid_utf8, decode_utf8};

verus! {

/// The Unicode `White_Space` property, which `char::is_whitespace` and
/// `str::trim` use.
pub open spec fn is_white_space(c: char) -> bool {
    let u = c as u32;
    ||| 9 <= u <= 13
    ||| u == 32
    ||| u == 0x85
    ||| u == 0xA0
    ||| u == 0x1680
    ||| 0x2000 <= u <= 0x200A
    ||| u == 0x2028
    ||| u == 0x2029
    ||| u == 0x202F
    ||| u == 0x205F
    ||| u == 0x3000
}

/// Whether `c` is Unicode white space.
pub fn is_whitespace(c: char) -> (r: bool)
    ensures
        r == is_white_space(c),
{
    let u: u32 = c as u32;
    (9 <= u && u <= 13) || u == 32 || u == 0x85 || u == 0xA0 || u == 0x1680 || (0x2000 <= u && u
        <= 0x200A) || u == 0x2028 || u == 0x2029 || u == 0x202F || u == 0x205F || u == 0x3000
}

/// What a trim removes from both ends of a text.
#[derive(Clone, Copy, Debug, PartialEq, Eq)]
pub enum Strip {
    /// Unicode white space, as `str::trim` removes it.
    Whitespace,
    /// One given character, as `str::trim_matches(c)` removes it.
    Char(char),
}

pub open spec fn strips(m: Strip, c: char) -> bool {
    match m {
        Strip::Whitespace => is_white_space(c),
        Strip::Char(d) => c == d,
    }
}

fn strips_exec(m: Strip, c: char) -> (r: bool)
    ensures
        r == strips(m, c),
{
    match m {
        Strip::Whitespace => is_whitespace(c),
        Strip::Char(d) => c == d,
    }
}

/// The text without the characters that `m` strips at its start.
pub open spec fn trim_start(s: Seq<char>, m: Strip) -> Seq<char>
    decreases s.len(),
{
    if s.len() > 0 && strips(m, s[0]) {
        trim_start(s.drop_first(), m)
    } else {
        s
    }
}

/// The text without the characters that `m` strips at its end.
pub open spec fn trim_end(s: Seq<char>, m: Strip) -> Seq<char>
    decreases s.len(),
{
    if s.len() > 0 && strips(m, s.last()) {
        trim_end(s.drop_last(), m)
    } else {
        s
    }
}

/// The text with all leading and trailing characters that `m` strips removed.
pub open spec fn trim(s: Seq<char>, m: Strip) -> Seq<char> {
    trim_end(trim_start(s, m), m)
}

/// `str::trim`: leading and trailing white space removed.
pub open spec fn trim_ws(s: Seq<char>) -> Seq<char> {
    trim(s, Strip::Whitespace)
}

proof fn lemma_trim_start_shape(s: Seq<char>, m: Strip) -> (i: int)
    ensures
        0 <= i <= s.len(),
        trim_start(s, m) == s.skip(i),
        forall|x: int| 0 <= x < i ==> strips(m, #[trigger] s[x]),
    decreases s.len(),
{
    if s.len() > 0 && strips(m, s[0]) {
        let i1 = lemma_trim_start_shape(s.drop_first(), m);
        assert(s.drop_first().skip(i1) =~= s.skip(i1 + 1));
        assert forall|x: int| 0 <= x < i1 + 1 implies strips(m, #[trigger] s[x]) by {
            if x > 0 {
                assert(s[x] == s.drop_first()[x - 1]);
            }
        }
        i1 + 1
    } else {
        assert(s.skip(0) =~= s);
        0
    }
}

proof fn lemma_trim_end_shape(s: Seq<char>, m: Strip) -> (j: int)
    ensures
        0 <= j <= s.len(),
        trim_end(s, m) == s.take(j),
        forall|x: int| j <= x < s.len() ==> strips(m, #[trigger] s[x]),
    decreases s.len(),
{
    if s.len() > 0 && strips(m, s.last()) {
        let j1 = lemma_trim_end_shape(s.drop_last(), m);
        assert(s.drop_last().take(j1) =~= s.take(j1));
        assert forall|x: int| j1 <= x < s.len() implies strips(m, #[trigger] s[x]) by {
            if x < s.len() - 1 {
                assert(s[x] == s.drop_last()[x]);
            }
        }
        j1
    } else {
        assert(s.take(s.len() as int) =~= s);
        s.len() as int
    }
}

/// A trimmed text is a piece of the text, and only characters that the
/// trim strips lie before and after it.
pub proof fn lemma_trim_shape(s: Seq<char>, m: Strip) -> (r: (int, int))
    ensures
        0 <= r.0 <= r.1 <= s.len(),
        trim(s, m) == s.subrange(r.0, r.1),
        forall|x: int| 0 <= x < r.0 ==> strips(m, #[trigger] s[x]),
        forall|x: int| r.1 <= x < s.len() ==> strips(m, #[trigger] s[x]),
{
    let i = lemma_trim_start_shape(s, m);
    let u = s.skip(i);
    let j = lemma_trim_end_shape(u, m);
    assert(u.take(j) =~= s.subrange(i, i + j));
    assert forall|x: int| i + j <= x < s.len() implies strips(m, #[trigger] s[x]) by {
        assert(s[x] == u[x - i]);
    }
    (i, i + j)
}

/// Trimming a text whose first and last characters are not stripped leaves it as it is.
pub proof fn lemma_trim_unchanged(s: Seq<char>, m: Strip)
    requires
        s.len() > 0 ==> !strips(m, s[0]) && !strips(m, s.last()),
    ensures
        trim(s, m) == s,
{
}

/// The bounds, within `lo..hi`, of `s[lo..hi]` trimmed by `m`.
pub fn trim_bounds(s: &Vec<char>, lo: usize, hi: usize, m: Strip) -> (r: (usize, usize))
    requires
        lo <= hi <= s@.len(),
    ensures
        lo <= r.0 <= r.1 <= hi,
        s@.subrange(r.0 as int, r.1 as int) == trim(s@.subrange(lo as int, hi as int), m),
{
    let mut a: usize = lo;
    while a < hi && strips_exec(m, s[a])
        invariant
            lo <= a <= hi <= s@.len(),
            trim_start(s@.subrange(lo as int, hi as int), m) == trim_start(
                s@.subrange(a as int, hi as int),
                m,
            ),
        decreases hi - a,
    {
        assert(s@.subrange(a as int, hi as int).drop_first() =~= s@.subrange(
            a + 1,
            hi as int,
        ));
        a = a + 1;
    }
    let mut b: usize = hi;
    while b > a && strips_exec(m, s[b - 1])
        invariant
            lo <= a <= b <= hi <= s@.len(),
            trim(s@.subrange(lo as int, hi as int), m) == trim_end(
                s@.subrange(a as int, b as int),
                m,
            ),
        decreases b - a,
    {
        assert(s@.subrange(a as int, b as int).drop_last() =~= s@.subrange(
            a as int,
            b - 1,
        ));
        b = b - 1;
    }
    (a, b)
}

/// Index of the first `c` in `s`, or the length of `s` when there is none.
pub open spec fn find_char(s: Seq<char>, c: char) -> nat
    decreases s.len(),
{
    if s.len() == 0 {
        0
    } else if s[0] == c {
        0
    } else {
        1 + find_char(s.drop_first(), c)
    }
}

/// `find_char` is the first occurrence, or the length.
pub proof fn lemma_find_char(s: Seq<char>, c: char)
    ensures
        find_char(s, c) <= s.len(),
        forall|k: int| 0 <= k < find_char(s, c) ==> s[k] != c,
        find_char(s, c) < s.len() ==> s[find_char(s, c) as int] == c,
    decreases s.len(),
{
    if s.len() > 0 && s[0] != c {
        lemma_find_char(s.drop_first(), c);
        assert forall|k: int| 0 <= k < find_char(s, c) implies s[k] != c by {
            if k > 0 {
                assert(s[k] == s.drop_first()[k - 1]);
            }
        }
    }
}

/// An index with no `c` before it, and `c` or the end at it, is `find_char`.
pub proof fn lemma_find_char_is(s: Seq<char>, c: char, j: int)
    requires
        0 <= j <= s.len(),
        forall|k: int| 0 <= k < j ==> s[k] != c,
        j < s.len() ==> s[j] == c,
    ensures
        find_char(s, c) == j,
    decreases s.len(),
{
    if s.len() > 0 && s[0] != c {
        lemma_find_char_is(s.drop_first(), c, j - 1);
    }
}

/// The first `c` in `s[lo..hi]`, as an index into `s`, or `hi`.
pub fn find_from(s: &Vec<char>, lo: usize, hi: usize, c: char) -> (r: usize)
    requires
        lo <= hi <= s@.len(),
    ensures
        lo <= r <= hi,
        r - lo == find_char(s@.subrange(lo as int, hi as int), c),
        forall|k: int| lo <= k < r ==> s@[k] != c,
        r < hi ==> s@[r as int] == c,
{
    let mut i: usize = lo;
    while i < hi && s[i] != c
        invariant
            lo <= i <= hi <= s@.len(),
            forall|k: int| lo <= k < i ==> s@[k] != c,
        decreases hi - i,
    {
        i = i + 1;
    }
    proof {
        lemma_find_char_is(s@.subrange(lo as int, hi as int), c, i - lo);
    }
    i
}

/// A copy of `s[lo..hi]`.
pub fn copy_range(s: &Vec<char>, lo: usize, hi: usize) -> (r: Vec<char>)
    requires
        lo <= hi <= s@.len(),
    ensures
        r@ == s@.subrange(lo as int, hi as int),
{
    let mut r: Vec<char> = Vec::new();
    let mut i: usize = lo;
    while i < hi
        invariant
            lo <= i <= hi <= s@.len(),
            r@ == s@.subrange(lo as int, i as int),
        decreases hi - i,
    {
        r.push(s[i]);
        i = i + 1;
    }
    r
}

/// Whether two character sequences are equal.
pub fn chars_eq(a: &Vec<char>, b: &Vec<char>) -> (r: bool)
    ensures
        r == (a@ == b@),
{
    if a.len() != b.len() {
        return false;
    }
    let mut i: usize = 0;
    while i < a.len()
        invariant
            a@.len() == b@.len(),
            0 <= i <= a@.len(),
            forall|k: int| 0 <= k < i ==> a@[k] == b@[k],
        decreases a@.len() - i,
    {
        if a[i] != b[i] {
            return false;
        }
        i = i + 1;
    }
    assert(a@ =~= b@);
    true
}

/// The strings as character sequences.
pub open spec fn strings_view(v: Seq<String>) -> Seq<Seq<char>> {
    v.map_values(|s: String| s@)
}

/// An optional string as a character sequence.
pub open spec fn opt_view(s: Option<String>) -> Option<Seq<char>> {
    match s {
        Some(v) => Some(v@),
        None => None,
    }
}

/// `s` begins with `p`.
pub open spec fn starts_with(s: Seq<char>, p: Seq<char>) -> bool {
    p.len() <= s.len() && s.subrange(0, p.len() as int) == p
}

/// `s` ends with `p`.
pub open spec fn ends_with(s: Seq<char>, p: Seq<char>) -> bool {
    p.len() <= s.len() && s.subrange(s.len() - p.len(), s.len() as int) == p
}

/// Whether `s[lo..]` begins with `p`.
pub fn has_prefix_at(s: &Vec<char>, lo: usize, p: &Vec<char>) -> (r: bool)
    requires
        lo <= s@.len(),
    ensures
        r == starts_with(s@.subrange(lo as int, s@.len() as int), p@),
{
    let n: usize = s.len();
    if p.len() > n - lo {
        return false;
    }
    let mut i: usize = 0;
    while i < p.len()
        invariant
            n == s@.len(),
            lo <= s@.len(),
            p@.len() <= s@.len() - lo,
            0 <= i <= p@.len(),
            forall|k: int| 0 <= k < i ==> s@[lo + k] == p@[k],
        decreases p@.len() - i,
    {
        if s[lo + i] != p[i] {
            assert(s@.subrange(lo as int, s@.len() as int).subrange(0, p@.len() as int)[i as int]
                != p@[i as int]);
            return false;
        }
        i = i + 1;
    }
    assert(s@.subrange(lo as int, s@.len() as int).subrange(0, p@.len() as int) =~= p@);
    true
}

/// The characters of a string slice.
pub(crate) fn chars_of(s: &str) -> (r: Vec<char>)
    ensures
        r@ == s@,
{
    broadcast use vstd::string::axiom_spec_iter;

    let mut r: Vec<char> = Vec::new();
    for c in it: s.chars()
        invariant
            r@.len() == it.index(),
            forall|i: int| 0 <= i < r@.len() ==> r@[i] == it.seq()[i],
    {
        r.push(c);
    }
    assert(r@ =~= s@);
    r
}

/// A string made of the given characters.
#[verifier::external_body]
pub(crate) fn string_of(v: &Vec<char>) -> (r: String)
    ensures
        r@ == v@,
{
    v.iter().collect()
}

/// `std::str::from_utf8`, with the decoded text handed back as characters.
/// The contract claims that the call succeeds exactly on well-formed UTF-8
/// (vstd's `valid_utf8`) and that the text is then vstd's `decode_utf8`
/// of the bytes, which is what the standard library documents for `from_utf8`.
#[verifier::external_body]
pub(crate) fn utf8_chars(data: &[u8]) -> (r: Option<Vec<char>>)
    ensures
        r is Some <==> valid_utf8(data@),
        r matches Some(v) ==> v@ == decode_utf8(data@),
{
    match std::str::from_utf8(data) {
        Ok(s) => Some(s.chars().collect()),
        Err(_) => None,
    }
}

} // verus!
