//! Environment profiles kept in `.sealenv/profiles/<name>.env`: creating,
//! switching, listing, adding a variable, and comparing two profiles.

use vstd::prelude::*;
use crate::text::{
    strings_view, opt_view, find_char, lemma_find_char, lemma_find_char_is, starts_with, find_from, copy_range,
    has_prefix_at, chars_of, string_of,
};

verus! {

// ── Lines ────────────────────────────────────────────────────────────────────

/// A line without the carriage return that ended it.
pub open spec fn strip_cr(l: Seq<char>) -> Seq<char> {
    if l.len() > 0 && l.last() == '\r' {
        l.drop_last()
    } else {
        l
    }
}

/// The lines of a text as `str::lines` gives them: split at line feeds,
/// a carriage return before a line feed dropped, no empty line after a
/// final line feed.
pub open spec fn lines(s: Seq<char>) -> Seq<Seq<char>>
    decreases s.len(),
{
    if s.len() == 0 {
        Seq::empty()
    } else {
        let j = find_char(s, '\n');
        if j >= s.len() {
            seq![s]
        } else {
            seq![strip_cr(s.take(j as int))] + lines(s.skip(j + 1int))
        }
    }
}

/// Lines joined with line feeds between them, as `join("\n")` does.
pub open spec fn join_lines(ls: Seq<Seq<char>>) -> Seq<char>
    decreases ls.len(),
{
    if ls.len() == 0 {
        Seq::empty()
    } else if ls.len() == 1 {
        ls[0]
    } else {
        join_lines(ls.drop_last()) + seq!['\n'] + ls.last()
    }
}

/// The lines that do not start with `prefix`, in order.
pub open spec fn lines_without(ls: Seq<Seq<char>>, prefix: Seq<char>) -> Seq<Seq<char>>
    decreases ls.len(),
{
    if ls.len() == 0 {
        Seq::empty()
    } else {
        let rest = lines_without(ls.drop_last(), prefix);
        if starts_with(ls.last(), prefix) {
            rest
        } else {
            rest.push(ls.last())
        }
    }
}

/// A text with a line feed at its end, unless it is empty or has one.
pub open spec fn end_line(s: Seq<char>) -> Seq<char> {
    if s.len() > 0 && s.last() != '\n' {
        s.push('\n')
    } else {
        s
    }
}

/// The key of a `KEY=VALUE` entry: the text before the first `=`, or all of
/// it when there is none.
pub open spec fn key_of(entry: Seq<char>) -> Seq<char> {
    entry.take(find_char(entry, '=') as int)
}

/// The start of the lines that set the key of `entry`: the key and `=`.
pub open spec fn key_prefix(entry: Seq<char>) -> Seq<char> {
    key_of(entry).push('=')
}

/// A profile (or `.env`) text with `entry` added: the lines that set the
/// same key are dropped, the others joined again, and `entry` appended as
/// the last line.
pub open spec fn add_entry_spec(content: Seq<char>, entry: Seq<char>) -> Seq<char> {
    end_line(join_lines(lines_without(lines(content), key_prefix(entry)))) + entry + seq!['\n']
}

pub open spec fn lines_view(v: Seq<Vec<char>>) -> Seq<Seq<char>> {
    v.map_values(|l: Vec<char>| l@)
}

fn split_lines(s: &Vec<char>) -> (r: Vec<Vec<char>>)
    ensures
        lines_view(r@) == lines(s@),
{
    let n: usize = s.len();
    let mut r: Vec<Vec<char>> = Vec::new();
    let mut i: usize = 0;
    assert(s@.skip(0) =~= s@);
    assert(lines_view(r@) + lines(s@.skip(0)) =~= lines(s@));
    loop
        invariant_except_break
            n == s@.len(),
            i <= n,
            lines_view(r@) + lines(s@.skip(i as int)) == lines(s@),
        ensures
            lines_view(r@) == lines(s@),
        decreases n - i,
    {
        let ghost rest = s@.skip(i as int);
        let ghost before = lines_view(r@);
        if i == n {
            assert(rest.len() == 0);
            assert(lines_view(r@) =~= before + lines(rest));
            break;
        }
        let j = find_from(s, i, n, '\n');
        assert(s@.subrange(i as int, n as int) =~= rest);
        assert(rest.take(j - i) =~= s@.subrange(i as int, j as int));
        if j == n {
            let line = copy_range(s, i, n);
            r.push(line);
            assert(lines_view(r@) =~= before.push(rest));
            assert(lines(rest) == seq![rest]);
            assert(lines_view(r@) =~= before + lines(rest));
            break;
        }
        let mut end: usize = j;
        if end > i && s[end - 1] == '\r' {
            end = end - 1;
        }
        let line = copy_range(s, i, end);
        assert(line@ == strip_cr(s@.subrange(i as int, j as int))) by {
            if j > i && s@[j - 1] == '\r' {
                assert(s@.subrange(i as int, j as int).drop_last() =~= s@.subrange(
                    i as int,
                    j - 1,
                ));
            }
        }
        r.push(line);
        assert(rest.skip(j - i + 1) =~= s@.skip(j + 1));
        assert(lines_view(r@) + lines(s@.skip(j + 1)) =~= before + lines(rest));
        i = j + 1;
    }
    r
}

fn join_without(ls: &Vec<Vec<char>>, prefix: &Vec<char>) -> (r: Vec<char>)
    ensures
        r@ == join_lines(lines_without(lines_view(ls@), prefix@)),
{
    let mut r: Vec<char> = Vec::new();
    let mut any: bool = false;
    let mut k: usize = 0;
    let ghost kept = Seq::<Seq<char>>::empty();
    assert(lines_view(ls@).take(0) =~= Seq::<Seq<char>>::empty());
    while k < ls.len()
        invariant
            0 <= k <= ls@.len(),
            kept == lines_without(lines_view(ls@).take(k as int), prefix@),
            r@ == join_lines(kept),
            any == (kept.len() > 0),
        decreases ls@.len() - k,
    {
        let line = &ls[k];
        let skip = has_prefix_at(line, 0, prefix);
        assert(line@.subrange(0, line@.len() as int) =~= line@);
        assert(lines_view(ls@).take(k + 1).drop_last() =~= lines_view(ls@).take(k as int));
        assert(lines_view(ls@).take(k + 1).last() == line@);
        if !skip {
            if any {
                r.push('\n');
            }
            let mut m: usize = 0;
            let ghost r0 = r@;
            while m < line.len()
                invariant
                    0 <= m <= line@.len(),
                    r@ == r0 + line@.subrange(0, m as int),
                decreases line@.len() - m,
            {
                r.push(line[m]);
                m = m + 1;
            }
            proof {
                let nk = kept.push(line@);
                assert(nk.drop_last() =~= kept);
                if any {
                    assert(r@ =~= join_lines(kept) + seq!['\n'] + line@);
                } else {
                    assert(r@ =~= line@);
                }
                kept = nk;
            }
            any = true;
        }
        k = k + 1;
    }
    assert(lines_view(ls@).take(ls@.len() as int) =~= lines_view(ls@));
    r
}

fn append_chars(r: &mut Vec<char>, s: &Vec<char>)
    ensures
        final(r)@ == old(r)@ + s@,
{
    let mut m: usize = 0;
    let ghost r0 = r@;
    while m < s.len()
        invariant
            0 <= m <= s@.len(),
            r@ == r0 + s@.subrange(0, m as int),
        decreases s@.len() - m,
    {
        r.push(s[m]);
        m = m + 1;
    }
    assert(s@.subrange(0, s@.len() as int) =~= s@);
}

fn key_prefix_exec(e: &Vec<char>) -> (r: Vec<char>)
    ensures
        r@ == key_prefix(e@),
{
    let idx = find_from(e, 0, e.len(), '=');
    assert(e@.subrange(0, e@.len() as int) =~= e@);
    let mut p = copy_range(e, 0, idx);
    p.push('=');
    p
}

/// The text of a profile (or of `.env`) with the entry `KEY=VALUE` added.
///
/// Lines that start with `KEY=` are removed, the remaining lines are joined
/// with line feeds, a line feed is added unless the result is empty or
/// already ends with one, and the entry follows as the last line.
pub fn add_entry(content: &str, entry: &str) -> (r: String)
    ensures
        r@ == add_entry_spec(content@, entry@),
{
    let c = chars_of(content);
    let e = chars_of(entry);
    let prefix = key_prefix_exec(&e);
    let ls = split_lines(&c);
    let mut out = join_without(&ls, &prefix);
    let n: usize = out.len();
    if n > 0 && out[n - 1] != '\n' {
        out.push('\n');
    }
    append_chars(&mut out, &e);
    out.push('\n');
    string_of(&out)
}

// ── Entries and targets ──────────────────────────────────────────────────────

/// The key of a `KEY=VALUE` entry given on the command line; nothing when
/// the entry has no `=`.
pub fn entry_key(entry: &str) -> (r: Option<String>)
    ensures
        match r {
            Some(k) => find_char(entry@, '=') < entry@.len() && k@ == key_of(entry@),
            None => find_char(entry@, '=') == entry@.len(),
        },
{
    let e = chars_of(entry);
    let idx = find_from(&e, 0, e.len(), '=');
    assert(e@.subrange(0, e@.len() as int) =~= e@);
    if idx == e.len() {
        return None;
    }
    let k = copy_range(&e, 0, idx);
    Some(string_of(&k))
}

/// The profile that `add` writes to: the active one, or `default`.
pub open spec fn add_target_spec(active: Option<Seq<char>>) -> Seq<char> {
    match active {
        Some(a) => a,
        None => seq!['d', 'e', 'f', 'a', 'u', 'l', 't'],
    }
}

/// The profile that `add` writes to: the active one, or `default`.
pub fn add_target(active: Option<String>) -> (r: String)
    ensures
        r@ == add_target_spec(opt_view(active)),
{
    match active {
        Some(a) => a,
        None => {
            let d = chars_of("default");
            proof {
                reveal_strlit("default");
            }
            string_of(&d)
        },
    }
}

// ── Create and switch ────────────────────────────────────────────────────────

/// Why a profile operation failed.
#[derive(Debug, PartialEq, Eq)]
pub enum ProfileError {
    /// A profile of this name exists already.
    AlreadyExists(String),
    /// No profile of this name exists.
    NotFound(String),
}

/// The text a new profile starts with: that of `.env`, or nothing.
pub open spec fn created_content(env: Option<Seq<u8>>) -> Seq<u8> {
    match env {
        Some(e) => e,
        None => Seq::empty(),
    }
}

pub open spec fn opt_bytes(b: Option<Vec<u8>>) -> Option<Seq<u8>> {
    match b {
        Some(v) => Some(v@),
        None => None,
    }
}

/// The contents of a new profile `name`: a copy of `.env` when it exists
/// (`env`), otherwise empty. `AlreadyExists` when the profile exists.
pub fn create(name: &str, profile_exists: bool, env: Option<Vec<u8>>) -> (r: Result<Vec<u8>, ProfileError>)
    ensures
        profile_exists ==> (r matches Err(ProfileError::AlreadyExists(n)) && n@ == name@),
        !profile_exists ==> (r matches Ok(c) && c@ == created_content(opt_bytes(env))),
{
    if profile_exists {
        return Err(ProfileError::AlreadyExists(name.to_owned()));
    }
    match env {
        Some(e) => Ok(e),
        None => Ok(Vec::new()),
    }
}

/// The new `.env` when switching to profile `name`: the profile's contents
/// (`profile`, absent when there is no such profile). `NotFound` otherwise.
pub fn switch_to(name: &str, profile: Option<Vec<u8>>) -> (r: Result<Vec<u8>, ProfileError>)
    ensures
        match profile {
            Some(c) => r matches Ok(e) && e@ == c@,
            None => r matches Err(ProfileError::NotFound(n)) && n@ == name@,
        },
{
    match profile {
        Some(c) => Ok(c),
        None => Err(ProfileError::NotFound(name.to_owned())),
    }
}

/// A profile made by `create` holds the `.env` it was made from, or nothing
/// when there was none; `switch_to` hands that content back as the new `.env`.
pub proof fn lemma_switch_restores_created(env: Option<Seq<u8>>)
    ensures
        env matches Some(e) ==> created_content(env) == e,
        env is None ==> created_content(env).len() == 0,
{
}

// ── Listing ──────────────────────────────────────────────────────────────────

/// The file-name suffix of a profile.
pub open spec fn env_suffix() -> Seq<char> {
    seq!['.', 'e', 'n', 'v']
}

/// `s` with every trailing `suffix` removed, as `str::trim_end_matches` does.
pub open spec fn strip_suffixes(s: Seq<char>, suffix: Seq<char>) -> Seq<char>
    decreases s.len(),
{
    if suffix.len() > 0 && crate::text::ends_with(s, suffix) {
        strip_suffixes(s.take(s.len() - suffix.len()), suffix)
    } else {
        s
    }
}

/// The profile a file of the profiles directory holds, if it is one.
pub open spec fn profile_name_of(file: Seq<char>) -> Option<Seq<char>> {
    if crate::text::ends_with(file, env_suffix()) {
        Some(strip_suffixes(file, env_suffix()))
    } else {
        None
    }
}

/// The profiles that the files hold, in the order of the files.
pub open spec fn profile_names(files: Seq<Seq<char>>) -> Seq<Seq<char>>
    decreases files.len(),
{
    if files.len() == 0 {
        Seq::empty()
    } else {
        let rest = profile_names(files.drop_last());
        match profile_name_of(files.last()) {
            Some(n) => rest.push(n),
            None => rest,
        }
    }
}

/// Code-point order of texts, which for UTF-8 strings is the byte order
/// that `String` sorts by.
pub open spec fn lex_le(a: Seq<char>, b: Seq<char>) -> bool
    decreases a.len(),
{
    if a.len() == 0 {
        true
    } else if b.len() == 0 {
        false
    } else if a[0] != b[0] {
        (a[0] as int) < (b[0] as int)
    } else {
        lex_le(a.drop_first(), b.drop_first())
    }
}

pub proof fn lemma_lex_total(a: Seq<char>, b: Seq<char>)
    ensures
        lex_le(a, b) || lex_le(b, a),
    decreases a.len(),
{
    if a.len() > 0 && b.len() > 0 && a[0] == b[0] {
        lemma_lex_total(a.drop_first(), b.drop_first());
    }
}

pub proof fn lemma_lex_trans(a: Seq<char>, b: Seq<char>, c: Seq<char>)
    requires
        lex_le(a, b),
        lex_le(b, c),
    ensures
        lex_le(a, c),
    decreases a.len(),
{
    if a.len() > 0 && b.len() > 0 && c.len() > 0 && a[0] == b[0] && b[0] == c[0] {
        lemma_lex_trans(a.drop_first(), b.drop_first(), c.drop_first());
    }
}

pub proof fn lemma_lex_antisym(a: Seq<char>, b: Seq<char>)
    requires
        lex_le(a, b),
        lex_le(b, a),
    ensures
        a == b,
    decreases a.len(),
{
    if a.len() > 0 && b.len() > 0 {
        lemma_lex_antisym(a.drop_first(), b.drop_first());
        assert(a =~= seq![a[0]] + a.drop_first());
        assert(b =~= seq![b[0]] + b.drop_first());
    } else {
        assert(a.len() == 0 && b.len() == 0);
        assert(a =~= b);
    }
}

/// `a` comes no later than `b` in code-point order: `a` is a prefix of `b`,
/// or at the first position where they differ `a`'s character is smaller.
pub open spec fn in_code_point_order(a: Seq<char>, b: Seq<char>) -> bool {
    ||| (a.len() <= b.len() && b.take(a.len() as int) == a)
    ||| exists|i: int|
        0 <= i < a.len() && i < b.len() && a.take(i) == b.take(i) && (a[i] as int) < (b[i] as int)
}

/// The order that `list` sorts by is code-point order.
pub proof fn lemma_lex_le_is_code_point_order(a: Seq<char>, b: Seq<char>)
    requires
        lex_le(a, b),
    ensures
        in_code_point_order(a, b),
    decreases a.len(),
{
    if a.len() == 0 {
        assert(b.take(0) =~= a);
    } else if a[0] != b[0] {
        assert(a.take(0) =~= b.take(0));
    } else {
        let (a1, b1) = (a.drop_first(), b.drop_first());
        lemma_lex_le_is_code_point_order(a1, b1);
        if a1.len() <= b1.len() && b1.take(a1.len() as int) == a1 {
            assert(b.take(a.len() as int) =~= seq![a[0]] + b1.take(a1.len() as int));
            assert(a =~= seq![a[0]] + a1);
        } else {
            let i = choose|i: int| 0 <= i < a1.len() && i < b1.len() && a1.take(i) == b1.take(i) && (a1[i] as int) < (b1[i] as int);
            assert(a.take(i + 1) =~= seq![a[0]] + a1.take(i));
            assert(b.take(i + 1) =~= seq![b[0]] + b1.take(i));
            assert(a[i + 1] == a1[i] && b[i + 1] == b1[i]);
        }
    }
}

/// The texts are in ascending order.
pub open spec fn sorted(s: Seq<Seq<char>>) -> bool {
    forall|i: int, j: int| 0 <= i < j < s.len() ==> lex_le(#[trigger] s[i], #[trigger] s[j])
}

fn lex_le_exec(a: &Vec<char>, b: &Vec<char>) -> (r: bool)
    ensures
        r == lex_le(a@, b@),
{
    let mut i: usize = 0;
    assert(a@.skip(0) =~= a@);
    assert(b@.skip(0) =~= b@);
    while i < a.len() && i < b.len() && a[i] == b[i]
        invariant
            0 <= i <= a@.len(),
            i <= b@.len(),
            forall|k: int| 0 <= k < i ==> a@[k] == b@[k],
            lex_le(a@, b@) == lex_le(a@.skip(i as int), b@.skip(i as int)),
        decreases a@.len() - i,
    {
        assert(a@.skip(i as int).drop_first() =~= a@.skip(i + 1));
        assert(b@.skip(i as int).drop_first() =~= b@.skip(i + 1));
        i = i + 1;
    }
    if i == a.len() {
        true
    } else if i == b.len() {
        false
    } else {
        a[i] < b[i]
    }
}

fn strip_env_suffixes(f: &Vec<char>) -> (r: Vec<char>)
    requires
        crate::text::ends_with(f@, env_suffix()),
    ensures
        r@ == strip_suffixes(f@, env_suffix()),
{
    let mut end: usize = f.len();
    let suffix = chars_of(".env");
    proof {
        reveal_strlit(".env");
        assert(suffix@ =~= env_suffix());
    }
    assert(f@.take(end as int) =~= f@);
    loop
        invariant
            end <= f@.len(),
            suffix@ == env_suffix(),
            strip_suffixes(f@, env_suffix()) == strip_suffixes(f@.take(end as int), env_suffix()),
        ensures
            end <= f@.len(),
            strip_suffixes(f@, env_suffix()) == f@.take(end as int),
        decreases end,
    {
        let ghost cur = f@.take(end as int);
        if end < 4 {
            assert(!crate::text::ends_with(cur, env_suffix()));
            assert(strip_suffixes(cur, env_suffix()) == cur);
            break;
        }
        let at_end = has_prefix_at(f, end - 4, &suffix);
        assert(f@.subrange(end - 4, f@.len() as int).subrange(0, 4) =~= cur.subrange(
            cur.len() - 4,
            cur.len() as int,
        ));
        if !at_end {
            assert(!crate::text::ends_with(cur, env_suffix()));
            assert(strip_suffixes(cur, env_suffix()) == cur);
            break;
        }
        assert(crate::text::ends_with(cur, env_suffix()));
        assert(cur.take(cur.len() - 4) =~= f@.take(end - 4));
        end = end - 4;
    }
    assert(f@.subrange(0, end as int) =~= f@.take(end as int));
    copy_range(f, 0, end)
}

fn profile_name_exec(f: &Vec<char>) -> (r: Option<Vec<char>>)
    ensures
        match r {
            Some(n) => profile_name_of(f@) == Some(n@),
            None => profile_name_of(f@) is None,
        },
{
    let suffix = chars_of(".env");
    proof {
        reveal_strlit(".env");
        assert(suffix@ =~= env_suffix());
    }
    if f.len() < 4 {
        return None;
    }
    let e = has_prefix_at(f, f.len() - 4, &suffix);
    assert(f@.subrange(f@.len() - 4, f@.len() as int).subrange(0, 4) =~= f@.subrange(
        f@.len() - 4,
        f@.len() as int,
    ));
    if !e {
        return None;
    }
    Some(strip_env_suffixes(f))
}

fn sorted_insert(r: &mut Vec<Vec<char>>, x: Vec<char>)
    requires
        sorted(lines_view(old(r)@)),
    ensures
        sorted(lines_view(final(r)@)),
        lines_view(final(r)@).to_multiset() == lines_view(old(r)@).to_multiset().insert(x@),
{
    let ghost s = lines_view(r@);
    let mut pos: usize = 0;
    while pos < r.len() && lex_le_exec(&r[pos], &x)
        invariant
            0 <= pos <= r@.len(),
            s == lines_view(r@),
            forall|k: int| 0 <= k < pos ==> lex_le(#[trigger] s[k], x@),
        decreases r@.len() - pos,
    {
        pos = pos + 1;
    }
    let ghost xv = x@;
    r.insert(pos, x);
    proof {
        let t = lines_view(r@);
        assert(t =~= s.insert(pos as int, xv));
        vstd::seq_lib::to_multiset_insert(s, pos as int, xv);
        if pos < s.len() {
            lemma_lex_total(s[pos as int], xv);
        }
        assert forall|i: int, j: int| 0 <= i < j < t.len() implies lex_le(#[trigger] t[i], #[trigger] t[j]) by {
            if i < pos && j == pos {
            } else if i < pos && j > pos {
                assert(t[j] == s[j - 1]);
                lemma_lex_total(s[pos as int], xv);
                if j - 1 > pos {
                    lemma_lex_trans(xv, s[pos as int], s[j - 1]);
                }
                lemma_lex_trans(s[i], xv, s[j - 1]);
            } else if i == pos {
                assert(t[j] == s[j - 1]);
                if j - 1 > pos {
                    lemma_lex_trans(xv, s[pos as int], s[j - 1]);
                }
            } else if i > pos {
                assert(t[i] == s[i - 1]);
                assert(t[j] == s[j - 1]);
            }
        }
    }
}

/// The listing of profiles: each name with whether it is the active one.
pub open spec fn listing_view(v: Seq<(String, bool)>) -> Seq<(Seq<char>, bool)> {
    v.map_values(|p: (String, bool)| (p.0@, p.1))
}

/// The active profile as `list` compares names with it: empty when none.
pub open spec fn active_or_empty(active: Option<Seq<char>>) -> Seq<char> {
    match active {
        Some(a) => a,
        None => Seq::empty(),
    }
}

/// The profiles held by the files of the profiles directory, sorted, each
/// with whether it is the active profile.
///
/// A file holds a profile when its name ends with `.env`; the profile's name
/// is the file name with every trailing `.env` removed.
pub fn list(file_names: &Vec<String>, active: &Option<String>) -> (r: Vec<(String, bool)>)
    ensures
        sorted(listing_view(r@).map_values(|p: (Seq<char>, bool)| p.0)),
        listing_view(r@).map_values(|p: (Seq<char>, bool)| p.0).to_multiset() == profile_names(
            strings_view(file_names@),
        ).to_multiset(),
        forall|i: int| 0 <= i < r@.len() ==> (#[trigger] r@[i]).1 == (r@[i].0@ == active_or_empty(
            opt_view(*active),
        )),
        forall|i: int, j: int| 0 <= i < j < r@.len() ==> in_code_point_order(#[trigger] r@[i].0@, #[trigger] r@[j].0@),
{
    let ghost files = strings_view(file_names@);
    let mut names: Vec<Vec<char>> = Vec::new();
    let mut i: usize = 0;
    assert(files.take(0) =~= Seq::<Seq<char>>::empty());
    assert(lines_view(names@) =~= Seq::<Seq<char>>::empty());
    while i < file_names.len()
        invariant
            0 <= i <= file_names@.len(),
            files == strings_view(file_names@),
            sorted(lines_view(names@)),
            lines_view(names@).to_multiset() == profile_names(files.take(i as int)).to_multiset(),
        decreases file_names@.len() - i,
    {
        let f = chars_of(file_names[i].as_str());
        assert(files.take(i + 1).drop_last() =~= files.take(i as int));
        assert(files.take(i + 1).last() == f@);
        match profile_name_exec(&f) {
            Some(n) => {
                proof {
                    vstd::seq_lib::to_multiset_build(profile_names(files.take(i as int)), n@);
                }
                sorted_insert(&mut names, n);
            },
            None => {},
        }
        i = i + 1;
    }
    assert(files.take(file_names@.len() as int) =~= files);
    let act: Vec<char> = match active {
        Some(a) => chars_of(a.as_str()),
        None => Vec::new(),
    };
    let mut out: Vec<(String, bool)> = Vec::new();
    let mut k: usize = 0;
    while k < names.len()
        invariant
            0 <= k <= names@.len(),
            act@ == active_or_empty(opt_view(*active)),
            listing_view(out@).map_values(|p: (Seq<char>, bool)| p.0) == lines_view(names@).take(
                k as int,
            ),
            forall|m: int| 0 <= m < out@.len() ==> (#[trigger] out@[m]).1 == (out@[m].0@
                == act@),
            out@.len() == k,
        decreases names@.len() - k,
    {
        let is_active = crate::text::chars_eq(&names[k], &act);
        let s = string_of(&names[k]);
        out.push((s, is_active));
        assert(listing_view(out@).map_values(|p: (Seq<char>, bool)| p.0) =~= lines_view(
            names@,
        ).take(k + 1));
        k = k + 1;
    }
    assert(lines_view(names@).take(names@.len() as int) =~= lines_view(names@));
    proof {
        let ns = listing_view(out@).map_values(|p: (Seq<char>, bool)| p.0);
        assert forall|i: int, j: int| 0 <= i < j < out@.len() implies in_code_point_order(#[trigger] out@[i].0@, #[trigger] out@[j].0@) by {
            assert(ns[i] == out@[i].0@ && ns[j] == out@[j].0@);
            lemma_lex_le_is_code_point_order(ns[i], ns[j]);
        }
    }
    out
}

// ── Diff ─────────────────────────────────────────────────────────────────────

/// The variables as a map: for a key set on several lines the last one
/// wins, as collecting the pairs into a map does.
pub open spec fn env_map(vars: Seq<(Seq<char>, Seq<char>)>) -> Map<Seq<char>, Seq<char>>
    decreases vars.len(),
{
    if vars.len() == 0 {
        Map::empty()
    } else {
        env_map(vars.drop_last()).insert(vars.last().0, vars.last().1)
    }
}

/// How two profiles differ, key by key.
#[derive(Debug, PartialEq, Eq)]
pub struct ProfileDiff {
    /// Keys of the first profile that the second lacks.
    pub removed: Vec<String>,
    /// Keys of the second profile that the first lacks.
    pub added: Vec<String>,
    /// Keys of both whose values differ.
    pub changed: Vec<String>,
}

/// The keys set in the first map and not in the second.
pub open spec fn only_in(a: Map<Seq<char>, Seq<char>>, b: Map<Seq<char>, Seq<char>>, k: Seq<char>) -> bool {
    a.dom().contains(k) && !b.dom().contains(k)
}

/// The keys set in both maps, to different values.
pub open spec fn changed_in(a: Map<Seq<char>, Seq<char>>, b: Map<Seq<char>, Seq<char>>, k: Seq<char>) -> bool {
    a.dom().contains(k) && b.dom().contains(k) && a[k] != b[k]
}

/// `d` lists exactly the differences between the two variable lists, each key once.
pub open spec fn is_diff_of(d: ProfileDiff, a: Seq<(Seq<char>, Seq<char>)>, b: Seq<(Seq<char>, Seq<char>)>) -> bool {
    let (ma, mb) = (env_map(a), env_map(b));
    let (removed, added, changed) = (strings_view(d.removed@), strings_view(d.added@), strings_view(d.changed@));
    &&& removed.no_duplicates()
    &&& added.no_duplicates()
    &&& changed.no_duplicates()
    &&& forall|k: Seq<char>| removed.contains(k) <==> only_in(ma, mb, k)
    &&& forall|k: Seq<char>| added.contains(k) <==> only_in(mb, ma, k)
    &&& forall|k: Seq<char>| changed.contains(k) <==> changed_in(ma, mb, k)
}

proof fn lemma_env_map_dom(vv: Seq<(Seq<char>, Seq<char>)>, k: Seq<char>)
    ensures
        env_map(vv).dom().contains(k) <==> exists|j: int| 0 <= j < vv.len() && (#[trigger] vv[j]).0 == k,
    decreases vv.len(),
{
    if vv.len() > 0 {
        lemma_env_map_dom(vv.drop_last(), k);
        if env_map(vv).dom().contains(k) && vv.last().0 != k {
            let j = choose|j: int| 0 <= j < vv.drop_last().len() && (#[trigger] vv.drop_last()[j]).0 == k;
            assert(vv[j] == vv.drop_last()[j]);
        }
        if exists|j: int| 0 <= j < vv.len() && (#[trigger] vv[j]).0 == k {
            let j = choose|j: int| 0 <= j < vv.len() && (#[trigger] vv[j]).0 == k;
            if j < vv.len() - 1 {
                assert(vv.drop_last()[j] == vv[j]);
            }
        }
    }
}

proof fn lemma_env_map_prefix(vv: Seq<(Seq<char>, Seq<char>)>, i: int, k: Seq<char>)
    requires
        0 <= i <= vv.len(),
        forall|j: int| i <= j < vv.len() ==> (#[trigger] vv[j]).0 != k,
    ensures
        env_map(vv).dom().contains(k) == env_map(vv.take(i)).dom().contains(k),
        env_map(vv).dom().contains(k) ==> env_map(vv)[k] == env_map(vv.take(i))[k],
    decreases vv.len(),
{
    if i == vv.len() {
        assert(vv.take(i) =~= vv);
    } else {
        let d = vv.drop_last();
        assert forall|j: int| i <= j < d.len() implies (#[trigger] d[j]).0 != k by {
            assert(d[j] == vv[j]);
        }
        lemma_env_map_prefix(d, i, k);
        assert(d.take(i) =~= vv.take(i));
        assert(vv[vv.len() - 1].0 != k);
    }
}

/// Entry `i` of the list sets key `k`, and no later entry does: its value is
/// the one that counts for `k`.
pub open spec fn is_last_key(s: Seq<(Seq<char>, Seq<char>)>, i: int, k: Seq<char>) -> bool {
    0 <= i < s.len() && s[i].0 == k && forall|j: int| i < j < s.len() ==> s[j].0 != k
}

/// Some entry of the list sets key `k`.
pub open spec fn has_key(s: Seq<(Seq<char>, Seq<char>)>, k: Seq<char>) -> bool {
    exists|j: int| 0 <= j < s.len() && s[j].0 == k
}

/// The map of the variables holds, for each key, the value of its last entry.
pub proof fn lemma_env_map_last(s: Seq<(Seq<char>, Seq<char>)>, i: int, k: Seq<char>)
    requires
        is_last_key(s, i, k),
    ensures
        env_map(s).dom().contains(k),
        env_map(s)[k] == s[i].1,
{
    lemma_env_map_prefix(s, i + 1, k);
    let t = s.take(i + 1);
    assert(t.drop_last() =~= s.take(i));
    assert(t.last() == s[i]);
}

/// What `diff` reports, in terms of the two lists of variables: a key is
/// removed when only the first list sets it, added when only the second
/// does, and changed exactly when both set it and their last values differ,
/// whatever those values are.
pub proof fn lemma_diff_by_last_values(a: Seq<(Seq<char>, Seq<char>)>, b: Seq<(Seq<char>, Seq<char>)>, d: ProfileDiff)
    requires
        is_diff_of(d, a, b),
    ensures
        forall|k: Seq<char>, ia: int, ib: int|
            #![trigger is_last_key(a, ia, k), is_last_key(b, ib, k)]
            is_last_key(a, ia, k) && is_last_key(b, ib, k) ==> (strings_view(d.changed@).contains(k)
                <==> a[ia].1 != b[ib].1),
        forall|k: Seq<char>| strings_view(d.changed@).contains(k) ==> has_key(a, k) && has_key(b, k),
        forall|k: Seq<char>| strings_view(d.removed@).contains(k) <==> (has_key(a, k) && !has_key(b, k)),
        forall|k: Seq<char>| strings_view(d.added@).contains(k) <==> (has_key(b, k) && !has_key(a, k)),
{
    assert forall|k: Seq<char>, ia: int, ib: int|
        #![trigger is_last_key(a, ia, k), is_last_key(b, ib, k)]
        is_last_key(a, ia, k) && is_last_key(b, ib, k) implies (strings_view(d.changed@).contains(k)
            <==> a[ia].1 != b[ib].1) by {
        lemma_env_map_last(a, ia, k);
        lemma_env_map_last(b, ib, k);
    }
    assert forall|k: Seq<char>| strings_view(d.changed@).contains(k) implies has_key(a, k) && has_key(b, k) by {
        lemma_env_map_dom(a, k);
        lemma_env_map_dom(b, k);
    }
    assert forall|k: Seq<char>| strings_view(d.removed@).contains(k) <==> (has_key(a, k) && !has_key(b, k)) by {
        lemma_env_map_dom(a, k);
        lemma_env_map_dom(b, k);
    }
    assert forall|k: Seq<char>| strings_view(d.added@).contains(k) <==> (has_key(b, k) && !has_key(a, k)) by {
        lemma_env_map_dom(a, k);
        lemma_env_map_dom(b, k);
    }
}

fn lookup(vars: &Vec<(String, String)>, key: &String) -> (r: Option<usize>)
    ensures
        match r {
            Some(i) => i < vars@.len() && env_map(crate::crypto::vars_view(vars@)).dom().contains(key@)
                && env_map(crate::crypto::vars_view(vars@))[key@] == vars@[i as int].1@,
            None => !env_map(crate::crypto::vars_view(vars@)).dom().contains(key@),
        },
{
    let ghost vv = crate::crypto::vars_view(vars@);
    let mut i: usize = vars.len();
    while i > 0
        invariant
            i <= vars@.len(),
            vv == crate::crypto::vars_view(vars@),
            forall|j: int| i <= j < vv.len() ==> (#[trigger] vv[j]).0 != key@,
        decreases i,
    {
        let ghost t = vv.take(i as int);
        assert(t.drop_last() =~= vv.take(i - 1));
        assert(t.last() == vv[i - 1]);
        if vars[i - 1].0 == *key {
            proof {
                lemma_env_map_prefix(vv, i as int, key@);
            }
            return Some(i - 1);
        }
        i = i - 1;
    }
    proof {
        lemma_env_map_prefix(vv, 0, key@);
        assert(vv.take(0) =~= Seq::<(Seq<char>, Seq<char>)>::empty());
    }
    None
}

fn seen_before(vars: &Vec<(String, String)>, i: usize) -> (r: bool)
    requires
        i < vars@.len(),
    ensures
        r == exists|j: int| 0 <= j < i && (#[trigger] vars@[j]).0@ == vars@[i as int].0@,
{
    let mut j: usize = 0;
    while j < i
        invariant
            j <= i < vars@.len(),
            forall|m: int| 0 <= m < j ==> (#[trigger] vars@[m]).0@ != vars@[i as int].0@,
        decreases i - j,
    {
        if vars[j].0 == vars[i].0 {
            return true;
        }
        j = j + 1;
    }
    false
}

/// Keys of `a` that `b` lacks (`changes` false), or keys of both whose
/// values differ (`changes` true), each once.
fn keys_where(a: &Vec<(String, String)>, b: &Vec<(String, String)>, changes: bool) -> (r: Vec<String>)
    ensures
        strings_view(r@).no_duplicates(),
        forall|k: Seq<char>| strings_view(r@).contains(k) <==> if changes {
            changed_in(env_map(crate::crypto::vars_view(a@)), env_map(crate::crypto::vars_view(b@)), k)
        } else {
            only_in(env_map(crate::crypto::vars_view(a@)), env_map(crate::crypto::vars_view(b@)), k)
        },
{
    let ghost av = crate::crypto::vars_view(a@);
    let ghost ma = env_map(av);
    let ghost mb = env_map(crate::crypto::vars_view(b@));
    let ghost wanted = |k: Seq<char>| if changes { changed_in(ma, mb, k) } else { only_in(ma, mb, k) };
    let mut r: Vec<String> = Vec::new();
    let mut i: usize = 0;
    while i < a.len()
        invariant
            i <= a@.len(),
            av == crate::crypto::vars_view(a@),
            ma == env_map(av),
            mb == env_map(crate::crypto::vars_view(b@)),
            wanted == (|k: Seq<char>| if changes { changed_in(ma, mb, k) } else { only_in(ma, mb, k) }),
            strings_view(r@).no_duplicates(),
            forall|k: Seq<char>| strings_view(r@).contains(k) <==> (wanted(k) && exists|j: int| 0 <= j < i && (#[trigger] av[j]).0 == k),
        decreases a@.len() - i,
    {
        let key = &a[i].0;
        let ghost kv = key@;
        assert(av[i as int].0 == kv);
        let seen = seen_before(a, i);
        let ghost before = strings_view(r@);
        if !seen {
            let in_a = lookup(a, key);
            let in_b = lookup(b, key);
            let want = match (in_a, in_b) {
                (Some(x), Some(y)) => changes && a[x].1 != b[y].1,
                (Some(_), None) => !changes,
                _ => false,
            };
            proof {
                lemma_env_map_dom(av, kv);
            }
            if want {
                r.push(key.clone());
                assert(strings_view(r@) =~= before.push(kv));
                assert(!before.contains(kv)) by {
                    if before.contains(kv) {
                        let j = choose|j: int| 0 <= j < i && (#[trigger] av[j]).0 == kv;
                        assert(a@[j].0@ == a@[i as int].0@);
                    }
                }
                assert forall|m: int, n: int| 0 <= m < n < strings_view(r@).len() implies strings_view(r@)[m] != strings_view(r@)[n] by {
                    if n == strings_view(r@).len() - 1 {
                        assert(before.contains(before[m]));
                    }
                }
            }
            assert forall|k: Seq<char>| strings_view(r@).contains(k) <==> (wanted(k) && exists|j: int| 0 <= j < i + 1 && (#[trigger] av[j]).0 == k) by {
                if k == kv {
                    assert(av[i as int].0 == k);
                    if want {
                        assert(strings_view(r@)[strings_view(r@).len() - 1] == k);
                    }
                } else {
                    if strings_view(r@).contains(k) && want {
                        let m = choose|m: int| 0 <= m < strings_view(r@).len() && strings_view(r@)[m] == k;
                        assert(before[m] == k);
                    }
                    if before.contains(k) && want {
                        let m = choose|m: int| 0 <= m < before.len() && before[m] == k;
                        assert(strings_view(r@)[m] == k);
                    }
                    if exists|j: int| 0 <= j < i + 1 && (#[trigger] av[j]).0 == k {
                        let j = choose|j: int| 0 <= j < i + 1 && (#[trigger] av[j]).0 == k;
                        assert(j < i);
                    }
                }
            }
        } else {
            assert forall|k: Seq<char>| strings_view(r@).contains(k) <==> (wanted(k) && exists|j: int| 0 <= j < i + 1 && (#[trigger] av[j]).0 == k) by {
                if exists|j: int| 0 <= j < i + 1 && (#[trigger] av[j]).0 == k {
                    let j = choose|j: int| 0 <= j < i + 1 && (#[trigger] av[j]).0 == k;
                    if j == i {
                        let j2 = choose|j2: int| 0 <= j2 < i && (#[trigger] a@[j2]).0@ == a@[i as int].0@;
                        assert(av[j2].0 == k);
                    }
                }
            }
        }
        i = i + 1;
    }
    assert forall|k: Seq<char>| strings_view(r@).contains(k) <==> wanted(k) by {
        lemma_env_map_dom(av, k);
    }
    r
}

/// How the variables of two profiles differ: keys only in the first, keys
/// only in the second, and keys in both with different values (a key set
/// on several lines counts with its last value).
pub fn diff_vars(a: &Vec<(String, String)>, b: &Vec<(String, String)>) -> (r: ProfileDiff)
    ensures
        is_diff_of(r, crate::crypto::vars_view(a@), crate::crypto::vars_view(b@)),
        forall|k: Seq<char>, ia: int, ib: int|
            #![trigger is_last_key(crate::crypto::vars_view(a@), ia, k), is_last_key(crate::crypto::vars_view(b@), ib, k)]
            is_last_key(crate::crypto::vars_view(a@), ia, k) && is_last_key(crate::crypto::vars_view(b@), ib, k)
                ==> (strings_view(r.changed@).contains(k) <==> a@[ia].1@ != b@[ib].1@),
{
    let removed = keys_where(a, b, false);
    let added = keys_where(b, a, false);
    let changed = keys_where(a, b, true);
    let r = ProfileDiff { removed, added, changed };
    proof {
        let (av, bv) = (crate::crypto::vars_view(a@), crate::crypto::vars_view(b@));
        lemma_diff_by_last_values(av, bv, r);
        assert forall|k: Seq<char>, ia: int, ib: int|
            #![trigger is_last_key(av, ia, k), is_last_key(bv, ib, k)]
            is_last_key(av, ia, k) && is_last_key(bv, ib, k)
                implies (strings_view(r.changed@).contains(k) <==> a@[ia].1@ != b@[ib].1@) by {
            assert(av[ia].1 == a@[ia].1@ && bv[ib].1 == b@[ib].1@);
        }
    }
    r
}

/// Compares the texts of two profiles: both are parsed as `parse_env_bytes`
/// does (the first one's error first), then compared key by key.
pub fn diff(content_a: &[u8], content_b: &[u8]) -> (r: Result<ProfileDiff, crate::crypto::CryptoError>)
    ensures
        match (crate::crypto::parse_env_spec(content_a@), crate::crypto::parse_env_spec(content_b@)) {
            (Ok(va), Ok(vb)) => r matches Ok(d) && is_diff_of(d, va, vb),
            (Err(e), _) => r == Err::<ProfileDiff, crate::crypto::CryptoError>(e),
            (Ok(_), Err(e)) => r == Err::<ProfileDiff, crate::crypto::CryptoError>(e),
        },
{
    let va = crate::crypto::parse_env_bytes(content_a)?;
    let vb = crate::crypto::parse_env_bytes(content_b)?;
    Ok(diff_vars(&va, &vb))
}

/// Two profiles whose texts parse to the same variables have no differences.
pub proof fn lemma_diff_of_same(a: Seq<(Seq<char>, Seq<char>)>, d: ProfileDiff)
    requires
        is_diff_of(d, a, a),
    ensures
        strings_view(d.removed@).len() == 0,
        strings_view(d.added@).len() == 0,
        strings_view(d.changed@).len() == 0,
{
    let m = env_map(a);
    if strings_view(d.removed@).len() > 0 {
        assert(strings_view(d.removed@).contains(strings_view(d.removed@)[0]));
    }
    if strings_view(d.added@).len() > 0 {
        assert(strings_view(d.added@).contains(strings_view(d.added@)[0]));
    }
    if strings_view(d.changed@).len() > 0 {
        assert(strings_view(d.changed@).contains(strings_view(d.changed@)[0]));
    }
}

/// Comparing in the other direction swaps the removed and added keys and
/// finds the same changed keys.
pub proof fn lemma_diff_swapped(a: Seq<(Seq<char>, Seq<char>)>, b: Seq<(Seq<char>, Seq<char>)>, d: ProfileDiff, e: ProfileDiff)
    requires
        is_diff_of(d, a, b),
        is_diff_of(e, b, a),
    ensures
        forall|k: Seq<char>| strings_view(d.removed@).contains(k) <==> strings_view(e.added@).contains(k),
        forall|k: Seq<char>| strings_view(d.added@).contains(k) <==> strings_view(e.removed@).contains(k),
        forall|k: Seq<char>| strings_view(d.changed@).contains(k) <==> strings_view(e.changed@).contains(k),
{
}

// ── The laws of `add_entry` ──────────────────────────────────────────────────

/// After `add_entry` with an entry of one line that parses to `(key, value)`,
/// the variables of the text map `key` to `value`: the added entry is what
/// `run` and `diff` read back for that key.
pub proof fn lemma_added_entry_read_back(content: Seq<char>, entry: Seq<char>)
    requires
        forall|m: int| 0 <= m < entry.len() ==> #[trigger] entry[m] != '\n',
        (crate::crypto::parse_line(entry) is Some),
    ensures
        ({
            let (k, v) = crate::crypto::parse_line(entry)->0;
            let vars = env_map(crate::crypto::parse_env_text(add_entry_spec(content, entry)));
            vars.dom().contains(k) && vars[k] == v
        }),
{
    let x = end_line(join_lines(lines_without(lines(content), key_prefix(entry))));
    let t = entry + seq!['\n'];
    assert(add_entry_spec(content, entry) =~= x + t);
    crate::crypto::lemma_parse_text_concat(x, t);
    lemma_find_char_is(t, '\n', entry.len() as int);
    assert(t.take(entry.len() as int) =~= entry);
    let rest = t.skip(entry.len() + 1int);
    assert(rest =~= Seq::<char>::empty());
    assert(rest.take(0) =~= rest);
    assert(crate::text::trim_ws(rest) =~= rest);
    assert(crate::crypto::parse_env_text(rest) =~= Seq::<(Seq<char>, Seq<char>)>::empty());
    let p = crate::crypto::parse_line(entry)->0;
    assert(crate::crypto::parse_env_text(t) =~= seq![p]);
    let all = crate::crypto::parse_env_text(x + t);
    assert(all =~= crate::crypto::parse_env_text(x).push(p));
    assert(all.drop_last() =~= crate::crypto::parse_env_text(x));
}

/// `a` is a prefix of `b`.
pub open spec fn is_prefix(a: Seq<char>, b: Seq<char>) -> bool {
    a.len() <= b.len() && b.take(a.len() as int) == a
}

proof fn lemma_lines_concat(x: Seq<char>, y: Seq<char>)
    requires
        x.len() == 0 || x.last() == '\n',
    ensures
        lines(x + y) == lines(x) + lines(y),
    decreases x.len(),
{
    if x.len() == 0 {
        assert(x + y =~= y);
        assert(lines(x) =~= Seq::<Seq<char>>::empty());
        assert(lines(x) + lines(y) =~= lines(y));
    } else {
        lemma_find_char(x, '\n');
        let j = find_char(x, '\n') as int;
        if j >= x.len() {
            assert(x[x.len() - 1] == '\n');
        }
        assert(j < x.len());
        lemma_find_char_is(x + y, '\n', j);
        assert((x + y).take(j) =~= x.take(j));
        assert((x + y).skip(j + 1) =~= x.skip(j + 1) + y);
        let rest = x.skip(j + 1);
        if rest.len() > 0 {
            assert(rest.last() == x.last());
        }
        lemma_lines_concat(rest, y);
        assert(lines(x + y) =~= seq![strip_cr(x.take(j))] + (lines(rest) + lines(y)));
    }
}

proof fn lemma_lines_single(k: Seq<char>)
    requires
        forall|m: int| 0 <= m < k.len() ==> #[trigger] k[m] != '\n',
    ensures
        lines(k + seq!['\n']) == seq![strip_cr(k)],
{
    let t = k + seq!['\n'];
    lemma_find_char_is(t, '\n', k.len() as int);
    assert(t.take(k.len() as int) =~= k);
    assert(t.skip(k.len() + 1int) =~= Seq::<char>::empty());
    assert(lines(t.skip(k.len() + 1int)) =~= Seq::<Seq<char>>::empty());
    assert(lines(t) =~= seq![strip_cr(k)]);
}

proof fn lemma_lines_no_newline(s: Seq<char>)
    ensures
        forall|i: int, m: int|
            0 <= i < lines(s).len() && 0 <= m < lines(s)[i].len() ==> #[trigger] lines(s)[i][m]
                != '\n',
    decreases s.len(),
{
    if s.len() > 0 {
        lemma_find_char(s, '\n');
        let j = find_char(s, '\n') as int;
        if j < s.len() {
            lemma_lines_no_newline(s.skip(j + 1));
            assert forall|i: int, m: int|
                0 <= i < lines(s).len() && 0 <= m < lines(s)[i].len() implies #[trigger] lines(
                s,
            )[i][m] != '\n' by {
                if i > 0 {
                    assert(lines(s)[i] == lines(s.skip(j + 1))[i - 1]);
                } else {
                    assert(lines(s)[0] == strip_cr(s.take(j)));
                    assert(lines(s)[0][m] == s[m]);
                }
            }
        }
    }
}

proof fn lemma_without_props(ls: Seq<Seq<char>>, p: Seq<char>)
    ensures
        forall|i: int| 0 <= i < lines_without(ls, p).len() ==> !starts_with(
            #[trigger] lines_without(ls, p)[i],
            p,
        ),
        forall|i: int|
            0 <= i < lines_without(ls, p).len() ==> exists|j: int|
                0 <= j < ls.len() && #[trigger] lines_without(ls, p)[i] == ls[j],
    decreases ls.len(),
{
    if ls.len() > 0 {
        let rest = ls.drop_last();
        lemma_without_props(rest, p);
        let w = lines_without(ls, p);
        assert forall|i: int| 0 <= i < w.len() implies exists|j: int|
            0 <= j < ls.len() && #[trigger] w[i] == ls[j] by {
            if i < lines_without(rest, p).len() {
                let j = choose|j: int| 0 <= j < rest.len() && lines_without(rest, p)[i] == rest[j];
                assert(w[i] == ls[j]);
            } else {
                assert(w[i] == ls[ls.len() - 1]);
            }
        }
    }
}

proof fn lemma_end_line_join(ks: Seq<Seq<char>>)
    requires
        forall|j: int, m: int| 0 <= j < ks.len() && 0 <= m < ks[j].len() ==> #[trigger] ks[j][m] != '\n',
    ensures
        end_line(join_lines(ks)).len() == 0 || end_line(join_lines(ks)).last() == '\n',
        forall|i: int|
            0 <= i < lines(end_line(join_lines(ks))).len() ==> exists|j: int|
                0 <= j < ks.len() && is_prefix(#[trigger] lines(end_line(join_lines(ks)))[i], ks[j]),
    decreases ks.len(),
{
    let x = end_line(join_lines(ks));
    if ks.len() == 0 {
        assert(lines(x) =~= Seq::<Seq<char>>::empty());
    } else if ks.len() == 1 {
        let k = ks[0];
        if k.len() == 0 {
            assert(lines(x) =~= Seq::<Seq<char>>::empty());
        } else {
            assert(k.last() != '\n');
            assert(x =~= k + seq!['\n']);
            lemma_lines_single(k);
            assert(is_prefix(strip_cr(k), k)) by {
                assert(k.take(strip_cr(k).len() as int) =~= strip_cr(k));
            }
            assert(lines(x)[0] == strip_cr(k));
        }
    } else {
        let kp = ks.drop_last();
        let k = ks.last();
        let a = join_lines(kp);
        let b = a + seq!['\n'];
        assert forall|j: int, m: int| 0 <= j < kp.len() && 0 <= m < kp[j].len() implies #[trigger] kp[j][m] != '\n' by {
            assert(kp[j] == ks[j]);
        }
        lemma_end_line_join(kp);
        let z = if k.len() == 0 {
            Seq::<char>::empty()
        } else {
            k + seq!['\n']
        };
        if k.len() > 0 {
            assert(k.last() != '\n') by {
                assert(k[k.len() - 1] != '\n');
            }
        }
        assert(x =~= b + z);
        lemma_lines_concat(b, z);
        let lz = lines(z);
        if k.len() == 0 {
            assert(lz =~= Seq::<Seq<char>>::empty());
        } else {
            assert forall|m: int| 0 <= m < k.len() implies #[trigger] k[m] != '\n' by {
                assert(k[m] == ks[ks.len() - 1][m]);
            }
            lemma_lines_single(k);
            assert(is_prefix(strip_cr(k), k)) by {
                assert(k.take(strip_cr(k).len() as int) =~= strip_cr(k));
            }
        }
        // the lines of `b` are prefixes of the first lines
        let lb = lines(b);
        assert(forall|i: int| 0 <= i < lb.len() ==> exists|j: int| 0 <= j < ks.len() && is_prefix(#[trigger] lb[i], ks[j])) by {
            let e = Seq::<char>::empty();
            assert(is_prefix(e, ks[0])) by {
                assert(ks[0].take(0) =~= e);
            }
            if a.len() == 0 {
                assert(b =~= e + seq!['\n']);
                lemma_lines_single(e);
                assert(strip_cr(e) == e);
            } else if a.last() == '\n' {
                assert(end_line(a) == a);
                lemma_lines_concat(a, seq!['\n']);
                assert(seq!['\n'] =~= e + seq!['\n']);
                lemma_lines_single(e);
                assert(strip_cr(e) == e);
                assert forall|i: int| 0 <= i < lb.len() implies exists|j: int| 0 <= j < ks.len() && is_prefix(#[trigger] lb[i], ks[j]) by {
                    if i < lines(a).len() {
                        let j = choose|j: int| 0 <= j < kp.len() && is_prefix(lines(end_line(join_lines(kp)))[i], kp[j]);
                        assert(lb[i] == lines(a)[i]);
                        assert(kp[j] == ks[j]);
                    } else {
                        assert(lb[i] == e);
                    }
                }
            } else {
                assert(b =~= end_line(a));
                assert forall|i: int| 0 <= i < lb.len() implies exists|j: int| 0 <= j < ks.len() && is_prefix(#[trigger] lb[i], ks[j]) by {
                    let j = choose|j: int| 0 <= j < kp.len() && is_prefix(lines(end_line(join_lines(kp)))[i], kp[j]);
                    assert(kp[j] == ks[j]);
                }
            }
        }
        assert forall|i: int| 0 <= i < lines(x).len() implies exists|j: int| 0 <= j < ks.len() && is_prefix(#[trigger] lines(x)[i], ks[j]) by {
            if i < lb.len() {
                assert(lines(x)[i] == lb[i]);
            } else {
                assert(lines(x)[i] == strip_cr(k));
                assert(is_prefix(lines(x)[i], ks[ks.len() - 1]));
            }
        }
    }
}

proof fn lemma_lines_of_terminated(ks: Seq<Seq<char>>)
    requires
        forall|j: int, m: int| 0 <= j < ks.len() && 0 <= m < ks[j].len() ==> #[trigger] ks[j][m] != '\n',
        forall|j: int| 0 <= j < ks.len() ==> (#[trigger] ks[j]).len() > 0 && ks[j].last() != '\r',
    ensures
        lines(end_line(join_lines(ks))) == ks,
        ks.len() > 0 ==> end_line(join_lines(ks)) == join_lines(ks).push('\n'),
    decreases ks.len(),
{
    if ks.len() == 0 {
        assert(lines(Seq::<char>::empty()) =~= ks);
    } else {
        let k = ks.last();
        assert(k.len() > 0 && k.last() != '\r');
        assert forall|m: int| 0 <= m < k.len() implies #[trigger] k[m] != '\n' by {
            assert(k[m] == ks[ks.len() - 1][m]);
        }
        assert(k.last() != '\n') by {
            assert(k[k.len() - 1] != '\n');
        }
        lemma_lines_single(k);
        assert(strip_cr(k) == k);
        if ks.len() == 1 {
            assert(join_lines(ks) == k);
            assert(end_line(join_lines(ks)) =~= k + seq!['\n']);
            assert(lines(end_line(join_lines(ks))) =~= ks);
        } else {
            let kp = ks.drop_last();
            assert forall|j: int, m: int| 0 <= j < kp.len() && 0 <= m < kp[j].len() implies #[trigger] kp[j][m] != '\n' by {
                assert(kp[j] == ks[j]);
            }
            assert forall|j: int| 0 <= j < kp.len() implies (#[trigger] kp[j]).len() > 0 && kp[j].last() != '\r' by {
                assert(kp[j] == ks[j]);
            }
            lemma_lines_of_terminated(kp);
            let b = join_lines(kp).push('\n');
            let j = join_lines(ks);
            assert(j =~= join_lines(kp) + seq!['\n'] + k);
            assert(j.last() == k.last());
            assert(end_line(j) =~= b + (k + seq!['\n']));
            lemma_lines_concat(b, k + seq!['\n']);
            assert(lines(end_line(j)) =~= kp + seq![k]);
            assert(kp + seq![k] =~= ks);
        }
    }
}

proof fn lemma_without_none(ks: Seq<Seq<char>>, p: Seq<char>)
    requires
        forall|j: int| 0 <= j < ks.len() ==> !starts_with(#[trigger] ks[j], p),
    ensures
        lines_without(ks, p) == ks,
    decreases ks.len(),
{
    if ks.len() > 0 {
        let kp = ks.drop_last();
        assert forall|j: int| 0 <= j < kp.len() implies !starts_with(#[trigger] kp[j], p) by {
            assert(kp[j] == ks[j]);
        }
        lemma_without_none(kp, p);
        assert(!starts_with(ks[ks.len() - 1], p));
        assert(kp.push(ks.last()) =~= ks);
    }
}

/// Adding the same entry `KEY=VALUE` (one line, with an `=`) twice leaves
/// the text that adding it once gives, when no line of the text is empty
/// or ends with a carriage return that `str::lines` keeps.
pub proof fn lemma_add_entry_twice(content: Seq<char>, entry: Seq<char>)
    requires
        find_char(entry, '=') < entry.len(),
        forall|m: int| 0 <= m < entry.len() ==> #[trigger] entry[m] != '\n',
        forall|i: int| 0 <= i < lines(content).len() ==> (#[trigger] lines(content)[i]).len() > 0
            && lines(content)[i].last() != '\r',
    ensures
        add_entry_spec(add_entry_spec(content, entry), entry) == add_entry_spec(content, entry),
{
    let p = key_prefix(entry);
    let ls = lines(content);
    let ks = lines_without(ls, p);
    lemma_lines_no_newline(content);
    lemma_without_props(ls, p);
    assert forall|j: int, m: int| 0 <= j < ks.len() && 0 <= m < ks[j].len() implies #[trigger] ks[j][m] != '\n' by {
        let q = choose|q: int| 0 <= q < ls.len() && ks[j] == ls[q];
        assert(ls[q][m] != '\n');
    }
    assert forall|j: int| 0 <= j < ks.len() implies (#[trigger] ks[j]).len() > 0 && ks[j].last() != '\r' by {
        let q = choose|q: int| 0 <= q < ls.len() && ks[j] == ls[q];
        assert(ls[q].len() > 0);
    }
    lemma_lines_of_terminated(ks);
    let x = end_line(join_lines(ks));
    let t = entry + seq!['\n'];
    let once = add_entry_spec(content, entry);
    assert(once =~= x + t);
    lemma_lines_concat(x, t);
    lemma_lines_single(entry);
    assert(lines(once) =~= ks.push(strip_cr(entry)));
    lemma_find_char(entry, '=');
    let idx = find_char(entry, '=') as int;
    assert(p =~= entry.take(idx + 1));
    assert(starts_with(strip_cr(entry), p)) by {
        if entry.last() == '\r' {
            assert(idx < entry.len() - 1);
        }
        assert(strip_cr(entry).subrange(0, p.len() as int) =~= p);
    }
    assert(ks.push(strip_cr(entry)).drop_last() =~= ks);
    assert(lines_without(lines(once), p) == lines_without(ks, p));
    lemma_without_none(ks, p);
}

/// After `add_entry` with an entry `KEY=VALUE` (one line, with an `=`), the
/// entry is the last line of the text and the only one that sets `KEY`:
/// every other line does not start with `KEY=`.
pub proof fn lemma_add_entry_replaces(content: Seq<char>, entry: Seq<char>)
    requires
        find_char(entry, '=') < entry.len(),
        forall|m: int| 0 <= m < entry.len() ==> #[trigger] entry[m] != '\n',
    ensures
        ({
            let l = lines(add_entry_spec(content, entry));
            &&& l.len() >= 1
            &&& l.last() == strip_cr(entry)
            &&& starts_with(l.last(), key_prefix(entry))
            &&& forall|i: int| 0 <= i < l.len() - 1 ==> !starts_with(#[trigger] l[i], key_prefix(entry))
        }),
{
    let p = key_prefix(entry);
    let ls = lines(content);
    let ks = lines_without(ls, p);
    lemma_lines_no_newline(content);
    lemma_without_props(ls, p);
    assert forall|j: int, m: int| 0 <= j < ks.len() && 0 <= m < ks[j].len() implies #[trigger] ks[j][m] != '\n' by {
        let q = choose|q: int| 0 <= q < ls.len() && ks[j] == ls[q];
        assert(ls[q][m] != '\n');
    }
    lemma_end_line_join(ks);
    let x = end_line(join_lines(ks));
    let t = entry + seq!['\n'];
    assert(add_entry_spec(content, entry) =~= x + t);
    lemma_lines_concat(x, t);
    lemma_lines_single(entry);
    let l = lines(add_entry_spec(content, entry));
    assert(l =~= lines(x) + seq![strip_cr(entry)]);
    lemma_find_char(entry, '=');
    let idx = find_char(entry, '=') as int;
    assert(p =~= entry.take(idx + 1));
    assert(starts_with(strip_cr(entry), p)) by {
        if entry.last() == '\r' {
            assert(idx < entry.len() - 1);
        }
        assert(strip_cr(entry).subrange(0, p.len() as int) =~= p);
    }
    assert forall|i: int| 0 <= i < l.len() - 1 implies !starts_with(#[trigger] l[i], p) by {
        assert(l[i] == lines(x)[i]);
        let j = choose|j: int| 0 <= j < ks.len() && is_prefix(lines(x)[i], ks[j]);
        if starts_with(l[i], p) {
            assert(ks[j].subrange(0, p.len() as int) =~= l[i].subrange(0, p.len() as int));
            assert(starts_with(ks[j], p));
        }
    }
}

} // verus!
