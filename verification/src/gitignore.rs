//! Keeping the secrets out of git: the lines that `init` makes sure
//! `.gitignore` holds.

use vstd::prelude::*;
use crate::text::{
    strings_view, is_white_space, trim_ws, find_char, lemma_find_char, lemma_find_char_is, lemma_trim_unchanged,
    Strip, trim_bounds, find_from, copy_range, chars_eq, chars_of, string_of,
};

verus! {

/// The lines that `.gitignore` must hold: the plaintext `.env`, local
/// variants of it, and the directory of keys.
pub open spec fn gitignore_entries() -> Seq<Seq<char>> {
    seq![
        seq!['.', 'e', 'n', 'v'],
        seq!['*', '.', 'e', 'n', 'v', '.', 'l', 'o', 'c', 'a', 'l'],
        seq!['.', 's', 'e', 'a', 'l', 'e', 'n', 'v', '/', 'k', 'e', 'y', 's', '/'],
    ]
}

/// `i` is where a line of `s` starts, as `str::lines` splits it.
pub open spec fn is_line_start(s: Seq<char>, i: int) -> bool {
    0 <= i < s.len() && (i == 0 || s[i - 1] == '\n')
}

/// The line of `s` that starts at `i`, without its line feed.
pub open spec fn line_at(s: Seq<char>, i: int) -> Seq<char> {
    s.subrange(i, i + find_char(s.skip(i), '\n'))
}

/// Some line of `s`, trimmed, is `entry`.
pub open spec fn has_line(s: Seq<char>, entry: Seq<char>) -> bool {
    exists|i: int| is_line_start(s, i) && trim_ws(#[trigger] line_at(s, i)) == entry
}

/// `entry` appended as a line of its own: after a line feed when the text
/// does not end with one.
pub open spec fn add_line(content: Seq<char>, entry: Seq<char>) -> Seq<char> {
    let c = if content.len() > 0 && content.last() != '\n' {
        content.push('\n')
    } else {
        content
    };
    c + entry + seq!['\n']
}

/// One entry considered: added, and recorded as added, unless some line already holds it.
pub open spec fn setup_step(state: (Seq<char>, Seq<Seq<char>>), entry: Seq<char>) -> (
    Seq<char>,
    Seq<Seq<char>>,
) {
    if has_line(state.0, entry) {
        state
    } else {
        (add_line(state.0, entry), state.1.push(entry))
    }
}

/// The new `.gitignore` text and the entries added to it, in order.
pub open spec fn setup_spec(content: Seq<char>) -> (Seq<char>, Seq<Seq<char>>) {
    let e = gitignore_entries();
    setup_step(setup_step(setup_step((content, Seq::empty()), e[0]), e[1]), e[2])
}

fn has_line_exec(s: &Vec<char>, entry: &Vec<char>) -> (r: bool)
    ensures
        r == has_line(s@, entry@),
{
    let n: usize = s.len();
    if n == 0 {
        return false;
    }
    let mut i: usize = 0;
    loop
        invariant
            n == s@.len(),
            n > 0,
            0 <= i < n,
            i == 0 || s@[i - 1] == '\n',
            forall|k: int| 0 <= k < i && is_line_start(s@, k) ==> trim_ws(#[trigger] line_at(s@, k))
                != entry@,
        decreases n - i,
    {
        let j = find_from(s, i, n, '\n');
        assert(s@.subrange(i as int, n as int) =~= s@.skip(i as int));
        let (a, b) = trim_bounds(s, i, j, Strip::Whitespace);
        let line = copy_range(s, a, b);
        assert(line_at(s@, i as int) == s@.subrange(i as int, j as int));
        if chars_eq(&line, entry) {
            assert(is_line_start(s@, i as int));
            return true;
        }
        assert forall|k: int| 0 <= k < j + 1 && k < n && is_line_start(s@, k) implies trim_ws(
            #[trigger] line_at(s@, k),
        ) != entry@ by {
            if k > i {
                assert(s@[k - 1] != '\n');
            }
        }
        if j >= n - 1 {
            return false;
        }
        i = j + 1;
    }
}

fn apply_entry(content: &mut Vec<char>, added: &mut Vec<String>, entry: &str)
    ensures
        (final(content)@, strings_view(final(added)@)) == setup_step(
            (old(content)@, strings_view(old(added)@)),
            entry@,
        ),
{
    let e = chars_of(entry);
    if has_line_exec(content, &e) {
        return ;
    }
    let ghost before = content@;
    let ghost added_before = strings_view(added@);
    let n: usize = content.len();
    if n > 0 && content[n - 1] != '\n' {
        content.push('\n');
    }
    let mut i: usize = 0;
    let ghost c = content@;
    while i < e.len()
        invariant
            0 <= i <= e@.len(),
            content@ == c + e@.subrange(0, i as int),
        decreases e@.len() - i,
    {
        content.push(e[i]);
        i = i + 1;
    }
    content.push('\n');
    assert(e@.subrange(0, e@.len() as int) =~= e@);
    assert(content@ =~= add_line(before, entry@));
    added.push(string_of(&e));
    assert(strings_view(added@) =~= added_before.push(entry@));
}

/// Makes sure `.gitignore` keeps `.env`, `*.env.local` and the key
/// directory out of git.
///
/// Given the current text (empty when there is no file), returns the new
/// text and the entries that were added. An entry is added, on a line of
/// its own, unless some line of the text, trimmed, already is that entry.
pub fn setup(content: &str) -> (r: (String, Vec<String>))
    ensures
        (r.0@, strings_view(r.1@)) == setup_spec(content@),
        forall|k: int|
            0 <= k < 3 ==> (strings_view(r.1@).contains(#[trigger] gitignore_entries()[k]) <==> (
            forall|i: int|
                is_line_start(content@, i) ==> trim_ws(#[trigger] line_at(content@, i))
                    != gitignore_entries()[k])),
{
    let mut c = chars_of(content);
    let mut added: Vec<String> = Vec::new();
    assert(strings_view(added@) =~= Seq::<Seq<char>>::empty());
    proof {
        reveal_strlit(".env");
        reveal_strlit("*.env.local");
        reveal_strlit(".sealenv/keys/");
    }
    assert(".env"@ =~= gitignore_entries()[0]);
    assert("*.env.local"@ =~= gitignore_entries()[1]);
    assert(".sealenv/keys/"@ =~= gitignore_entries()[2]);
    apply_entry(&mut c, &mut added, ".env");
    apply_entry(&mut c, &mut added, "*.env.local");
    apply_entry(&mut c, &mut added, ".sealenv/keys/");
    proof {
        assert forall|k: int| 0 <= k < 3 implies (strings_view(added@).contains(
            #[trigger] gitignore_entries()[k],
        ) <==> (forall|i: int|
            is_line_start(content@, i) ==> trim_ws(#[trigger] line_at(content@, i))
                != gitignore_entries()[k])) by {
            lemma_setup_adds_missing(content@, k);
        }
    }
    (string_of(&c), added)
}

// ── Laws ─────────────────────────────────────────────────────────────────────

/// Facts about the entries: non-empty, one line each, nothing to trim.
pub proof fn lemma_entries_plain(k: int)
    requires
        0 <= k < 3,
    ensures
        gitignore_entries()[k].len() > 0,
        forall|m: int| 0 <= m < gitignore_entries()[k].len() ==> #[trigger] gitignore_entries()[k][m] != '\n',
        trim_ws(gitignore_entries()[k]) == gitignore_entries()[k],
{
    let e = gitignore_entries()[k];
    assert(!is_white_space(e[0]));
    assert(!is_white_space(e.last()));
    lemma_trim_unchanged(e, Strip::Whitespace);
}

proof fn lemma_find_char_append(a: Seq<char>, b: Seq<char>, c: char)
    requires
        find_char(a, c) < a.len() || (b.len() > 0 && b[0] == c),
    ensures
        find_char(a + b, c) == find_char(a, c),
{
    lemma_find_char(a, c);
    let j = find_char(a, c) as int;
    lemma_find_char_is(a + b, c, j);
}

/// Appending after a line feed keeps every line that was there.
proof fn lemma_add_line_keeps(s: Seq<char>, entry: Seq<char>, i: int)
    requires
        is_line_start(s, i),
    ensures
        is_line_start(add_line(s, entry), i),
        line_at(add_line(s, entry), i) == line_at(s, i),
{
    let t = add_line(s, entry);
    let c = if s.len() > 0 && s.last() != '\n' {
        s.push('\n')
    } else {
        s
    };
    assert(t == c + (entry + seq!['\n']));
    assert(t.subrange(0, s.len() as int) =~= s);
    lemma_find_char(s.skip(i), '\n');
    assert(t.skip(i) =~= s.skip(i) + t.skip(s.len() as int));
    assert(t[s.len() as int] == '\n' || s.last() == '\n');
    if s.last() == '\n' {
        lemma_find_char(s.skip(i), '\n');
        lemma_find_char_is(s.skip(i), '\n', find_char(s.skip(i), '\n') as int);
        assert(s.skip(i)[s.len() - i - 1] == '\n');
        assert(find_char(s.skip(i), '\n') < s.skip(i).len());
    }
    lemma_find_char_append(s.skip(i), t.skip(s.len() as int), '\n');
    let f = find_char(s.skip(i), '\n') as int;
    assert(t.subrange(i, i + f) =~= t.subrange(0, s.len() as int).subrange(i, i + f));
}

/// The appended entry is a line of the result.
proof fn lemma_add_line_adds(s: Seq<char>, entry: Seq<char>)
    requires
        entry.len() > 0,
        forall|m: int| 0 <= m < entry.len() ==> #[trigger] entry[m] != '\n',
    ensures
        ({
            let t = add_line(s, entry);
            let i = t.len() - entry.len() - 1;
            is_line_start(t, i) && line_at(t, i) == entry
        }),
{
    let t = add_line(s, entry);
    let i = t.len() - entry.len() - 1;
    lemma_find_char_is(t.skip(i), '\n', entry.len() as int);
    assert(t.subrange(i, i + entry.len()) =~= entry);
}

proof fn lemma_step_keeps(state: (Seq<char>, Seq<Seq<char>>), entry: Seq<char>, other: Seq<char>)
    requires
        has_line(state.0, other),
    ensures
        has_line(setup_step(state, entry).0, other),
        setup_step(state, entry).0.subrange(0, state.0.len() as int) == state.0,
{
    if !has_line(state.0, entry) {
        let i = choose|i: int| is_line_start(state.0, i) && trim_ws(#[trigger] line_at(state.0, i)) == other;
        lemma_add_line_keeps(state.0, entry, i);
        assert(is_line_start(add_line(state.0, entry), i) && trim_ws(line_at(add_line(state.0, entry), i)) == other);
        assert(add_line(state.0, entry).subrange(0, state.0.len() as int) =~= state.0);
    } else {
        assert(state.0.subrange(0, state.0.len() as int) =~= state.0);
    }
}

proof fn lemma_step_adds(state: (Seq<char>, Seq<Seq<char>>), k: int)
    requires
        0 <= k < 3,
    ensures
        has_line(setup_step(state, gitignore_entries()[k]).0, gitignore_entries()[k]),
        setup_step(state, gitignore_entries()[k]).0.subrange(0, state.0.len() as int) == state.0,
{
    let e = gitignore_entries()[k];
    lemma_entries_plain(k);
    if !has_line(state.0, e) {
        let t = add_line(state.0, e);
        lemma_add_line_adds(state.0, e);
        let i = t.len() - e.len() - 1;
        assert(is_line_start(t, i) && trim_ws(line_at(t, i)) == e);
        assert(t.subrange(0, state.0.len() as int) =~= state.0);
    } else {
        assert(state.0.subrange(0, state.0.len() as int) =~= state.0);
    }
}

proof fn lemma_entries_distinct()
    ensures
        forall|m: int, k: int| 0 <= m < 3 && 0 <= k < 3 && m != k ==> gitignore_entries()[m]
            != gitignore_entries()[k],
{
    let e = gitignore_entries();
    assert(e[0].len() == 4 && e[1].len() == 11 && e[2].len() == 14);
}

/// Appending one entry as a line adds no other line: another entry is a
/// line of the result exactly when it was a line before.
proof fn lemma_has_line_add(s: Seq<char>, m: int, k: int)
    requires
        0 <= m < 3,
        0 <= k < 3,
        m != k,
    ensures
        has_line(add_line(s, gitignore_entries()[m]), gitignore_entries()[k]) == has_line(
            s,
            gitignore_entries()[k],
        ),
{
    let e1 = gitignore_entries()[m];
    let e = gitignore_entries()[k];
    lemma_entries_plain(m);
    lemma_entries_distinct();
    let t = add_line(s, e1);
    let n = s.len() as int;
    let c = if s.len() > 0 && s.last() != '\n' {
        s.push('\n')
    } else {
        s
    };
    let cl = c.len() as int;
    assert(t == c + e1 + seq!['\n']);
    if has_line(s, e) {
        let i = choose|i: int| is_line_start(s, i) && trim_ws(#[trigger] line_at(s, i)) == e;
        lemma_add_line_keeps(s, e1, i);
        assert(is_line_start(t, i) && trim_ws(line_at(t, i)) == e);
    }
    if has_line(t, e) {
        let i = choose|i: int| is_line_start(t, i) && trim_ws(#[trigger] line_at(t, i)) == e;
        if i < n {
            if i > 0 {
                assert(t[i - 1] == c[i - 1]);
                assert(c[i - 1] == s[i - 1]);
            }
            assert(is_line_start(s, i));
            lemma_add_line_keeps(s, e1, i);
            assert(trim_ws(line_at(s, i)) == e);
        } else if i < cl {
            assert(t[i - 1] == s[n - 1]);
            assert(false);
        } else if i == cl {
            lemma_add_line_adds(s, e1);
            assert(t.len() - e1.len() - 1 == cl);
            assert(line_at(t, i) == e1);
            assert(false);
        } else {
            assert(t[i - 1] == e1[i - 1 - cl]);
            assert(false);
        }
    }
}

proof fn lemma_step_other(state: (Seq<char>, Seq<Seq<char>>), m: int, k: int)
    requires
        0 <= m < 3,
        0 <= k < 3,
        m != k,
    ensures
        has_line(setup_step(state, gitignore_entries()[m]).0, gitignore_entries()[k]) == has_line(
            state.0,
            gitignore_entries()[k],
        ),
        setup_step(state, gitignore_entries()[m]).1.contains(gitignore_entries()[k])
            == state.1.contains(gitignore_entries()[k]),
{
    let em = gitignore_entries()[m];
    let ek = gitignore_entries()[k];
    lemma_entries_distinct();
    if !has_line(state.0, em) {
        lemma_has_line_add(state.0, m, k);
        let l = state.1.push(em);
        if l.contains(ek) {
            let j = choose|j: int| 0 <= j < l.len() && l[j] == ek;
            assert(j < state.1.len());
            assert(state.1[j] == ek);
        }
        if state.1.contains(ek) {
            let j = choose|j: int| 0 <= j < state.1.len() && state.1[j] == ek;
            assert(l[j] == ek);
        }
    }
}

proof fn lemma_step_own(state: (Seq<char>, Seq<Seq<char>>), k: int)
    requires
        0 <= k < 3,
        !state.1.contains(gitignore_entries()[k]),
    ensures
        setup_step(state, gitignore_entries()[k]).1.contains(gitignore_entries()[k]) == !has_line(
            state.0,
            gitignore_entries()[k],
        ),
        !has_line(state.0, gitignore_entries()[k]) ==> exists|i: int|
            is_line_start(setup_step(state, gitignore_entries()[k]).0, i) && #[trigger] line_at(
                setup_step(state, gitignore_entries()[k]).0,
                i,
            ) == gitignore_entries()[k],
{
    let e = gitignore_entries()[k];
    lemma_entries_plain(k);
    if !has_line(state.0, e) {
        let l = state.1.push(e);
        assert(l[l.len() - 1] == e);
        lemma_add_line_adds(state.0, e);
        let t = add_line(state.0, e);
        let i = t.len() - e.len() - 1;
        assert(setup_step(state, e).0 == t);
        assert(is_line_start(setup_step(state, e).0, i) && line_at(setup_step(state, e).0, i) == e);
    }
}

proof fn lemma_step_keeps_exact(state: (Seq<char>, Seq<Seq<char>>), m: int, e: Seq<char>)
    requires
        0 <= m < 3,
        exists|i: int| is_line_start(state.0, i) && #[trigger] line_at(state.0, i) == e,
    ensures
        exists|i: int|
            is_line_start(setup_step(state, gitignore_entries()[m]).0, i) && #[trigger] line_at(
                setup_step(state, gitignore_entries()[m]).0,
                i,
            ) == e,
{
    let em = gitignore_entries()[m];
    let i = choose|i: int| is_line_start(state.0, i) && #[trigger] line_at(state.0, i) == e;
    if !has_line(state.0, em) {
        lemma_add_line_keeps(state.0, em, i);
        assert(line_at(add_line(state.0, em), i) == e);
    }
    assert(is_line_start(setup_step(state, em).0, i) && line_at(setup_step(state, em).0, i) == e);
}

/// `setup` adds an entry exactly when no line of the text, trimmed, is that
/// entry; and an added entry is then a line of the new text, exactly.
pub proof fn lemma_setup_adds_missing(content: Seq<char>, k: int)
    requires
        0 <= k < 3,
    ensures
        setup_spec(content).1.contains(gitignore_entries()[k]) <==> (forall|i: int|
            is_line_start(content, i) ==> trim_ws(#[trigger] line_at(content, i))
                != gitignore_entries()[k]),
        setup_spec(content).1.contains(gitignore_entries()[k]) ==> exists|i: int|
            is_line_start(setup_spec(content).0, i) && #[trigger] line_at(setup_spec(content).0, i)
                == gitignore_entries()[k],
{
    let e = gitignore_entries();
    let s0 = (content, Seq::<Seq<char>>::empty());
    let s1 = setup_step(s0, e[0]);
    let s2 = setup_step(s1, e[1]);
    let s3 = setup_step(s2, e[2]);
    let ek = e[k];
    assert(!s0.1.contains(ek));
    if k == 0 {
        lemma_step_own(s0, 0);
        lemma_step_other(s1, 1, 0);
        lemma_step_other(s2, 2, 0);
        if s1.1.contains(ek) {
            lemma_step_keeps_exact(s1, 1, ek);
            lemma_step_keeps_exact(s2, 2, ek);
        }
    } else if k == 1 {
        lemma_step_other(s0, 0, 1);
        lemma_step_own(s1, 1);
        lemma_step_other(s2, 2, 1);
        if s2.1.contains(ek) {
            lemma_step_keeps_exact(s2, 2, ek);
        }
    } else {
        lemma_step_other(s0, 0, 2);
        lemma_step_other(s1, 1, 2);
        lemma_step_own(s2, 2);
    }
}

/// After `setup`, every entry is a line of `.gitignore`, and the text that
/// was there is kept as the start of the new text.
#[verifier::spinoff_prover]
#[verifier::rlimit(40)]
pub proof fn lemma_setup_covers(content: Seq<char>)
    ensures
        forall|k: int| 0 <= k < 3 ==> has_line(setup_spec(content).0, #[trigger] gitignore_entries()[k]),
        setup_spec(content).0.subrange(0, content.len() as int) == content,
{
    let e = gitignore_entries();
    let s0 = (content, Seq::<Seq<char>>::empty());
    let s1 = setup_step(s0, e[0]);
    let s2 = setup_step(s1, e[1]);
    let s3 = setup_step(s2, e[2]);
    lemma_step_adds(s0, 0);
    lemma_step_adds(s1, 1);
    lemma_step_adds(s2, 2);
    lemma_step_keeps(s1, e[1], e[0]);
    lemma_step_keeps(s2, e[2], e[0]);
    lemma_step_keeps(s2, e[2], e[1]);
    assert(s3.0.subrange(0, s1.0.len() as int) =~= s2.0.subrange(0, s1.0.len() as int));
    assert(s3.0.subrange(0, content.len() as int) =~= s1.0.subrange(0, content.len() as int));
    assert forall|k: int| 0 <= k < 3 implies has_line(s3.0, #[trigger] e[k]) by {
    }
}

/// Running `setup` on its own result changes nothing and adds nothing.
pub proof fn lemma_setup_idempotent(content: Seq<char>)
    ensures
        setup_spec(setup_spec(content).0) == (setup_spec(content).0, Seq::<Seq<char>>::empty()),
{
    lemma_setup_covers(content);
    let e = gitignore_entries();
    assert(has_line(setup_spec(content).0, e[0]));
    assert(has_line(setup_spec(content).0, e[1]));
    assert(has_line(setup_spec(content).0, e[2]));
}

} // verus!
