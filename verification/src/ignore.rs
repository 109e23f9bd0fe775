//! Ignore rules (`.sdalignore`): which working-tree paths are left out of
//! snapshots and never deleted by a clean checkout.

use vstd::prelude::*;
use crate::refs::{chars_of, push_char, starts_with};

verus! {

/// The pieces of `s` between occurrences of `sep`, as `str::split` gives
/// them: always at least one piece, empty pieces included.
pub open spec fn split_on(s: Seq<char>, sep: char) -> Seq<Seq<char>>
    decreases s.len(),
{
    if s.len() == 0 {
        seq![Seq::<char>::empty()]
    } else {
        let r = split_on(s.drop_last(), sep);
        if s.last() == sep {
            r.push(Seq::<char>::empty())
        } else {
            r.update(r.len() - 1, r.last().push(s.last()))
        }
    }
}

pub proof fn lemma_split_nonempty(s: Seq<char>, sep: char)
    ensures
        split_on(s, sep).len() >= 1,
    decreases s.len(),
{
    if s.len() > 0 {
        lemma_split_nonempty(s.drop_last(), sep);
    }
}

/// The views of a sequence of character vectors.
pub open spec fn char_views(v: Seq<Vec<char>>) -> Seq<Seq<char>> {
    v.map_values(|x: Vec<char>| x@)
}

/// Splits a character sequence at every `sep`.
pub fn split_chars(cs: &Vec<char>, sep: char) -> (r: Vec<Vec<char>>)
    ensures
        char_views(r@) == split_on(cs@, sep),
        r@.len() >= 1,
{
    let mut done: Vec<Vec<char>> = Vec::new();
    let mut cur: Vec<char> = Vec::new();
    let mut i: usize = 0;
    assert(cs@.take(0) =~= Seq::<char>::empty());
    assert(char_views(done@).push(cur@) =~= seq![Seq::<char>::empty()]);
    while i < cs.len()
        invariant
            i <= cs@.len(),
            split_on(cs@.take(i as int), sep) == char_views(done@).push(cur@),
        decreases cs@.len() - i,
    {
        let c = cs[i];
        let ghost before = cs@.take(i as int);
        assert(cs@.take(i + 1).drop_last() =~= before);
        assert(cs@.take(i + 1).last() == c);
        if c == sep {
            let ghost old_done = done@;
            done.push(cur);
            cur = Vec::new();
            assert(char_views(done@) =~= char_views(old_done).push(char_views(done@).last()));
            assert(char_views(done@).push(cur@) =~= split_on(cs@.take(i + 1), sep));
        } else {
            let ghost old_cur = cur@;
            cur.push(c);
            assert(char_views(done@).push(cur@) =~= char_views(done@).push(old_cur).update(
                done@.len() as int,
                old_cur.push(c),
            ));
        }
        i = i + 1;
    }
    assert(cs@.take(cs@.len() as int) =~= cs@);
    let ghost old_done = done@;
    done.push(cur);
    assert(char_views(done@) =~= char_views(old_done).push(char_views(done@).last()));
    done
}

/// `p` occurs in `u` starting at position `q`.
pub open spec fn occurs_at(u: Seq<char>, q: int, p: Seq<char>) -> bool {
    0 <= q && q + p.len() <= u.len() && u.subrange(q, q + p.len()) == p
}

/// Whether `p` occurs in `t` at `pos`.
pub fn occurs_at_exec(t: &Vec<char>, pos: usize, p: &Vec<char>) -> (r: bool)
    ensures
        r == occurs_at(t@, pos as int, p@),
{
    let tl = t.len();
    if pos > tl || p.len() > tl - pos {
        return false;
    }
    let mut j: usize = 0;
    while j < p.len()
        invariant
            tl == t@.len(),
            pos + p@.len() <= t@.len(),
            j <= p@.len(),
            forall|k: int| 0 <= k < j ==> t@[pos + k] == p@[k],
        decreases p@.len() - j,
    {
        if t[pos + j] != p[j] {
            assert(t@.subrange(pos as int, pos + p@.len())[j as int] != p@[j as int]);
            return false;
        }
        j = j + 1;
    }
    assert(t@.subrange(pos as int, pos + p@.len()) =~= p@);
    true
}

/// The leftmost occurrence of `p` in `t` at or after `start`.
pub fn find_from(t: &Vec<char>, start: usize, p: &Vec<char>) -> (r: Option<usize>)
    requires
        start <= t@.len(),
    ensures
        r matches Some(q) ==> start <= q && occurs_at(t@, q as int, p@) && forall|j: int|
            start <= j < q ==> !#[trigger] occurs_at(t@, j, p@),
        r is None ==> forall|j: int| start <= j ==> !#[trigger] occurs_at(t@, j, p@),
{
    if p.len() > t.len() - start {
        return None;
    }
    let last = t.len() - p.len();
    let mut q: usize = start;
    while q < last
        invariant
            start <= q <= last,
            last + p@.len() == t@.len(),
            forall|j: int| start <= j < q ==> !#[trigger] occurs_at(t@, j, p@),
        decreases last - q,
    {
        if occurs_at_exec(t, q, p) {
            return Some(q);
        }
        q = q + 1;
    }
    if occurs_at_exec(t, last, p) {
        return Some(last);
    }
    None
}

/// `text` matches `parts` (the pieces of a pattern between its stars) with
/// the first piece at the very start of `text`.
pub open spec fn anchored(t: Seq<char>, parts: Seq<Seq<char>>) -> bool
    decreases parts.len(), 0int,
{
    if parts.len() <= 1 {
        parts.len() == 1 && t == parts[0]
    } else {
        starts_with(t, parts[0]) && floating(t.skip(parts[0].len() as int), parts.drop_first())
    }
}

/// `text` matches `parts` after a star: the first piece may start anywhere.
pub open spec fn floating(t: Seq<char>, parts: Seq<Seq<char>>) -> bool
    decreases parts.len(), 1int,
{
    exists|k: int| 0 <= k <= t.len() && anchored(#[trigger] t.skip(k), parts)
}

/// Glob matching in which `*` stands for any run of characters, `/`
/// included, and every other character for itself.
pub open spec fn spec_wildcard_match(text: Seq<char>, pattern: Seq<char>) -> bool {
    anchored(text, split_on(pattern, '*'))
}

proof fn lemma_starts_with_occurs(u: Seq<char>, k: int, p: Seq<char>)
    requires
        0 <= k <= u.len(),
    ensures
        starts_with(u.skip(k), p) == occurs_at(u, k, p),
{
    if p.len() <= u.len() - k {
        assert(u.skip(k).take(p.len() as int) =~= u.subrange(k, k + p.len()));
    }
}

proof fn lemma_occurs_shift(t: Seq<char>, rem: int, j: int, p: Seq<char>)
    requires
        0 <= rem <= t.len(),
        0 <= j,
    ensures
        occurs_at(t.skip(rem), j, p) == occurs_at(t, rem + j, p),
{
    if j + p.len() <= t.len() - rem {
        assert(t.skip(rem).subrange(j, j + p.len()) =~= t.subrange(rem + j, rem + j + p.len()));
    }
}

proof fn lemma_floating_mono(t: Seq<char>, parts: Seq<Seq<char>>, d: int)
    requires
        0 <= d <= t.len(),
        floating(t.skip(d), parts),
    ensures
        floating(t, parts),
{
    let k = choose|k: int| 0 <= k <= t.skip(d).len() && anchored(#[trigger] t.skip(d).skip(k), parts);
    assert(t.skip(d).skip(k) =~= t.skip(d + k));
    assert(anchored(t.skip(d + k), parts));
}

proof fn lemma_floating_empty_head(u: Seq<char>, rest: Seq<Seq<char>>)
    requires
        rest.len() >= 1,
    ensures
        floating(u, seq![Seq::<char>::empty()] + rest) == floating(u, rest),
{
    let e = Seq::<char>::empty();
    let parts = seq![e] + rest;
    assert(parts.drop_first() =~= rest);
    assert(parts[0] == e);
    assert forall|x: Seq<char>| #[trigger] anchored(x, parts) == floating(x, rest) by {
        assert(x.take(0) =~= e);
        assert(x.skip(0) =~= x);
    }
    if floating(u, parts) {
        let k = choose|k: int| 0 <= k <= u.len() && anchored(#[trigger] u.skip(k), parts);
        assert(floating(u.skip(k), rest));
        lemma_floating_mono(u, rest, k);
    }
    if floating(u, rest) {
        assert(u.skip(0) =~= u);
        assert(anchored(u.skip(0), parts));
    }
}

proof fn lemma_floating_empty_last(u: Seq<char>)
    ensures
        floating(u, seq![Seq::<char>::empty()]),
{
    assert(u.skip(u.len() as int) =~= Seq::<char>::empty());
    assert(anchored(u.skip(u.len() as int), seq![Seq::<char>::empty()]));
}

proof fn lemma_floating_last(u: Seq<char>, p: Seq<char>)
    ensures
        floating(u, seq![p]) == (p.len() <= u.len() && occurs_at(u, u.len() - p.len(), p)),
{
    if floating(u, seq![p]) {
        let k = choose|k: int| 0 <= k <= u.len() && anchored(#[trigger] u.skip(k), seq![p]);
        assert(u.skip(k) == p);
        assert(u.subrange(k, k + p.len()) =~= u.skip(k));
    }
    if p.len() <= u.len() && occurs_at(u, u.len() - p.len(), p) {
        let k = u.len() - p.len();
        assert(u.skip(k) =~= u.subrange(k, k + p.len()));
        assert(anchored(u.skip(k), seq![p]));
    }
}

proof fn lemma_floating_middle(u: Seq<char>, p: Seq<char>, rest: Seq<Seq<char>>, q: int)
    requires
        rest.len() >= 1,
        occurs_at(u, q, p),
        forall|j: int| 0 <= j < q ==> !#[trigger] occurs_at(u, j, p),
    ensures
        floating(u, seq![p] + rest) == floating(u.skip(q + p.len()), rest),
{
    let parts = seq![p] + rest;
    assert(parts.drop_first() =~= rest);
    assert(parts[0] == p);
    if floating(u, parts) {
        let k = choose|k: int| 0 <= k <= u.len() && anchored(#[trigger] u.skip(k), parts);
        lemma_starts_with_occurs(u, k, p);
        assert(occurs_at(u, k, p));
        assert(u.skip(k).skip(p.len() as int) =~= u.skip(q + p.len()).skip(k - q));
        lemma_floating_mono(u.skip(q + p.len()), rest, k - q);
    }
    if floating(u.skip(q + p.len()), rest) {
        lemma_starts_with_occurs(u, q, p);
        assert(u.skip(q).skip(p.len() as int) =~= u.skip(q + p.len()));
        assert(anchored(u.skip(q), parts));
    }
}

proof fn lemma_floating_middle_none(u: Seq<char>, p: Seq<char>, rest: Seq<Seq<char>>)
    requires
        rest.len() >= 1,
        forall|j: int| 0 <= j ==> !#[trigger] occurs_at(u, j, p),
    ensures
        !floating(u, seq![p] + rest),
{
    let parts = seq![p] + rest;
    assert(parts[0] == p);
    if floating(u, parts) {
        let k = choose|k: int| 0 <= k <= u.len() && anchored(#[trigger] u.skip(k), parts);
        lemma_starts_with_occurs(u, k, p);
        assert(occurs_at(u, k, p));
    }
}

/// Matches `text` against a pattern in which `*` stands for any run of
/// characters.
pub fn wildcard_match(text: &str, pattern: &str) -> (r: bool)
    ensures
        r == spec_wildcard_match(text@, pattern@),
{
    let t = chars_of(text);
    let pc = chars_of(pattern);
    let parts = split_chars(&pc, '*');
    let ghost ps = split_on(pattern@, '*');
    let n = parts.len();
    let tl = t.len();
    assert(parts@[0]@ == ps[0]);
    if n == 1 {
        proof {
            if t@.len() == parts@[0]@.len() {
                assert(t@.subrange(0, t@.len() as int) =~= t@);
            }
        }
        return t.len() == parts[0].len() && occurs_at_exec(&t, 0, &parts[0]);
    }
    proof {
        lemma_starts_with_occurs(t@, 0, ps[0]);
        assert(t@.skip(0) =~= t@);
    }
    if !occurs_at_exec(&t, 0, &parts[0]) {
        return false;
    }
    let mut rem: usize = parts[0].len();
    assert(ps.drop_first() =~= ps.skip(1));
    let mut i: usize = 1;
    while i < n - 1
        invariant
            n == parts@.len(),
            n >= 2,
            char_views(parts@) == ps,
            ps == split_on(pattern@, '*'),
            t@ == text@,
            tl == t@.len(),
            1 <= i <= n - 1,
            rem <= t@.len(),
            anchored(t@, ps) == floating(t@.skip(rem as int), ps.skip(i as int)),
        decreases n - 1 - i,
    {
        let p = &parts[i];
        assert(p@ == ps[i as int]);
        assert(ps.skip(i as int) =~= seq![ps[i as int]] + ps.skip(i + 1));
        let ghost u = t@.skip(rem as int);
        if p.len() == 0 {
            proof {
                assert(p@ =~= Seq::<char>::empty());
                lemma_floating_empty_head(u, ps.skip(i + 1));
            }
        } else {
            match find_from(&t, rem, p) {
                None => {
                    proof {
                        assert forall|j: int| 0 <= j implies !#[trigger] occurs_at(u, j, p@) by {
                            lemma_occurs_shift(t@, rem as int, j, p@);
                            assert(!occurs_at(t@, rem + j, p@));
                        }
                        lemma_floating_middle_none(u, p@, ps.skip(i + 1));
                        assert(!floating(u, ps.skip(i as int)));
                    }
                    return false;
                },
                Some(q) => {
                    proof {
                        let qr = q - rem;
                        lemma_occurs_shift(t@, rem as int, qr, p@);
                        assert forall|j: int| 0 <= j < qr implies !#[trigger] occurs_at(u, j, p@) by {
                            lemma_occurs_shift(t@, rem as int, j, p@);
                            assert(!occurs_at(t@, rem + j, p@));
                        }
                        lemma_floating_middle(u, p@, ps.skip(i + 1), qr);
                        assert(u.skip(qr + p@.len()) =~= t@.skip(q + p@.len()));
                    }
                    rem = q + p.len();
                },
            }
        }
        i = i + 1;
    }
    let p = &parts[n - 1];
    assert(p@ == ps[n - 1]);
    assert(ps.skip(n - 1) =~= seq![ps[n - 1]]);
    let ghost u = t@.skip(rem as int);
    if p.len() == 0 {
        proof {
            assert(p@ =~= Seq::<char>::empty());
            lemma_floating_empty_last(u);
        }
        return true;
    }
    proof {
        lemma_floating_last(u, p@);
    }
    if p.len() > t.len() - rem {
        return false;
    }
    proof {
        lemma_occurs_shift(t@, rem as int, u.len() - p@.len(), p@);
    }
    occurs_at_exec(&t, t.len() - p.len(), p)
}

/// `s` with every trailing `c` removed, as `str::trim_end_matches` with a
/// character gives it.
pub open spec fn trim_end_char(s: Seq<char>, c: char) -> Seq<char>
    decreases s.len(),
{
    if s.len() > 0 && s.last() == c {
        trim_end_char(s.drop_last(), c)
    } else {
        s
    }
}

/// Whether a path matches one ignore pattern:
/// - the path equals the pattern; or
/// - the pattern, trailing slashes removed, holds a `*`: the whole pattern
///   is matched as a glob; or
/// - it holds no `/`: some component of the path equals it; or
/// - else the path is it, or lies below it.
pub open spec fn spec_matches_pattern(path: Seq<char>, pattern: Seq<char>) -> bool {
    let core = trim_end_char(pattern, '/');
    if path == pattern {
        true
    } else if core.contains('*') {
        spec_wildcard_match(path, pattern)
    } else if !core.contains('/') {
        split_on(path, '/').contains(core)
    } else {
        path == core || starts_with(path, core.push('/'))
    }
}

/// `trim_end_char(s, c)` is a prefix of `s` followed by `c` alone, and does
/// not itself end in `c`.
proof fn lemma_trim_end_char_shape(s: Seq<char>, c: char)
    ensures
        trim_end_char(s, c).len() <= s.len(),
        s.take(trim_end_char(s, c).len() as int) == trim_end_char(s, c),
        forall|i: int| trim_end_char(s, c).len() <= i < s.len() ==> s[i] == c,
        trim_end_char(s, c).len() == 0 || trim_end_char(s, c).last() != c,
    decreases s.len(),
{
    if s.len() > 0 && s.last() == c {
        lemma_trim_end_char_shape(s.drop_last(), c);
        let t = trim_end_char(s.drop_last(), c);
        assert(s.take(t.len() as int) =~= s.drop_last().take(t.len() as int));
        assert forall|i: int| t.len() <= i < s.len() implies s[i] == c by {
            if i < s.len() - 1 {
                assert(s[i] == s.drop_last()[i]);
            }
        }
    } else {
        assert(s.take(s.len() as int) =~= s);
    }
}

/// Without a separator in `a`, splitting `a` gives `a` alone.
proof fn lemma_split_no_sep(a: Seq<char>, sep: char)
    requires
        !a.contains(sep),
    ensures
        split_on(a, sep) == seq![a],
    decreases a.len(),
{
    if a.len() > 0 {
        assert(!a.drop_last().contains(sep)) by {
            if a.drop_last().contains(sep) {
                let k = choose|k: int| 0 <= k < a.drop_last().len() && a.drop_last()[k] == sep;
                assert(a[k] == sep);
            }
        }
        lemma_split_no_sep(a.drop_last(), sep);
        assert(a.last() != sep) by {
            assert(a[a.len() - 1] == a.last());
        }
        assert(a.drop_last().push(a.last()) =~= a);
        let r = split_on(a.drop_last(), sep);
        assert(r.update(r.len() - 1, r.last().push(a.last())) =~= seq![a]);
    } else {
        assert(a =~= Seq::<char>::empty());
    }
}

/// Without a separator in `a`, the first piece of `a`, a separator and
/// anything after is `a`.
proof fn lemma_split_first_piece(a: Seq<char>, sep: char, rest: Seq<char>)
    requires
        !a.contains(sep),
    ensures
        split_on(a.push(sep) + rest, sep).len() >= 2,
        split_on(a.push(sep) + rest, sep)[0] == a,
    decreases rest.len(),
{
    let s = a.push(sep) + rest;
    if rest.len() == 0 {
        assert(s =~= a.push(sep));
        assert(s.drop_last() =~= a);
        lemma_split_no_sep(a, sep);
    } else {
        lemma_split_first_piece(a, sep, rest.drop_last());
        assert(s.drop_last() =~= a.push(sep) + rest.drop_last());
    }
}

/// The directory test of a pattern without `*`: a component equal to it
/// when it holds no `/`, else the path itself or a path below it.
proof fn lemma_at_or_below_dir(core: Seq<char>, path: Seq<char>)
    requires
        path == core || (core.len() < path.len() && path.take(core.len() + 1 as int) == core.push('/')),
    ensures
        !core.contains('/') ==> split_on(path, '/').contains(core),
        core.contains('/') ==> (path == core || starts_with(path, core.push('/'))),
{
    if !core.contains('/') {
        if path == core {
            lemma_split_no_sep(core, '/');
            assert(split_on(path, '/')[0] == core);
        } else {
            let rest = path.skip(core.len() + 1 as int);
            assert(path =~= core.push('/') + rest);
            lemma_split_first_piece(core, '/', rest);
            assert(split_on(path, '/')[0] == core);
        }
    }
}

/// A directory pattern covers the directory and everything below it: with
/// `core` the pattern without its trailing slashes, and no `*` in it, the
/// path `core` and every path `core/rest` match the pattern, whether or not
/// `core` holds a `/` and however many slashes end the pattern.
pub proof fn lemma_pattern_covers_directory(pattern: Seq<char>, rest: Seq<char>)
    requires
        !trim_end_char(pattern, '/').contains('*'),
    ensures
        spec_matches_pattern(trim_end_char(pattern, '/'), pattern),
        spec_matches_pattern(trim_end_char(pattern, '/').push('/') + rest, pattern),
{
    let core = trim_end_char(pattern, '/');
    lemma_at_or_below_dir(core, core);
    let below = core.push('/') + rest;
    assert(below.take(core.len() + 1 as int) =~= core.push('/'));
    lemma_at_or_below_dir(core, below);
}

/// Trailing slashes do not change what a pattern matches: for a pattern
/// whose core has no `*`, the pattern with one more `/` at its end matches
/// exactly the paths the pattern matches, whether or not it holds a `/`.
pub proof fn lemma_trailing_slash_same_matches(path: Seq<char>, pattern: Seq<char>)
    requires
        !trim_end_char(pattern, '/').contains('*'),
    ensures
        spec_matches_pattern(path, pattern.push('/')) == spec_matches_pattern(path, pattern),
{
    let p2 = pattern.push('/');
    assert(p2.drop_last() =~= pattern);
    assert(trim_end_char(p2, '/') == trim_end_char(pattern, '/'));
    let core = trim_end_char(pattern, '/');
    lemma_trim_end_char_shape(pattern, '/');
    if path == pattern {
        if pattern.len() == core.len() {
            assert(pattern =~= core);
            lemma_at_or_below_dir(core, path);
        } else {
            assert(pattern[core.len() as int] == '/');
            assert(path.take(core.len() + 1 as int) =~= core.push('/'));
            lemma_at_or_below_dir(core, path);
        }
    }
    if path == p2 {
        if pattern.len() == core.len() {
            assert(p2[core.len() as int] == '/');
        } else {
            assert(p2[core.len() as int] == pattern[core.len() as int]);
        }
        assert(path.take(core.len() + 1 as int) =~= core.push('/'));
        lemma_at_or_below_dir(core, path);
    }
}

/// Whether two character sequences are equal.
pub fn chars_eq(a: &Vec<char>, b: &Vec<char>) -> (r: bool)
    ensures
        r == (a@ == b@),
{
    if a.len() != b.len() {
        return false;
    }
    let r = occurs_at_exec(a, 0, b);
    assert(a@.subrange(0, a@.len() as int) =~= a@);
    r
}

/// Whether `v` holds `c`.
pub fn contains_char(v: &Vec<char>, c: char) -> (r: bool)
    ensures
        r == v@.contains(c),
{
    let mut i: usize = 0;
    while i < v.len()
        invariant
            i <= v@.len(),
            forall|k: int| 0 <= k < i ==> v@[k] != c,
        decreases v@.len() - i,
    {
        if v[i] == c {
            assert(v@[i as int] == c);
            return true;
        }
        i = i + 1;
    }
    false
}

/// The first `n` characters of `v`.
pub fn take_chars(v: &Vec<char>, n: usize) -> (r: Vec<char>)
    requires
        n <= v@.len(),
    ensures
        r@ == v@.take(n as int),
{
    let mut out: Vec<char> = Vec::new();
    let mut i: usize = 0;
    while i < n
        invariant
            n <= v@.len(),
            i <= n,
            out@ == v@.take(i as int),
        decreases n - i,
    {
        out.push(v[i]);
        assert(v@.take(i + 1) =~= v@.take(i as int).push(v@[i as int]));
        i = i + 1;
    }
    out
}

/// Whether a path matches one ignore pattern (see `spec_matches_pattern`).
pub fn matches_pattern(path: &str, pattern: &str) -> (r: bool)
    ensures
        r == spec_matches_pattern(path@, pattern@),
{
    if crate::text::str_eq(path, pattern) {
        return true;
    }
    let pc = chars_of(pattern);
    let mut e: usize = pc.len();
    assert(pc@.take(e as int) =~= pc@);
    while e > 0 && pc[e - 1] == '/'
        invariant
            e <= pc@.len(),
            trim_end_char(pc@.take(e as int), '/') == trim_end_char(pc@, '/'),
        decreases e,
    {
        assert(pc@.take(e as int).drop_last() =~= pc@.take(e - 1));
        e = e - 1;
    }
    let core = take_chars(&pc, e);
    assert(trim_end_char(core@, '/') == core@);
    if contains_char(&core, '*') {
        return wildcard_match(path, pattern);
    }
    let pathc = chars_of(path);
    if !contains_char(&core, '/') {
        let comps = split_chars(&pathc, '/');
        let mut i: usize = 0;
        while i < comps.len()
            invariant
                i <= comps@.len(),
                char_views(comps@) == split_on(path@, '/'),
                core@ == trim_end_char(pattern@, '/'),
                !core@.contains('*'),
                !core@.contains('/'),
                path@ != pattern@,
                forall|k: int| 0 <= k < i ==> split_on(path@, '/')[k] != core@,
            decreases comps@.len() - i,
        {
            if chars_eq(&comps[i], &core) {
                assert(split_on(path@, '/')[i as int] == core@);
                return true;
            }
            i = i + 1;
        }
        return false;
    }
    if chars_eq(&pathc, &core) {
        return true;
    }
    let mut prefix = core;
    prefix.push('/');
    proof {
        lemma_starts_with_occurs(path@, 0, prefix@);
        assert(path@.skip(0) =~= path@);
    }
    occurs_at_exec(&pathc, 0, &prefix)
}

/// Characters with the Unicode `White_Space` property, which `char::is_whitespace`
/// and `str::trim` go by.
pub open spec fn is_white_space(c: char) -> bool {
    ('\u{9}' <= c && c <= '\u{d}') || c == ' ' || c == '\u{85}' || c == '\u{a0}' || c == '\u{1680}' || (
    '\u{2000}' <= c && c <= '\u{200a}') || c == '\u{2028}' || c == '\u{2029}' || c == '\u{202f}' || c
        == '\u{205f}' || c == '\u{3000}'
}

/// Whether `c` is white space.
pub fn white_space(c: char) -> (r: bool)
    ensures
        r == is_white_space(c),
{
    ('\u{9}' <= c && c <= '\u{d}') || c == ' ' || c == '\u{85}' || c == '\u{a0}' || c == '\u{1680}' || (
    '\u{2000}' <= c && c <= '\u{200a}') || c == '\u{2028}' || c == '\u{2029}' || c == '\u{202f}' || c
        == '\u{205f}' || c == '\u{3000}'
}

/// `s` without its leading `c`s (`str::trim_start_matches` with a character).
pub open spec fn trim_start_char(s: Seq<char>, c: char) -> Seq<char>
    decreases s.len(),
{
    if s.len() > 0 && s[0] == c {
        trim_start_char(s.drop_first(), c)
    } else {
        s
    }
}

/// `s` without leading white space.
pub open spec fn trim_start_ws(s: Seq<char>) -> Seq<char>
    decreases s.len(),
{
    if s.len() > 0 && is_white_space(s[0]) {
        trim_start_ws(s.drop_first())
    } else {
        s
    }
}

/// `s` without trailing white space.
pub open spec fn trim_end_ws(s: Seq<char>) -> Seq<char>
    decreases s.len(),
{
    if s.len() > 0 && is_white_space(s.last()) {
        trim_end_ws(s.drop_last())
    } else {
        s
    }
}

/// The pattern a line of `.sdalignore` holds: leading byte-order marks
/// removed, then surrounding white space.
pub open spec fn pattern_of_line(line: Seq<char>) -> Seq<char> {
    trim_end_ws(trim_start_ws(trim_start_char(line, '\u{feff}')))
}

/// Blank lines and lines starting with `#` hold no pattern.
pub open spec fn keeps_line(p: Seq<char>) -> bool {
    p.len() > 0 && p[0] != '#'
}

/// The patterns of a file's lines, in order.
pub open spec fn patterns_of_lines(lines: Seq<Seq<char>>) -> Seq<Seq<char>>
    decreases lines.len(),
{
    if lines.len() == 0 {
        Seq::empty()
    } else {
        let r = patterns_of_lines(lines.drop_last());
        let p = pattern_of_line(lines.last());
        if keeps_line(p) {
            r.push(p)
        } else {
            r
        }
    }
}

/// The patterns of a `.sdalignore` file with this content, after the one
/// that is always there. Splitting at `\n` and trimming gives the same
/// patterns as `str::lines`, since a `\r` before the `\n` is white space.
pub open spec fn spec_patterns(content: Seq<char>) -> Seq<Seq<char>> {
    seq![".sdal"@] + patterns_of_lines(split_on(content, '\n'))
}

/// The pattern of one line.
pub fn line_pattern(line: &Vec<char>) -> (r: Vec<char>)
    ensures
        r@ == pattern_of_line(line@),
{
    let n = line.len();
    let mut a: usize = 0;
    assert(line@.skip(0) =~= line@);
    while a < n && line[a] == '\u{feff}'
        invariant
            n == line@.len(),
            a <= n,
            trim_start_char(line@.skip(a as int), '\u{feff}') == trim_start_char(line@, '\u{feff}'),
        decreases n - a,
    {
        assert(line@.skip(a as int).drop_first() =~= line@.skip(a + 1));
        a = a + 1;
    }
    assert(trim_start_char(line@.skip(a as int), '\u{feff}') == line@.skip(a as int));
    let mut b: usize = a;
    while b < n && white_space(line[b])
        invariant
            n == line@.len(),
            a <= b <= n,
            trim_start_ws(line@.skip(b as int)) == trim_start_ws(line@.skip(a as int)),
        decreases n - b,
    {
        assert(line@.skip(b as int).drop_first() =~= line@.skip(b + 1));
        b = b + 1;
    }
    assert(trim_start_ws(line@.skip(b as int)) == line@.skip(b as int));
    let mut e: usize = n;
    assert(line@.subrange(b as int, n as int) =~= line@.skip(b as int));
    while e > b && white_space(line[e - 1])
        invariant
            n == line@.len(),
            b <= e <= n,
            trim_end_ws(line@.subrange(b as int, e as int)) == trim_end_ws(line@.skip(b as int)),
        decreases e,
    {
        assert(line@.subrange(b as int, e as int).drop_last() =~= line@.subrange(b as int, e - 1));
        e = e - 1;
    }
    assert(trim_end_ws(line@.subrange(b as int, e as int)) == line@.subrange(b as int, e as int));
    let mut out: Vec<char> = Vec::new();
    let mut k: usize = b;
    while k < e
        invariant
            n == line@.len(),
            b <= k <= e <= n,
            out@ == line@.subrange(b as int, k as int),
        decreases e - k,
    {
        out.push(line[k]);
        assert(line@.subrange(b as int, k + 1) =~= line@.subrange(b as int, k as int).push(line@[k as int]));
        k = k + 1;
    }
    out
}

/// A string holding these characters.
pub fn string_of_chars(v: &Vec<char>) -> (s: String)
    ensures
        s@ == v@,
{
    let mut s = String::new();
    let mut i: usize = 0;
    while i < v.len()
        invariant
            i <= v@.len(),
            s@ == v@.take(i as int),
        decreases v@.len() - i,
    {
        push_char(&mut s, v[i]);
        assert(v@.take(i + 1) =~= v@.take(i as int).push(v@[i as int]));
        i = i + 1;
    }
    assert(v@.take(v@.len() as int) =~= v@);
    s
}

/// Ignore patterns, like `.gitignore`'s: `.sdal` always, then those of the
/// repository's `.sdalignore`.
pub struct Ignore {
    patterns: Vec<String>,
}

impl View for Ignore {
    type V = Seq<Seq<char>>;

    closed spec fn view(&self) -> Seq<Seq<char>> {
        self.patterns@.map_values(|s: String| s@)
    }
}

impl Ignore {
    /// Only the repository's own directory is ignored.
    pub fn new() -> (r: Self)
        ensures
            r@ == seq![".sdal"@],
    {
        let mut patterns: Vec<String> = Vec::new();
        patterns.push(String::from_str(".sdal"));
        let r = Ignore { patterns };
        assert(r@ =~= seq![".sdal"@]);
        r
    }

    /// The rules of a `.sdalignore` file with this content (empty when there
    /// is no such file): each line, with leading byte-order marks and
    /// surrounding white space removed, is a pattern unless it is empty or
    /// starts with `#`.
    pub fn load(content: &str) -> (r: Self)
        ensures
            r@ == spec_patterns(content@),
    {
        let mut ignore = Ignore::new();
        let cs = chars_of(content);
        let lines = split_chars(&cs, '\n');
        let mut i: usize = 0;
        assert(lines@.take(0) =~= Seq::<Vec<char>>::empty());
        assert(ignore@ =~= seq![".sdal"@] + patterns_of_lines(char_views(lines@.take(0))));
        while i < lines.len()
            invariant
                i <= lines@.len(),
                char_views(lines@) == split_on(content@, '\n'),
                ignore@ == seq![".sdal"@] + patterns_of_lines(char_views(lines@.take(i as int))),
            decreases lines@.len() - i,
        {
            let p = line_pattern(&lines[i]);
            let ghost before = ignore@;
            assert(char_views(lines@.take(i + 1)).drop_last() =~= char_views(lines@.take(i as int)));
            assert(char_views(lines@.take(i + 1)).last() == lines@[i as int]@);
            if p.len() > 0 && p[0] != '#' {
                let s = string_of_chars(&p);
                ignore.patterns.push(s);
                assert(ignore@ =~= before.push(p@));
            }
            i = i + 1;
        }
        assert(lines@.take(lines@.len() as int) =~= lines@);
        ignore
    }

    /// Whether some pattern matches the path.
    pub fn should_ignore(&self, path: &str) -> (r: bool)
        ensures
            r == exists|i: int| 0 <= i < self@.len() && #[trigger] spec_matches_pattern(path@, self@[i]),
    {
        let mut i: usize = 0;
        while i < self.patterns.len()
            invariant
                i <= self@.len(),
                self@.len() == self.patterns@.len(),
                forall|k: int| 0 <= k < i ==> !#[trigger] spec_matches_pattern(path@, self@[k]),
            decreases self.patterns@.len() - i,
        {
            if matches_pattern(path, self.patterns[i].as_str()) {
                assert(self@[i as int] == self.patterns@[i as int]@);
                return true;
            }
            assert(self@[i as int] == self.patterns@[i as int]@);
            i = i + 1;
        }
        false
    }
}

/// The repository's own directory is always ignored: whatever the
/// `.sdalignore` file holds, a path with a `.sdal` component matches a
/// pattern.
pub proof fn lemma_repository_dir_ignored(content: Seq<char>, path: Seq<char>)
    requires
        split_on(path, '/').contains(".sdal"@),
    ensures
        exists|i: int| 0 <= i < spec_patterns(content).len() && #[trigger] spec_matches_pattern(path, spec_patterns(content)[i]),
{
    reveal_strlit(".sdal");
    let p = ".sdal"@;
    assert(spec_patterns(content)[0] == p);
    assert(trim_end_char(p, '/') == p);
    assert(!p.contains('*')) by {
        if p.contains('*') {
            let j = choose|j: int| 0 <= j < p.len() && p[j] == '*';
        }
    }
    assert(!p.contains('/')) by {
        if p.contains('/') {
            let j = choose|j: int| 0 <= j < p.len() && p[j] == '/';
        }
    }
    assert(spec_matches_pattern(path, spec_patterns(content)[0]));
}

} // verus!
