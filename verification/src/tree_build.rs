//! Building directory trees from flat file sets (path -> blob hash, with `/`
//! between path components): one level at a time, files here and the file
//! sets of each subdirectory.

use vstd::prelude::*;
use crate::maps::{lemma_map_of_take, map_of, StrMap};
use crate::objects::{entries_sorted, has_separator, names_plain, names_unique, Tree, TreeEntry};
use crate::order::{lemma_lex_le_antisymmetric, lemma_lex_le_reflexive, lemma_lex_le_transitive, str_le};
use crate::refs::{chars_of, push_char};
use crate::ignore::string_of_chars;

verus! {

/// The files of a set that sit at its top level (no `/` in their path).
pub open spec fn files_here(m: Map<Seq<char>, String>) -> Map<Seq<char>, String> {
    m.restrict(m.dom().filter(|p: Seq<char>| !p.contains('/')))
}

/// The names of the subdirectories a file set reaches into.
pub open spec fn subdir_names(m: Map<Seq<char>, String>) -> Set<Seq<char>> {
    Set::new(|d: Seq<char>| !d.contains('/') && exists|r: Seq<char>| #[trigger] m.dom().contains(d.push('/') + r))
}

/// The file set below subdirectory `d`, with paths relative to it.
pub open spec fn subdir_entries(m: Map<Seq<char>, String>, d: Seq<char>) -> Map<Seq<char>, String> {
    Map::new(|r: Seq<char>| m.dom().contains(d.push('/') + r), |r: Seq<char>| m[d.push('/') + r])
}

/// A path splits at its first `/` in one way only.
pub proof fn lemma_split_unique(d1: Seq<char>, r1: Seq<char>, d2: Seq<char>, r2: Seq<char>)
    requires
        !d1.contains('/'),
        !d2.contains('/'),
        d1.push('/') + r1 == d2.push('/') + r2,
    ensures
        d1 == d2,
        r1 == r2,
{
    let p = d1.push('/') + r1;
    if d1.len() < d2.len() {
        assert(p[d1.len() as int] == '/');
        assert((d2.push('/') + r2)[d1.len() as int] == d2[d1.len() as int]);
        assert(d2.contains(d2[d1.len() as int]));
    } else if d2.len() < d1.len() {
        assert((d2.push('/') + r2)[d2.len() as int] == '/');
        assert(p[d2.len() as int] == d1[d2.len() as int]);
        assert(d1.contains(d1[d2.len() as int]));
    } else {
        assert(d1 =~= p.take(d1.len() as int));
        assert(d2 =~= (d2.push('/') + r2).take(d2.len() as int));
        assert(r1 =~= p.skip(d1.len() as int + 1));
        assert(r2 =~= (d2.push('/') + r2).skip(d2.len() as int + 1));
    }
}

/// Splits a path at its first `/`: the directory and the rest.
pub fn split_at_slash(p: &str) -> (r: Option<(String, String)>)
    ensures
        r matches Some((d, rest)) ==> !d@.contains('/') && p@ == d@.push('/') + rest@,
        r is None ==> !p@.contains('/'),
{
    let cs = chars_of(p);
    let mut i: usize = 0;
    while i < cs.len() && cs[i] != '/'
        invariant
            cs@ == p@,
            i <= cs@.len(),
            forall|j: int| 0 <= j < i ==> cs@[j] != '/',
        decreases cs@.len() - i,
    {
        i = i + 1;
    }
    if i == cs.len() {
        return None;
    }
    let mut d = String::new();
    let mut k: usize = 0;
    while k < i
        invariant
            cs@ == p@,
            k <= i < cs@.len(),
            d@ == p@.take(k as int),
        decreases i - k,
    {
        push_char(&mut d, cs[k]);
        assert(p@.take(k + 1) =~= p@.take(k as int).push(p@[k as int]));
        k = k + 1;
    }
    let mut rest = String::new();
    let mut k: usize = i + 1;
    while k < cs.len()
        invariant
            cs@ == p@,
            i < cs@.len(),
            i + 1 <= k <= cs@.len(),
            rest@ == p@.subrange(i + 1, k as int),
        decreases cs@.len() - k,
    {
        push_char(&mut rest, cs[k]);
        assert(p@.subrange(i + 1, k + 1) =~= p@.subrange(i + 1, k as int).push(p@[k as int]));
        k = k + 1;
    }
    assert(p@ =~= d@.push('/') + rest@);
    assert(!d@.contains('/')) by {
        if d@.contains('/') {
            let j = choose|j: int| 0 <= j < d@.len() && d@[j] == '/';
            assert(cs@[j] == '/');
        }
    }
    Some((d, rest))
}

/// The next top-level pair of a file set, added to its grouping.
proof fn lemma_group_step(m: Map<Seq<char>, String>, p: Seq<char>, h: String)
    requires
        !m.dom().contains(p),
    ensures
        !p.contains('/') ==> files_here(m.insert(p, h)) == files_here(m).insert(p, h),
        !p.contains('/') ==> subdir_names(m.insert(p, h)) == subdir_names(m),
        !p.contains('/') ==> forall|e: Seq<char>| subdir_entries(m.insert(p, h), e) == subdir_entries(m, e),
        p.contains('/') ==> files_here(m.insert(p, h)) == files_here(m),
{
    let m2 = m.insert(p, h);
    if !p.contains('/') {
        assert(files_here(m2) =~= files_here(m).insert(p, h));
        assert forall|e: Seq<char>| #[trigger] subdir_names(m2).contains(e) <==> subdir_names(m).contains(e) by {
            if subdir_names(m2).contains(e) {
                let r = choose|r: Seq<char>| #[trigger] m2.dom().contains(e.push('/') + r);
                if e.push('/') + r == p {
                    assert(p[e.len() as int] == '/');
                    assert(p.contains(p[e.len() as int]));
                }
                assert(m.dom().contains(e.push('/') + r));
            }
            if subdir_names(m).contains(e) {
                let r = choose|r: Seq<char>| #[trigger] m.dom().contains(e.push('/') + r);
                assert(m2.dom().contains(e.push('/') + r));
            }
        }
        assert(subdir_names(m2) =~= subdir_names(m));
        assert forall|e: Seq<char>| subdir_entries(m2, e) == subdir_entries(m, e) by {
            assert forall|r: Seq<char>| #[trigger] m2.dom().contains(e.push('/') + r) implies e.push('/') + r != p by {
                if e.push('/') + r == p {
                    assert(p[e.len() as int] == '/');
                    assert(p.contains(p[e.len() as int]));
                }
            }
            assert(subdir_entries(m2, e) =~= subdir_entries(m, e));
        }
    } else {
        assert(files_here(m2) =~= files_here(m));
    }
}

/// The next pair of a file set, below subdirectory `d`, added to its grouping.
proof fn lemma_group_step_dir(m: Map<Seq<char>, String>, d: Seq<char>, r: Seq<char>, h: String)
    requires
        !d.contains('/'),
        !m.dom().contains(d.push('/') + r),
    ensures
        subdir_names(m.insert(d.push('/') + r, h)) == subdir_names(m).insert(d),
        subdir_entries(m.insert(d.push('/') + r, h), d) == subdir_entries(m, d).insert(r, h),
        forall|e: Seq<char>|
            e != d && !e.contains('/') ==> subdir_entries(m.insert(d.push('/') + r, h), e) == subdir_entries(m, e),
{
    let p = d.push('/') + r;
    let m2 = m.insert(p, h);
    assert forall|e: Seq<char>| #[trigger] subdir_names(m2).contains(e) <==> subdir_names(m).insert(d).contains(e) by {
        if subdir_names(m2).contains(e) && e != d {
            let x = choose|x: Seq<char>| #[trigger] m2.dom().contains(e.push('/') + x);
            if e.push('/') + x == p {
                lemma_split_unique(e, x, d, r);
            }
            assert(m.dom().contains(e.push('/') + x));
        }
        if e == d {
            assert(m2.dom().contains(d.push('/') + r));
        }
        if subdir_names(m).contains(e) {
            let x = choose|x: Seq<char>| #[trigger] m.dom().contains(e.push('/') + x);
            assert(m2.dom().contains(e.push('/') + x));
        }
    }
    assert(subdir_names(m2) =~= subdir_names(m).insert(d));
    assert forall|x: Seq<char>| #[trigger] subdir_entries(m2, d).dom().contains(x) <==> subdir_entries(
        m,
        d,
    ).insert(r, h).dom().contains(x) by {
        if d.push('/') + x == p {
            lemma_split_unique(d, x, d, r);
        }
    }
    assert forall|x: Seq<char>| #[trigger] subdir_entries(m2, d).dom().contains(x) implies subdir_entries(m2, d)[x]
        == subdir_entries(m, d).insert(r, h)[x] by {
        if d.push('/') + x == p {
            lemma_split_unique(d, x, d, r);
        }
    }
    assert(subdir_entries(m2, d) =~= subdir_entries(m, d).insert(r, h));
    assert forall|e: Seq<char>| e != d && !e.contains('/') implies subdir_entries(m2, e) == subdir_entries(m, e) by {
        assert forall|x: Seq<char>| #[trigger] m2.dom().contains(e.push('/') + x) implies e.push('/') + x != p by {
            if e.push('/') + x == p {
                lemma_split_unique(e, x, d, r);
            }
        }
        assert(subdir_entries(m2, e) =~= subdir_entries(m, e));
    }
}

/// Groups a file set by its first path component: the files at this level,
/// and for each subdirectory the files below it (paths relative to it).
pub fn group_paths(entries: &StrMap<String>) -> (r: (StrMap<String>, StrMap<StrMap<String>>))
    requires
        entries.wf(),
    ensures
        r.0.wf(),
        r.1.wf(),
        r.0.view() == files_here(entries.view()),
        r.1.view().dom() == subdir_names(entries.view()),
        forall|d: Seq<char>| #[trigger] r.1.view().dom().contains(d) ==> r.1.view()[d].wf(),
        forall|d: Seq<char>| #[trigger] r.1.view().dom().contains(d) ==> r.1.view()[d].view() == subdir_entries(
            entries.view(),
            d,
        ),
{
    let items = entries.items();
    proof {
        entries.lemma_pairs();
    }
    let ghost s = entries.pairs();
    let mut files: StrMap<String> = StrMap::new();
    let mut dirs: StrMap<StrMap<String>> = StrMap::new();
    let mut k: usize = 0;
    assert(s.take(0) =~= Seq::<(String, String)>::empty());
    assert(map_of(s.take(0)) =~= Map::<Seq<char>, String>::empty());
    assert(files_here(map_of(s.take(0))) =~= Map::<Seq<char>, String>::empty());
    assert(subdir_names(map_of(s.take(0))) =~= Set::<Seq<char>>::empty());
    while k < items.len()
        invariant
            items@ == s,
            s == entries.pairs(),
            crate::maps::keys_unique(s),
            k <= s.len(),
            files.wf(),
            dirs.wf(),
            files.view() == files_here(map_of(s.take(k as int))),
            dirs.view().dom() == subdir_names(map_of(s.take(k as int))),
            forall|d: Seq<char>| #[trigger] dirs.view().dom().contains(d) ==> dirs.view()[d].wf(),
            forall|d: Seq<char>| #[trigger] dirs.view().dom().contains(d) ==> dirs.view()[d].view() == subdir_entries(
                map_of(s.take(k as int)),
                d,
            ),
        decreases s.len() - k,
    {
        let ghost m = map_of(s.take(k as int));
        proof {
            lemma_map_of_take(s, k as int);
        }
        let p = &items[k].0;
        let h = &items[k].1;
        match split_at_slash(p.as_str()) {
            None => {
                proof {
                    lemma_group_step(m, p@, *h);
                }
                files.insert(p.clone(), h.clone());
            },
            Some((d, rest)) => {
                proof {
                    assert(p@[d@.len() as int] == '/');
                    assert(p@.contains('/'));
                    lemma_group_step(m, p@, *h);
                    lemma_group_step_dir(m, d@, rest@, *h);
                }
                let ghost had = dirs.view().dom().contains(d@);
                let mut sub = match dirs.take(d.as_str()) {
                    Some(sub) => sub,
                    None => {
                        let e = StrMap::new();
                        proof {
                            assert(!subdir_names(m).contains(d@));
                            assert(subdir_entries(m, d@) =~= Map::<Seq<char>, String>::empty()) by {
                                assert forall|x: Seq<char>| !#[trigger] m.dom().contains(d@.push('/') + x) by {
                                    if m.dom().contains(d@.push('/') + x) {
                                        assert(subdir_names(m).contains(d@));
                                    }
                                }
                            }
                        }
                        e
                    },
                };
                sub.insert(rest, h.clone());
                dirs.insert(d, sub);
            },
        }
        k = k + 1;
    }
    assert(s.take(s.len() as int) =~= s);
    (files, dirs)
}

/// The entries of one tree level before sorting: the files as blobs (size
/// 0), in order, then the subdirectories as trees.
pub open spec fn level_entries(files: Seq<(String, String)>, subtrees: Seq<(String, String)>) -> Seq<(String, TreeEntry)> {
    files.map_values(|f: (String, String)| (f.0, TreeEntry::Blob { hash: f.1, size: 0 })) + subtrees.map_values(
        |d: (String, String)| (d.0, TreeEntry::Tree { hash: d.1 }),
    )
}

/// Two positions of a sequence hold, at two distinct positions of a
/// reordering of it, the same two values.
proof fn lemma_reordered_positions<A>(a: Seq<A>, b: Seq<A>, i: int, j: int) -> (pq: (int, int))
    requires
        a.to_multiset() =~= b.to_multiset(),
        0 <= i < j < b.len(),
    ensures
        0 <= pq.0 < a.len(),
        0 <= pq.1 < a.len(),
        pq.0 != pq.1,
        a[pq.0] == b[i],
        a[pq.1] == b[j],
{
    broadcast use vstd::seq_lib::group_to_multiset_ensures;

    assert(b.contains(b[i]));
    assert(a.to_multiset().count(b[i]) > 0);
    let p = choose|p: int| 0 <= p < a.len() && a[p] == b[i];
    if b[i] == b[j] {
        let x = b[i];
        assert(b.remove(i)[j - 1] == x);
        assert(b.remove(i).contains(x));
        assert(b.remove(i).to_multiset().count(x) > 0);
        assert(b.to_multiset().count(x) >= 2);
        assert(a.remove(p).to_multiset().count(x) > 0);
        assert(a.remove(p).contains(x));
        let q2 = choose|q2: int| 0 <= q2 < a.remove(p).len() && a.remove(p)[q2] == x;
        let q = if q2 < p { q2 } else { q2 + 1 };
        assert(a[q] == x);
        (p, q)
    } else {
        assert(b.contains(b[j]));
        assert(a.to_multiset().count(b[j]) > 0);
        let q = choose|q: int| 0 <= q < a.len() && a[q] == b[j];
        (p, q)
    }
}

/// Reordering entries keeps their names unique and free of separators.
proof fn lemma_names_ok_reordered(a: Seq<(String, TreeEntry)>, b: Seq<(String, TreeEntry)>)
    requires
        a.to_multiset() =~= b.to_multiset(),
        names_unique(a),
        names_plain(a),
    ensures
        names_unique(b),
        names_plain(b),
{
    broadcast use vstd::seq_lib::group_to_multiset_ensures;

    assert forall|i: int| 0 <= i < b.len() implies !has_separator(#[trigger] b[i].0@) by {
        assert(b.contains(b[i]));
        assert(a.to_multiset().count(b[i]) > 0);
        let p = choose|p: int| 0 <= p < a.len() && a[p] == b[i];
        assert(!has_separator(a[p].0@));
    }
    assert forall|i: int, j: int| 0 <= i < j < b.len() implies #[trigger] b[i].0@ != #[trigger] b[j].0@ by {
        let (p, q) = lemma_reordered_positions(a, b, i, j);
        if p < q {
            assert(a[p].0@ != a[q].0@);
        } else {
            assert(a[q].0@ != a[p].0@);
        }
    }
}

/// One tree level from its files and its subtrees (name, tree hash): the
/// entries sorted by name, then checked. Gives the tree; it fails exactly
/// when two entries share a name or a name holds a path separator.
pub fn tree_level(files: &Vec<(String, String)>, subtrees: &Vec<(String, String)>) -> (r: Result<Tree, String>)
    ensures
        r matches Ok(t) ==> t.spec_valid() && t.entries@.to_multiset() == level_entries(files@, subtrees@).to_multiset(),
        r is Ok <==> names_unique(level_entries(files@, subtrees@)) && names_plain(level_entries(files@, subtrees@)),
{
    let ghost want = level_entries(files@, subtrees@);
    let mut tree = Tree::new();
    let mut i: usize = 0;
    while i < files.len()
        invariant
            want == level_entries(files@, subtrees@),
            i <= files@.len(),
            tree.entries@ == want.take(i as int),
        decreases files@.len() - i,
    {
        tree.entries.push((files[i].0.clone(), TreeEntry::Blob { hash: files[i].1.clone(), size: 0 }));
        assert(want.take(i + 1) =~= want.take(i as int).push(want[i as int]));
        i = i + 1;
    }
    let mut j: usize = 0;
    while j < subtrees.len()
        invariant
            want == level_entries(files@, subtrees@),
            files@.len() <= want.len(),
            j <= subtrees@.len(),
            want.len() == files@.len() + subtrees@.len(),
            tree.entries@ == want.take(files@.len() + j),
        decreases subtrees@.len() - j,
    {
        tree.entries.push((subtrees[j].0.clone(), TreeEntry::Tree { hash: subtrees[j].1.clone() }));
        assert(want.take(files@.len() + j + 1) =~= want.take(files@.len() + j).push(want[files@.len() + j]));
        j = j + 1;
    }
    assert(want.take(want.len() as int) =~= want);
    tree.sort();
    proof {
        if names_unique(want) && names_plain(want) {
            lemma_names_ok_reordered(want, tree.entries@);
        }
        if names_unique(tree.entries@) && names_plain(tree.entries@) {
            lemma_names_ok_reordered(tree.entries@, want);
        }
    }
    match tree.validate() {
        Ok(()) => Ok(tree),
        Err(msg) => Err(msg),
    }
}

/// Whether a name is both a file and a subdirectory at one level.
pub fn find_collision(files: &StrMap<String>, dirs: &StrMap<StrMap<String>>) -> (r: Option<String>)
    requires
        files.wf(),
        dirs.wf(),
    ensures
        r matches Some(n) ==> files.view().dom().contains(n@) && dirs.view().dom().contains(n@),
        r is None ==> forall|n: Seq<char>| #[trigger] files.view().dom().contains(n) ==> !dirs.view().dom().contains(n),
{
    let items = files.items();
    proof {
        files.lemma_pairs();
    }
    let mut i: usize = 0;
    while i < items.len()
        invariant
            items@ == files.pairs(),
            files.wf(),
            dirs.wf(),
            i <= items@.len(),
            forall|k: int| 0 <= k < i ==> !dirs.view().dom().contains(#[trigger] files.pairs()[k].0@),
            forall|n: Seq<char>| #[trigger] files.view().dom().contains(n) <==> crate::maps::has_key(files.pairs(), n),
            forall|k: int| 0 <= k < files.pairs().len() ==> files.view().dom().contains(#[trigger] files.pairs()[k].0@),
        decreases items@.len() - i,
    {
        if dirs.contains_key(items[i].0.as_str()) {
            return Some(items[i].0.clone());
        }
        i = i + 1;
    }
    assert forall|n: Seq<char>| #[trigger] files.view().dom().contains(n) implies !dirs.view().dom().contains(n) by {
        let k = choose|k: int| 0 <= k < files.pairs().len() && #[trigger] files.pairs()[k].0@ == n;
    }
    None
}

/// In entries sorted by adjacent pairs, any earlier name sorts no later.
proof fn lemma_sorted_le(es: Seq<(String, TreeEntry)>, i: int, j: int)
    requires
        entries_sorted(es),
        0 <= i <= j < es.len(),
    ensures
        str_le(es[i].0@, es[j].0@),
    decreases j - i,
{
    if i == j {
        lemma_lex_le_reflexive(vstd::utf8::encode_utf8(es[i].0@));
    } else {
        lemma_sorted_le(es, i, j - 1);
        assert(str_le(es[j - 1].0@, es[j].0@));
        lemma_lex_le_transitive(
            vstd::utf8::encode_utf8(es[i].0@),
            vstd::utf8::encode_utf8(es[j - 1].0@),
            vstd::utf8::encode_utf8(es[j].0@),
        );
    }
}

/// Entries sorted by name, with distinct names, are determined by which
/// entries there are: two such lists with the same entries are the same list.
pub proof fn lemma_sorted_entries_unique(a: Seq<(String, TreeEntry)>, b: Seq<(String, TreeEntry)>)
    requires
        entries_sorted(a),
        entries_sorted(b),
        names_unique(a),
        names_unique(b),
        a.to_multiset() == b.to_multiset(),
    ensures
        a == b,
    decreases a.len(),
{
    broadcast use vstd::seq_lib::group_to_multiset_ensures;

    assert(a.to_multiset().len() == a.len());
    assert(b.to_multiset().len() == b.len());
    assert(a.len() == b.len());
    if a.len() == 0 {
        assert(a =~= b);
    } else {
        assert(a.contains(a[0]));
        assert(b.to_multiset().count(a[0]) > 0);
        assert(b.contains(a[0]));
        let j = choose|j: int| 0 <= j < b.len() && b[j] == a[0];
        assert(b.contains(b[0]));
        assert(a.to_multiset().count(b[0]) > 0);
        assert(a.contains(b[0]));
        let k = choose|k: int| 0 <= k < a.len() && a[k] == b[0];
        lemma_sorted_le(a, 0, k);
        lemma_sorted_le(b, 0, j);
        lemma_lex_le_antisymmetric(vstd::utf8::encode_utf8(a[0].0@), vstd::utf8::encode_utf8(b[0].0@));
        vstd::utf8::encode_utf8_decode_utf8(a[0].0@);
        vstd::utf8::encode_utf8_decode_utf8(b[0].0@);
        assert(a[0].0@ == b[0].0@);
        if j != 0 {
            assert(b[0].0@ != b[j].0@);
        }
        assert(a[0] == b[0]);
        let a2 = a.drop_first();
        let b2 = b.drop_first();
        assert(a2 =~= a.remove(0));
        assert(b2 =~= b.remove(0));
        assert(a2.to_multiset() =~= b2.to_multiset());
        assert(entries_sorted(a2)) by {
            assert forall|i: int| 1 <= i < a2.len() implies str_le(a2[i - 1].0@, #[trigger] a2[i].0@) by {
                assert(a2[i] == a[i + 1]);
                assert(a2[i - 1] == a[i]);
            }
        }
        assert(entries_sorted(b2)) by {
            assert forall|i: int| 1 <= i < b2.len() implies str_le(b2[i - 1].0@, #[trigger] b2[i].0@) by {
                assert(b2[i] == b[i + 1]);
                assert(b2[i - 1] == b[i]);
            }
        }
        assert(names_unique(a2)) by {
            assert forall|x: int, y: int| 0 <= x < y < a2.len() implies #[trigger] a2[x].0@ != #[trigger] a2[y].0@ by {
                assert(a[x + 1].0@ != a[y + 1].0@);
            }
        }
        assert(names_unique(b2)) by {
            assert forall|x: int, y: int| 0 <= x < y < b2.len() implies #[trigger] b2[x].0@ != #[trigger] b2[y].0@ by {
                assert(b[x + 1].0@ != b[y + 1].0@);
            }
        }
        lemma_sorted_entries_unique(a2, b2);
        assert(a =~= b) by {
            assert forall|i: int| 0 <= i < a.len() implies a[i] == b[i] by {
                if i > 0 {
                    assert(a[i] == a2[i - 1]);
                    assert(b[i] == b2[i - 1]);
                }
            }
        }
    }
}

/// Determinism of trees: two valid trees with the same entries, whatever
/// order they were added in, are the same tree, so they are written to the
/// same bytes and get the same hash.
pub proof fn lemma_valid_trees_with_same_entries_equal(t1: Tree, t2: Tree)
    requires
        t1.spec_valid(),
        t2.spec_valid(),
        t1.entries@.to_multiset() == t2.entries@.to_multiset(),
    ensures
        t1.entries@ == t2.entries@,
{
    lemma_sorted_entries_unique(t1.entries@, t2.entries@);
}

} // verus!
