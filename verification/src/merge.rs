//! Three-way merge of file sets and the conflict bookkeeping of a merge.

use vstd::prelude::*;
use crate::maps::{has_key, keys_unique, StrMap};
use crate::text::str_eq;
use crate::walk::{strs, ObjectWalk};

verus! {

/// One conflicting path and the blobs on both sides.
#[derive(Debug)]
pub struct ConflictEntry {
    pub path: String,
    pub ours_blob: String,
    pub theirs_blob: String,
    pub resolved: bool,
}

/// Conflicts of a merge and whether each has been resolved.
#[derive(Debug)]
pub struct ConflictIndex {
    pub entries: Vec<ConflictEntry>,
}

/// A merge in progress.
#[derive(Debug)]
pub struct MergeState {
    pub ours: String,
    pub theirs: String,
    pub target_branch: String,
    pub conflicts: Vec<String>,
    /// path -> (our blob hash, their blob hash)
    pub conflict_details: StrMap<(String, String)>,
    /// Hash of the merged tree.
    pub merged_tree_hash: String,
}

/// Copies a pair of strings.
fn copy_pair(p: &(String, String)) -> (r: (String, String))
    ensures
        r == *p,
{
    (p.0.clone(), p.1.clone())
}

impl ConflictIndex {
    pub fn new() -> (c: Self)
        ensures
            c.entries@.len() == 0,
    {
        ConflictIndex { entries: Vec::new() }
    }

    /// One unresolved entry per conflicting path, in order, with the blobs
    /// recorded for it (empty strings when none are recorded).
    pub fn from_merge_state(state: &MergeState) -> (c: Self)
        requires
            state.conflict_details.wf(),
        ensures
            c.entries@.len() == state.conflicts@.len(),
            forall|i: int|
                0 <= i < c.entries@.len() ==> {
                    let e = #[trigger] c.entries@[i];
                    let p = state.conflicts@[i]@;
                    &&& e.path@ == p
                    &&& !e.resolved
                    &&& state.conflict_details.view().dom().contains(p) ==> (e.ours_blob
                        == state.conflict_details.view()[p].0 && e.theirs_blob
                        == state.conflict_details.view()[p].1)
                    &&& !state.conflict_details.view().dom().contains(p) ==> (e.ours_blob@.len() == 0
                        && e.theirs_blob@.len() == 0)
                },
    {
        let mut entries: Vec<ConflictEntry> = Vec::new();
        let mut i: usize = 0;
        while i < state.conflicts.len()
            invariant
                state.conflict_details.wf(),
                i <= state.conflicts@.len(),
                entries@.len() == i,
                forall|k: int|
                    0 <= k < i ==> {
                        let e = #[trigger] entries@[k];
                        let p = state.conflicts@[k]@;
                        &&& e.path@ == p
                        &&& !e.resolved
                        &&& state.conflict_details.view().dom().contains(p) ==> (e.ours_blob
                            == state.conflict_details.view()[p].0 && e.theirs_blob
                            == state.conflict_details.view()[p].1)
                        &&& !state.conflict_details.view().dom().contains(p) ==> (e.ours_blob@.len()
                            == 0 && e.theirs_blob@.len() == 0)
                    },
            decreases state.conflicts@.len() - i,
        {
            let path = &state.conflicts[i];
            let (ours_blob, theirs_blob) = match state.conflict_details.get(path.as_str()) {
                Some(pair) => copy_pair(pair),
                None => (String::new(), String::new()),
            };
            entries.push(ConflictEntry { path: path.clone(), ours_blob, theirs_blob, resolved: false });
            i = i + 1;
        }
        ConflictIndex { entries }
    }

    /// Whether some conflict is still unresolved.
    pub fn has_unresolved(&self) -> (r: bool)
        ensures
            r == exists|i: int| 0 <= i < self.entries@.len() && !(#[trigger] self.entries@[i]).resolved,
    {
        let mut i: usize = 0;
        while i < self.entries.len()
            invariant
                i <= self.entries@.len(),
                forall|k: int| 0 <= k < i ==> (#[trigger] self.entries@[k]).resolved,
            decreases self.entries@.len() - i,
        {
            if !self.entries[i].resolved {
                return true;
            }
            i = i + 1;
        }
        false
    }

    /// The paths of the unresolved conflicts, in order.
    pub fn unresolved_paths(&self) -> (r: Vec<&str>)
        ensures
            r@.map_values(|s: &str| s@) == self.entries@.filter(|e: ConflictEntry| !e.resolved).map_values(
                |e: ConflictEntry| e.path@,
            ),
    {
        let mut out: Vec<&str> = Vec::new();
        let mut i: usize = 0;
        while i < self.entries.len()
            invariant
                i <= self.entries@.len(),
                out@.map_values(|s: &str| s@) == self.entries@.take(i as int).filter(
                    |e: ConflictEntry| !e.resolved,
                ).map_values(|e: ConflictEntry| e.path@),
            decreases self.entries@.len() - i,
        {
            let ghost before = out@;
            proof {
                reveal_with_fuel(Seq::<_>::filter, 1);
                assert(self.entries@.take(i + 1).drop_last() =~= self.entries@.take(i as int));
            }
            if !self.entries[i].resolved {
                out.push(self.entries[i].path.as_str());
                assert(out@.map_values(|s: &str| s@) =~= before.map_values(|s: &str| s@).push(
                    self.entries@[i as int].path@,
                ));
            }
            i = i + 1;
        }
        assert(self.entries@.take(self.entries@.len() as int) =~= self.entries@);
        out
    }

    /// Marks every conflict on `path` as resolved; nothing else changes.
    pub fn mark_resolved(&mut self, path: &str)
        ensures
            final(self).entries@.len() == old(self).entries@.len(),
            forall|i: int|
                0 <= i < old(self).entries@.len() ==> {
                    let a = #[trigger] final(self).entries@[i];
                    let b = old(self).entries@[i];
                    &&& a.path == b.path
                    &&& a.ours_blob == b.ours_blob
                    &&& a.theirs_blob == b.theirs_blob
                    &&& a.resolved == (b.resolved || b.path@ == path@)
                },
    {
        let mut i: usize = 0;
        while i < self.entries.len()
            invariant
                i <= self.entries@.len(),
                self.entries@.len() == old(self).entries@.len(),
                forall|k: int|
                    0 <= k < self.entries@.len() ==> {
                        let a = #[trigger] self.entries@[k];
                        let b = old(self).entries@[k];
                        &&& a.path == b.path
                        &&& a.ours_blob == b.ours_blob
                        &&& a.theirs_blob == b.theirs_blob
                        &&& k < i ==> a.resolved == (b.resolved || b.path@ == path@)
                        &&& k >= i ==> a.resolved == b.resolved
                    },
            decreases self.entries@.len() - i,
        {
            if str_eq(self.entries[i].path.as_str(), path) {
                self.entries[i].resolved = true;
            }
            i = i + 1;
        }
    }
}

/// The hash a file set gives a path, if it has the path.
pub open spec fn lookup(m: Map<Seq<char>, String>, p: Seq<char>) -> Option<Seq<char>> {
    if m.dom().contains(p) {
        Some(m[p]@)
    } else {
        None
    }
}

/// Three-way resolution of one path from its base, our and their versions
/// (`None` meaning absent): both sides agree, take it; only theirs changed,
/// take theirs; only ours changed, keep ours; both changed differently: a
/// conflict, given as `None`. A resolved `None` means the path is absent.
pub open spec fn resolve(b: Option<Seq<char>>, o: Option<Seq<char>>, t: Option<Seq<char>>) -> Option<Option<Seq<char>>> {
    if o == t {
        Some(o)
    } else if b == o {
        Some(t)
    } else if b == t {
        Some(o)
    } else {
        None
    }
}

/// The resolution of path `p` across three file sets.
pub open spec fn resolve_path(
    base: Map<Seq<char>, String>,
    ours: Map<Seq<char>, String>,
    theirs: Map<Seq<char>, String>,
    p: Seq<char>,
) -> Option<Option<Seq<char>>> {
    resolve(lookup(base, p), lookup(ours, p), lookup(theirs, p))
}

/// The views of a list of strings.
pub open spec fn str_views(v: Seq<String>) -> Seq<Seq<char>> {
    v.map_values(|s: String| s@)
}

/// Whether two optional strings are equal.
fn opt_eq(a: Option<&String>, b: Option<&String>) -> (r: bool)
    ensures
        r == (match a {
            Some(x) => Some(x@),
            None => None::<Seq<char>>,
        } == match b {
            Some(x) => Some(x@),
            None => None::<Seq<char>>,
        }),
{
    match (a, b) {
        (Some(x), Some(y)) => str_eq(x.as_str(), y.as_str()),
        (None, None) => true,
        _ => false,
    }
}

/// The keys of three maps, each once.
fn union_keys(a: &StrMap<String>, b: &StrMap<String>, c: &StrMap<String>) -> (u: StrMap<()>)
    requires
        a.wf(),
        b.wf(),
        c.wf(),
    ensures
        u.wf(),
        u.view().dom() == a.view().dom().union(b.view().dom()).union(c.view().dom()),
{
    let mut u: StrMap<()> = StrMap::new();
    add_keys(&mut u, a);
    add_keys(&mut u, b);
    add_keys(&mut u, c);
    assert(u.view().dom() =~= a.view().dom().union(b.view().dom()).union(c.view().dom()));
    u
}

fn add_keys(u: &mut StrMap<()>, m: &StrMap<String>)
    requires
        old(u).wf(),
        m.wf(),
    ensures
        final(u).wf(),
        final(u).view().dom() == old(u).view().dom().union(m.view().dom()),
{
    proof {
        m.lemma_pairs();
    }
    let items = m.items();
    let mut i: usize = 0;
    while i < items.len()
        invariant
            u.wf(),
            items@ == m.pairs(),
            i <= items@.len(),
            forall|k: Seq<char>| #[trigger] m.view().dom().contains(k) <==> has_key(m.pairs(), k),
            u.view().dom() =~= old(u).view().dom().union(
                Set::new(|k: Seq<char>| exists|j: int| 0 <= j < i && #[trigger] items@[j].0@ == k),
            ),
        decreases items@.len() - i,
    {
        u.insert(items[i].0.clone(), ());
        i = i + 1;
    }
    assert(u.view().dom() =~= old(u).view().dom().union(m.view().dom()));
}

/// Three-way merge of file sets (path -> blob hash). Every path of any side
/// is resolved as `resolve` says: resolved present paths go to the merged set,
/// conflicting paths are listed once each, and for conflicting paths present
/// on both sides the two blob hashes are recorded.
pub fn merge_trees(
    base: &StrMap<String>,
    ours: &StrMap<String>,
    theirs: &StrMap<String>,
) -> (r: (StrMap<String>, Vec<String>, StrMap<(String, String)>))
    requires
        base.wf(),
        ours.wf(),
        theirs.wf(),
    ensures
        r.0.wf(),
        r.2.wf(),
        forall|p: Seq<char>|
            #[trigger] r.0.view().dom().contains(p) <==> resolve_path(base.view(), ours.view(), theirs.view(), p)
                matches Some(Some(_)),
        forall|p: Seq<char>|
            #[trigger] r.0.view().dom().contains(p) ==> Some(Some(r.0.view()[p]@)) == resolve_path(
                base.view(),
                ours.view(),
                theirs.view(),
                p,
            ),
        forall|i: int, j: int| 0 <= i < j < r.1@.len() ==> #[trigger] r.1@[i]@ != #[trigger] r.1@[j]@,
        forall|p: Seq<char>|
            #[trigger] str_views(r.1@).contains(p) <==> resolve_path(base.view(), ours.view(), theirs.view(), p)
                is None,
        forall|p: Seq<char>|
            #[trigger] r.2.view().dom().contains(p) <==> (resolve_path(base.view(), ours.view(), theirs.view(), p) is None
                && ours.view().dom().contains(p) && theirs.view().dom().contains(p)),
        forall|p: Seq<char>|
            #[trigger] r.2.view().dom().contains(p) ==> r.2.view()[p].0 == ours.view()[p] && r.2.view()[p].1
                == theirs.view()[p],
{
    let all = union_keys(base, ours, theirs);
    proof {
        all.lemma_pairs();
    }
    let paths = all.items();
    let ghost bv = base.view();
    let ghost ov = ours.view();
    let ghost tv = theirs.view();
    let mut merged: StrMap<String> = StrMap::new();
    let mut conflicts: Vec<String> = Vec::new();
    let mut details: StrMap<(String, String)> = StrMap::new();
    let mut i: usize = 0;
    while i < paths.len()
        invariant
            base.wf(),
            ours.wf(),
            theirs.wf(),
            bv == base.view(),
            ov == ours.view(),
            tv == theirs.view(),
            merged.wf(),
            details.wf(),
            paths@ == all.pairs(),
            keys_unique(paths@),
            i <= paths@.len(),
            forall|p: Seq<char>|
                #[trigger] merged.view().dom().contains(p) <==> (has_key(paths@.take(i as int), p)
                    && resolve_path(bv, ov, tv, p) matches Some(Some(_))),
            forall|p: Seq<char>|
                #[trigger] merged.view().dom().contains(p) ==> Some(Some(merged.view()[p]@))
                    == resolve_path(bv, ov, tv, p),
            forall|a: int, b: int| 0 <= a < b < conflicts@.len() ==> #[trigger] conflicts@[a]@ != #[trigger] conflicts@[b]@,
            forall|p: Seq<char>|
                #[trigger] str_views(conflicts@).contains(p) <==> (has_key(paths@.take(i as int), p)
                    && resolve_path(bv, ov, tv, p) is None),
            forall|p: Seq<char>|
                #[trigger] details.view().dom().contains(p) <==> (has_key(paths@.take(i as int), p)
                    && resolve_path(bv, ov, tv, p) is None && ov.dom().contains(p) && tv.dom().contains(p)),
            forall|p: Seq<char>|
                #[trigger] details.view().dom().contains(p) ==> details.view()[p].0 == ov[p]
                    && details.view()[p].1 == tv[p],
        decreases paths@.len() - i,
    {
        let path = &paths[i].0;
        let ghost p = path@;
        let b = base.get(path.as_str());
        let o = ours.get(path.as_str());
        let t = theirs.get(path.as_str());
        let ghost before_conflicts = conflicts@;
        proof {
            assert forall|q: Seq<char>| has_key(paths@.take(i + 1), q) <==> (has_key(paths@.take(i as int), q) || q == p) by {
                if has_key(paths@.take(i + 1), q) {
                    let j = choose|j: int| 0 <= j < i + 1 && #[trigger] paths@.take(i + 1)[j].0@ == q;
                    if j < i {
                        assert(paths@.take(i as int)[j] == paths@[j]);
                    }
                }
                if has_key(paths@.take(i as int), q) {
                    let j = choose|j: int| 0 <= j < i && #[trigger] paths@.take(i as int)[j].0@ == q;
                    assert(paths@.take(i + 1)[j] == paths@[j]);
                }
                assert(paths@.take(i + 1)[i as int] == paths@[i as int]);
            }
            assert(!has_key(paths@.take(i as int), p)) by {
                if has_key(paths@.take(i as int), p) {
                    let j = choose|j: int| 0 <= j < i && #[trigger] paths@.take(i as int)[j].0@ == p;
                    assert(paths@[j].0@ != paths@[i as int].0@);
                }
            }
        }
        let result: Option<&String> = if opt_eq(o, t) {
            o
        } else if opt_eq(b, o) {
            t
        } else if opt_eq(b, t) {
            o
        } else {
            conflicts.push(path.clone());
            proof {
                assert(str_views(conflicts@) =~= str_views(before_conflicts).push(p));
                assert forall|q: Seq<char>| #[trigger] str_views(conflicts@).contains(q) <==> (str_views(
                    before_conflicts,
                ).contains(q) || q == p) by {
                    if str_views(conflicts@).contains(q) {
                        let j = choose|j: int| 0 <= j < str_views(conflicts@).len() && str_views(conflicts@)[j] == q;
                        if j < before_conflicts.len() {
                            assert(str_views(before_conflicts)[j] == q);
                        }
                    }
                    if str_views(before_conflicts).contains(q) {
                        let j = choose|j: int| 0 <= j < str_views(before_conflicts).len() && str_views(before_conflicts)[j] == q;
                        assert(str_views(conflicts@)[j] == q);
                    }
                    assert(str_views(conflicts@)[before_conflicts.len() as int] == p);
                }
                assert forall|a: int, c: int| 0 <= a < c < conflicts@.len() implies #[trigger] conflicts@[a]@
                    != #[trigger] conflicts@[c]@ by {
                    if c == before_conflicts.len() {
                        assert(str_views(before_conflicts).contains(conflicts@[a]@)) by {
                            assert(str_views(before_conflicts)[a] == conflicts@[a]@);
                        }
                    }
                }
            }
            match (o, t) {
                (Some(ov_s), Some(tv_s)) => {
                    details.insert(path.clone(), (ov_s.clone(), tv_s.clone()));
                },
                _ => {},
            }
            None
        };
        match result {
            Some(h) => {
                merged.insert(path.clone(), h.clone());
            },
            None => {},
        }
        proof {
            if resolve_path(bv, ov, tv, p) is Some {
                assert(str_views(conflicts@) == str_views(before_conflicts));
            }
        }
        i = i + 1;
    }
    proof {
        assert(paths@.take(paths@.len() as int) =~= paths@);
        assert forall|p: Seq<char>| has_key(paths@, p) <==> (bv.dom().contains(p) || ov.dom().contains(p) || tv.dom().contains(p)) by {
            assert(all.view().dom().contains(p) <==> has_key(all.pairs(), p));
        }
    }
    (merged, conflicts, details)
}

/// The three-way merge is symmetric: merging theirs into ours resolves every
/// path as merging ours into theirs does (same merged file set, same conflicts).
pub proof fn lemma_merge_symmetric(
    base: Map<Seq<char>, String>,
    ours: Map<Seq<char>, String>,
    theirs: Map<Seq<char>, String>,
    p: Seq<char>,
)
    ensures
        resolve_path(base, ours, theirs, p) == resolve_path(base, theirs, ours, p),
{
}

/// Merging a file set with an identical one gives it back with no conflict.
pub proof fn lemma_merge_same_sides(
    base: Map<Seq<char>, String>,
    side: Map<Seq<char>, String>,
    p: Seq<char>,
)
    ensures
        resolve_path(base, side, side, p) == Some(lookup(side, p)),
{
}

/// When only one side changed the base, the merge takes that side, with no
/// conflict: theirs if ours still equals the base (a fast-forward), ours if
/// theirs does.
pub proof fn lemma_merge_one_side_changed(
    base: Map<Seq<char>, String>,
    other: Map<Seq<char>, String>,
    p: Seq<char>,
)
    ensures
        resolve_path(base, base, other, p) == Some(lookup(other, p)),
        resolve_path(base, other, base, p) == Some(lookup(other, p)),
{
}

/// A path is in conflict exactly when the base, ours and theirs all differ
/// from each other.
pub proof fn lemma_merge_conflict_iff(
    base: Map<Seq<char>, String>,
    ours: Map<Seq<char>, String>,
    theirs: Map<Seq<char>, String>,
    p: Seq<char>,
)
    ensures
        resolve_path(base, ours, theirs, p) is None <==> (lookup(ours, p) != lookup(theirs, p) && lookup(
            base,
            p,
        ) != lookup(ours, p) && lookup(base, p) != lookup(theirs, p)),
{
}

/// What the merge-base search needs next.
#[derive(Debug)]
pub enum MergeBaseStep {
    /// Load this commit and report its parents (none if it is not a commit).
    Load(String),
    /// The merge base.
    Found(String),
    /// The two histories share no commit.
    NoCommonAncestor,
}

/// A commit graph as the search has learned it: each loaded commit and the
/// parents it was reported with.
pub type CommitGraph = Map<Seq<char>, Seq<Seq<char>>>;

/// `b` is a parent of `a` in the graph.
pub open spec fn is_edge(g: CommitGraph, a: Seq<char>, b: Seq<char>) -> bool {
    g.dom().contains(a) && g[a].contains(b)
}

/// A path from child to parent, one parent link at a time.
pub open spec fn is_path(g: CommitGraph, p: Seq<Seq<char>>) -> bool {
    &&& p.len() > 0
    &&& forall|i: int| 0 <= i < p.len() - 1 ==> #[trigger] is_edge(g, p[i], p[i + 1])
}

/// `b` is `a` or an ancestor of `a`.
pub open spec fn reaches(g: CommitGraph, a: Seq<char>, b: Seq<char>) -> bool {
    exists|p: Seq<Seq<char>>| #[trigger] is_path(g, p) && p[0] == a && p.last() == b
}

/// `c` is an ancestor-or-self of both `ours` and `theirs`.
pub open spec fn common_ancestor(g: CommitGraph, ours: Seq<char>, theirs: Seq<char>, c: Seq<char>) -> bool {
    reaches(g, ours, c) && reaches(g, theirs, c)
}

/// A commit is its own ancestor-or-self.
proof fn lemma_reaches_self(g: CommitGraph, a: Seq<char>)
    ensures
        reaches(g, a, a),
{
    let p = seq![a];
    assert(is_path(g, p));
}

/// An ancestor's parent is an ancestor.
proof fn lemma_reaches_edge(g: CommitGraph, r: Seq<char>, v: Seq<char>, w: Seq<char>)
    requires
        reaches(g, r, v),
        is_edge(g, v, w),
    ensures
        reaches(g, r, w),
{
    let p = choose|p: Seq<Seq<char>>| #[trigger] is_path(g, p) && p[0] == r && p.last() == v;
    let q = p.push(w);
    assert forall|i: int| 0 <= i < q.len() - 1 implies #[trigger] is_edge(g, q[i], q[i + 1]) by {
        if i < p.len() - 1 {
            assert(q[i] == p[i] && q[i + 1] == p[i + 1]);
            assert(is_edge(g, p[i], p[i + 1]));
        } else {
            assert(q[i] == v && q[i + 1] == w);
        }
    }
    assert(is_path(g, q));
}

/// Learning the parents of a commit not yet in the graph keeps every path.
proof fn lemma_reaches_insert(g: CommitGraph, k: Seq<char>, ps: Seq<Seq<char>>, a: Seq<char>, b: Seq<char>)
    requires
        !g.dom().contains(k),
        reaches(g, a, b),
    ensures
        reaches(g.insert(k, ps), a, b),
{
    let g2 = g.insert(k, ps);
    let p = choose|p: Seq<Seq<char>>| #[trigger] is_path(g, p) && p[0] == a && p.last() == b;
    assert forall|i: int| 0 <= i < p.len() - 1 implies #[trigger] is_edge(g2, p[i], p[i + 1]) by {
        assert(is_edge(g, p[i], p[i + 1]));
    }
    assert(is_path(g2, p));
}

/// A set of commits that holds `a` and the parents of each of its loaded
/// commits holds every ancestor of `a`.
proof fn lemma_closed_holds_ancestors(g: CommitGraph, s: Seq<Seq<char>>, a: Seq<char>, b: Seq<char>)
    requires
        s.contains(a),
        forall|v: Seq<char>, w: Seq<char>| s.contains(v) && #[trigger] is_edge(g, v, w) ==> s.contains(w),
        reaches(g, a, b),
    ensures
        s.contains(b),
{
    let p = choose|p: Seq<Seq<char>>| #[trigger] is_path(g, p) && p[0] == a && p.last() == b;
    lemma_path_in_closed(g, s, p, p.len() - 1);
}

proof fn lemma_path_in_closed(g: CommitGraph, s: Seq<Seq<char>>, p: Seq<Seq<char>>, i: int)
    requires
        is_path(g, p),
        s.contains(p[0]),
        forall|v: Seq<char>, w: Seq<char>| s.contains(v) && #[trigger] is_edge(g, v, w) ==> s.contains(w),
        0 <= i < p.len(),
    ensures
        s.contains(p[i]),
    decreases i,
{
    if i > 0 {
        lemma_path_in_closed(g, s, p, i - 1);
        assert(is_edge(g, p[i - 1], p[i - 1 + 1]));
    }
}

/// Whether a hash is taken or queued in a walk.
pub open spec fn in_walk(w: ObjectWalk, v: Seq<char>) -> bool {
    w.visited().contains(v) || w.pending().contains(v)
}

/// A taken commit whose parents are known and queued or taken.
pub open spec fn settled(g: CommitGraph, w: ObjectWalk, v: Seq<char>) -> bool {
    g.dom().contains(v) && forall|x: Seq<char>| #[trigger] g[v].contains(x) ==> in_walk(w, x)
}

/// Taking the next hash of a walk keeps every hash it held taken or queued,
/// and holds nothing new.
proof fn lemma_take_keeps(w0: ObjectWalk, w1: ObjectWalk, h: Seq<char>)
    requires
        exists|k: int|
            0 <= k < w0.pending().len() && w0.pending()[k] == h && w1.pending() == w0.pending().skip(k + 1)
                && w1.visited() == w0.visited().push(h) && forall|j: int|
                0 <= j < k ==> w0.visited().contains(#[trigger] w0.pending()[j]),
    ensures
        forall|v: Seq<char>| in_walk(w0, v) <==> #[trigger] in_walk(w1, v),
        w1.visited() == w0.visited().push(h),
        forall|v: Seq<char>| #[trigger] w1.visited().contains(v) <==> (w0.visited().contains(v) || v == h),
{
    let k = choose|k: int|
        0 <= k < w0.pending().len() && w0.pending()[k] == h && w1.pending() == w0.pending().skip(k + 1)
            && w1.visited() == w0.visited().push(h) && forall|j: int|
            0 <= j < k ==> w0.visited().contains(#[trigger] w0.pending()[j]);
    assert forall|v: Seq<char>| in_walk(w0, v) <==> #[trigger] in_walk(w1, v) by {
        if w0.pending().contains(v) {
            let j = choose|j: int| 0 <= j < w0.pending().len() && w0.pending()[j] == v;
            if j < k {
                assert(w0.visited().contains(w0.pending()[j]));
                assert(w1.visited().contains(v)) by {
                    let m = choose|m: int| 0 <= m < w0.visited().len() && w0.visited()[m] == v;
                    assert(w1.visited()[m] == v);
                }
            } else if j == k {
                assert(w1.visited()[w0.visited().len() as int] == v);
            } else {
                assert(w1.pending()[j - k - 1] == v);
            }
        }
        if w0.visited().contains(v) {
            let m = choose|m: int| 0 <= m < w0.visited().len() && w0.visited()[m] == v;
            assert(w1.visited()[m] == v);
        }
        if w1.visited().contains(v) {
            let m = choose|m: int| 0 <= m < w1.visited().len() && w1.visited()[m] == v;
            if m < w0.visited().len() {
                assert(w0.visited()[m] == v);
            } else {
                assert(w0.pending()[k] == v);
            }
        }
        if w1.pending().contains(v) {
            let m = choose|m: int| 0 <= m < w1.pending().len() && w1.pending()[m] == v;
            assert(w0.pending()[m + k + 1] == v);
        }
    }
    assert forall|v: Seq<char>| #[trigger] w1.visited().contains(v) <==> (w0.visited().contains(v) || v == h) by {
        if w1.visited().contains(v) {
            let m = choose|m: int| 0 <= m < w1.visited().len() && w1.visited()[m] == v;
            if m < w0.visited().len() {
                assert(w0.visited()[m] == v);
            }
        }
        if w0.visited().contains(v) {
            let m = choose|m: int| 0 <= m < w0.visited().len() && w0.visited()[m] == v;
            assert(w1.visited()[m] == v);
        }
        if v == h {
            assert(w1.visited()[w0.visited().len() as int] == v);
        }
    }
}

/// The search for the merge base (lowest common ancestor) of two commits.
/// First every ancestor of ours (ours included) is collected breadth-first;
/// then every ancestor of theirs, noting those that are ancestors of ours;
/// the answer is one of these common ancestors that is the parent of no
/// other. Each commit asked for is loaded and its parents reported; the
/// parents a commit was first reported with are the ones kept.
pub struct MergeBaseSearch {
    ours: ObjectWalk,
    theirs: ObjectWalk,
    parents: StrMap<Vec<String>>,
    met: Vec<String>,
    loading: String,
    ours_root: Ghost<Seq<char>>,
    theirs_root: Ghost<Seq<char>>,
    second_phase: bool,
    awaiting: bool,
    done: bool,
}

impl MergeBaseSearch {
    /// The commits loaded so far, with their reported parents.
    pub closed spec fn graph(&self) -> CommitGraph {
        Map::new(|k: Seq<char>| self.parents.view().dom().contains(k), |k: Seq<char>| strs(self.parents.view()[k]@))
    }

    /// The commit on our side.
    pub closed spec fn ours_root(&self) -> Seq<char> {
        self.ours_root@
    }

    /// The commit on their side.
    pub closed spec fn theirs_root(&self) -> Seq<char> {
        self.theirs_root@
    }

    /// The commit whose parents are awaited.
    pub closed spec fn loading(&self) -> Seq<char> {
        self.loading@
    }

    /// Whether the parents of the last commit asked for are awaited.
    pub closed spec fn awaiting_parents(&self) -> bool {
        self.awaiting
    }

    /// Whether the search has given its answer.
    pub closed spec fn is_done(&self) -> bool {
        self.done
    }

    pub closed spec fn wf(&self) -> bool {
        let g = self.graph();
        let a = self.ours.visited();
        let t = self.theirs.visited();
        &&& self.ours.wf()
        &&& self.theirs.wf()
        &&& self.parents.wf()
        &&& self.done ==> !self.awaiting
        &&& in_walk(self.ours, self.ours_root@)
        &&& in_walk(self.theirs, self.theirs_root@)
        &&& forall|v: Seq<char>| #[trigger] in_walk(self.ours, v) ==> reaches(g, self.ours_root@, v)
        &&& forall|v: Seq<char>| #[trigger] in_walk(self.theirs, v) ==> reaches(g, self.theirs_root@, v)
        &&& forall|v: Seq<char>|
            #![trigger a.contains(v)]
            a.contains(v) ==> settled(g, self.ours, v) || (self.awaiting && !self.second_phase && v == self.loading@)
        &&& forall|v: Seq<char>|
            #![trigger t.contains(v)]
            t.contains(v) ==> settled(g, self.theirs, v) || (self.awaiting && self.second_phase && v == self.loading@)
        &&& self.awaiting ==> (if self.second_phase {
            t.contains(self.loading@)
        } else {
            a.contains(self.loading@)
        })
        &&& !self.second_phase ==> t.len() == 0 && self.met@.len() == 0 && self.theirs.pending() == seq![
            self.theirs_root@,
        ]
        &&& self.second_phase ==> forall|j: int|
            0 <= j < self.ours.pending().len() ==> a.contains(#[trigger] self.ours.pending()[j])
        &&& forall|v: Seq<char>| #[trigger] strs(self.met@).contains(v) <==> (t.contains(v) && a.contains(v))
    }

    /// A search for the merge base of `ours_hash` and `theirs_hash`.
    pub fn new(ours_hash: &str, theirs_hash: &str) -> (s: Self)
        ensures
            s.wf(),
            !s.awaiting_parents(),
            !s.is_done(),
            s.graph() == Map::<Seq<char>, Seq<Seq<char>>>::empty(),
            s.ours_root() == ours_hash@,
            s.theirs_root() == theirs_hash@,
    {
        let mut o: Vec<String> = Vec::new();
        o.push(ours_hash.to_string());
        let mut t: Vec<String> = Vec::new();
        t.push(theirs_hash.to_string());
        let s = MergeBaseSearch {
            ours: ObjectWalk::new(o),
            theirs: ObjectWalk::new(t),
            parents: StrMap::new(),
            met: Vec::new(),
            loading: String::new(),
            ours_root: Ghost(ours_hash@),
            theirs_root: Ghost(theirs_hash@),
            second_phase: false,
            awaiting: false,
            done: false,
        };
        proof {
            assert(s.graph() =~= Map::<Seq<char>, Seq<Seq<char>>>::empty());
            assert(strs(s.met@) =~= Seq::<Seq<char>>::empty());
            assert forall|v: Seq<char>| #[trigger] in_walk(s.ours, v) implies reaches(s.graph(), ours_hash@, v) by {
                assert(s.ours.pending() =~= seq![ours_hash@]);
                lemma_reaches_self(s.graph(), ours_hash@);
            }
            assert forall|v: Seq<char>| #[trigger] in_walk(s.theirs, v) implies reaches(s.graph(), theirs_hash@, v) by {
                assert(s.theirs.pending() =~= seq![theirs_hash@]);
                lemma_reaches_self(s.graph(), theirs_hash@);
            }
            assert(s.theirs.pending() =~= seq![theirs_hash@]);
            assert(s.ours.pending() =~= seq![ours_hash@]);
            assert(s.ours.pending()[0] == ours_hash@);
            assert(s.theirs.pending()[0] == theirs_hash@);
            assert(in_walk(s.ours, ours_hash@));
            assert(in_walk(s.theirs, theirs_hash@));
        }
        s
    }

    /// The next commit to load, or the answer.
    pub fn step(&mut self) -> (r: MergeBaseStep)
        requires
            old(self).wf(),
            !old(self).awaiting_parents(),
            !old(self).is_done(),
        ensures
            final(self).wf(),
            final(self).graph() == old(self).graph(),
            final(self).ours_root() == old(self).ours_root(),
            final(self).theirs_root() == old(self).theirs_root(),
            r matches MergeBaseStep::Load(h) ==> final(self).awaiting_parents() && !final(self).is_done()
                && final(self).loading() == h@,
            r matches MergeBaseStep::Found(h) ==> {
                let g = final(self).graph();
                &&& final(self).is_done()
                &&& common_ancestor(g, final(self).ours_root(), final(self).theirs_root(), h@)
                &&& forall|x: Seq<char>|
                    common_ancestor(g, final(self).ours_root(), final(self).theirs_root(), x) ==> !#[trigger] is_edge(
                        g,
                        x,
                        h@,
                    )
            },
            r is NoCommonAncestor ==> {
                let g = final(self).graph();
                &&& final(self).is_done()
                &&& forall|c: Seq<char>|
                    #[trigger] common_ancestor(g, final(self).ours_root(), final(self).theirs_root(), c) ==> exists|
                        x: Seq<char>,
                    | common_ancestor(g, final(self).ours_root(), final(self).theirs_root(), x) && is_edge(g, x, c)
            },
    {
        if !self.second_phase {
            let ghost w0 = self.ours;
            match self.ours.next(false) {
                Some(h) => {
                    proof {
                        lemma_take_keeps(w0, self.ours, h@);
                    }
                    self.loading = h.clone();
                    self.awaiting = true;
                    proof {
                        self.lemma_settled_keep_ours(w0);
                        assert forall|v: Seq<char>|
                            #![trigger self.ours.visited().contains(v)]
                            self.ours.visited().contains(v) implies settled(self.graph(), self.ours, v) || (
                            self.awaiting && !self.second_phase && v == self.loading@) by {
                            if v != h@ {
                                assert(w0.visited().contains(v));
                            }
                        }
                        assert(self.ours.visited().contains(h@));
                        assert(in_walk(w0, self.ours_root@));
                        assert forall|v: Seq<char>| #[trigger] strs(self.met@).contains(v) <==> (
                        self.theirs.visited().contains(v) && self.ours.visited().contains(v)) by {
                            assert(strs(self.met@) =~= Seq::<Seq<char>>::empty());
                            assert(self.theirs.visited() =~= Seq::<Seq<char>>::empty());
                        }
                    }
                    return MergeBaseStep::Load(h);
                },
                None => {
                    self.second_phase = true;
                    proof {
                        assert forall|j: int| 0 <= j < w0.pending().len() implies self.ours.visited().contains(
                            #[trigger] w0.pending()[j],
                        ) by {
                            assert(crate::walk::passed_over(w0.pending()[j], w0.visited(), false));
                        }
                        assert(self.ours.pending().len() == 0);
                        assert forall|v: Seq<char>| #[trigger] in_walk(w0, v) implies in_walk(self.ours, v) by {
                            if w0.pending().contains(v) {
                                let j = choose|j: int| 0 <= j < w0.pending().len() && w0.pending()[j] == v;
                                assert(crate::walk::passed_over(w0.pending()[j], w0.visited(), false));
                            }
                        }
                        assert forall|v: Seq<char>| #[trigger] in_walk(self.ours, v) implies in_walk(w0, v) by {}
                        self.lemma_settled_keep_ours(w0);
                        assert(in_walk(w0, self.ours_root@));
                    }
                },
            }
        }
        let ghost w0 = self.theirs;
        let ghost met0 = self.met@;
        match self.theirs.next(false) {
            Some(h) => {
                proof {
                    lemma_take_keeps(w0, self.theirs, h@);
                }
                let is_ours = self.ours.is_visited(h.as_str());
                if is_ours {
                    self.met.push(h.clone());
                }
                proof {
                    if is_ours {
                        assert(strs(self.met@) =~= strs(met0).push(h@));
                    } else {
                        assert(strs(self.met@) =~= strs(met0));
                    }
                    assert forall|v: Seq<char>| #[trigger] strs(self.met@).contains(v) <==> (
                    self.theirs.visited().contains(v) && self.ours.visited().contains(v)) by {
                        if is_ours {
                            if strs(self.met@).contains(v) && v != h@ {
                                let m = choose|m: int| 0 <= m < strs(self.met@).len() && strs(self.met@)[m] == v;
                                assert(strs(met0)[m] == v);
                            }
                            if strs(met0).contains(v) {
                                let m = choose|m: int| 0 <= m < strs(met0).len() && strs(met0)[m] == v;
                                assert(strs(self.met@)[m] == v);
                            }
                            if v == h@ {
                                assert(strs(self.met@)[met0.len() as int] == v);
                            }
                        }
                    }
                }
                self.loading = h.clone();
                self.awaiting = true;
                proof {
                    self.lemma_settled_keep_theirs(w0);
                    assert forall|v: Seq<char>|
                        #![trigger self.theirs.visited().contains(v)]
                        self.theirs.visited().contains(v) implies settled(self.graph(), self.theirs, v) || (
                        self.awaiting && self.second_phase && v == self.loading@) by {
                        if v != h@ {
                            assert(w0.visited().contains(v));
                        }
                    }
                    assert(self.theirs.visited().contains(h@));
                    assert(in_walk(w0, self.theirs_root@));
                }
                MergeBaseStep::Load(h)
            },
            None => {
                self.done = true;
                proof {
                    assert forall|v: Seq<char>| #[trigger] in_walk(w0, v) implies in_walk(self.theirs, v) by {
                        if w0.pending().contains(v) {
                            let j = choose|j: int| 0 <= j < w0.pending().len() && w0.pending()[j] == v;
                            assert(crate::walk::passed_over(w0.pending()[j], w0.visited(), false));
                        }
                    }
                    assert forall|v: Seq<char>| #[trigger] in_walk(self.theirs, v) implies in_walk(w0, v) by {}
                    self.lemma_settled_keep_theirs(w0);
                    assert(in_walk(w0, self.theirs_root@));
                    self.lemma_common_met();
                    assert forall|i: int| 0 <= i < self.met@.len() implies #[trigger] self.graph().dom().contains(
                        self.met@[i]@,
                    ) by {
                        assert(strs(self.met@)[i] == self.met@[i]@);
                        assert(strs(self.met@).contains(self.met@[i]@));
                        assert(self.ours.visited().contains(self.met@[i]@));
                    }
                }
                let r = self.pick_base();
                proof {
                    let g = self.graph();
                    let o = self.ours_root@;
                    let t = self.theirs_root@;
                    match &r {
                        MergeBaseStep::Found(h) => {
                            assert forall|x: Seq<char>| common_ancestor(g, o, t, x) implies !#[trigger] is_edge(g, x, h@) by {
                                if is_edge(g, x, h@) {
                                    assert(strs(self.met@).contains(x));
                                    let m = choose|m: int| 0 <= m < strs(self.met@).len() && strs(self.met@)[m] == x;
                                    assert(self.met@[m]@ == x);
                                    assert(is_edge(g, self.met@[m]@, h@));
                                }
                            }
                        },
                        MergeBaseStep::NoCommonAncestor => {
                            assert forall|c: Seq<char>| #[trigger] common_ancestor(g, o, t, c) implies exists|x: Seq<char>|
                                common_ancestor(g, o, t, x) && is_edge(g, x, c) by {
                                assert(strs(self.met@).contains(c));
                                let i = choose|i: int| 0 <= i < strs(self.met@).len() && strs(self.met@)[i] == c;
                                assert(self.met@[i]@ == c);
                                assert(self.parent_of_met(self.met@[i]@));
                                let m = choose|m: int| 0 <= m < self.met@.len() && #[trigger] is_edge(g, self.met@[m]@, c);
                                assert(strs(self.met@)[m] == self.met@[m]@);
                                assert(common_ancestor(g, o, t, self.met@[m]@));
                            }
                        },
                        MergeBaseStep::Load(_) => {},
                    }
                }
                r
            },
        }
    }

    /// Taking the next hash of ours keeps the other taken commits settled.
    proof fn lemma_settled_keep_ours(&self, w0: ObjectWalk)
        requires
            forall|v: Seq<char>| in_walk(w0, v) <==> #[trigger] in_walk(self.ours, v),
            forall|v: Seq<char>|
                #![trigger w0.visited().contains(v)]
                w0.visited().contains(v) ==> settled(self.graph(), w0, v),
        ensures
            forall|v: Seq<char>|
                #![trigger w0.visited().contains(v)]
                w0.visited().contains(v) ==> settled(self.graph(), self.ours, v),
    {
        assert forall|v: Seq<char>| #![trigger w0.visited().contains(v)] w0.visited().contains(v) implies settled(
            self.graph(),
            self.ours,
            v,
        ) by {
            assert forall|x: Seq<char>| #[trigger] self.graph()[v].contains(x) implies in_walk(self.ours, x) by {
                assert(in_walk(w0, x));
            }
        }
    }

    /// Taking the next hash of theirs keeps the other taken commits settled.
    proof fn lemma_settled_keep_theirs(&self, w0: ObjectWalk)
        requires
            forall|v: Seq<char>| in_walk(w0, v) <==> #[trigger] in_walk(self.theirs, v),
            forall|v: Seq<char>|
                #![trigger w0.visited().contains(v)]
                w0.visited().contains(v) ==> settled(self.graph(), w0, v),
        ensures
            forall|v: Seq<char>|
                #![trigger w0.visited().contains(v)]
                w0.visited().contains(v) ==> settled(self.graph(), self.theirs, v),
    {
        assert forall|v: Seq<char>| #![trigger w0.visited().contains(v)] w0.visited().contains(v) implies settled(
            self.graph(),
            self.theirs,
            v,
        ) by {
            assert forall|x: Seq<char>| #[trigger] self.graph()[v].contains(x) implies in_walk(self.theirs, x) by {
                assert(in_walk(w0, x));
            }
        }
    }

    /// Once both walks are over, the commits met on both are exactly the
    /// common ancestors.
    proof fn lemma_common_met(&self)
        requires
            self.wf(),
            self.second_phase,
            !self.awaiting,
            self.theirs.pending().len() == 0,
        ensures
            forall|c: Seq<char>|
                #[trigger] common_ancestor(self.graph(), self.ours_root@, self.theirs_root@, c) <==> strs(
                    self.met@,
                ).contains(c),
    {
        let g = self.graph();
        let a = self.ours.visited();
        let t = self.theirs.visited();
        assert forall|v: Seq<char>, w: Seq<char>| a.contains(v) && #[trigger] is_edge(g, v, w) implies a.contains(w) by {
            assert(settled(g, self.ours, v));
            assert(g[v].contains(w));
            assert(in_walk(self.ours, w));
            if self.ours.pending().contains(w) {
                let j = choose|j: int| 0 <= j < self.ours.pending().len() && self.ours.pending()[j] == w;
                assert(a.contains(self.ours.pending()[j]));
            }
        }
        assert forall|v: Seq<char>, w: Seq<char>| t.contains(v) && #[trigger] is_edge(g, v, w) implies t.contains(w) by {
            assert(settled(g, self.theirs, v));
            assert(g[v].contains(w));
            assert(in_walk(self.theirs, w));
        }
        assert forall|c: Seq<char>| #[trigger] common_ancestor(g, self.ours_root@, self.theirs_root@, c) <==> strs(
            self.met@,
        ).contains(c) by {
            if common_ancestor(g, self.ours_root@, self.theirs_root@, c) {
                assert(in_walk(self.ours, self.ours_root@) || !in_walk(self.ours, self.ours_root@));
                lemma_root_taken(self.ours, self.ours_root@, a);
                lemma_root_taken(self.theirs, self.theirs_root@, t);
                lemma_closed_holds_ancestors(g, a, self.ours_root@, c);
                lemma_closed_holds_ancestors(g, t, self.theirs_root@, c);
            }
            if strs(self.met@).contains(c) {
                assert(in_walk(self.ours, c));
                assert(in_walk(self.theirs, c));
            }
        }
    }

    /// Whether commit `c` is a parent of one of the commits met.
    pub closed spec fn parent_of_met(&self, c: Seq<char>) -> bool {
        exists|m: int| 0 <= m < self.met@.len() && #[trigger] is_edge(self.graph(), self.met@[m]@, c)
    }

    /// Decides `parent_of_met` for the `i`th commit met.
    fn is_parent_of_met(&self, i: usize) -> (r: bool)
        requires
            self.parents.wf(),
            i < self.met@.len(),
            forall|k: int| 0 <= k < self.met@.len() ==> #[trigger] self.graph().dom().contains(self.met@[k]@),
        ensures
            r == self.parent_of_met(self.met@[i as int]@),
    {
        let n = self.met.len();
        let mut j: usize = 0;
        while j < n
            invariant
                n == self.met@.len(),
                i < n,
                j <= n,
                self.parents.wf(),
                forall|k: int| 0 <= k < self.met@.len() ==> #[trigger] self.graph().dom().contains(self.met@[k]@),
                forall|m: int| 0 <= m < j ==> !#[trigger] is_edge(self.graph(), self.met@[m]@, self.met@[i as int]@),
            decreases n - j,
        {
            match self.parents.get(self.met[j].as_str()) {
                Some(ps) => {
                    assert(self.graph()[self.met@[j as int]@] == strs(ps@));
                    let mut k: usize = 0;
                    while k < ps.len()
                        invariant
                            k <= ps@.len(),
                            i < self.met@.len(),
                            j < self.met@.len(),
                            self.graph().dom().contains(self.met@[j as int]@),
                            self.graph()[self.met@[j as int]@] == strs(ps@),
                            forall|q: int| 0 <= q < k ==> ps@[q]@ != self.met@[i as int]@,
                        decreases ps@.len() - k,
                    {
                        if str_eq(ps[k].as_str(), self.met[i].as_str()) {
                            proof {
                                assert(strs(ps@)[k as int] == self.met@[i as int]@);
                                assert(is_edge(self.graph(), self.met@[j as int]@, self.met@[i as int]@));
                            }
                            return true;
                        }
                        k = k + 1;
                    }
                    proof {
                        assert(self.graph()[self.met@[j as int]@] == strs(ps@));
                        assert(!strs(ps@).contains(self.met@[i as int]@)) by {
                            if strs(ps@).contains(self.met@[i as int]@) {
                                let q = choose|q: int| 0 <= q < strs(ps@).len() && strs(ps@)[q] == self.met@[i as int]@;
                                assert(ps@[q]@ != self.met@[i as int]@);
                            }
                        }
                    }
                },
                None => {
                    assert(self.graph().dom().contains(self.met@[j as int]@));
                },
            }
            j = j + 1;
        }
        false
    }

    /// The answer from the common ancestors met: the first that is no
    /// other's parent.
    fn pick_base(&self) -> (r: MergeBaseStep)
        requires
            self.parents.wf(),
            forall|i: int| 0 <= i < self.met@.len() ==> #[trigger] self.graph().dom().contains(self.met@[i]@),
        ensures
            r matches MergeBaseStep::Found(h) ==> strs(self.met@).contains(h@) && !self.parent_of_met(h@),
            r is NoCommonAncestor ==> forall|i: int|
                0 <= i < self.met@.len() ==> #[trigger] self.parent_of_met(self.met@[i]@),
            !(r is Load),
    {
        let n = self.met.len();
        let mut i: usize = 0;
        while i < n
            invariant
                n == self.met@.len(),
                i <= n,
                self.parents.wf(),
                forall|k: int| 0 <= k < self.met@.len() ==> #[trigger] self.graph().dom().contains(self.met@[k]@),
                forall|k: int| 0 <= k < i ==> #[trigger] self.parent_of_met(self.met@[k]@),
            decreases n - i,
        {
            if !self.is_parent_of_met(i) {
                proof {
                    assert(strs(self.met@)[i as int] == self.met@[i as int]@);
                }
                return MergeBaseStep::Found(self.met[i].clone());
            }
            i = i + 1;
        }
        MergeBaseStep::NoCommonAncestor
    }

    /// Reports the parents of the commit last asked for. A commit already
    /// loaded keeps the parents it was first reported with.
    pub fn feed(&mut self, parents: Vec<String>)
        requires
            old(self).wf(),
            old(self).awaiting_parents(),
        ensures
            final(self).wf(),
            !final(self).awaiting_parents(),
            !final(self).is_done(),
            final(self).ours_root() == old(self).ours_root(),
            final(self).theirs_root() == old(self).theirs_root(),
            final(self).graph() == if old(self).graph().dom().contains(old(self).loading()) {
                old(self).graph()
            } else {
                old(self).graph().insert(old(self).loading(), strs(parents@))
            },
    {
        let ghost g0 = self.graph();
        let known: Vec<String> = match self.parents.get(self.loading.as_str()) {
            Some(ps) => copy_strings(ps),
            None => {
                let ps = copy_strings(&parents);
                self.parents.insert(self.loading.clone(), parents);
                ps
            },
        };
        let ghost g1 = self.graph();
        proof {
            if g0.dom().contains(self.loading@) {
                assert(g1 =~= g0);
            } else {
                assert(g1 =~= g0.insert(self.loading@, strs(known@)));
                assert forall|v: Seq<char>| #[trigger] in_walk(self.ours, v) implies reaches(g1, self.ours_root@, v) by {
                    lemma_reaches_insert(g0, self.loading@, strs(known@), self.ours_root@, v);
                }
                assert forall|v: Seq<char>| #[trigger] in_walk(self.theirs, v) implies reaches(g1, self.theirs_root@, v) by {
                    lemma_reaches_insert(g0, self.loading@, strs(known@), self.theirs_root@, v);
                }
            }
            assert(g1.dom().contains(self.loading@) && g1[self.loading@] == strs(known@));
        }
        let ghost wo = self.ours;
        let ghost wt = self.theirs;
        if self.second_phase {
            self.theirs.push_all(known);
        } else {
            self.ours.push_all(known);
        }
        self.awaiting = false;
        proof {
            self.lemma_feed_keeps(g0, g1, wo, wt);
        }
    }

    /// After the reported parents are queued, the search is well formed again.
    proof fn lemma_feed_keeps(&self, g0: CommitGraph, g1: CommitGraph, wo: ObjectWalk, wt: ObjectWalk)
        requires
            g1 == self.graph(),
            g1.dom().contains(self.loading@),
            g0.dom().contains(self.loading@) ==> g1 == g0,
            !g0.dom().contains(self.loading@) ==> g1 == g0.insert(self.loading@, g1[self.loading@]),
            !self.awaiting,
            !self.done,
            self.ours.wf(),
            self.theirs.wf(),
            self.parents.wf(),
            if self.second_phase {
                &&& self.ours == wo
                &&& self.theirs.visited() == wt.visited()
                &&& self.theirs.pending() == wt.pending() + g1[self.loading@]
                &&& wt.visited().contains(self.loading@)
            } else {
                &&& self.theirs == wt
                &&& self.ours.visited() == wo.visited()
                &&& self.ours.pending() == wo.pending() + g1[self.loading@]
                &&& wo.visited().contains(self.loading@)
            },
            in_walk(wo, self.ours_root@),
            in_walk(wt, self.theirs_root@),
            forall|v: Seq<char>| #[trigger] in_walk(wo, v) ==> reaches(g1, self.ours_root@, v),
            forall|v: Seq<char>| #[trigger] in_walk(wt, v) ==> reaches(g1, self.theirs_root@, v),
            forall|v: Seq<char>|
                #![trigger wo.visited().contains(v)]
                wo.visited().contains(v) ==> settled(g0, wo, v) || (!self.second_phase && v == self.loading@),
            forall|v: Seq<char>|
                #![trigger wt.visited().contains(v)]
                wt.visited().contains(v) ==> settled(g0, wt, v) || (self.second_phase && v == self.loading@),
            !self.second_phase ==> wt.visited().len() == 0 && self.met@.len() == 0 && wt.pending() == seq![
                self.theirs_root@,
            ],
            self.second_phase ==> forall|j: int|
                0 <= j < wo.pending().len() ==> wo.visited().contains(#[trigger] wo.pending()[j]),
            forall|v: Seq<char>| #[trigger] strs(self.met@).contains(v) <==> (wt.visited().contains(v) && wo.visited().contains(v)),
        ensures
            self.wf(),
    {
        let l = self.loading@;
        let ps = g1[l];
        let w = if self.second_phase { wt } else { wo };
        let w1 = if self.second_phase { self.theirs } else { self.ours };
        assert forall|v: Seq<char>| #[trigger] in_walk(w, v) implies in_walk(w1, v) by {
            if w.pending().contains(v) {
                let j = choose|j: int| 0 <= j < w.pending().len() && w.pending()[j] == v;
                assert(w1.pending()[j] == v);
            }
        }
        assert(in_walk(self.ours, self.ours_root@)) by {
            if self.ours.pending().len() >= wo.pending().len() && wo.pending().contains(self.ours_root@) {
                let j = choose|j: int| 0 <= j < wo.pending().len() && wo.pending()[j] == self.ours_root@;
                assert(self.ours.pending()[j] == self.ours_root@);
            }
        }
        assert(in_walk(self.theirs, self.theirs_root@)) by {
            if self.theirs.pending().len() >= wt.pending().len() && wt.pending().contains(self.theirs_root@) {
                let j = choose|j: int| 0 <= j < wt.pending().len() && wt.pending()[j] == self.theirs_root@;
                assert(self.theirs.pending()[j] == self.theirs_root@);
            }
        }
        assert forall|v: Seq<char>| #[trigger] ps.contains(v) implies in_walk(w1, v) by {
            let j = choose|j: int| 0 <= j < ps.len() && ps[j] == v;
            assert(w1.pending()[w.pending().len() + j] == v);
        }
        // Reachability of the new queue entries.
        assert forall|v: Seq<char>| #[trigger] in_walk(self.ours, v) implies reaches(g1, self.ours_root@, v) by {
            if !self.second_phase {
                if !in_walk(wo, v) {
                    let j = choose|j: int| 0 <= j < self.ours.pending().len() && self.ours.pending()[j] == v;
                    if j >= wo.pending().len() {
                        assert(ps[j - wo.pending().len()] == v);
                        assert(in_walk(wo, l));
                        lemma_reaches_edge(g1, self.ours_root@, l, v);
                    } else {
                        assert(wo.pending()[j] == v);
                    }
                }
            }
        }
        assert forall|v: Seq<char>| #[trigger] in_walk(self.theirs, v) implies reaches(g1, self.theirs_root@, v) by {
            if self.second_phase {
                if !in_walk(wt, v) {
                    let j = choose|j: int| 0 <= j < self.theirs.pending().len() && self.theirs.pending()[j] == v;
                    if j >= wt.pending().len() {
                        assert(ps[j - wt.pending().len()] == v);
                        assert(in_walk(wt, l));
                        lemma_reaches_edge(g1, self.theirs_root@, l, v);
                    } else {
                        assert(wt.pending()[j] == v);
                    }
                }
            }
        }
        // Settledness.
        assert forall|v: Seq<char>| #![trigger self.ours.visited().contains(v)] self.ours.visited().contains(v) implies settled(
            g1,
            self.ours,
            v,
        ) by {
            assert(wo.visited().contains(v));
            if !self.second_phase && v == l {
                assert forall|x: Seq<char>| #[trigger] g1[v].contains(x) implies in_walk(self.ours, x) by {
                    assert(ps.contains(x));
                }
            } else {
                assert(settled(g0, wo, v));
                assert(g0.dom().contains(v));
                assert(g1[v] == g0[v]);
                assert forall|x: Seq<char>| #[trigger] g1[v].contains(x) implies in_walk(self.ours, x) by {
                    assert(g0[v].contains(x));
                    assert(in_walk(wo, x));
                }
            }
        }
        assert forall|v: Seq<char>| #![trigger self.theirs.visited().contains(v)] self.theirs.visited().contains(v) implies settled(
            g1,
            self.theirs,
            v,
        ) by {
            assert(wt.visited().contains(v));
            if self.second_phase && v == l {
                assert forall|x: Seq<char>| #[trigger] g1[v].contains(x) implies in_walk(self.theirs, x) by {
                    assert(ps.contains(x));
                }
            } else {
                assert(settled(g0, wt, v));
                assert(g1[v] == g0[v]);
                assert forall|x: Seq<char>| #[trigger] g1[v].contains(x) implies in_walk(self.theirs, x) by {
                    assert(g0[v].contains(x));
                    assert(in_walk(wt, x));
                }
            }
        }
    }
}

/// A walk that holds its root, and whose queue holds only taken hashes, has
/// taken its root.
proof fn lemma_root_taken(w: ObjectWalk, root: Seq<char>, taken: Seq<Seq<char>>)
    requires
        taken == w.visited(),
        in_walk(w, root),
        w.pending().len() == 0 || forall|j: int| 0 <= j < w.pending().len() ==> taken.contains(#[trigger] w.pending()[j]),
    ensures
        taken.contains(root),
{
    if w.pending().contains(root) {
        let j = choose|j: int| 0 <= j < w.pending().len() && w.pending()[j] == root;
        assert(taken.contains(w.pending()[j]));
    }
}

/// A copy of a list of strings.
fn copy_strings(v: &Vec<String>) -> (r: Vec<String>)
    ensures
        r@ == v@,
{
    let mut r: Vec<String> = Vec::new();
    let mut i: usize = 0;
    while i < v.len()
        invariant
            i <= v@.len(),
            r@ == v@.take(i as int),
        decreases v@.len() - i,
    {
        r.push(v[i].clone());
        assert(v@.take(i + 1) =~= v@.take(i as int).push(v@[i as int]));
        i = i + 1;
    }
    assert(v@.take(v@.len() as int) =~= v@);
    r
}

} // verus!
