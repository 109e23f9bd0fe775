//! The staging area: which blob each tracked path will have in the next commit.

use vstd::prelude::*;
use crate::maps::StrMap;

verus! {

/// Staged files: path -> blob hash.
#[derive(Debug)]
pub struct Index {
    pub entries: StrMap<String>,
}

impl Index {
    pub open spec fn wf(&self) -> bool {
        self.entries.wf()
    }

    /// The staged paths and their blob hashes.
    pub open spec fn view(&self) -> Map<Seq<char>, String> {
        self.entries.view()
    }

    pub fn new() -> (i: Self)
        ensures
            i.wf(),
            i.view() == Map::<Seq<char>, String>::empty(),
    {
        Index { entries: StrMap::new() }
    }

    /// Stages `path` with `blob_hash`, replacing what was staged for it.
    pub fn add(&mut self, path: String, blob_hash: String)
        requires
            old(self).wf(),
        ensures
            final(self).wf(),
            final(self).view() == old(self).view().insert(path@, blob_hash),
    {
        self.entries.insert(path, blob_hash);
    }

    /// Unstages `path`.
    pub fn remove(&mut self, path: &str)
        requires
            old(self).wf(),
        ensures
            final(self).wf(),
            final(self).view() == old(self).view().remove(path@),
    {
        self.entries.remove(path);
    }

    /// Unstages everything.
    pub fn clear(&mut self)
        ensures
            final(self).wf(),
            final(self).view() == Map::<Seq<char>, String>::empty(),
    {
        self.entries.clear();
    }

    pub fn is_staged(&self, path: &str) -> (r: bool)
        requires
            self.wf(),
        ensures
            r == self.view().dom().contains(path@),
    {
        self.entries.contains_key(path)
    }

    /// The blob hash staged for `path`.
    pub fn get(&self, path: &str) -> (r: Option<&String>)
        requires
            self.wf(),
        ensures
            r matches Some(h) ==> self.view().dom().contains(path@) && *h == self.view()[path@],
            r is None ==> !self.view().dom().contains(path@),
    {
        self.entries.get(path)
    }
}

/// Staging then reading back: after `add(p, h)`, `get(p)` gives `h`, and
/// other paths keep what they had; after `remove(p)`, `p` is not staged.
pub proof fn lemma_index_add_get(before: Map<Seq<char>, String>, p: Seq<char>, h: String, q: Seq<char>)
    ensures
        before.insert(p, h).dom().contains(p),
        before.insert(p, h)[p] == h,
        q != p ==> (before.insert(p, h).dom().contains(q) == before.dom().contains(q)),
        q != p && before.dom().contains(q) ==> before.insert(p, h)[q] == before[q],
        !before.remove(p).dom().contains(p),
{
}

} // verus!
