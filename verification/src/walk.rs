//! Breadth-first walks over the object graph (commits to parents and trees,
//! trees to entries). Loading objects is the caller's work: a walk says which
//! hash to load next and is told what that object links to.

use vstd::prelude::*;
use crate::objects::{Blob, Object, TreeEntry};
use crate::text::str_eq;

verus! {

/// The views of a sequence of strings.
pub open spec fn strs(v: Seq<String>) -> Seq<Seq<char>> {
    v.map_values(|s: String| s@)
}

/// No string occurs twice.
pub open spec fn no_repeats(s: Seq<Seq<char>>) -> bool {
    forall|i: int, j: int| 0 <= i < j < s.len() ==> #[trigger] s[i] != #[trigger] s[j]
}

/// A queued hash that a walk passes over: one already handed out, or an
/// empty one when empty hashes are skipped.
pub open spec fn passed_over(h: Seq<char>, visited: Seq<Seq<char>>, skip_empty: bool) -> bool {
    visited.contains(h) || (skip_empty && h.len() == 0)
}

/// A breadth-first walk: a queue of hashes still to take, and the hashes
/// handed out so far, each once.
pub struct ObjectWalk {
    queue: Vec<String>,
    head: usize,
    visited: Vec<String>,
}

impl ObjectWalk {
    /// Hashes queued and not taken yet, in order.
    pub closed spec fn pending(&self) -> Seq<Seq<char>> {
        strs(self.queue@).skip(self.head as int)
    }

    /// Hashes handed out so far, in order.
    pub closed spec fn visited(&self) -> Seq<Seq<char>> {
        strs(self.visited@)
    }

    pub closed spec fn wf(&self) -> bool {
        &&& self.head <= self.queue@.len()
        &&& no_repeats(strs(self.visited@))
    }

    /// A walk from these roots, in this order.
    pub fn new(roots: Vec<String>) -> (w: Self)
        ensures
            w.wf(),
            w.pending() == strs(roots@),
            w.visited() == Seq::<Seq<char>>::empty(),
    {
        let w = ObjectWalk { queue: roots, head: 0, visited: Vec::new() };
        assert(strs(w.queue@).skip(0) =~= strs(w.queue@));
        assert(strs(w.visited@) =~= Seq::<Seq<char>>::empty());
        w
    }

    /// Queues a hash at the back.
    pub fn push(&mut self, hash: String)
        requires
            old(self).wf(),
        ensures
            final(self).wf(),
            final(self).pending() == old(self).pending().push(hash@),
            final(self).visited() == old(self).visited(),
    {
        let ghost before = strs(self.queue@);
        self.queue.push(hash);
        assert(strs(self.queue@) =~= before.push(hash@));
        assert(strs(self.queue@).skip(self.head as int) =~= before.skip(self.head as int).push(hash@));
    }

    /// Queues hashes at the back, in order.
    pub fn push_all(&mut self, hashes: Vec<String>)
        requires
            old(self).wf(),
        ensures
            final(self).wf(),
            final(self).pending() == old(self).pending() + strs(hashes@),
            final(self).visited() == old(self).visited(),
    {
        let mut hashes = hashes;
        let ghost all = strs(hashes@);
        let mut i: usize = 0;
        let n = hashes.len();
        assert(all.take(0) =~= Seq::<Seq<char>>::empty());
        assert(old(self).pending() + all.take(0) =~= old(self).pending());
        while hashes.len() > 0
            invariant
                self.wf(),
                n == all.len(),
                i + hashes@.len() == n,
                strs(hashes@) == all.skip(i as int),
                self.pending() == old(self).pending() + all.take(i as int),
                self.visited() == old(self).visited(),
            decreases hashes@.len(),
        {
            let ghost before = hashes@;
            assert(strs(before)[0] == all.skip(i as int)[0]);
            let h = hashes.remove(0);
            assert(h@ == all[i as int]);
            assert(strs(hashes@) =~= strs(before).skip(1));
            self.push(h);
            assert(all.take(i + 1) =~= all.take(i as int).push(all[i as int]));
            assert(strs(hashes@) =~= all.skip(i + 1));
            i = i + 1;
        }
        assert(all.take(n as int) =~= all);
    }

    /// Whether a hash has been handed out.
    pub fn is_visited(&self, hash: &str) -> (r: bool)
        ensures
            r == self.visited().contains(hash@),
    {
        let mut i: usize = 0;
        while i < self.visited.len()
            invariant
                i <= self.visited@.len(),
                forall|k: int| 0 <= k < i ==> strs(self.visited@)[k] != hash@,
            decreases self.visited@.len() - i,
        {
            if str_eq(self.visited[i].as_str(), hash) {
                assert(strs(self.visited@)[i as int] == hash@);
                return true;
            }
            i = i + 1;
        }
        false
    }

    /// Records a hash as handed out without queueing it (as a set insert);
    /// returns whether it was new.
    pub fn mark_visited(&mut self, hash: String) -> (added: bool)
        requires
            old(self).wf(),
        ensures
            final(self).wf(),
            added == !old(self).visited().contains(hash@),
            final(self).visited() == if added {
                old(self).visited().push(hash@)
            } else {
                old(self).visited()
            },
            final(self).pending() == old(self).pending(),
    {
        if self.is_visited(hash.as_str()) {
            return false;
        }
        let ghost before = strs(self.visited@);
        self.visited.push(hash);
        assert(strs(self.visited@) =~= before.push(strs(self.visited@).last()));
        true
    }

    /// Takes hashes from the front of the queue, passing over those already
    /// handed out (and empty ones when `skip_empty`), and hands out the
    /// first other one; none when the queue runs out.
    pub fn next(&mut self, skip_empty: bool) -> (r: Option<String>)
        requires
            old(self).wf(),
        ensures
            final(self).wf(),
            r matches Some(h) ==> exists|k: int|
                0 <= k < old(self).pending().len() && old(self).pending()[k] == h@ && !passed_over(
                    h@,
                    old(self).visited(),
                    skip_empty,
                ) && final(self).pending() == old(self).pending().skip(k + 1) && final(self).visited()
                    == old(self).visited().push(h@) && forall|j: int|
                    0 <= j < k ==> passed_over(#[trigger] old(self).pending()[j], old(self).visited(), skip_empty),
            r is None ==> final(self).pending().len() == 0 && final(self).visited() == old(self).visited()
                && forall|j: int|
                0 <= j < old(self).pending().len() ==> passed_over(
                    #[trigger] old(self).pending()[j],
                    old(self).visited(),
                    skip_empty,
                ),
    {
        let ghost start = self.head;
        let ghost q = strs(self.queue@);
        while self.head < self.queue.len()
            invariant
                start <= self.head <= self.queue@.len(),
                q == strs(self.queue@),
                self.visited == old(self).visited,
                self.queue == old(self).queue,
                start == old(self).head,
                no_repeats(strs(self.visited@)),
                forall|j: int| start <= j < self.head ==> passed_over(#[trigger] q[j], strs(self.visited@), skip_empty),
            decreases self.queue@.len() - self.head,
        {
            let i = self.head;
            self.head = self.head + 1;
            let skip = (skip_empty && self.queue[i].as_str().is_empty()) || self.is_visited(self.queue[i].as_str());
            if !skip {
                let h = self.queue[i].clone();
                let ghost before = strs(self.visited@);
                self.visited.push(h.clone());
                assert(strs(self.visited@) =~= before.push(h@));
                proof {
                    let k = i - start;
                    assert(old(self).pending()[k] == q[i as int]);
                    assert(self.pending() =~= old(self).pending().skip(k + 1));
                    assert forall|j: int| 0 <= j < k implies passed_over(
                        #[trigger] old(self).pending()[j],
                        old(self).visited(),
                        skip_empty,
                    ) by {
                        assert(old(self).pending()[j] == q[start + j]);
                    }
                }
                return Some(h);
            }
        }
        proof {
            assert(self.pending() =~= Seq::<Seq<char>>::empty());
            assert forall|j: int| 0 <= j < old(self).pending().len() implies passed_over(
                #[trigger] old(self).pending()[j],
                old(self).visited(),
                skip_empty,
            ) by {
                assert(old(self).pending()[j] == q[start + j]);
            }
        }
        None
    }
}

/// A walk hands out each hash at most once.
pub proof fn lemma_walk_no_repeats(w: ObjectWalk)
    requires
        w.wf(),
    ensures
        no_repeats(w.visited()),
{
}

/// The hashes an object links to, in order: a commit's parents then its
/// tree; a tree's entries; nothing for a blob (its chunks are not objects
/// of the graph).
pub open spec fn spec_object_links(obj: Object) -> Seq<Seq<char>> {
    match obj {
        Object::Commit(c) => strs(c.parents@).push(c.tree@),
        Object::Tree(t) => t.entries@.map_values(|e: (String, TreeEntry)| e.1.spec_hash()),
        Object::Blob(_) => Seq::empty(),
    }
}

/// The hashes an object links to (see `spec_object_links`).
pub fn object_links(obj: &Object) -> (r: Vec<String>)
    ensures
        strs(r@) == spec_object_links(*obj),
{
    match obj {
        Object::Commit(c) => {
            let mut r: Vec<String> = Vec::new();
            let mut i: usize = 0;
            while i < c.parents.len()
                invariant
                    i <= c.parents@.len(),
                    strs(r@) == strs(c.parents@).take(i as int),
                decreases c.parents@.len() - i,
            {
                r.push(c.parents[i].clone());
                assert(strs(c.parents@).take(i + 1) =~= strs(c.parents@).take(i as int).push(c.parents@[i as int]@));
                assert(strs(r@) =~= strs(c.parents@).take(i + 1));
                i = i + 1;
            }
            assert(strs(c.parents@).take(c.parents@.len() as int) =~= strs(c.parents@));
            let ghost before = r@;
            r.push(c.tree.clone());
            assert(strs(r@) =~= strs(before).push(c.tree@));
            r
        },
        Object::Tree(t) => {
            let ghost links = t.entries@.map_values(|e: (String, TreeEntry)| e.1.spec_hash());
            let mut r: Vec<String> = Vec::new();
            let mut i: usize = 0;
            while i < t.entries.len()
                invariant
                    i <= t.entries@.len(),
                    links == t.entries@.map_values(|e: (String, TreeEntry)| e.1.spec_hash()),
                    strs(r@) == links.take(i as int),
                decreases t.entries@.len() - i,
            {
                let h = match &t.entries[i].1 {
                    TreeEntry::Blob { hash, .. } => hash.clone(),
                    TreeEntry::Tree { hash } => hash.clone(),
                };
                let ghost before = r@;
                r.push(h);
                assert(links.take(i + 1) =~= links.take(i as int).push(links[i as int]));
                assert(strs(r@) =~= strs(before).push(h@));
                i = i + 1;
            }
            assert(links.take(t.entries@.len() as int) =~= links);
            r
        },
        Object::Blob(_) => {
            let r: Vec<String> = Vec::new();
            assert(strs(r@) =~= Seq::<Seq<char>>::empty());
            r
        },
    }
}

/// The chunk hashes of a blob, in order.
pub fn chunk_hashes(blob: &Blob) -> (r: Vec<String>)
    ensures
        r@.len() == blob.chunks@.len(),
        forall|i: int| 0 <= i < r@.len() ==> #[trigger] r@[i] == blob.chunks@[i].hash,
{
    let mut r: Vec<String> = Vec::new();
    let mut i: usize = 0;
    while i < blob.chunks.len()
        invariant
            i <= blob.chunks@.len(),
            r@.len() == i,
            forall|k: int| 0 <= k < i ==> #[trigger] r@[k] == blob.chunks@[k].hash,
        decreases blob.chunks@.len() - i,
    {
        r.push(blob.chunks[i].hash.clone());
        i = i + 1;
    }
    r
}

} // verus!
