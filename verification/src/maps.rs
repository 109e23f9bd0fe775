//! A map keyed by strings, kept as a list of (key, value) pairs with distinct
//! keys. Iteration goes in insertion order.

use vstd::prelude::*;

verus! {

/// A string-keyed map.
#[derive(Debug)]
pub struct StrMap<V> {
    items: Vec<(String, V)>,
}

/// Distinct keys.
pub open spec fn keys_unique<V>(s: Seq<(String, V)>) -> bool {
    forall|i: int, j: int| 0 <= i < j < s.len() ==> #[trigger] s[i].0@ != #[trigger] s[j].0@
}

/// Whether `k` is the key of some pair.
pub open spec fn has_key<V>(s: Seq<(String, V)>, k: Seq<char>) -> bool {
    exists|i: int| 0 <= i < s.len() && #[trigger] s[i].0@ == k
}

/// The map that a list of pairs with distinct keys stands for.
pub open spec fn map_of<V>(s: Seq<(String, V)>) -> Map<Seq<char>, V> {
    Map::new(
        |k: Seq<char>| has_key(s, k),
        |k: Seq<char>| s[choose|i: int| 0 <= i < s.len() && #[trigger] s[i].0@ == k].1,
    )
}

pub proof fn lemma_map_of_index<V>(s: Seq<(String, V)>, i: int)
    requires
        keys_unique(s),
        0 <= i < s.len(),
    ensures
        map_of(s).dom().contains(s[i].0@),
        map_of(s)[s[i].0@] == s[i].1,
{
    let k = s[i].0@;
    assert(has_key(s, k));
    let j = choose|j: int| 0 <= j < s.len() && #[trigger] s[j].0@ == k;
    if j != i {
        if j < i {
            assert(s[j].0@ != s[i].0@);
        } else {
            assert(s[i].0@ != s[j].0@);
        }
    }
}

impl<V> StrMap<V> {
    pub closed spec fn wf(&self) -> bool {
        keys_unique(self.items@)
    }

    pub closed spec fn view(&self) -> Map<Seq<char>, V> {
        map_of(self.items@)
    }

    /// The pairs, in insertion order.
    pub closed spec fn pairs(&self) -> Seq<(String, V)> {
        self.items@
    }

    /// The pairs are exactly the map's contents, each key once.
    pub proof fn lemma_pairs(&self)
        requires
            self.wf(),
        ensures
            keys_unique(self.pairs()),
            forall|k: Seq<char>| #[trigger] self.view().dom().contains(k) <==> has_key(self.pairs(), k),
            forall|i: int|
                0 <= i < self.pairs().len() ==> #[trigger] self.view()[self.pairs()[i].0@]
                    == self.pairs()[i].1,
            self.view().dom().finite(),
            self.view().dom().len() == self.pairs().len(),
            self.view() == map_of(self.pairs()),
    {
        assert forall|i: int| 0 <= i < self.items@.len() implies #[trigger] self.view()[self.items@[i].0@]
            == self.items@[i].1 by {
            lemma_map_of_index(self.items@, i);
        }
        lemma_dom_finite(self.items@);
    }

    pub fn new() -> (m: Self)
        ensures
            m.wf(),
            m.view() == Map::<Seq<char>, V>::empty(),
    {
        let m = StrMap { items: Vec::new() };
        assert(m.view() =~= Map::<Seq<char>, V>::empty());
        m
    }

    /// The position of `key`, if present.
    fn find(&self, key: &str) -> (r: Option<usize>)
        requires
            self.wf(),
        ensures
            r matches Some(i) ==> i < self.items@.len() && self.items@[i as int].0@ == key@,
            r is None ==> !has_key(self.items@, key@),
    {
        let mut i: usize = 0;
        while i < self.items.len()
            invariant
                i <= self.items@.len(),
                forall|j: int| 0 <= j < i ==> #[trigger] self.items@[j].0@ != key@,
            decreases self.items@.len() - i,
        {
            if crate::text::str_eq(self.items[i].0.as_str(), key) {
                return Some(i);
            }
            i = i + 1;
        }
        None
    }

    pub fn contains_key(&self, key: &str) -> (r: bool)
        requires
            self.wf(),
        ensures
            r == self.view().dom().contains(key@),
    {
        self.find(key).is_some()
    }

    pub fn get(&self, key: &str) -> (r: Option<&V>)
        requires
            self.wf(),
        ensures
            r matches Some(v) ==> self.view().dom().contains(key@) && *v == self.view()[key@],
            r is None ==> !self.view().dom().contains(key@),
    {
        match self.find(key) {
            Some(i) => {
                proof {
                    lemma_map_of_index(self.items@, i as int);
                }
                Some(&self.items[i].1)
            },
            None => None,
        }
    }

    /// Sets the value for `key`, replacing any earlier one.
    pub fn insert(&mut self, key: String, value: V)
        requires
            old(self).wf(),
        ensures
            final(self).wf(),
            final(self).view() == old(self).view().insert(key@, value),
    {
        let ghost old_items = self.items@;
        let ghost k = key@;
        match self.find(key.as_str()) {
            Some(i) => {
                self.items.set(i, (key, value));
                proof {
                    assert forall|a: int, b: int| 0 <= a < b < self.items@.len() implies #[trigger] self.items@[a].0@
                        != #[trigger] self.items@[b].0@ by {
                        assert(old_items[a].0@ != old_items[b].0@);
                    }
                    lemma_map_of_update(old_items, self.items@, i as int);
                }
            },
            None => {
                self.items.push((key, value));
                proof {
                    assert forall|a: int, b: int| 0 <= a < b < self.items@.len() implies #[trigger] self.items@[a].0@
                        != #[trigger] self.items@[b].0@ by {
                        if b == old_items.len() {
                            assert(old_items[a].0@ != k);
                        } else {
                            assert(old_items[a].0@ != old_items[b].0@);
                        }
                    }
                    assert(self.items@.drop_last() =~= old_items);
                    lemma_map_of_push(old_items, self.items@);
                }
            },
        }
    }

    /// Removes `key` if present.
    pub fn remove(&mut self, key: &str)
        requires
            old(self).wf(),
        ensures
            final(self).wf(),
            final(self).view() == old(self).view().remove(key@),
    {
        let ghost old_items = self.items@;
        match self.find(key) {
            Some(i) => {
                self.items.remove(i);
                proof {
                    lemma_map_of_remove(old_items, i as int);
                }
            },
            None => {
                assert(self.view() =~= old(self).view().remove(key@));
            },
        }
    }

    /// Removes `key` and gives back its value, if present.
    pub fn take(&mut self, key: &str) -> (r: Option<V>)
        requires
            old(self).wf(),
        ensures
            final(self).wf(),
            final(self).view() == old(self).view().remove(key@),
            r matches Some(v) ==> old(self).view().dom().contains(key@) && v == old(self).view()[key@],
            r is None ==> !old(self).view().dom().contains(key@),
    {
        let ghost old_items = self.items@;
        match self.find(key) {
            Some(i) => {
                proof {
                    lemma_map_of_index(old_items, i as int);
                    lemma_map_of_remove(old_items, i as int);
                }
                let (_, v) = self.items.remove(i);
                Some(v)
            },
            None => {
                assert(self.view() =~= old(self).view().remove(key@));
                None
            },
        }
    }

    /// Removes every entry.
    pub fn clear(&mut self)
        ensures
            final(self).wf(),
            final(self).view() == Map::<Seq<char>, V>::empty(),
    {
        self.items.clear();
        assert(self.view() =~= Map::<Seq<char>, V>::empty());
    }

    pub fn len(&self) -> (n: usize)
        requires
            self.wf(),
        ensures
            n == self.view().dom().len(),
    {
        proof {
            lemma_dom_finite(self.items@);
        }
        self.items.len()
    }

    /// The (key, value) pairs, in insertion order.
    pub fn items(&self) -> (r: &Vec<(String, V)>)
        ensures
            r@ == self.pairs(),
    {
        &self.items
    }
}

proof fn lemma_map_of_update<V>(old_items: Seq<(String, V)>, new_items: Seq<(String, V)>, i: int)
    requires
        keys_unique(old_items),
        keys_unique(new_items),
        0 <= i < old_items.len(),
        new_items == old_items.update(i, new_items[i]),
        new_items[i].0@ == old_items[i].0@,
    ensures
        map_of(new_items) == map_of(old_items).insert(new_items[i].0@, new_items[i].1),
{
    let m1 = map_of(new_items);
    let m2 = map_of(old_items).insert(new_items[i].0@, new_items[i].1);
    assert forall|k: Seq<char>| m1.dom().contains(k) <==> m2.dom().contains(k) by {
        if has_key(new_items, k) {
            let j = choose|j: int| 0 <= j < new_items.len() && #[trigger] new_items[j].0@ == k;
            if j != i {
                assert(old_items[j].0@ == k);
            }
        }
        if has_key(old_items, k) {
            let j = choose|j: int| 0 <= j < old_items.len() && #[trigger] old_items[j].0@ == k;
            assert(new_items[j].0@ == k);
        }
    }
    assert forall|k: Seq<char>| m1.dom().contains(k) implies m1[k] == m2[k] by {
        let j = choose|j: int| 0 <= j < new_items.len() && #[trigger] new_items[j].0@ == k;
        lemma_map_of_index(new_items, j);
        if j != i {
            lemma_map_of_index(old_items, j);
        }
    }
    assert(m1 =~= m2);
}

proof fn lemma_map_of_push<V>(old_items: Seq<(String, V)>, new_items: Seq<(String, V)>)
    requires
        keys_unique(old_items),
        keys_unique(new_items),
        new_items.len() == old_items.len() + 1,
        new_items.drop_last() == old_items,
    ensures
        map_of(new_items) == map_of(old_items).insert(new_items.last().0@, new_items.last().1),
{
    let n = old_items.len() as int;
    let m1 = map_of(new_items);
    let m2 = map_of(old_items).insert(new_items[n].0@, new_items[n].1);
    assert forall|k: Seq<char>| m1.dom().contains(k) <==> m2.dom().contains(k) by {
        if has_key(new_items, k) {
            let j = choose|j: int| 0 <= j < new_items.len() && #[trigger] new_items[j].0@ == k;
            if j != n {
                assert(old_items[j] == new_items[j]);
            }
        }
        if has_key(old_items, k) {
            let j = choose|j: int| 0 <= j < old_items.len() && #[trigger] old_items[j].0@ == k;
            assert(new_items[j] == old_items[j]);
        }
        assert(new_items[n].0@ == new_items[n].0@);
    }
    assert forall|k: Seq<char>| m1.dom().contains(k) implies m1[k] == m2[k] by {
        let j = choose|j: int| 0 <= j < new_items.len() && #[trigger] new_items[j].0@ == k;
        lemma_map_of_index(new_items, j);
        if j != n {
            assert(old_items[j] == new_items[j]);
            lemma_map_of_index(old_items, j);
        }
    }
    assert(m1 =~= m2);
}

proof fn lemma_map_of_remove<V>(old_items: Seq<(String, V)>, i: int)
    requires
        keys_unique(old_items),
        0 <= i < old_items.len(),
    ensures
        keys_unique(old_items.remove(i)),
        map_of(old_items.remove(i)) == map_of(old_items).remove(old_items[i].0@),
{
    let new_items = old_items.remove(i);
    assert forall|a: int, b: int| 0 <= a < b < new_items.len() implies #[trigger] new_items[a].0@
        != #[trigger] new_items[b].0@ by {
        let a2 = if a < i { a } else { a + 1 };
        let b2 = if b < i { b } else { b + 1 };
        assert(old_items[a2].0@ != old_items[b2].0@);
    }
    let m1 = map_of(new_items);
    let m2 = map_of(old_items).remove(old_items[i].0@);
    assert forall|k: Seq<char>| m1.dom().contains(k) <==> m2.dom().contains(k) by {
        if has_key(new_items, k) {
            let j = choose|j: int| 0 <= j < new_items.len() && #[trigger] new_items[j].0@ == k;
            let j2 = if j < i { j } else { j + 1 };
            assert(old_items[j2].0@ == k);
            assert(j2 != i);
            if j2 < i {
                assert(old_items[j2].0@ != old_items[i].0@);
            } else {
                assert(old_items[i].0@ != old_items[j2].0@);
            }
        }
        if has_key(old_items, k) && k != old_items[i].0@ {
            let j = choose|j: int| 0 <= j < old_items.len() && #[trigger] old_items[j].0@ == k;
            let j2 = if j < i { j } else { j - 1 };
            assert(new_items[j2].0@ == k);
        }
    }
    assert forall|k: Seq<char>| m1.dom().contains(k) implies m1[k] == m2[k] by {
        let j = choose|j: int| 0 <= j < new_items.len() && #[trigger] new_items[j].0@ == k;
        lemma_map_of_index(new_items, j);
        let j2 = if j < i { j } else { j + 1 };
        assert(old_items[j2] == new_items[j]);
        lemma_map_of_index(old_items, j2);
    }
    assert(m1 =~= m2);
}

/// The key set of a list of pairs with distinct keys is finite, of the list's length.
proof fn lemma_dom_finite<V>(s: Seq<(String, V)>)
    requires
        keys_unique(s),
    ensures
        map_of(s).dom().finite(),
        map_of(s).dom().len() == s.len(),
    decreases s.len(),
{
    if s.len() == 0 {
        assert(map_of(s).dom() =~= Set::<Seq<char>>::empty());
    } else {
        let t = s.drop_last();
        assert forall|a: int, b: int| 0 <= a < b < t.len() implies #[trigger] t[a].0@ != #[trigger] t[b].0@ by {
            assert(s[a].0@ != s[b].0@);
        }
        lemma_dom_finite(t);
        let k = s.last().0@;
        assert(map_of(s).dom() =~= map_of(t).dom().insert(k)) by {
            assert forall|x: Seq<char>| map_of(s).dom().contains(x) <==> map_of(t).dom().insert(k).contains(x) by {
                if has_key(s, x) && x != k {
                    let j = choose|j: int| 0 <= j < s.len() && #[trigger] s[j].0@ == x;
                    assert(t[j].0@ == x);
                }
                if has_key(t, x) {
                    let j = choose|j: int| 0 <= j < t.len() && #[trigger] t[j].0@ == x;
                    assert(s[j].0@ == x);
                }
                assert(s[s.len() - 1].0@ == k);
            }
        }
        assert(!map_of(t).dom().contains(k)) by {
            if has_key(t, k) {
                let j = choose|j: int| 0 <= j < t.len() && #[trigger] t[j].0@ == k;
                assert(s[j].0@ != s[s.len() - 1].0@);
            }
        }
    }
}

/// The map of a prefix grows by one pair at a time, with a new key each time.
pub proof fn lemma_map_of_take<V>(s: Seq<(String, V)>, k: int)
    requires
        keys_unique(s),
        0 <= k < s.len(),
    ensures
        !map_of(s.take(k)).dom().contains(s[k].0@),
        map_of(s.take(k + 1)) == map_of(s.take(k)).insert(s[k].0@, s[k].1),
{
    let a = s.take(k);
    let b = s.take(k + 1);
    assert forall|i: int, j: int| 0 <= i < j < a.len() implies #[trigger] a[i].0@ != #[trigger] a[j].0@ by {
        assert(s[i].0@ != s[j].0@);
    }
    assert forall|i: int, j: int| 0 <= i < j < b.len() implies #[trigger] b[i].0@ != #[trigger] b[j].0@ by {
        assert(s[i].0@ != s[j].0@);
    }
    assert(b.drop_last() =~= a);
    lemma_map_of_push(a, b);
    if has_key(a, s[k].0@) {
        let j = choose|j: int| 0 <= j < a.len() && #[trigger] a[j].0@ == s[k].0@;
        assert(s[j].0@ != s[k].0@);
    }
}

} // verus!
