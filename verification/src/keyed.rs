//! A small map from text to values that remembers the order in which its keys
//! came.
use crate::text::same;
use vstd::prelude::*;

verus! {

/// The map that some entries make.
pub open spec fn map_of<V>(entries: Seq<(Seq<char>, V)>) -> Map<Seq<char>, V>
    decreases entries.len(),
{
    if entries.len() == 0 {
        Map::empty()
    } else {
        map_of(entries.drop_last()).insert(entries.last().0, entries.last().1)
    }
}

/// No key twice.
pub open spec fn distinct<V>(entries: Seq<(Seq<char>, V)>) -> bool {
    forall|i: int, j: int|
        0 <= i < j < entries.len() ==> #[trigger] entries[i].0 != #[trigger] entries[j].0
}

/// Where a key stands.
pub proof fn lemma_lookup<V>(entries: Seq<(Seq<char>, V)>, i: int)
    requires
        distinct(entries),
        0 <= i < entries.len(),
    ensures
        map_of(entries).contains_key(entries[i].0),
        map_of(entries)[entries[i].0] == entries[i].1,
    decreases entries.len(),
{
    if i < entries.len() - 1 {
        let front = entries.drop_last();
        assert(distinct(front)) by {
            assert forall|a: int, b: int| 0 <= a < b < front.len() implies #[trigger] front[a].0
                != #[trigger] front[b].0 by {
                assert(entries[a].0 != entries[b].0);
            }
        }
        lemma_lookup(front, i);
        assert(front[i] == entries[i]);
        assert(entries[i].0 != entries[entries.len() - 1].0);
    }
}

/// A key that no entry has is not in the map, and one in the map has an entry.
pub proof fn lemma_absent<V>(entries: Seq<(Seq<char>, V)>, key: Seq<char>)
    ensures
        map_of(entries).contains_key(key) <==> exists|i: int|
            0 <= i < entries.len() && #[trigger] entries[i].0 == key,
    decreases entries.len(),
{
    if entries.len() > 0 {
        let front = entries.drop_last();
        lemma_absent(front, key);
        if map_of(front).contains_key(key) {
            let i = choose|i: int| 0 <= i < front.len() && #[trigger] front[i].0 == key;
            assert(entries[i].0 == key);
        }
        if exists|i: int| 0 <= i < entries.len() && #[trigger] entries[i].0 == key {
            let i = choose|i: int| 0 <= i < entries.len() && #[trigger] entries[i].0 == key;
            if i < front.len() {
                assert(front[i].0 == key);
            }
        }
        if entries.last().0 == key {
            assert(entries[entries.len() - 1].0 == key);
        }
    }
}

proof fn lemma_maps_equal<V>(
    entries: Seq<(Seq<char>, V)>,
    m: Map<Seq<char>, V>,
)
    requires
        distinct(entries),
        forall|i: int|
            0 <= i < entries.len() ==> m.contains_key(#[trigger] entries[i].0)
                && m[entries[i].0] == entries[i].1,
        forall|k: Seq<char>|
            m.contains_key(k) ==> exists|i: int|
                0 <= i < entries.len() && #[trigger] entries[i].0 == k,
    ensures
        map_of(entries) == m,
{
    assert forall|k: Seq<char>| map_of(entries).contains_key(k) == m.contains_key(k) by {
        lemma_absent(entries, k);
    }
    assert forall|k: Seq<char>| map_of(entries).contains_key(k) implies map_of(entries)[k]
        == m[k] by {
        lemma_absent(entries, k);
        let i = choose|i: int| 0 <= i < entries.len() && #[trigger] entries[i].0 == k;
        lemma_lookup(entries, i);
    }
    assert(map_of(entries) =~= m);
}

/// A map from text to values.
#[derive(Debug)]
pub struct Keyed<T> {
    entries: Vec<(String, T)>,
}

impl<T: View> Keyed<T> {
    /// The entries in the order in which their keys came.
    pub closed spec fn order(&self) -> Seq<(Seq<char>, T::V)> {
        self.entries@.map_values(|e: (String, T)| (e.0@, e.1@))
    }

    /// No key occurs twice.
    pub open spec fn wf(&self) -> bool {
        distinct(self.order())
    }

    pub fn new() -> (r: Self)
        ensures
            r.wf(),
            r@ == Map::<Seq<char>, T::V>::empty(),
            r.order().len() == 0,
    {
        let r = Keyed { entries: Vec::new() };
        assert(r.order() =~= Seq::empty());
        r
    }

    pub fn clear(&mut self)
        ensures
            final(self).wf(),
            final(self)@ == Map::<Seq<char>, T::V>::empty(),
            final(self).order().len() == 0,
    {
        self.entries.clear();
        assert(self.order() =~= Seq::empty());
    }

    pub fn len(&self) -> (r: usize)
        ensures
            r == self.order().len(),
    {
        self.entries.len()
    }

    pub fn is_empty(&self) -> (r: bool)
        requires
            self.wf(),
        ensures
            r == (self.order().len() == 0),
            r == (self@ == Map::<Seq<char>, T::V>::empty()),
    {
        proof {
            if self.order().len() > 0 {
                lemma_lookup(self.order(), 0);
            }
        }
        self.entries.len() == 0
    }

    /// The key at a place in the order.
    pub fn key_at(&self, i: usize) -> (r: &str)
        requires
            i < self.order().len(),
        ensures
            r@ == self.order()[i as int].0,
    {
        self.entries[i].0.as_str()
    }

    /// The value at a place in the order.
    pub fn value_at(&self, i: usize) -> (r: &T)
        requires
            i < self.order().len(),
        ensures
            r@ == self.order()[i as int].1,
    {
        &self.entries[i].1
    }

    fn find(&self, key: &str) -> (r: Option<usize>)
        requires
            self.wf(),
        ensures
            match r {
                Some(i) => i < self.order().len() && self.order()[i as int].0 == key@
                    && self@.contains_key(key@) && self@[key@] == self.order()[i as int].1,
                None => !self@.contains_key(key@) && forall|i: int|
                    0 <= i < self.order().len() ==> #[trigger] self.order()[i].0 != key@,
            },
    {
        let mut i: usize = 0;
        while i < self.entries.len()
            invariant
                i <= self.order().len(),
                self.order().len() == self.entries@.len(),
                forall|j: int| 0 <= j < i ==> #[trigger] self.order()[j].0 != key@,
                self.wf(),
            decreases self.entries@.len() - i,
        {
            if same(self.entries[i].0.as_str(), key) {
                proof {
                    lemma_lookup(self.order(), i as int);
                }
                return Some(i);
            }
            i += 1;
        }
        proof {
            lemma_absent(self.order(), key@);
        }
        None
    }

    pub fn contains(&self, key: &str) -> (r: bool)
        requires
            self.wf(),
        ensures
            r == self@.contains_key(key@),
    {
        self.find(key).is_some()
    }

    pub fn get(&self, key: &str) -> (r: Option<&T>)
        requires
            self.wf(),
        ensures
            match r {
                Some(v) => self@.contains_key(key@) && v@ == self@[key@],
                None => !self@.contains_key(key@),
            },
    {
        match self.find(key) {
            Some(i) => Some(&self.entries[i].1),
            None => None,
        }
    }

    /// Put a value under a key, in place of the one that was there.
    pub fn insert(&mut self, key: String, value: T)
        requires
            old(self).wf(),
        ensures
            final(self).wf(),
            final(self)@ == old(self)@.insert(key@, value@),
            old(self)@.contains_key(key@) ==> final(self).order().len() == old(
                self,
            ).order().len(),
            !old(self)@.contains_key(key@) ==> final(self).order() == old(self).order().push(
                (key@, value@),
            ),
    {
        let ghost before = self.order();
        let ghost m = self@;
        match self.find(key.as_str()) {
            Some(i) => {
                self.entries.set(i, (key, value));
                proof {
                    let after = self.order();
                    assert(after =~= before.update(i as int, (key@, value@)));
                    assert(distinct(after)) by {
                        assert forall|a: int, b: int|
                            0 <= a < b < after.len() implies #[trigger] after[a].0
                            != #[trigger] after[b].0 by {
                            assert(before[a].0 != before[b].0);
                        }
                    }
                    assert forall|j: int| 0 <= j < after.len() implies m.insert(
                        key@,
                        value@,
                    ).contains_key(#[trigger] after[j].0) && m.insert(key@, value@)[after[j].0]
                        == after[j].1 by {
                        lemma_lookup(before, j);
                        if j != i {
                            if j < i {
                                assert(before[j].0 != before[i as int].0);
                            } else {
                                assert(before[i as int].0 != before[j].0);
                            }
                        }
                    }
                    assert forall|k: Seq<char>| m.insert(key@, value@).contains_key(k) implies exists|
                        j: int,
                    |
                        0 <= j < after.len() && #[trigger] after[j].0 == k by {
                        lemma_absent(before, k);
                        if k == key@ {
                            assert(after[i as int].0 == k);
                        } else {
                            let j = choose|j: int|
                                0 <= j < before.len() && #[trigger] before[j].0 == k;
                            assert(after[j].0 == k);
                        }
                    }
                    lemma_maps_equal(after, m.insert(key@, value@));
                }
            },
            None => {
                self.entries.push((key, value));
                proof {
                    let after = self.order();
                    assert(after =~= before.push((key@, value@)));
                    assert(after.drop_last() =~= before);
                    assert(distinct(after)) by {
                        assert forall|a: int, b: int|
                            0 <= a < b < after.len() implies #[trigger] after[a].0
                            != #[trigger] after[b].0 by {
                            if b < before.len() {
                                assert(before[a].0 != before[b].0);
                            } else {
                                assert(before[a].0 != key@);
                            }
                        }
                    }
                }
            },
        }
    }

    /// Take the entry under a key out; the others keep their order.
    pub fn remove(&mut self, key: &str)
        requires
            old(self).wf(),
        ensures
            final(self).wf(),
            final(self)@ == old(self)@.remove(key@),
    {
        let ghost before = self.order();
        let ghost m = self@;
        match self.find(key) {
            Some(i) => {
                let _ = self.entries.remove(i);
                proof {
                    let after = self.order();
                    assert(after =~= before.remove(i as int));
                    assert forall|a: int| 0 <= a < after.len() implies #[trigger] after[a]
                        == before[if a < i {
                        a
                    } else {
                        a + 1
                    }] by {}
                    assert(distinct(after)) by {
                        assert forall|a: int, b: int|
                            0 <= a < b < after.len() implies #[trigger] after[a].0
                            != #[trigger] after[b].0 by {
                            let x = if a < i {
                                a
                            } else {
                                a + 1
                            };
                            let y = if b < i {
                                b
                            } else {
                                b + 1
                            };
                            assert(before[x].0 != before[y].0);
                        }
                    }
                    assert forall|j: int| 0 <= j < after.len() implies m.remove(
                        key@,
                    ).contains_key(#[trigger] after[j].0) && m.remove(key@)[after[j].0]
                        == after[j].1 by {
                        let x = if j < i {
                            j
                        } else {
                            j + 1
                        };
                        lemma_lookup(before, x);
                        if x < i {
                            assert(before[x].0 != before[i as int].0);
                        } else {
                            assert(before[i as int].0 != before[x].0);
                        }
                    }
                    assert forall|k: Seq<char>| m.remove(key@).contains_key(k) implies exists|
                        j: int,
                    |
                        0 <= j < after.len() && #[trigger] after[j].0 == k by {
                        lemma_absent(before, k);
                        let x = choose|x: int| 0 <= x < before.len() && #[trigger] before[x].0 == k;
                        let j = if x < i {
                            x
                        } else {
                            x - 1
                        };
                        assert(after[j].0 == k);
                    }
                    lemma_maps_equal(after, m.remove(key@));
                }
            },
            None => {
                assert(m.remove(key@) =~= m);
            },
        }
    }
}

impl<T: View> View for Keyed<T> {
    type V = Map<Seq<char>, T::V>;

    open spec fn view(&self) -> Map<Seq<char>, T::V> {
        map_of(self.order())
    }
}

} // verus!
