//! A small association map with string keys: the shape the URL catalog
//! and the per-page datasets are kept in. Later insertions overwrite
//! earlier ones; its view is the mathematical map from key views to
//! values.

use vstd::prelude::*;

verus! {

pub struct StringMap<V> {
    entries: Vec<(String, V)>,
}

/// The map a list of entries denotes, later entries overwriting earlier
/// ones.
pub open spec fn map_of<V>(entries: Seq<(String, V)>) -> Map<Seq<char>, V>
    decreases entries.len(),
{
    if entries.len() == 0 {
        Map::<Seq<char>, V>::empty()
    } else {
        map_of(entries.drop_last()).insert(entries.last().0@, entries.last().1)
    }
}

impl<V> View for StringMap<V> {
    type V = Map<Seq<char>, V>;

    closed spec fn view(&self) -> Map<Seq<char>, V> {
        map_of(self.entries@)
    }
}

proof fn lemma_map_of_contains<V>(entries: Seq<(String, V)>, k: Seq<char>)
    ensures
        map_of(entries).dom().contains(k) <==> exists|i: int|
            0 <= i < entries.len() && (#[trigger] entries[i]).0@ == k,
    decreases entries.len(),
{
    if entries.len() > 0 {
        lemma_map_of_contains(entries.drop_last(), k);
        if entries.last().0@ == k {
            assert(entries[entries.len() - 1].0@ == k);
        } else if map_of(entries).dom().contains(k) {
            let i = choose|i: int|
                0 <= i < entries.drop_last().len() && (#[trigger] entries.drop_last()[i]).0@ == k;
            assert(entries[i].0@ == k);
        } else {
            assert forall|i: int| 0 <= i < entries.len() implies (#[trigger] entries[i]).0@
                != k by {
                if i < entries.len() - 1 {
                    assert(entries.drop_last()[i] == entries[i]);
                }
            }
        }
    }
}

proof fn lemma_map_of_get<V>(entries: Seq<(String, V)>, j: int)
    requires
        0 <= j < entries.len(),
        forall|m: int, n: int|
            0 <= m < n < entries.len() ==> (#[trigger] entries[m]).0@ != (
            #[trigger] entries[n]).0@,
    ensures
        map_of(entries).dom().contains(entries[j].0@),
        map_of(entries)[entries[j].0@] == entries[j].1,
    decreases entries.len(),
{
    if j == entries.len() - 1 {
    } else {
        assert forall|m: int, n: int|
            0 <= m < n < entries.drop_last().len() implies (#[trigger] entries.drop_last()[m]).0@
            != (#[trigger] entries.drop_last()[n]).0@ by {
            assert(entries.drop_last()[m] == entries[m]);
            assert(entries.drop_last()[n] == entries[n]);
        }
        lemma_map_of_get(entries.drop_last(), j);
        assert(entries.drop_last()[j] == entries[j]);
        assert(entries[j].0@ != entries[entries.len() - 1].0@);
    }
}

impl<V> StringMap<V> {
    /// No two entries carry the same key.
    pub closed spec fn wf(self) -> bool {
        forall|m: int, n: int|
            0 <= m < n < self.entries@.len() ==> (#[trigger] self.entries@[m]).0@ != (
            #[trigger] self.entries@[n]).0@
    }

    /// The entries as key-view/value pairs, in insertion order.
    pub closed spec fn kv(self) -> Seq<(Seq<char>, V)> {
        self.entries@.map_values(|e: (String, V)| (e.0@, e.1))
    }

    pub fn new() -> (r: StringMap<V>)
        ensures
            r@ == Map::<Seq<char>, V>::empty(),
            r.kv() == Seq::<(Seq<char>, V)>::empty(),
            r.wf(),
    {
        let r = StringMap { entries: Vec::new() };
        proof {
            assert(r.kv() =~= Seq::<(Seq<char>, V)>::empty());
        }
        r
    }

    pub fn len(&self) -> (r: usize)
        ensures
            r == self.kv().len(),
    {
        self.entries.len()
    }

    /// The entries themselves; each pair views to the matching `kv` pair.
    pub fn entries(&self) -> (r: &Vec<(String, V)>)
        ensures
            r@.len() == self.kv().len(),
            forall|i: int|
                0 <= i < r@.len() ==> (#[trigger] r@[i]).0@ == self.kv()[i].0 && r@[i].1
                    == self.kv()[i].1,
    {
        &self.entries
    }

    /// Every key of the map stands in `kv`, and every `kv` key in the map.
    pub proof fn lemma_kv_dom(self, k: Seq<char>)
        ensures
            self@.dom().contains(k) <==> exists|i: int|
                0 <= i < self.kv().len() && (#[trigger] self.kv()[i]).0 == k,
    {
        lemma_map_of_contains(self.entries@, k);
        if exists|i: int| 0 <= i < self.entries@.len() && (#[trigger] self.entries@[i]).0@ == k {
            let i = choose|i: int|
                0 <= i < self.entries@.len() && (#[trigger] self.entries@[i]).0@ == k;
            assert(self.kv()[i].0 == k);
        }
        if exists|i: int| 0 <= i < self.kv().len() && (#[trigger] self.kv()[i]).0 == k {
            let i = choose|i: int| 0 <= i < self.kv().len() && (#[trigger] self.kv()[i]).0 == k;
            assert(self.entries@[i].0@ == k);
        }
    }

    pub fn contains_key(&self, key: &str) -> (r: bool)
        requires
            self.wf(),
        ensures
            r == self@.dom().contains(key@),
    {
        let n: usize = self.entries.len();
        let mut i: usize = 0;
        while i < n
            invariant
                i <= n,
                n == self.entries@.len(),
                self.wf(),
                forall|j: int| 0 <= j < i ==> (#[trigger] self.entries@[j]).0@ != key@,
            decreases n - i,
        {
            if crate::text::str_eq(self.entries[i].0.as_str(), key) {
                proof {
                    lemma_map_of_get(self.entries@, i as int);
                }
                return true;
            }
            i = i + 1;
        }
        proof {
            lemma_map_of_contains(self.entries@, key@);
        }
        false
    }

    pub fn get(&self, key: &str) -> (r: Option<&V>)
        requires
            self.wf(),
        ensures
            match r {
                Some(v) => self@.dom().contains(key@) && *v == self@[key@],
                None => !self@.dom().contains(key@),
            },
    {
        let n: usize = self.entries.len();
        let mut i: usize = 0;
        while i < n
            invariant
                i <= n,
                n == self.entries@.len(),
                self.wf(),
                forall|j: int| 0 <= j < i ==> (#[trigger] self.entries@[j]).0@ != key@,
            decreases n - i,
        {
            if crate::text::str_eq(self.entries[i].0.as_str(), key) {
                proof {
                    lemma_map_of_get(self.entries@, i as int);
                }
                return Some(&self.entries[i].1);
            }
            i = i + 1;
        }
        proof {
            lemma_map_of_contains(self.entries@, key@);
        }
        None
    }

    /// Inserts a binding, overwriting the entry of an already-present key
    /// in place.
    pub fn insert(&mut self, key: String, value: V)
        requires
            old(self).wf(),
        ensures
            final(self)@ == old(self)@.insert(key@, value),
            final(self).wf(),
            final(self).kv().len() == old(self).kv().len() + (if old(self)@.dom().contains(key@) {
                0int
            } else {
                1int
            }),
    {
        let n: usize = self.entries.len();
        let mut i: usize = 0;
        while i < n
            invariant
                i <= n,
                n == self.entries@.len(),
                self.wf(),
                old(self) == self,
                forall|j: int| 0 <= j < i ==> (#[trigger] self.entries@[j]).0@ != key@,
            decreases n - i,
        {
            if crate::text::str_eq(self.entries[i].0.as_str(), key.as_str()) {
                proof {
                    lemma_map_of_get(self.entries@, i as int);
                }
                let old_pair = self.entries.remove(i);
                self.entries.insert(i, (key, value));
                proof {
                    let s0 = old(self).entries@;
                    let s1 = self.entries@;
                    assert(s1 =~= s0.update(i as int, (s1[i as int].0, s1[i as int].1)));
                    lemma_map_of_update(s0, i as int, s1[i as int]);
                    assert(self.kv() =~= old(self).kv().update(
                        i as int,
                        (s1[i as int].0@, s1[i as int].1),
                    ));
                }
                return;
            }
            i = i + 1;
        }
        proof {
            lemma_map_of_contains(self.entries@, key@);
        }
        self.entries.push((key, value));
        proof {
            assert(self.entries@.drop_last() =~= old(self).entries@);
            assert(self.kv() =~= old(self).kv().push(
                (self.entries@.last().0@, self.entries@.last().1),
            ));
        }
    }
}

/// Overwriting the entry that already carries a key is, at the map level,
/// an insertion of that key.
proof fn lemma_map_of_update<V>(entries: Seq<(String, V)>, j: int, e: (String, V))
    requires
        0 <= j < entries.len(),
        e.0@ == entries[j].0@,
        forall|m: int, n: int|
            0 <= m < n < entries.len() ==> (#[trigger] entries[m]).0@ != (
            #[trigger] entries[n]).0@,
    ensures
        map_of(entries.update(j, e)) == map_of(entries).insert(e.0@, e.1),
    decreases entries.len(),
{
    let t = entries.update(j, e);
    if j == entries.len() - 1 {
        assert(t.drop_last() =~= entries.drop_last());
        assert(t.last() == e);
        assert(map_of(t) =~= map_of(entries).insert(e.0@, e.1));
    } else {
        assert forall|m: int, n: int|
            0 <= m < n < entries.drop_last().len() implies (#[trigger] entries.drop_last()[m]).0@
            != (#[trigger] entries.drop_last()[n]).0@ by {
            assert(entries.drop_last()[m] == entries[m]);
            assert(entries.drop_last()[n] == entries[n]);
        }
        assert(entries.drop_last()[j] == entries[j]);
        lemma_map_of_update(entries.drop_last(), j, e);
        assert(t.drop_last() =~= entries.drop_last().update(j, e));
        assert(t.last() == entries.last());
        assert(e.0@ != entries.last().0@);
        assert(map_of(t) == map_of(entries.drop_last().update(j, e)).insert(
            entries.last().0@,
            entries.last().1,
        ));
        assert(map_of(t) =~= map_of(entries).insert(e.0@, e.1));
    }
}

} // verus!
