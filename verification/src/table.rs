//! A small registry keyed by name: the router keeps its publisher,
//! consumer and connection records in these. The abstract value is a map
//! from the name's characters to the value's view.

use crate::messages::string_eq;
use vstd::prelude::*;

verus! {

/// The map an association list denotes: later entries overwrite earlier
/// ones.
pub open spec fn table_map<T>(entries: Seq<(Seq<char>, T)>) -> Map<Seq<char>, T>
    decreases entries.len(),
{
    if entries.len() == 0 {
        Map::empty()
    } else {
        table_map(entries.drop_last()).insert(entries.last().0, entries.last().1)
    }
}

/// Each name occurs at most once.
pub open spec fn unique_keys<T>(entries: Seq<(Seq<char>, T)>) -> bool {
    forall|i: int, j: int|
        0 <= i < j < entries.len() ==> (#[trigger] entries[i]).0 != (#[trigger] entries[j]).0
}

/// A name no entry holds is not in the denoted map's domain.
proof fn lemma_table_absent<T>(entries: Seq<(Seq<char>, T)>, key: Seq<char>)
    requires
        forall|k: int| 0 <= k < entries.len() ==> (#[trigger] entries[k]).0 != key,
    ensures
        !table_map(entries).contains_key(key),
    decreases entries.len(),
{
    if entries.len() > 0 {
        lemma_table_absent(entries.drop_last(), key);
    }
}

/// The denoted map binds exactly the names the entries hold; with unique
/// names, each to the value beside it.
pub proof fn lemma_table_contains<T>(entries: Seq<(Seq<char>, T)>)
    requires
        unique_keys(entries),
    ensures
        forall|k: int|
            0 <= k < entries.len() ==> (table_map(entries).contains_key(
                (#[trigger] entries[k]).0,
            ) && table_map(entries)[entries[k].0] == entries[k].1),
        forall|q: Seq<char>|
            #[trigger] table_map(entries).contains_key(q) ==> exists|k: int|
                0 <= k < entries.len() && (#[trigger] entries[k]).0 == q,
    decreases entries.len(),
{
    if entries.len() > 0 {
        let prior = entries.drop_last();
        lemma_table_contains(prior);
        assert(forall|k: int| 0 <= k < entries.len() - 1 ==> #[trigger] prior[k] == entries[k]);
        assert forall|k: int| 0 <= k < entries.len() implies (table_map(entries).contains_key(
            (#[trigger] entries[k]).0,
        ) && table_map(entries)[entries[k].0] == entries[k].1) by {
            if k < entries.len() - 1 {
                assert(prior[k] == entries[k]);
                assert(table_map(prior).contains_key(entries[k].0));
                assert(entries[k].0 != entries.last().0);
            }
        }
        assert forall|q: Seq<char>| #[trigger] table_map(entries).contains_key(q) implies exists|
            k: int,
        | 0 <= k < entries.len() && (#[trigger] entries[k]).0 == q by {
            if q == entries.last().0 {
                assert(entries[entries.len() - 1].0 == q);
            } else {
                assert(table_map(prior).contains_key(q));
                let k = choose|k: int| 0 <= k < prior.len() && (#[trigger] prior[k]).0 == q;
                assert(entries[k].0 == q);
            }
        }
    }
}

/// With unique names, updating the entry holding a name denotes the same
/// map as inserting the new value.
proof fn lemma_table_update<T>(entries: Seq<(Seq<char>, T)>, i: int, value: T)
    requires
        0 <= i < entries.len(),
        unique_keys(entries),
    ensures
        table_map(entries.update(i, (entries[i].0, value))) == table_map(entries).insert(
            entries[i].0,
            value,
        ),
    decreases entries.len(),
{
    let updated = entries.update(i, (entries[i].0, value));
    if i == entries.len() - 1 {
        assert(updated.drop_last() == entries.drop_last());
        lemma_table_absent(entries.drop_last(), entries[i].0);
        assert(table_map(updated) =~= table_map(entries).insert(entries[i].0, value));
    } else {
        assert(updated.drop_last() == entries.drop_last().update(i, (entries[i].0, value)));
        lemma_table_update(entries.drop_last(), i, value);
        assert(updated.last() == entries.last());
        assert(table_map(updated) =~= table_map(entries).insert(entries[i].0, value));
    }
}

/// With unique names, dropping the entry holding a name denotes the same
/// map as removing the name.
proof fn lemma_table_removed<T>(entries: Seq<(Seq<char>, T)>, i: int)
    requires
        0 <= i < entries.len(),
        unique_keys(entries),
    ensures
        table_map(entries.remove(i)) == table_map(entries).remove(entries[i].0),
    decreases entries.len(),
{
    let shorter = entries.remove(i);
    if i == entries.len() - 1 {
        assert(shorter =~= entries.drop_last());
        lemma_table_absent(entries.drop_last(), entries[i].0);
        assert(table_map(shorter) =~= table_map(entries).remove(entries[i].0));
    } else {
        assert(shorter.drop_last() =~= entries.drop_last().remove(i));
        lemma_table_removed(entries.drop_last(), i);
        assert(shorter.last() == entries.last());
        assert(entries[i].0 != entries.last().0);
        assert(table_map(shorter) =~= table_map(entries).remove(entries[i].0));
    }
}

/// A registry of named records.
pub struct NameTable<V> {
    entries: Vec<(String, V)>,
}

impl<V: View> View for NameTable<V> {
    type V = Map<Seq<char>, V::V>;

    closed spec fn view(&self) -> Map<Seq<char>, V::V> {
        table_map(self.entries_view())
    }
}

impl<V: View> NameTable<V> {
    /// The entries in insertion order, as the names' characters beside
    /// the values' views.
    pub closed spec fn entries_view(&self) -> Seq<(Seq<char>, V::V)> {
        self.entries@.map_values(|e: (String, V)| (e.0@, e.1@))
    }

    /// The names in insertion order.
    pub open spec fn keys_view(&self) -> Seq<Seq<char>> {
        self.entries_view().map_values(|e: (Seq<char>, V::V)| e.0)
    }

    /// Each name occurs at most once.
    pub open spec fn wf(&self) -> bool {
        unique_keys(self.entries_view())
    }

    pub fn new() -> (r: NameTable<V>)
        ensures
            r.wf(),
            r@ == Map::<Seq<char>, V::V>::empty(),
            r.keys_view() == Seq::<Seq<char>>::empty(),
    {
        let r = NameTable::<V> { entries: Vec::new() };
        proof {
            assert(r.entries_view() =~= Seq::<(Seq<char>, V::V)>::empty());
            assert(r.keys_view() =~= Seq::<Seq<char>>::empty());
        }
        r
    }

    /// How many records the table holds.
    pub fn len(&self) -> (n: usize)
        ensures
            n == self.keys_view().len(),
    {
        self.entries.len()
    }

    /// The name of the record at a position, in insertion order.
    pub fn key_at(&self, i: usize) -> (r: &String)
        requires
            i < self.keys_view().len(),
        ensures
            r@ == self.keys_view()[i as int],
    {
        &self.entries[i].0
    }

    /// Every name the table holds is in its map, bound to the value
    /// beside it; and every name in the map is one of the keys.
    pub proof fn lemma_keys(&self)
        requires
            self.wf(),
        ensures
            forall|k: int|
                0 <= k < self.keys_view().len() ==> self@.contains_key(
                    #[trigger] self.keys_view()[k],
                ),
            forall|q: Seq<char>|
                #[trigger] self@.contains_key(q) ==> exists|k: int|
                    0 <= k < self.keys_view().len() && self.keys_view()[k] == q,
    {
        lemma_table_contains(self.entries_view());
        assert forall|q: Seq<char>| #[trigger] self@.contains_key(q) implies exists|k: int|
            0 <= k < self.keys_view().len() && self.keys_view()[k] == q by {
            let k = choose|k: int|
                0 <= k < self.entries_view().len() && (#[trigger] self.entries_view()[k]).0 == q;
            assert(self.keys_view()[k] == q);
        }
    }

    /// Looks a record up by name.
    pub fn get(&self, key: &str) -> (r: Option<&V>)
        requires
            self.wf(),
        ensures
            match r {
                Some(v) => self@.contains_key(key@) && v@ == self@[key@],
                None => !self@.contains_key(key@),
            },
    {
        let n = self.entries.len();
        let mut i: usize = 0;
        proof {
            lemma_table_contains(self.entries_view());
        }
        while i < n
            invariant
                self.wf(),
                n == self.entries_view().len(),
                i <= n,
                forall|k: int| 0 <= k < i ==> (#[trigger] self.entries_view()[k]).0 != key@,
                forall|k: int|
                    0 <= k < self.entries_view().len() ==> (self@.contains_key(
                        (#[trigger] self.entries_view()[k]).0,
                    ) && self@[self.entries_view()[k].0] == self.entries_view()[k].1),
                forall|q: Seq<char>|
                    #[trigger] self@.contains_key(q) ==> exists|k: int|
                        0 <= k < self.entries_view().len() && (
                        #[trigger] self.entries_view()[k]).0 == q,
            decreases n - i,
        {
            if crate::messages::str_eq_str(self.entries[i].0.as_str(), key) {
                proof {
                    assert(self.entries_view()[i as int].0 == key@);
                }
                return Some(&self.entries[i].1);
            }
            i = i + 1;
        }
        proof {
            if self@.contains_key(key@) {
                let k = choose|k: int|
                    0 <= k < self.entries_view().len() && (#[trigger] self.entries_view()[k]).0
                        == key@;
                assert(self.entries_view()[k].0 != key@);
            }
        }
        None
    }

    /// Binds a value to a name; returns the value the name was bound to
    /// before, if any. A fresh name joins the end of the key order; a
    /// rebound name keeps its place.
    pub fn insert(&mut self, key: String, value: V) -> (r: Option<V>)
        requires
            old(self).wf(),
        ensures
            final(self).wf(),
            final(self)@ == old(self)@.insert(key@, value@),
            match r {
                Some(prev) => old(self)@.contains_key(key@) && prev@ == old(self)@[key@]
                    && final(self).keys_view() == old(self).keys_view(),
                None => !old(self)@.contains_key(key@) && final(self).keys_view()
                    == old(self).keys_view().push(key@),
            },
    {
        let ghost pre = self.entries_view();
        proof {
            lemma_table_contains(pre);
        }
        let n = self.entries.len();
        let mut i: usize = 0;
        while i < n
            invariant
                n == pre.len(),
                pre == self.entries_view(),
                old(self).wf(),
                pre == old(self).entries_view(),
                i <= n,
                forall|k: int| 0 <= k < i ==> (#[trigger] pre[k]).0 != key@,
                forall|k: int|
                    0 <= k < pre.len() ==> (old(self)@.contains_key((#[trigger] pre[k]).0) && old(
                        self,
                    )@[pre[k].0] == pre[k].1),
            decreases n - i,
        {
            if string_eq(&self.entries[i].0, &key) {
                let ghost idx = i as int;
                let mut pair = (key, value);
                core::mem::swap(&mut pair, &mut self.entries[i]);
                let prev = pair;
                proof {
                    let post = self.entries_view();
                    assert(post =~= pre.update(idx, (pre[idx].0, value@)));
                    lemma_table_update(pre, idx, value@);
                    assert(forall|k: int|
                        0 <= k < post.len() ==> (#[trigger] post[k]).0 == pre[k].0);
                    assert(self.keys_view() =~= old(self).keys_view());
                }
                return Some(prev.1);
            }
            i = i + 1;
        }
        self.entries.push((key, value));
        proof {
            let post = self.entries_view();
            assert(post.drop_last() =~= pre);
            assert(post.last() == (key@, value@));
            assert(forall|k: int| 0 <= k < pre.len() ==> post[k] == #[trigger] pre[k]);
            assert forall|a: int, b: int| 0 <= a < b < post.len() implies (#[trigger] post[a]).0
                != (#[trigger] post[b]).0 by {
                if b == post.len() - 1 {
                    assert(pre[a].0 != key@);
                    assert(post[a] == pre[a]);
                } else {
                    assert(post[a] == pre[a]);
                    assert(post[b] == pre[b]);
                    assert(pre[a].0 != pre[b].0);
                }
            }
            assert(table_map(post) == table_map(pre).insert(key@, value@));
            lemma_table_absent(pre, key@);
            assert(self.keys_view() =~= old(self).keys_view().push(key@));
        }
        None
    }

    /// Unbinds a name; returns the value it was bound to, if any.
    pub fn remove(&mut self, key: &str) -> (r: Option<V>)
        requires
            old(self).wf(),
        ensures
            final(self).wf(),
            final(self)@ == old(self)@.remove(key@),
            match r {
                Some(prev) => old(self)@.contains_key(key@) && prev@ == old(self)@[key@]
                    && (exists|i: int|
                    0 <= i < old(self).keys_view().len() && old(self).keys_view()[i] == key@
                        && final(self).keys_view() == old(self).keys_view().remove(i)),
                None => !old(self)@.contains_key(key@) && final(self)@ == old(self)@
                    && final(self).keys_view() == old(self).keys_view(),
            },
    {
        let ghost pre = self.entries_view();
        proof {
            lemma_table_contains(pre);
        }
        let n = self.entries.len();
        let mut i: usize = 0;
        while i < n
            invariant
                n == pre.len(),
                pre == self.entries_view(),
                old(self).wf(),
                pre == old(self).entries_view(),
                i <= n,
                forall|k: int| 0 <= k < i ==> (#[trigger] pre[k]).0 != key@,
                forall|k: int|
                    0 <= k < pre.len() ==> (old(self)@.contains_key((#[trigger] pre[k]).0) && old(
                        self,
                    )@[pre[k].0] == pre[k].1),
            decreases n - i,
        {
            if crate::messages::str_eq_str(self.entries[i].0.as_str(), key) {
                let ghost idx = i as int;
                let prev = self.entries.remove(i);
                proof {
                    let post = self.entries_view();
                    assert(post =~= pre.remove(idx));
                    lemma_table_removed(pre, idx);
                    assert forall|a: int, b: int| 0 <= a < b < post.len() implies (
                    #[trigger] post[a]).0 != (#[trigger] post[b]).0 by {
                        if b < idx {
                            assert(post[a] == pre[a]);
                            assert(post[b] == pre[b]);
                        } else if a < idx {
                            assert(post[a] == pre[a]);
                            assert(post[b] == pre[b + 1]);
                        } else {
                            assert(post[a] == pre[a + 1]);
                            assert(post[b] == pre[b + 1]);
                        }
                    }
                    assert(old(self).keys_view()[idx] == key@);
                    assert(self.keys_view() =~= old(self).keys_view().remove(idx));
                }
                return Some(prev.1);
            }
            i = i + 1;
        }
        proof {
            lemma_table_absent(pre, key@);
            assert(old(self)@.remove(key@) =~= old(self)@);
        }
        None
    }
}

} // verus!
