//! Association maps: keys with their values, in insertion order.

use vstd::prelude::*;
use crate::seqs::views;

verus! {

/// A value that a map can hold: it can be copied and compared, both by its view.
pub trait Item: View + Sized {
    /// A second value with the same view.
    fn copied(&self) -> (r: Self)
        ensures
            r@ == self@,
    ;

    /// Whether two values have the same view.
    fn same(&self, other: &Self) -> (r: bool)
        ensures
            r == (self@ == other@),
    ;
}

impl Item for String {
    fn copied(&self) -> (r: Self) {
        self.clone()
    }

    fn same(&self, other: &Self) -> (r: bool) {
        *self == *other
    }
}

impl Item for u32 {
    fn copied(&self) -> (r: Self) {
        *self
    }

    fn same(&self, other: &Self) -> (r: bool) {
        *self == *other
    }
}

/// The map that a list of entries stands for: a later entry replaces an earlier
/// one of the same key.
pub open spec fn entries_map<K: View, V: View>(entries: Seq<(K, V)>) -> Map<K::V, V::V>
    decreases entries.len(),
{
    if entries.len() == 0 {
        Map::empty()
    } else {
        entries_map(entries.drop_last()).insert(entries.last().0@, entries.last().1@)
    }
}

proof fn lemma_entry<K: View, V: View>(entries: Seq<(K, V)>, i: int)
    requires
        0 <= i < entries.len(),
        forall|j: int| i < j < entries.len() ==> (#[trigger] entries[j]).0@ != entries[i].0@,
    ensures
        entries_map(entries).contains_key(entries[i].0@),
        entries_map(entries)[entries[i].0@] == entries[i].1@,
    decreases entries.len(),
{
    if i < entries.len() - 1 {
        assert(entries[entries.len() - 1].0@ != entries[i].0@);
        lemma_entry(entries.drop_last(), i);
    }
}

proof fn lemma_has_entry<K: View, V: View>(entries: Seq<(K, V)>, i: int)
    requires
        0 <= i < entries.len(),
    ensures
        entries_map(entries).contains_key(entries[i].0@),
    decreases entries.len(),
{
    if i < entries.len() - 1 {
        lemma_has_entry(entries.drop_last(), i);
    }
}

proof fn lemma_no_entry<K: View, V: View>(entries: Seq<(K, V)>, k: K::V)
    requires
        forall|j: int| 0 <= j < entries.len() ==> (#[trigger] entries[j]).0@ != k,
    ensures
        !entries_map(entries).contains_key(k),
    decreases entries.len(),
{
    if entries.len() > 0 {
        assert(entries[entries.len() - 1].0@ != k);
        lemma_no_entry(entries.drop_last(), k);
    }
}

proof fn lemma_replace<K: View, V: View>(entries: Seq<(K, V)>, i: int, e: (K, V))
    requires
        0 <= i < entries.len(),
        e.0@ == entries[i].0@,
        forall|j: int| i < j < entries.len() ==> (#[trigger] entries[j]).0@ != entries[i].0@,
    ensures
        entries_map(entries.update(i, e)) == entries_map(entries).insert(e.0@, e.1@),
    decreases entries.len(),
{
    let changed = entries.update(i, e);
    if i < entries.len() - 1 {
        assert(entries[entries.len() - 1].0@ != entries[i].0@);
        lemma_replace(entries.drop_last(), i, e);
        assert(changed.drop_last() =~= entries.drop_last().update(i, e));
        assert(entries_map(changed) =~= entries_map(entries).insert(e.0@, e.1@));
    } else {
        assert(changed.drop_last() =~= entries.drop_last());
        assert(entries_map(changed) =~= entries_map(entries).insert(e.0@, e.1@));
    }
}

/// The entries that count, in order: each key once, with its last value.
pub open spec fn entries_listing<K: View, V: View>(entries: Seq<(K, V)>) -> Seq<(K::V, V::V)>
    decreases entries.len(),
{
    if entries.len() == 0 {
        Seq::empty()
    } else {
        let rest = entries_listing(entries.drop_first());
        if exists|j: int| 1 <= j < entries.len() && (#[trigger] entries[j]).0@ == entries[0].0@ {
            rest
        } else {
            seq![(entries[0].0@, entries[0].1@)] + rest
        }
    }
}

/// The map of entries after one more at the front.
proof fn lemma_front<K: View, V: View>(entries: Seq<(K, V)>)
    requires
        entries.len() > 0,
    ensures
        entries_map(entries) == map![entries[0].0@ => entries[0].1@].union_prefer_right(
            entries_map(entries.drop_first()),
        ),
    decreases entries.len(),
{
    let rest = entries.drop_first();
    if entries.len() > 1 {
        lemma_front(entries.drop_last());
        assert(entries.drop_last().drop_first() =~= rest.drop_last());
        assert(rest.last() == entries.last());
        assert(entries_map(rest) == entries_map(rest.drop_last()).insert(
            rest.last().0@,
            rest.last().1@,
        ));
    } else {
        assert(entries_map(entries.drop_last()) == Map::<K::V, V::V>::empty());
        assert(entries_map(rest) == Map::<K::V, V::V>::empty());
        assert(entries.last() == entries[0]);
    }
    assert(entries_map(entries) =~= map![entries[0].0@ => entries[0].1@].union_prefer_right(
        entries_map(rest),
    ));
}

proof fn lemma_entries_listing<K: View, V: View>(entries: Seq<(K, V)>)
    ensures
        forall|i: int, j: int|
            0 <= i < j < entries_listing(entries).len() ==> (#[trigger] entries_listing(
                entries,
            )[i]).0 != (#[trigger] entries_listing(entries)[j]).0,
        forall|i: int|
            0 <= i < entries_listing(entries).len() ==> {
                let e = #[trigger] entries_listing(entries)[i];
                entries_map(entries).contains_key(e.0) && entries_map(entries)[e.0] == e.1
            },
        forall|k: K::V| #[trigger]
            entries_map(entries).contains_key(k) ==> exists|i: int|
                0 <= i < entries_listing(entries).len() && (#[trigger] entries_listing(
                    entries,
                )[i]).0 == k,
    decreases entries.len(),
{
    let all = entries_listing(entries);
    if entries.len() > 0 {
        let tail = entries.drop_first();
        let rest = entries_listing(tail);
        lemma_entries_listing(tail);
        lemma_front(entries);
        let k0 = entries[0].0@;
        let again = exists|j: int|
            1 <= j < entries.len() && (#[trigger] entries[j]).0@ == entries[0].0@;
        if again {
            let j = choose|j: int|
                1 <= j < entries.len() && (#[trigger] entries[j]).0@ == entries[0].0@;
            lemma_has_entry(tail, j - 1);
            assert(entries_map(tail).contains_key(k0));
            assert(entries_map(entries) =~= entries_map(tail));
        } else {
            assert forall|j: int| 0 <= j < tail.len() implies (#[trigger] tail[j]).0@ != k0 by {
                assert(tail[j] == entries[j + 1]);
            }
            lemma_no_entry(tail, k0);
            assert forall|i: int| 0 <= i < all.len() implies {
                let e = #[trigger] all[i];
                entries_map(entries).contains_key(e.0) && entries_map(entries)[e.0] == e.1
            } by {
                if i > 0 {
                    assert(all[i] == rest[i - 1]);
                }
            }
            assert forall|i: int, j: int| 0 <= i < j < all.len() implies (#[trigger] all[i]).0 != (
            #[trigger] all[j]).0 by {
                assert(all[j] == rest[j - 1]);
                if i > 0 {
                    assert(all[i] == rest[i - 1]);
                }
            }
            assert forall|k: K::V| #[trigger] entries_map(entries).contains_key(k) implies exists|
                i: int,
            |
                0 <= i < all.len() && (#[trigger] all[i]).0 == k by {
                if k == k0 {
                    assert(all[0].0 == k);
                } else {
                    assert(entries_map(tail).contains_key(k));
                    let i = choose|i: int| 0 <= i < rest.len() && (#[trigger] rest[i]).0 == k;
                    assert(all[i + 1].0 == k);
                }
            }
        }
    }
}

/// The keys of a listing, in order.
pub open spec fn listed_keys<K, V>(entries: Seq<(K, V)>) -> Seq<K> {
    Seq::new(entries.len(), |i: int| entries[i].0)
}

/// A map from keys to values that keeps its entries in a list.
#[derive(Debug)]
pub struct AssocMap<K, V> {
    entries: Vec<(K, V)>,
}

/// A map from text to text.
pub type StringMap = AssocMap<String, String>;

impl<K: View, V: View> View for AssocMap<K, V> {
    type V = Map<K::V, V::V>;

    closed spec fn view(&self) -> Map<K::V, V::V> {
        entries_map(self.entries@)
    }
}

impl<K: Item, V: Item> AssocMap<K, V> {
    /// A map without entries.
    pub fn new() -> (r: Self)
        ensures
            r@ == Map::<K::V, V::V>::empty(),
    {
        AssocMap { entries: Vec::new() }
    }

    /// Whether the map has no entry.
    pub fn is_empty(&self) -> (r: bool)
        ensures
            r == (self@ == Map::<K::V, V::V>::empty()),
    {
        let n: usize = self.entries.len();
        proof {
            if n > 0 {
                lemma_has_entry(self.entries@, 0);
            } else {
                assert(self@ =~= Map::empty());
            }
        }
        n == 0
    }

    fn last_position(&self, key: &K) -> (r: Option<usize>)
        ensures
            match r {
                Some(i) => {
                    &&& i < self.entries@.len()
                    &&& self.entries@[i as int].0@ == key@
                    &&& forall|j: int|
                        i < j < self.entries@.len() ==> (#[trigger] self.entries@[j]).0@ != key@
                    &&& self@.contains_key(key@)
                    &&& self@[key@] == self.entries@[i as int].1@
                },
                None => !self@.contains_key(key@),
            },
    {
        let mut i: usize = self.entries.len();
        while i > 0
            invariant
                i <= self.entries@.len(),
                forall|j: int|
                    i <= j < self.entries@.len() ==> (#[trigger] self.entries@[j]).0@ != key@,
            decreases i,
        {
            i -= 1;
            if self.entries[i].0.same(key) {
                proof {
                    lemma_entry(self.entries@, i as int);
                }
                return Some(i);
            }
        }
        proof {
            lemma_no_entry(self.entries@, key@);
        }
        None
    }

    /// The value of a key.
    pub fn get(&self, key: &K) -> (r: Option<&V>)
        ensures
            match r {
                Some(v) => self@.contains_key(key@) && v@ == self@[key@],
                None => !self@.contains_key(key@),
            },
    {
        match self.last_position(key) {
            Some(i) => Some(&self.entries[i].1),
            None => None,
        }
    }

    /// Whether the key has a value.
    pub fn contains_key(&self, key: &K) -> (r: bool)
        ensures
            r == self@.contains_key(key@),
    {
        self.last_position(key).is_some()
    }

    /// Sets the value of a key.
    pub fn insert(&mut self, key: K, value: V)
        ensures
            final(self)@ == old(self)@.insert(key@, value@),
    {
        let ghost before = self.entries@;
        match self.last_position(&key) {
            Some(i) => {
                proof {
                    lemma_replace(before, i as int, (key, value));
                }
                self.entries[i] = (key, value);
            },
            None => {
                self.entries.push((key, value));
                assert(self.entries@.drop_last() =~= before);
            },
        }
    }

    /// Removes a key and its value.
    pub fn remove(&mut self, key: &K)
        ensures
            final(self)@ == old(self)@.remove(key@),
    {
        let mut kept: Vec<(K, V)> = Vec::new();
        let mut i: usize = 0;
        let ghost all = self.entries@;
        assert(entries_map(kept@) =~= entries_map(all.take(0)).remove(key@));
        while i < self.entries.len()
            invariant
                i <= self.entries@.len(),
                all == self.entries@,
                entries_map(kept@) == entries_map(all.take(i as int)).remove(key@),
            decreases self.entries@.len() - i,
        {
            let ghost old_kept = kept@;
            assert(all.take(i + 1).drop_last() =~= all.take(i as int));
            if !self.entries[i].0.same(key) {
                kept.push((self.entries[i].0.copied(), self.entries[i].1.copied()));
                assert(kept@.drop_last() =~= old_kept);
            }
            assert(entries_map(kept@) =~= entries_map(all.take(i + 1)).remove(key@));
            i += 1;
        }
        assert(all.take(all.len() as int) =~= all);
        self.entries = kept;
    }

    /// The entries of the map, in the order in which the map lists them.
    pub closed spec fn listing(self) -> Seq<(K::V, V::V)> {
        entries_listing(self.entries@)
    }

    /// The listing of a map holds every key once, with its value.
    pub proof fn listing_is_map(self)
        ensures
            forall|i: int, j: int|
                0 <= i < j < self.listing().len() ==> (#[trigger] self.listing()[i]).0 != (
                #[trigger] self.listing()[j]).0,
            forall|i: int|
                0 <= i < self.listing().len() ==> {
                    let e = #[trigger] self.listing()[i];
                    self@.contains_key(e.0) && self@[e.0] == e.1
                },
            forall|k: K::V| #[trigger]
                self@.contains_key(k) ==> exists|i: int|
                    0 <= i < self.listing().len() && (#[trigger] self.listing()[i]).0 == k,
    {
        lemma_entries_listing(self.entries@);
        assert forall|k: K::V| #[trigger] self@.contains_key(k) implies exists|i: int|
            0 <= i < self.listing().len() && (#[trigger] self.listing()[i]).0 == k by {
            assert(entries_map(self.entries@).contains_key(k));
            let i = choose|i: int|
                0 <= i < entries_listing(self.entries@).len() && (#[trigger] entries_listing(
                    self.entries@,
                )[i]).0 == k;
            assert(self.listing()[i].0 == k);
        }
    }

    /// The entries of the map, in the order in which the map lists them.
    pub fn list(&self) -> (r: Vec<(K, V)>)
        ensures
            r@.len() == self.listing().len(),
            forall|i: int|
                0 <= i < r@.len() ==> {
                    let e = #[trigger] r@[i];
                    e.0@ == self.listing()[i].0 && e.1@ == self.listing()[i].1
                },
    {
        let mut out: Vec<(K, V)> = Vec::new();
        let ghost all = self.entries@;
        let ghost mut listed: Seq<(K::V, V::V)> = Seq::empty();
        let mut i: usize = 0;
        assert(all.skip(0) =~= all);
        assert(listed + entries_listing(all) =~= self.listing());
        while i < self.entries.len()
            invariant
                i <= self.entries@.len(),
                all == self.entries@,
                self.listing() == listed + entries_listing(all.skip(i as int)),
                out@.len() == listed.len(),
                forall|j: int|
                    0 <= j < out@.len() ==> {
                        let e = #[trigger] out@[j];
                        e.0@ == listed[j].0 && e.1@ == listed[j].1
                    },
            decreases self.entries@.len() - i,
        {
            let ghost here = all.skip(i as int);
            assert(here.drop_first() =~= all.skip(i + 1));
            assert(here[0] == all[i as int]);
            let mut again: bool = false;
            let mut k: usize = i + 1;
            while k < self.entries.len()
                invariant
                    i < k <= self.entries@.len(),
                    all == self.entries@,
                    again <==> exists|j: int|
                        i < j < k && (#[trigger] all[j]).0@ == all[i as int].0@,
                decreases self.entries@.len() - k,
            {
                if self.entries[k].0.same(&self.entries[i].0) {
                    again = true;
                }
                k += 1;
            }
            proof {
                if again {
                    let j = choose|j: int|
                        i < j < all.len() && (#[trigger] all[j]).0@ == all[i as int].0@;
                    assert(here[j - i].0@ == here[0].0@);
                } else {
                    assert forall|j: int| 1 <= j < here.len() implies (#[trigger] here[j]).0@
                        != here[0].0@ by {
                        assert(here[j] == all[i + j]);
                    }
                }
            }
            if !again {
                let ghost e = (all[i as int].0@, all[i as int].1@);
                out.push((self.entries[i].0.copied(), self.entries[i].1.copied()));
                proof {
                    assert(self.listing() =~= listed.push(e) + entries_listing(all.skip(i + 1)));
                    listed = listed.push(e);
                }
            }
            i += 1;
        }
        assert(all.skip(all.len() as int) =~= Seq::<(K, V)>::empty());
        assert(self.listing() =~= listed);
        out
    }

    /// The keys of the map, each once, in the order in which the map lists them.
    pub fn keys(&self) -> (r: Vec<K>)
        ensures
            views(r@) == listed_keys(self.listing()),
            views(r@).no_duplicates(),
            forall|k: K::V| #[trigger] views(r@).contains(k) <==> self@.contains_key(k),
    {
        let entries = self.list();
        let ghost all = self.listing();
        let mut keys: Vec<K> = Vec::new();
        let mut i: usize = 0;
        while i < entries.len()
            invariant
                i <= entries@.len(),
                entries@.len() == all.len(),
                keys@.len() == i,
                forall|j: int| 0 <= j < entries@.len() ==> (#[trigger] entries@[j]).0@ == all[j].0,
                forall|j: int| 0 <= j < i ==> (#[trigger] keys@[j])@ == all[j].0,
            decreases entries@.len() - i,
        {
            keys.push(entries[i].0.copied());
            i += 1;
        }
        proof {
            self.listing_is_map();
            assert(views(keys@) =~= listed_keys(all));
            assert forall|i: int, j: int|
                0 <= i < views(keys@).len() && 0 <= j < views(keys@).len() && i != j implies views(
                keys@,
            )[i] != views(keys@)[j] by {
                if i < j {
                    assert(all[i].0 != all[j].0);
                } else {
                    assert(all[j].0 != all[i].0);
                }
            }
            assert forall|k: K::V| #[trigger] views(keys@).contains(k) <==> self@.contains_key(k) by {
                if views(keys@).contains(k) {
                    let j = choose|j: int| 0 <= j < views(keys@).len() && views(keys@)[j] == k;
                    assert(all[j].0 == k);
                }
                if self@.contains_key(k) {
                    let j = choose|j: int| 0 <= j < all.len() && (#[trigger] all[j]).0 == k;
                    assert(views(keys@)[j] == k);
                }
            }
        }
        keys
    }

    /// Sets every value that the other map holds.
    pub fn extend(&mut self, other: &Self)
        ensures
            final(self)@ == old(self)@.union_prefer_right(other@),
    {
        let mut i: usize = 0;
        let ghost all = other.entries@;
        let ghost before = self@;
        assert(self@ =~= before.union_prefer_right(entries_map(all.take(0))));
        while i < other.entries.len()
            invariant
                i <= other.entries@.len(),
                all == other.entries@,
                self@ == before.union_prefer_right(entries_map(all.take(i as int))),
            decreases other.entries@.len() - i,
        {
            assert(all.take(i + 1).drop_last() =~= all.take(i as int));
            self.insert(other.entries[i].0.copied(), other.entries[i].1.copied());
            assert(self@ =~= before.union_prefer_right(entries_map(all.take(i + 1))));
            i += 1;
        }
        assert(all.take(all.len() as int) =~= all);
    }

    fn includes(&self, other: &Self) -> (r: bool)
        ensures
            r == (forall|k: K::V|
                #[trigger] other@.contains_key(k) ==> self@.contains_key(k) && self@[k] == other@[k]),
    {
        let mut i: usize = 0;
        while i < other.entries.len()
            invariant
                i <= other.entries@.len(),
                forall|j: int|
                    0 <= j < i ==> {
                        let k = (#[trigger] other.entries@[j]).0@;
                        self@.contains_key(k) && other@.contains_key(k) && self@[k] == other@[k]
                    },
            decreases other.entries@.len() - i,
        {
            proof {
                lemma_has_entry(other.entries@, i as int);
            }
            let key = &other.entries[i].0;
            let equal = match (self.get(key), other.get(key)) {
                (Some(a), Some(b)) => a.same(b),
                _ => false,
            };
            if !equal {
                return false;
            }
            i += 1;
        }
        proof {
            assert forall|k: K::V| #[trigger] other@.contains_key(k) implies self@.contains_key(k)
                && self@[k] == other@[k] by {
                if forall|j: int| 0 <= j < other.entries@.len() ==> (#[trigger] other.entries@[j]).0@ != k {
                    lemma_no_entry(other.entries@, k);
                }
                let j = choose|j: int|
                    0 <= j < other.entries@.len() && (#[trigger] other.entries@[j]).0@ == k;
            }
        }
        true
    }
}

impl<K: Item, V: Item> Item for AssocMap<K, V> {
    fn copied(&self) -> (r: Self) {
        let mut r = AssocMap::new();
        r.extend(self);
        assert(r@ =~= self@);
        r
    }

    fn same(&self, other: &Self) -> (r: bool) {
        let r = self.includes(other) && other.includes(self);
        proof {
            if r {
                assert forall|k: K::V| self@.contains_key(k) <==> other@.contains_key(k) by {}
                assert(self@ =~= other@);
            }
        }
        r
    }
}

impl<K: Item, V: Item> Default for AssocMap<K, V> {
    fn default() -> (r: Self)
        ensures
            r@ == Map::<K::V, V::V>::empty(),
    {
        AssocMap::new()
    }
}

impl<K: Item, V: Item> Clone for AssocMap<K, V> {
    fn clone(&self) -> (r: Self)
        ensures
            r@ == self@,
    {
        self.copied()
    }
}

impl<K: Item, V: Item> PartialEq for AssocMap<K, V> {
    fn eq(&self, other: &Self) -> (r: bool) {
        self.same(other)
    }
}

impl<K: Item, V: Item> vstd::std_specs::cmp::PartialEqSpecImpl for AssocMap<K, V> {
    open spec fn obeys_eq_spec() -> bool {
        true
    }

    open spec fn eq_spec(&self, other: &Self) -> bool {
        self@ == other@
    }
}

} // verus!
