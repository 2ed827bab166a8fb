use vstd::prelude::*;

use crate::assoc::{assoc_map, has_key, keys_distinct, lemma_key_at, lemma_push, lemma_update};
use crate::tiling::TileIndex;
use crate::visuals::collapse::{CollapseEntryIndex, CollapseNeighborUpdate};

verus! {

/// The list stored for `key` with `value` appended; a list of `value` alone when
/// the key is new.
pub open spec fn appended<K, T>(m: Map<K, Seq<T>>, key: K, value: T) -> Seq<T> {
    if m.contains_key(key) {
        m[key].push(value)
    } else {
        seq![value]
    }
}

/// The lists after appending each item in turn to the list of its key.
pub open spec fn extended<K, T>(m: Map<K, Seq<T>>, items: Seq<(K, T)>) -> Map<K, Seq<T>>
    decreases items.len(),
{
    if items.len() == 0 {
        m
    } else {
        let prev = extended(m, items.drop_last());
        prev.insert(items.last().0, appended(prev, items.last().0, items.last().1))
    }
}

/// The lists of an association list of vectors.
pub open spec fn lists_of<K, T>(s: Seq<(K, Vec<T>)>) -> Map<K, Seq<T>> {
    assoc_map(s).map_values(|v: Vec<T>| v@)
}

/// A map from keys to lists of values.
pub trait HashMultiMapExt<K, T>: Sized {
    /// The list of values stored for each key.
    spec fn lists(&self) -> Map<K, Seq<T>>;

    /// No key is stored twice.
    spec fn multi_wf(&self) -> bool;

    /// Appends `value` to the list of `key`.
    fn add_element(&mut self, key: K, value: T)
        requires
            old(self).multi_wf(),
        ensures
            final(self).multi_wf(),
            final(self).lists() == old(self).lists().insert(key, appended(old(self).lists(), key, value)),
    ;

    /// Appends each item to the list of its key, in order.
    fn extend_elements(&mut self, items: Vec<(K, T)>)
        requires
            old(self).multi_wf(),
        ensures
            final(self).multi_wf(),
            final(self).lists() == extended(old(self).lists(), items@),
    {
        let ghost start = self.lists();
        let ghost all = items@;
        let total: usize = items.len();
        let mut items = items;
        let mut done: usize = 0;
        while items.len() > 0
            invariant
                self.multi_wf(),
                all.len() == total,
                done <= all.len(),
                done + items@.len() == all.len(),
                items@ == all.subrange(done as int, all.len() as int),
                self.lists() == extended(start, all.subrange(0, done as int)),
            decreases items@.len(),
        {
            let (key, value) = items.remove(0);
            self.add_element(key, value);
            done = done + 1;
            proof {
                let sub = all.subrange(0, done as int);
                assert(sub.drop_last() =~= all.subrange(0, done - 1));
                assert(sub.last() == (key, value));
                assert(items@ =~= all.subrange(done as int, all.len() as int));
            }
        }
        proof {
            assert(all.subrange(0, done as int) =~= all);
        }
    }
}

fn find_corner_key(s: &Vec<(TileIndex, Vec<(TileIndex, u32)>)>, key: TileIndex) -> (r: Option<usize>)
    ensures
        match r {
            Some(i) => i < s@.len() && s@[i as int].0 == key,
            None => !has_key(s@, key),
        },
{
    let mut i: usize = 0;
    while i < s.len()
        invariant
            i <= s@.len(),
            forall|j: int| 0 <= j < i ==> s@[j].0 != key,
        decreases s@.len() - i,
    {
        if s[i].0 == key {
            return Some(i);
        }
        i = i + 1;
    }
    None
}

fn find_entry_key(s: &Vec<(CollapseEntryIndex, Vec<CollapseNeighborUpdate>)>, key: CollapseEntryIndex) -> (r: Option<usize>)
    ensures
        match r {
            Some(i) => i < s@.len() && s@[i as int].0 == key,
            None => !has_key(s@, key),
        },
{
    let mut i: usize = 0;
    while i < s.len()
        invariant
            i <= s@.len(),
            forall|j: int| 0 <= j < i ==> s@[j].0 != key,
        decreases s@.len() - i,
    {
        if s[i].0 == key {
            return Some(i);
        }
        i = i + 1;
    }
    None
}

impl HashMultiMapExt<TileIndex, (TileIndex, u32)> for Vec<(TileIndex, Vec<(TileIndex, u32)>)> {
    open spec fn lists(&self) -> Map<TileIndex, Seq<(TileIndex, u32)>> {
        lists_of(self@)
    }

    open spec fn multi_wf(&self) -> bool {
        keys_distinct(self@)
    }

    fn add_element(&mut self, key: TileIndex, value: (TileIndex, u32)) {
        let ghost s0 = self@;
        match find_corner_key(self, key) {
            Some(i) => {
                let (k, mut list) = self.remove(i);
                list.push(value);
                self.insert(i, (k, list));
                proof {
                    lemma_key_at(s0, i as int);
                    assert(self@ =~= s0.update(i as int, (key, list)));
                    lemma_update(s0, i as int, list);
                    assert(lists_of(self@) =~= lists_of(s0).insert(key, appended(lists_of(s0), key, value)));
                }
            },
            None => {
                let mut list: Vec<(TileIndex, u32)> = Vec::new();
                list.push(value);
                self.push((key, list));
                proof {
                    lemma_push(s0, key, list);
                    assert(list@ =~= seq![value]);
                    assert(lists_of(self@) =~= lists_of(s0).insert(key, appended(lists_of(s0), key, value)));
                }
            },
        }
    }
}

impl HashMultiMapExt<CollapseEntryIndex, CollapseNeighborUpdate> for Vec<(CollapseEntryIndex, Vec<CollapseNeighborUpdate>)> {
    open spec fn lists(&self) -> Map<CollapseEntryIndex, Seq<CollapseNeighborUpdate>> {
        lists_of(self@)
    }

    open spec fn multi_wf(&self) -> bool {
        keys_distinct(self@)
    }

    fn add_element(&mut self, key: CollapseEntryIndex, value: CollapseNeighborUpdate) {
        let ghost s0 = self@;
        match find_entry_key(self, key) {
            Some(i) => {
                let (k, mut list) = self.remove(i);
                list.push(value);
                self.insert(i, (k, list));
                proof {
                    lemma_key_at(s0, i as int);
                    assert(self@ =~= s0.update(i as int, (key, list)));
                    lemma_update(s0, i as int, list);
                    assert(lists_of(self@) =~= lists_of(s0).insert(key, appended(lists_of(s0), key, value)));
                }
            },
            None => {
                let mut list: Vec<CollapseNeighborUpdate> = Vec::new();
                list.push(value);
                self.push((key, list));
                proof {
                    lemma_push(s0, key, list);
                    assert(list@ =~= seq![value]);
                    assert(lists_of(self@) =~= lists_of(s0).insert(key, appended(lists_of(s0), key, value)));
                }
            },
        }
    }
}

} // verus!
