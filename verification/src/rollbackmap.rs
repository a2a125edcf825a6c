//! The executable versioned map.

use crate::history::History;
use crate::history::Layer;
use crate::keys::key_clone_exact;
use crate::keys::key_ordered;
use crate::laws::lemma_checkpoint;
use crate::laws::lemma_checkpoint_counted;
use crate::laws::lemma_clear;
use crate::laws::lemma_clear_counted;
use crate::laws::lemma_contents_at_finite;
use crate::laws::lemma_fresh;
use crate::laws::lemma_insert;
use crate::laws::lemma_insert_counted;
use crate::laws::lemma_prune;
use crate::laws::lemma_remove;
use crate::laws::lemma_remove_counted;
use crate::laws::lemma_rollback;
use crate::laws::lemma_rollback_counted;
use std::collections::BTreeMap;
use std::collections::BTreeSet;
use vstd::prelude::*;

verus! {

/// One delta layer of a [`RollbackMap`].
#[derive(Debug)]
pub struct VersionState<K, V> {
    /// Keys deleted in this layer that older layers may still hold.
    pub removed_keys: BTreeSet<K>,
    /// Entries written in this layer.
    pub data: BTreeMap<K, V>,
    /// Set by a full clear: older layers are cut off.
    pub detached: bool,
    /// The layer's identifier.
    pub checkpoint: u32,
    /// The cached number of elements.
    pub values_count: usize,
}

impl<K, V> View for VersionState<K, V> {
    type V = Layer<K, V>;

    open spec fn view(&self) -> Layer<K, V> {
        Layer {
            data: self.data@,
            removed: self.removed_keys@,
            detached: self.detached,
            checkpoint: self.checkpoint,
            count: self.values_count as nat,
        }
    }
}

impl<K: Ord, V> VersionState<K, V> {
    /// Makes an empty layer with the given identifier and element count.
    pub fn new(checkpoint: u32, values_count: usize) -> (state: Self)
        ensures
            state@ == Layer::<K, V>::empty(checkpoint, values_count as nat),
    {
        VersionState {
            removed_keys: BTreeSet::new(),
            data: BTreeMap::new(),
            detached: false,
            checkpoint: checkpoint,
            values_count: values_count,
        }
    }

    /// Empties the layer and gives it a new element count; the identifier stays.
    pub fn reset(&mut self, values_count: usize)
        ensures
            final(self)@ == Layer::<K, V>::empty(old(self).checkpoint, values_count as nat),
    {
        self.removed_keys.clear();
        self.data.clear();
        self.detached = false;
        self.values_count = values_count;
    }
}

/// A map that can be rolled back to earlier checkpoints.
///
/// Its layers are kept oldest first; the last one is the current layer and
/// the only one that is ever changed.
#[derive(Debug)]
pub struct RollbackMap<K, V> {
    versions: Vec<VersionState<K, V>>,
}

impl<K, V> View for RollbackMap<K, V> {
    type V = History<K, V>;

    closed spec fn view(&self) -> History<K, V> {
        History { layers: Seq::new(self.versions@.len(), |i: int| self.versions@[i]@) }
    }
}

impl<K, V> RollbackMap<K, V> {
    /// The layers form a well-formed history.
    pub open spec fn wf(&self) -> bool {
        self@.wf()
    }
}

impl<K: Ord + Clone, V: Clone> RollbackMap<K, V> {
    /// Makes a new, empty map with no checkpoints.
    pub fn new() -> (map: Self)
        ensures
            map.wf(),
            map@ == History::<K, V>::fresh(),
            map@.contents() == Map::<K, V>::empty(),
            map@.counted(),
    {
        let mut versions: Vec<VersionState<K, V>> = Vec::new();
        versions.push(VersionState::new(0, 0));
        let map = RollbackMap { versions };
        proof {
            assert(map@.layers =~= History::<K, V>::fresh().layers);
            lemma_fresh::<K, V>();
        }
        map
    }

    /// Resolves `key` through the layers, newest first: an entry decides, then
    /// a deletion mark, then a cut.
    fn deep_get_key_value(&self, key: &K) -> (found: Option<&V>)
        requires
            self.wf(),
            key_ordered::<K>(),
        ensures
            match found {
                Some(v) => self@.contents().get(*key) == Some(*v),
                None => self@.contents().get(*key) is None,
            },
    {
        let mut i: usize = self.versions.len();
        while i > 0
            invariant
                i <= self.versions.len(),
                key_ordered::<K>(),
                self@.contents().get(*key) == self@.contents_at(i as int).get(*key),
            decreases i,
        {
            i -= 1;
            let version = &self.versions[i];
            assert(self@.layers[i as int] == version@);
            match version.data.get(key) {
                Some(value) => {
                    return Some(value);
                },
                None => {},
            }
            if version.removed_keys.contains(key) {
                return None;
            }
            if version.detached {
                return None;
            }
        }
        None
    }

    /// Inserts a key-value pair and returns the value that `key` mapped to
    /// before, if it was visible.
    ///
    /// A key that was not visible adds one to the count, which must have
    /// room for it.
    pub fn insert(&mut self, key: K, value: V) -> (previous: Option<V>)
        requires
            old(self).wf(),
            key_ordered::<K>(),
            old(self)@.contents().contains_key(key) || old(self)@.count() < usize::MAX,
        ensures
            final(self).wf(),
            final(self)@ == old(self)@.insert(key, value),
            final(self)@.contents() == old(self)@.contents().insert(key, value),
            old(self)@.counted() ==> final(self)@.counted(),
            match previous {
                Some(v) => old(self)@.contents().contains_key(key) && cloned(
                    old(self)@.contents()[key],
                    v,
                ),
                None => !old(self)@.contents().contains_key(key),
            },
    {
        let mut pv: Option<V> = None;
        let n = self.versions.len();
        if !self.versions[n - 1].removed_keys.contains(&key) {
            if let Some(existing) = self.deep_get_key_value(&key) {
                pv = Some(existing.clone());
            }
        }
        let last = &mut self.versions[n - 1];
        last.removed_keys.remove(&key);
        last.data.insert(key, value);
        if pv.is_none() {
            last.values_count += 1;
        }
        proof {
            assert(self@.layers =~= old(self)@.insert(key, value).layers);
            lemma_insert(old(self)@, key, value);
            if old(self)@.counted() {
                lemma_insert_counted(old(self)@, key, value);
            }
        }
        pv
    }

    /// Removes `key` and returns the value that it mapped to, if it was
    /// visible.
    ///
    /// A visible key takes one off the count, which must not be zero then;
    /// in a counted history it never is. Where the current layer had written
    /// `key` over a value that an older layer still shows, that older value
    /// is visible afterwards.
    pub fn remove(&mut self, key: &K) -> (removed: Option<V>)
        requires
            old(self).wf(),
            key_ordered::<K>(),
            key_clone_exact::<K>(),
            old(self)@.contents().contains_key(*key) ==> old(self)@.count() > 0,
        ensures
            final(self).wf(),
            final(self)@ == old(self)@.remove(*key),
            final(self)@.contents() == if old(self)@.hides(*key) {
                old(self)@.contents().insert(*key, old(self)@.beneath()[*key])
            } else {
                old(self)@.contents().remove(*key)
            },
            old(self)@.counted() && !old(self)@.hides(*key) ==> final(self)@.counted(),
            match removed {
                Some(v) => old(self)@.contents().contains_key(*key) && cloned(
                    old(self)@.contents()[*key],
                    v,
                ),
                None => !old(self)@.contents().contains_key(*key),
            },
    {
        proof {
            lemma_remove(old(self)@, *key);
            if old(self)@.counted() && !old(self)@.hides(*key) {
                lemma_remove_counted(old(self)@, *key);
            }
        }
        let n = self.versions.len();
        if self.versions[n - 1].data.contains_key(key) {
            let last = &mut self.versions[n - 1];
            last.values_count -= 1;
            let taken = last.data.remove(key);
            proof {
                assert(self@.layers =~= old(self)@.remove(*key).layers);
            }
            return taken;
        }
        let mut found: Option<V> = None;
        if let Some(existing) = self.deep_get_key_value(key) {
            found = Some(existing.clone());
        }
        if found.is_some() {
            let last = &mut self.versions[n - 1];
            last.values_count -= 1;
            let mark = key.clone();
            assert(cloned(*key, mark));
            last.removed_keys.insert(mark);
            proof {
                assert(self@.layers =~= old(self)@.remove(*key).layers);
            }
        }
        found
    }

    /// Empties the map. What a checkpoint saved can still be rolled back to.
    pub fn clear(&mut self)
        requires
            old(self).wf(),
        ensures
            final(self).wf(),
            final(self)@ == old(self)@.clear(),
            final(self)@.contents() == Map::<K, V>::empty(),
            old(self)@.counted() ==> final(self)@.counted(),
    {
        let n = self.versions.len();
        let last = &mut self.versions[n - 1];
        last.data.clear();
        last.removed_keys.clear();
        last.detached = true;
        last.values_count = 0;
        proof {
            assert(self@.layers =~= old(self)@.clear().layers);
            lemma_clear(old(self)@);
            if old(self)@.counted() {
                lemma_clear_counted(old(self)@);
            }
        }
    }

    /// Returns `true` if the map holds a value for `key`.
    pub fn contains_key(&self, key: &K) -> (present: bool)
        requires
            self.wf(),
            key_ordered::<K>(),
        ensures
            present == self@.contents().contains_key(*key),
    {
        let key_value = self.deep_get_key_value(key);
        key_value.is_some()
    }

    /// Returns a reference to the value that `key` maps to.
    pub fn get(&self, key: &K) -> (value: Option<&V>)
        requires
            self.wf(),
            key_ordered::<K>(),
        ensures
            match value {
                Some(v) => self@.contents().get(*key) == Some(*v),
                None => self@.contents().get(*key) is None,
            },
    {
        self.deep_get_key_value(key)
    }

    /// Returns the number of elements, as the current layer has counted
    /// them.
    pub fn len(&self) -> (count: usize)
        requires
            self.wf(),
        ensures
            count == self@.count(),
            self@.counted() ==> count == self@.contents().len(),
    {
        proof {
            if self@.counted() {
                lemma_contents_at_finite(self@, self@.layers.len() as int);
            }
        }
        let n = self.versions.len();
        self.versions[n - 1].values_count
    }

    /// Returns `true` if the number of elements is zero.
    pub fn is_empty(&self) -> (empty: bool)
        requires
            self.wf(),
        ensures
            empty == (self@.count() == 0),
            self@.counted() ==> empty == (self@.contents() == Map::<K, V>::empty()),
    {
        proof {
            if self@.counted() {
                lemma_contents_at_finite(self@, self@.layers.len() as int);
                if self@.contents().len() == 0 {
                    assert(self@.contents() =~= Map::<K, V>::empty());
                }
            }
        }
        self.len() == 0
    }
}

impl<K: Ord, V> RollbackMap<K, V> {
    /// Saves the current state and returns the identifier to roll back to it.
    ///
    /// The new layer takes the next identifier, so the current one must not
    /// be the largest there is.
    pub fn checkpoint(&mut self) -> (id: Option<u32>)
        requires
            old(self).wf(),
            old(self)@.current_id() < u32::MAX,
        ensures
            final(self).wf(),
            final(self)@ == old(self)@.checkpoint(),
            final(self)@.contents() == old(self)@.contents(),
            final(self)@.has_checkpoint(old(self)@.current_id()),
            final(self)@.saved(old(self)@.current_id()) == old(self)@.contents(),
            old(self)@.counted() ==> final(self)@.counted(),
            id == Some(old(self)@.current_id()),
    {
        let n = self.versions.len();
        let version = self.versions[n - 1].checkpoint;
        let values_count = self.versions[n - 1].values_count;
        self.versions.push(VersionState::new(version + 1, values_count));
        proof {
            assert(self@.layers =~= old(self)@.checkpoint().layers);
            lemma_checkpoint(old(self)@);
            if old(self)@.counted() {
                lemma_checkpoint_counted(old(self)@);
            }
        }
        Some(version)
    }

    /// Returns the newest checkpoint, if there is one.
    pub fn get_last_checkpoint(&self) -> (id: Option<u32>)
        requires
            self.wf(),
        ensures
            id == self@.last_checkpoint(),
    {
        if self.versions.len() < 2 {
            return None;
        }
        let prev_index = self.versions.len() - 2;
        Some(self.versions[prev_index].checkpoint)
    }

    /// Returns the checkpoint before the newest one, if there are two.
    pub fn get_prev_checkpoint(&self) -> (id: Option<u32>)
        requires
            self.wf(),
        ensures
            id == self@.prev_checkpoint(),
    {
        if self.versions.len() < 3 {
            return None;
        }
        let prev_index = self.versions.len() - 3;
        Some(self.versions[prev_index].checkpoint)
    }

    /// Returns the number of checkpoints that can be rolled back to.
    pub fn get_checkpoints_count(&self) -> (count: usize)
        requires
            self.wf(),
        ensures
            count == self@.checkpoints().len(),
    {
        if self.versions.len() < 2 {
            return 0;
        }
        self.versions.len() - 1
    }

    /// Rolls the map back to the state that `checkpoint` saved, and says
    /// whether it did. Where `checkpoint` names no saved state, nothing
    /// changes.
    pub fn rollback(&mut self, checkpoint: u32) -> (done: bool)
        requires
            old(self).wf(),
        ensures
            final(self).wf(),
            done == old(self)@.has_checkpoint(checkpoint),
            final(self)@ == old(self)@.rollback(checkpoint),
            done ==> final(self)@.contents() == old(self)@.saved(checkpoint),
            !done ==> *final(self) == *old(self),
            old(self)@.counted() ==> final(self)@.counted(),
    {
        let n = self.versions.len();
        let mut i: usize = n - 1;
        while i > 0
            invariant
                *self == *old(self),
                self.wf(),
                n == self.versions.len(),
                i <= n - 1,
                forall|j: int|
                    i <= j < n - 1 ==> (#[trigger] self.versions@[j]).checkpoint != checkpoint,
            decreases i,
        {
            i -= 1;
            if self.versions[i].checkpoint == checkpoint {
                let values_count = self.versions[i].values_count;
                while self.versions.len() > i + 2
                    invariant
                        n == old(self).versions@.len(),
                        i + 2 <= self.versions.len() <= n,
                        self.versions@ == old(self).versions@.take(self.versions.len() as int),
                    decreases self.versions.len(),
                {
                    self.versions.pop();
                }
                self.versions[i + 1].reset(values_count);
                proof {
                    assert(old(self)@.layers[i as int] == old(self).versions@[i as int]@);
                    assert(old(self)@.index_of(checkpoint) == i);
                    assert(self@.layers =~= old(self)@.rollback(checkpoint).layers);
                    lemma_rollback(old(self)@, checkpoint);
                    if old(self)@.counted() {
                        lemma_rollback_counted(old(self)@, checkpoint);
                    }
                }
                return true;
            }
        }
        proof {
            let at = old(self)@.index_of(checkpoint);
            if old(self)@.has_checkpoint(checkpoint) {
                assert(old(self)@.layers[at] == old(self).versions@[at]@);
            }
        }
        false
    }

    /// Drops every checkpoint but the newest and returns that one, if any.
    ///
    /// Only the newest two layers stay. A key that was visible through older
    /// layers alone is no longer visible; the count stays as it was.
    pub fn prune(&mut self) -> (id: Option<u32>)
        requires
            old(self).wf(),
        ensures
            final(self).wf(),
            final(self)@ == old(self)@.prune(),
            final(self)@.contents() == old(self)@.contents().remove_keys(
                Set::new(|k: K| old(self)@.leans_on_old(k)),
            ),
            final(self)@.count() == old(self)@.count(),
            id == old(self)@.last_checkpoint(),
    {
        proof {
            lemma_prune(old(self)@);
        }
        let ghost n = self.versions.len();
        while self.versions.len() > 2
            invariant
                1 <= self.versions.len() <= n,
                n == old(self).versions@.len(),
                n > 2 ==> self.versions.len() >= 2,
                n <= 2 ==> self.versions.len() == n,
                self.versions@ == old(self).versions@.skip(n - self.versions.len()),
            decreases self.versions.len(),
        {
            self.versions.remove(0);
        }
        proof {
            assert(self@.layers =~= old(self)@.prune().layers);
        }
        self.get_last_checkpoint()
    }
}

} // verus!
