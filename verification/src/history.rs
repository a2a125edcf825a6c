//! The mathematical model of a versioned map: a sequence of delta layers,
//! oldest first, the last of which is the current one.

use vstd::prelude::*;

verus! {

/// What one layer records: the entries written since the layer was opened,
/// the keys deleted since then that older layers may still hold, whether
/// older layers are cut off, the layer's identifier and the cached number of
/// elements.
#[verifier::reject_recursive_types(K)]
pub struct Layer<K, V> {
    pub data: Map<K, V>,
    pub removed: Set<K>,
    pub detached: bool,
    pub checkpoint: u32,
    pub count: nat,
}

impl<K, V> Layer<K, V> {
    /// A layer that records nothing and lets everything below show through.
    pub open spec fn empty(checkpoint: u32, count: nat) -> Self {
        Layer { data: Map::empty(), removed: Set::empty(), detached: false, checkpoint, count }
    }

    /// Both collections are finite and no key is in both of them.
    pub open spec fn wf(self) -> bool {
        &&& self.data.dom().finite()
        &&& self.removed.finite()
        &&& self.data.dom().disjoint(self.removed)
    }

    /// Whether a lookup of `key` ends at this layer: it is written here,
    /// deleted here, or the layer is cut off from the older ones.
    pub open spec fn settles(self, key: K) -> bool {
        self.detached || self.data.contains_key(key) || self.removed.contains(key)
    }

    /// The state seen through this layer when `below` is the state seen
    /// through the layers under it.
    pub open spec fn over(self, below: Map<K, V>) -> Map<K, V> {
        if self.detached {
            self.data
        } else {
            below.remove_keys(self.removed).union_prefer_right(self.data)
        }
    }
}

/// The whole sequence of layers.
#[verifier::reject_recursive_types(K)]
pub struct History<K, V> {
    pub layers: Seq<Layer<K, V>>,
}

impl<K, V> History<K, V> {
    /// There is a base layer, which has identifier 0 while it is the only
    /// layer; every layer is well formed; and identifiers grow by one from
    /// each layer to the next.
    pub open spec fn wf(self) -> bool {
        &&& self.layers.len() >= 1
        &&& self.layers.len() == 1 ==> self.layers[0].checkpoint == 0
        &&& forall|i: int| 0 <= i < self.layers.len() ==> (#[trigger] self.layers[i]).wf()
        &&& forall|i: int|
            0 <= i < self.layers.len() ==> (#[trigger] self.layers[i]).checkpoint
                == self.layers[0].checkpoint + i
    }

    /// The current layer.
    pub open spec fn top(self) -> Layer<K, V> {
        self.layers.last()
    }

    /// The state seen through the oldest `n` layers.
    pub open spec fn contents_at(self, n: int) -> Map<K, V>
        decreases n,
    {
        if n <= 0 {
            Map::empty()
        } else {
            self.layers[n - 1].over(self.contents_at(n - 1))
        }
    }

    /// The visible state: what lookups resolve to.
    pub open spec fn contents(self) -> Map<K, V> {
        self.contents_at(self.layers.len() as int)
    }

    /// The state seen through the layers under the current one.
    pub open spec fn beneath(self) -> Map<K, V> {
        self.contents_at(self.layers.len() - 1)
    }

    /// Whether the current layer writes `key` over a value that the older
    /// layers still show.
    pub open spec fn hides(self, key: K) -> bool {
        &&& self.top().data.contains_key(key)
        &&& !self.top().detached
        &&& self.beneath().contains_key(key)
    }

    /// Whether `key` is visible only through layers older than the newest
    /// two.
    pub open spec fn leans_on_old(self, key: K) -> bool {
        &&& self.layers.len() > 2
        &&& !self.top().settles(key)
        &&& !self.layers[self.layers.len() - 2].settles(key)
        &&& self.contents_at(self.layers.len() - 2).contains_key(key)
    }

    /// Whether the newest checkpoint saved `key` as visible only through
    /// layers older than the newest two.
    pub open spec fn saved_leans_on_old(self, key: K) -> bool {
        &&& self.layers.len() > 2
        &&& !self.layers[self.layers.len() - 2].settles(key)
        &&& self.contents_at(self.layers.len() - 2).contains_key(key)
    }

    /// Every layer's cached count is the number of keys seen through it.
    pub open spec fn counted(self) -> bool {
        forall|i: int|
            0 <= i < self.layers.len() ==> (#[trigger] self.layers[i]).count == self.contents_at(
                i + 1,
            ).len()
    }

    /// The cached number of elements.
    pub open spec fn count(self) -> nat {
        self.top().count
    }

    /// The identifier that the next checkpoint will be known by.
    pub open spec fn current_id(self) -> u32 {
        self.top().checkpoint
    }

    /// The identifiers one can roll back to, oldest first.
    pub open spec fn checkpoints(self) -> Seq<u32> {
        Seq::new((self.layers.len() - 1) as nat, |i: int| self.layers[i].checkpoint)
    }

    /// Where the layer with identifier `checkpoint` would stand.
    pub open spec fn index_of(self, checkpoint: u32) -> int {
        checkpoint - self.layers[0].checkpoint
    }

    /// Whether `checkpoint` names a layer under the current one.
    pub open spec fn has_checkpoint(self, checkpoint: u32) -> bool {
        0 <= self.index_of(checkpoint) < self.layers.len() - 1
    }

    /// The state that `checkpoint` saved.
    pub open spec fn saved(self, checkpoint: u32) -> Map<K, V> {
        self.contents_at(self.index_of(checkpoint) + 1)
    }

    /// The newest checkpoint, if there is one.
    pub open spec fn last_checkpoint(self) -> Option<u32> {
        if self.layers.len() >= 2 {
            Some(self.layers[self.layers.len() - 2].checkpoint)
        } else {
            None
        }
    }

    /// The checkpoint before the newest one, if there are two.
    pub open spec fn prev_checkpoint(self) -> Option<u32> {
        if self.layers.len() >= 3 {
            Some(self.layers[self.layers.len() - 3].checkpoint)
        } else {
            None
        }
    }

    /// The history with its current layer replaced by `top`.
    pub open spec fn with_top(self, top: Layer<K, V>) -> Self {
        History { layers: self.layers.drop_last().push(top) }
    }

    /// A new history: the base layer alone, empty.
    pub open spec fn fresh() -> Self {
        History { layers: seq![Layer::empty(0, 0)] }
    }

    /// Writes `key` in the current layer and lifts a deletion of it made
    /// there; the count grows unless the key was visible.
    pub open spec fn insert(self, key: K, value: V) -> Self {
        let top = self.top();
        self.with_top(
            Layer {
                data: top.data.insert(key, value),
                removed: top.removed.remove(key),
                detached: top.detached,
                checkpoint: top.checkpoint,
                count: if self.contents().contains_key(key) {
                    top.count
                } else {
                    top.count + 1
                },
            },
        )
    }

    /// Takes `key` out of the current layer's entries if it is written there;
    /// otherwise, if it is visible, marks it deleted in the current layer.
    /// Either way the count shrinks by one. An invisible key changes nothing.
    pub open spec fn remove(self, key: K) -> Self {
        let top = self.top();
        if top.data.contains_key(key) {
            self.with_top(
                Layer {
                    data: top.data.remove(key),
                    removed: top.removed,
                    detached: top.detached,
                    checkpoint: top.checkpoint,
                    count: one_less(top.count),
                },
            )
        } else if self.contents().contains_key(key) {
            self.with_top(
                Layer {
                    data: top.data,
                    removed: top.removed.insert(key),
                    detached: top.detached,
                    checkpoint: top.checkpoint,
                    count: one_less(top.count),
                },
            )
        } else {
            self
        }
    }

    /// Empties the current layer and cuts it off from the older ones.
    pub open spec fn clear(self) -> Self {
        self.with_top(
            Layer {
                data: Map::empty(),
                removed: Set::empty(),
                detached: true,
                checkpoint: self.top().checkpoint,
                count: 0,
            },
        )
    }

    /// Freezes the current layer and opens an empty one above it, with the
    /// next identifier and the same count.
    pub open spec fn checkpoint(self) -> Self {
        History {
            layers: self.layers.push(
                Layer::empty((self.top().checkpoint + 1) as u32, self.top().count),
            ),
        }
    }

    /// Drops the layers above the one that `checkpoint` names, but for the
    /// next one, which is emptied and given the named layer's count. Where
    /// `checkpoint` names no layer under the current one, nothing changes.
    pub open spec fn rollback(self, checkpoint: u32) -> Self {
        if self.has_checkpoint(checkpoint) {
            let at = self.index_of(checkpoint);
            History {
                layers: self.layers.take(at + 1).push(
                    Layer::empty(self.layers[at + 1].checkpoint, self.layers[at].count),
                ),
            }
        } else {
            self
        }
    }

    /// Drops every layer but the newest two.
    pub open spec fn prune(self) -> Self {
        if self.layers.len() > 2 {
            History { layers: self.layers.skip(self.layers.len() - 2) }
        } else {
            self
        }
    }

    /// The history after one edit.
    pub open spec fn apply(self, edit: Edit<K, V>) -> Self {
        match edit {
            Edit::Insert(key, value) => self.insert(key, value),
            Edit::Remove(key) => self.remove(key),
            Edit::Clear => self.clear(),
        }
    }

    /// The history after a sequence of edits, first to last.
    pub open spec fn replay(self, edits: Seq<Edit<K, V>>) -> Self
        decreases edits.len(),
    {
        if edits.len() == 0 {
            self
        } else {
            self.replay(edits.drop_last()).apply(edits.last())
        }
    }
}

/// A change to the visible state that touches the current layer alone.
pub enum Edit<K, V> {
    Insert(K, V),
    Remove(K),
    Clear,
}

/// The count after one element has left; zero stays zero.
pub open spec fn one_less(count: nat) -> nat {
    if count > 0 {
        (count - 1) as nat
    } else {
        0
    }
}

} // verus!
