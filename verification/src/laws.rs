//! What holds of every history: how each operation changes the visible
//! state, the count and the checkpoints, and how the operations relate to
//! one another.

use crate::history::Edit;
use crate::history::History;
use crate::history::Layer;
use vstd::prelude::*;
use vstd::set_lib::lemma_len_subset;

verus! {

/// The state seen through the oldest `n` layers depends on those layers
/// alone.
pub proof fn lemma_contents_at_local<K, V>(a: History<K, V>, b: History<K, V>, n: int)
    requires
        n <= a.layers.len(),
        n <= b.layers.len(),
        forall|i: int| 0 <= i < n ==> a.layers[i] == b.layers[i],
    ensures
        a.contents_at(n) == b.contents_at(n),
    decreases n,
{
    if n > 0 {
        lemma_contents_at_local(a, b, n - 1);
    }
}

/// The state seen through any number of layers of a well-formed history is
/// finite.
pub proof fn lemma_contents_at_finite<K, V>(h: History<K, V>, n: int)
    requires
        h.wf(),
        n <= h.layers.len(),
    ensures
        h.contents_at(n).dom().finite(),
    decreases n,
{
    if n > 0 {
        lemma_contents_at_finite(h, n - 1);
        let layer = h.layers[n - 1];
        let below = h.contents_at(n - 1);
        assert(layer.wf());
        assert(layer.over(below).dom() =~= if layer.detached {
            layer.data.dom()
        } else {
            below.dom().difference(layer.removed).union(layer.data.dom())
        });
    }
}

/// Replacing the current layer leaves the state beneath it as it was, and
/// the new visible state is what the new layer shows over that state.
pub proof fn lemma_with_top<K, V>(h: History<K, V>, top: Layer<K, V>)
    requires
        h.layers.len() >= 1,
    ensures
        h.with_top(top).layers.len() == h.layers.len(),
        h.with_top(top).top() == top,
        h.with_top(top).layers.drop_last() == h.layers.drop_last(),
        h.with_top(top).beneath() == h.beneath(),
        h.with_top(top).contents() == top.over(h.beneath()),
        h.contents() == h.top().over(h.beneath()),
{
    let g = h.with_top(top);
    lemma_contents_at_local(g, h, h.layers.len() - 1);
    assert(g.layers.drop_last() =~= h.layers.drop_last());
}

/// A history stays well formed when its current layer is replaced by a well
/// formed one with the same identifier.
pub proof fn lemma_with_top_wf<K, V>(h: History<K, V>, top: Layer<K, V>)
    requires
        h.wf(),
        top.wf(),
        top.checkpoint == h.top().checkpoint,
    ensures
        h.with_top(top).wf(),
{
    let g = h.with_top(top);
    assert forall|i: int| 0 <= i < g.layers.len() implies (#[trigger] g.layers[i]).wf()
        && g.layers[i].checkpoint == g.layers[0].checkpoint + i by {
        if i < g.layers.len() - 1 {
            assert(g.layers[i] == h.layers[i]);
        }
        assert(g.layers[0].checkpoint == h.layers[0].checkpoint);
    }
}

/// An insertion keeps the history well formed, changes the current layer
/// alone, and the visible state afterwards is the one before with `key`
/// mapped to `value`.
pub proof fn lemma_insert<K, V>(h: History<K, V>, key: K, value: V)
    requires
        h.wf(),
    ensures
        h.insert(key, value).wf(),
        h.insert(key, value).contents() == h.contents().insert(key, value),
        h.insert(key, value).layers.drop_last() == h.layers.drop_last(),
        h.insert(key, value).current_id() == h.current_id(),
{
    let g = h.insert(key, value);
    assert(h.top().wf());
    lemma_with_top(h, g.top());
    lemma_with_top_wf(h, g.top());
    assert(g.contents() =~= h.contents().insert(key, value));
}

/// A removal keeps the history well formed and changes the current layer
/// alone. Afterwards `key` is gone from the visible state, unless the
/// current layer had written it over a value that older layers still show:
/// then that older value is visible again.
pub proof fn lemma_remove<K, V>(h: History<K, V>, key: K)
    requires
        h.wf(),
    ensures
        h.remove(key).wf(),
        h.remove(key).contents() == if h.hides(key) {
            h.contents().insert(key, h.beneath()[key])
        } else {
            h.contents().remove(key)
        },
        h.remove(key).layers.drop_last() == h.layers.drop_last(),
        h.remove(key).current_id() == h.current_id(),
{
    let g = h.remove(key);
    assert(h.top().wf());
    lemma_with_top(h, g.top());
    if h.top().data.contains_key(key) || h.contents().contains_key(key) {
        lemma_with_top_wf(h, g.top());
    }
    assert(g.contents() =~= if h.hides(key) {
        h.contents().insert(key, h.beneath()[key])
    } else {
        h.contents().remove(key)
    });
}

/// A clear keeps the history well formed, changes the current layer alone
/// and leaves nothing visible.
pub proof fn lemma_clear<K, V>(h: History<K, V>)
    requires
        h.wf(),
    ensures
        h.clear().wf(),
        h.clear().contents() == Map::<K, V>::empty(),
        h.clear().count() == 0,
        h.clear().layers.drop_last() == h.layers.drop_last(),
        h.clear().current_id() == h.current_id(),
{
    let g = h.clear();
    lemma_with_top(h, g.top());
    lemma_with_top_wf(h, g.top());
    assert(g.contents() =~= Map::<K, V>::empty());
}

/// A checkpoint keeps the history well formed, leaves the visible state and
/// the count as they were, and adds the identifier of the frozen layer as
/// the newest checkpoint.
pub proof fn lemma_checkpoint<K, V>(h: History<K, V>)
    requires
        h.wf(),
        h.current_id() < u32::MAX,
    ensures
        h.checkpoint().wf(),
        h.checkpoint().contents() == h.contents(),
        h.checkpoint().beneath() == h.contents(),
        h.checkpoint().count() == h.count(),
        h.checkpoint().layers.drop_last() == h.layers,
        h.checkpoint().current_id() == h.current_id() + 1,
        h.checkpoint().checkpoints() == h.checkpoints().push(h.current_id()),
        h.checkpoint().last_checkpoint() == Some(h.current_id()),
        h.checkpoint().has_checkpoint(h.current_id()),
{
    let g = h.checkpoint();
    lemma_contents_at_local(g, h, h.layers.len() as int);
    assert(g.layers.drop_last() =~= h.layers);
    assert forall|i: int| 0 <= i < g.layers.len() implies (#[trigger] g.layers[i]).wf()
        && g.layers[i].checkpoint == g.layers[0].checkpoint + i by {
        if i < g.layers.len() - 1 {
            assert(g.layers[i] == h.layers[i]);
        }
        assert(g.layers[0] == h.layers[0]);
    }
    assert(g.contents() =~= h.contents());
    assert(g.checkpoints() =~= h.checkpoints().push(h.current_id()));
}

/// The checkpoints that can be rolled back to are the identifiers of the
/// layers under the current one, each found at its own place, and the newest
/// two are the last two of them.
pub proof fn lemma_checkpoints<K, V>(h: History<K, V>, checkpoint: u32)
    requires
        h.wf(),
    ensures
        h.has_checkpoint(checkpoint) <==> h.checkpoints().contains(checkpoint),
        h.has_checkpoint(checkpoint) ==> h.checkpoints()[h.index_of(checkpoint)] == checkpoint,
        h.last_checkpoint() == if h.checkpoints().len() >= 1 {
            Some(h.checkpoints().last())
        } else {
            None
        },
        h.prev_checkpoint() == if h.checkpoints().len() >= 2 {
            Some(h.checkpoints()[h.checkpoints().len() - 2])
        } else {
            None
        },
        h.current_id() == if h.checkpoints().len() >= 1 {
            h.checkpoints().last() + 1
        } else {
            0
        },
{
    let ids = h.checkpoints();
    let at = h.index_of(checkpoint);
    if h.has_checkpoint(checkpoint) {
        assert(h.layers[at].checkpoint == checkpoint);
        assert(ids[at] == checkpoint);
    }
    if ids.contains(checkpoint) {
        let i = choose|i: int| 0 <= i < ids.len() && ids[i] == checkpoint;
        assert(h.layers[i].checkpoint == checkpoint);
    }
    if ids.len() >= 1 {
        assert(h.layers[h.layers.len() - 1].checkpoint == h.layers[0].checkpoint + h.layers.len()
            - 1);
        assert(h.layers[h.layers.len() - 2].checkpoint == h.layers[0].checkpoint + h.layers.len()
            - 2);
    }
}

/// A rollback keeps the history well formed. To a checkpoint that the
/// history has, it brings back the state and the count that the checkpoint
/// saved, and makes it the newest checkpoint. To any other identifier it
/// changes nothing.
pub proof fn lemma_rollback<K, V>(h: History<K, V>, checkpoint: u32)
    requires
        h.wf(),
    ensures
        h.rollback(checkpoint).wf(),
        !h.has_checkpoint(checkpoint) ==> h.rollback(checkpoint) == h,
        h.has_checkpoint(checkpoint) ==> {
            let at = h.index_of(checkpoint);
            &&& h.rollback(checkpoint).contents() == h.saved(checkpoint)
            &&& h.rollback(checkpoint).count() == h.layers[at].count
            &&& h.rollback(checkpoint).layers.drop_last() == h.layers.take(at + 1)
            &&& h.rollback(checkpoint).last_checkpoint() == Some(checkpoint)
            &&& h.rollback(checkpoint).checkpoints() == h.checkpoints().take(at + 1)
        },
{
    if h.has_checkpoint(checkpoint) {
        let g = h.rollback(checkpoint);
        let at = h.index_of(checkpoint);
        assert(g.layers.drop_last() =~= h.layers.take(at + 1));
        assert forall|i: int| 0 <= i < g.layers.len() implies (#[trigger] g.layers[i]).wf()
            && g.layers[i].checkpoint == g.layers[0].checkpoint + i by {
            if i < g.layers.len() - 1 {
                assert(g.layers[i] == h.layers[i]);
            } else {
                assert(g.layers[i].checkpoint == h.layers[at + 1].checkpoint);
            }
            assert(g.layers[0] == h.layers[0]);
        }
        lemma_contents_at_local(g, h, at + 1);
        assert(g.contents() =~= h.saved(checkpoint));
        assert(h.layers[at].checkpoint == checkpoint);
        assert(g.layers[g.layers.len() - 2] == h.layers[at]);
        assert(g.checkpoints() =~= h.checkpoints().take(at + 1));
    }
}

/// After a rollback to `checkpoint`, the checkpoints that remain are those
/// that are not newer than it, and each still saves what it saved.
pub proof fn lemma_rollback_forfeits<K, V>(h: History<K, V>, checkpoint: u32, other: u32)
    requires
        h.wf(),
        h.has_checkpoint(checkpoint),
    ensures
        h.rollback(checkpoint).has_checkpoint(other) <==> h.has_checkpoint(other) && other
            <= checkpoint,
        other > checkpoint ==> h.rollback(checkpoint).rollback(other) == h.rollback(checkpoint),
        h.rollback(checkpoint).has_checkpoint(other) ==> h.rollback(checkpoint).saved(other)
            == h.saved(other),
{
    let g = h.rollback(checkpoint);
    let at = h.index_of(checkpoint);
    assert(g.layers[0] == h.layers[0]);
    if g.has_checkpoint(other) {
        lemma_contents_at_local(g, h, h.index_of(other) + 1);
    }
}

/// A prune keeps the history well formed, the count and the newest
/// checkpoint, and leaves at most two layers. It takes out of the visible
/// state exactly the keys that were visible only through the dropped
/// layers.
pub proof fn lemma_prune<K, V>(h: History<K, V>)
    requires
        h.wf(),
    ensures
        h.prune().wf(),
        h.prune().layers.len() <= 2,
        h.prune().top() == h.top(),
        h.prune().count() == h.count(),
        h.prune().last_checkpoint() == h.last_checkpoint(),
        h.prune().prev_checkpoint() is None,
        h.prune().contents() == h.contents().remove_keys(Set::new(|k: K| h.leans_on_old(k))),
        (h.prune().contents() == h.contents()) <==> (forall|k: K| !h.leans_on_old(k)),
{
    let g = h.prune();
    let n = h.layers.len() as int;
    let gone = Set::new(|k: K| h.leans_on_old(k));
    if n > 2 {
        assert(g.layers[0] == h.layers[n - 2]);
        assert(g.layers[1] == h.layers[n - 1]);
        assert forall|i: int| 0 <= i < g.layers.len() implies (#[trigger] g.layers[i]).wf()
            && g.layers[i].checkpoint == g.layers[0].checkpoint + i by {
            assert(g.layers[i] == h.layers[n - 2 + i]);
        }
        assert(g.contents_at(0) =~= Map::<K, V>::empty());
        assert(g.contents_at(1) == g.layers[0].over(g.contents_at(0)));
        assert(g.contents_at(2) == g.layers[1].over(g.contents_at(1)));
        assert(h.contents_at(n - 1) == h.layers[n - 2].over(h.contents_at(n - 2)));
        assert(h.contents() == h.layers[n - 1].over(h.contents_at(n - 1)));
        assert(g.contents() =~= h.contents().remove_keys(gone));
    } else {
        assert(h.contents() =~= h.contents().remove_keys(gone));
    }
    if g.contents() == h.contents() {
        assert forall|k: K| !h.leans_on_old(k) by {
            if h.leans_on_old(k) {
                assert(gone.contains(k));
                assert(h.contents().contains_key(k));
                assert(!g.contents().contains_key(k));
            }
        }
    }
    if forall|k: K| !h.leans_on_old(k) {
        assert(h.contents().remove_keys(gone) =~= h.contents());
    }
}

/// After a prune the only checkpoint left is the newest one.
pub proof fn lemma_prune_forfeits<K, V>(h: History<K, V>, other: u32)
    requires
        h.wf(),
    ensures
        h.prune().has_checkpoint(other) <==> h.last_checkpoint() == Some(other),
        h.last_checkpoint() != Some(other) ==> h.prune().rollback(other) == h.prune(),
{
    let g = h.prune();
    let n = h.layers.len() as int;
    if n > 2 {
        assert(g.layers[0] == h.layers[n - 2]);
    }
}

/// A new history is well formed and counted, shows nothing and has no
/// checkpoint.
pub proof fn lemma_fresh<K, V>()
    ensures
        History::<K, V>::fresh().wf(),
        History::<K, V>::fresh().counted(),
        History::<K, V>::fresh().contents() == Map::<K, V>::empty(),
        History::<K, V>::fresh().count() == 0,
        History::<K, V>::fresh().checkpoints() == Seq::<u32>::empty(),
        History::<K, V>::fresh().current_id() == 0,
{
    let h = History::<K, V>::fresh();
    assert(h.contents_at(0) =~= Map::<K, V>::empty());
    assert(h.contents_at(1) == h.layers[0].over(h.contents_at(0)));
    assert(h.contents() =~= Map::<K, V>::empty());
    assert(h.checkpoints() =~= Seq::<u32>::empty());
}

/// An edit keeps the history well formed and changes the current layer
/// alone, whose identifier stays.
pub proof fn lemma_apply<K, V>(h: History<K, V>, edit: Edit<K, V>)
    requires
        h.wf(),
    ensures
        h.apply(edit).wf(),
        h.apply(edit).layers.drop_last() == h.layers.drop_last(),
        h.apply(edit).current_id() == h.current_id(),
{
    match edit {
        Edit::Insert(key, value) => lemma_insert(h, key, value),
        Edit::Remove(key) => lemma_remove(h, key),
        Edit::Clear => lemma_clear(h),
    }
}

/// Any sequence of edits keeps the history well formed and changes the
/// current layer alone, whose identifier stays.
pub proof fn lemma_replay<K, V>(h: History<K, V>, edits: Seq<Edit<K, V>>)
    requires
        h.wf(),
    ensures
        h.replay(edits).wf(),
        h.replay(edits).layers.drop_last() == h.layers.drop_last(),
        h.replay(edits).current_id() == h.current_id(),
    decreases edits.len(),
{
    if edits.len() > 0 {
        lemma_replay(h, edits.drop_last());
        lemma_apply(h.replay(edits.drop_last()), edits.last());
    }
}

/// Round trip: take a checkpoint, make any edits, roll back to the
/// checkpoint. The history is then the one right after the checkpoint was
/// taken, so the visible state and the count are those of that moment.
pub proof fn lemma_round_trip<K, V>(h: History<K, V>, edits: Seq<Edit<K, V>>)
    requires
        h.wf(),
        h.current_id() < u32::MAX,
    ensures
        h.checkpoint().replay(edits).wf(),
        h.checkpoint().replay(edits).has_checkpoint(h.current_id()),
        h.checkpoint().replay(edits).rollback(h.current_id()) == h.checkpoint(),
        h.checkpoint().replay(edits).rollback(h.current_id()).contents() == h.contents(),
        h.checkpoint().replay(edits).rollback(h.current_id()).count() == h.count(),
{
    let id = h.current_id();
    let start = h.checkpoint();
    let later = start.replay(edits);
    lemma_checkpoint(h);
    lemma_replay(start, edits);
    assert(later.layers.len() == later.layers.drop_last().len() + 1);
    assert(start.layers.len() == start.layers.drop_last().len() + 1);
    assert forall|i: int| 0 <= i < h.layers.len() implies later.layers[i] == h.layers[i] by {
        assert(later.layers[i] == later.layers.drop_last()[i]);
        assert(start.layers[i] == start.layers.drop_last()[i]);
    }
    assert(h.layers[h.layers.len() - 1].checkpoint == h.layers[0].checkpoint + h.layers.len() - 1);
    assert(later.index_of(id) == h.layers.len() - 1);
    assert(later.layers[later.layers.len() - 1] == later.top());
    assert(later.rollback(id).layers =~= start.layers);
}

/// Clear, take a checkpoint, make any edits, roll back to the checkpoint:
/// nothing is visible, whatever was before the clear.
pub proof fn lemma_clear_round_trip<K, V>(h: History<K, V>, edits: Seq<Edit<K, V>>)
    requires
        h.wf(),
        h.current_id() < u32::MAX,
    ensures
        h.clear().checkpoint().replay(edits).has_checkpoint(h.current_id()),
        h.clear().checkpoint().replay(edits).rollback(h.current_id()).contents() == Map::<
            K,
            V,
        >::empty(),
        h.clear().checkpoint().replay(edits).rollback(h.current_id()).count() == 0,
{
    lemma_clear(h);
    lemma_round_trip(h.clear(), edits);
}

/// In a counted history the count is the number of visible keys, and it is
/// positive when some key is visible.
pub proof fn lemma_counted<K, V>(h: History<K, V>, key: K)
    requires
        h.wf(),
        h.counted(),
    ensures
        h.contents().dom().finite(),
        h.count() == h.contents().len(),
        h.contents().contains_key(key) ==> h.count() > 0,
{
    lemma_contents_at_finite(h, h.layers.len() as int);
    assert(h.layers[h.layers.len() - 1].count == h.contents_at(h.layers.len() - 1 + 1).len());
    if h.contents().contains_key(key) {
        assert(h.contents().dom().contains(key));
        if h.contents().dom().len() == 0 {
            assert(h.contents().dom() =~= Set::<K>::empty());
        }
    }
}

/// A history stays counted when its current layer is replaced by one whose
/// count is the number of keys it shows.
pub proof fn lemma_with_top_counted<K, V>(h: History<K, V>, top: Layer<K, V>)
    requires
        h.layers.len() >= 1,
        h.counted(),
        top.count == top.over(h.beneath()).len(),
    ensures
        h.with_top(top).counted(),
{
    let g = h.with_top(top);
    lemma_with_top(h, top);
    assert forall|i: int| 0 <= i < g.layers.len() implies (#[trigger] g.layers[i]).count
        == g.contents_at(i + 1).len() by {
        if i < g.layers.len() - 1 {
            assert(g.layers[i] == h.layers[i]);
            lemma_contents_at_local(g, h, i + 1);
        }
    }
}

/// An insertion keeps a counted history counted.
pub proof fn lemma_insert_counted<K, V>(h: History<K, V>, key: K, value: V)
    requires
        h.wf(),
        h.counted(),
    ensures
        h.insert(key, value).counted(),
        h.insert(key, value).count() == h.insert(key, value).contents().len(),
{
    let g = h.insert(key, value);
    lemma_insert(h, key, value);
    lemma_counted(h, key);
    lemma_with_top(h, g.top());
    assert(h.contents().insert(key, value).dom() =~= h.contents().dom().insert(key));
    lemma_with_top_counted(h, g.top());
}

/// A removal keeps a counted history counted, but for one case: where the
/// current layer had written the key over a value that older layers still
/// show, the count drops and the number of visible keys does not.
pub proof fn lemma_remove_counted<K, V>(h: History<K, V>, key: K)
    requires
        h.wf(),
        h.counted(),
    ensures
        h.remove(key).counted() <==> !h.hides(key),
        h.hides(key) ==> h.remove(key).count() + 1 == h.remove(key).contents().len(),
{
    let g = h.remove(key);
    lemma_remove(h, key);
    lemma_counted(h, key);
    lemma_with_top(h, g.top());
    if h.hides(key) {
        assert(h.contents().contains_key(key));
        assert(h.contents().insert(key, h.beneath()[key]).dom() =~= h.contents().dom());
        assert(g.layers[g.layers.len() - 1].count != g.contents_at(g.layers.len() - 1 + 1).len());
    } else {
        assert(h.contents().remove(key).dom() =~= h.contents().dom().remove(key));
        if h.top().data.contains_key(key) || h.contents().contains_key(key) {
            lemma_with_top_counted(h, g.top());
        }
    }
}

/// A clear keeps a counted history counted.
pub proof fn lemma_clear_counted<K, V>(h: History<K, V>)
    requires
        h.wf(),
        h.counted(),
    ensures
        h.clear().counted(),
{
    let g = h.clear();
    lemma_clear(h);
    lemma_with_top(h, g.top());
    lemma_with_top_counted(h, g.top());
}

/// A checkpoint keeps a counted history counted.
pub proof fn lemma_checkpoint_counted<K, V>(h: History<K, V>)
    requires
        h.wf(),
        h.counted(),
        h.current_id() < u32::MAX,
    ensures
        h.checkpoint().counted(),
{
    let g = h.checkpoint();
    lemma_checkpoint(h);
    assert forall|i: int| 0 <= i < g.layers.len() implies (#[trigger] g.layers[i]).count
        == g.contents_at(i + 1).len() by {
        if i < g.layers.len() - 1 {
            assert(g.layers[i] == h.layers[i]);
            lemma_contents_at_local(g, h, i + 1);
        } else {
            assert(h.layers[i - 1].count == h.contents_at(i - 1 + 1).len());
        }
    }
}

/// A rollback keeps a counted history counted.
pub proof fn lemma_rollback_counted<K, V>(h: History<K, V>, checkpoint: u32)
    requires
        h.wf(),
        h.counted(),
    ensures
        h.rollback(checkpoint).counted(),
{
    let g = h.rollback(checkpoint);
    lemma_rollback(h, checkpoint);
    if h.has_checkpoint(checkpoint) {
        let at = h.index_of(checkpoint);
        assert forall|i: int| 0 <= i < g.layers.len() implies (#[trigger] g.layers[i]).count
            == g.contents_at(i + 1).len() by {
            if i < g.layers.len() - 1 {
                assert(g.layers[i] == h.layers[i]);
                lemma_contents_at_local(g, h, i + 1);
            } else {
                assert(h.layers[at].count == h.contents_at(at + 1).len());
            }
        }
    }
}

/// A prune keeps a counted history counted exactly where the newest
/// checkpoint saved no key as visible only through the dropped layers; the
/// visible state is then the one before.
pub proof fn lemma_prune_counted<K, V>(h: History<K, V>)
    requires
        h.wf(),
        h.counted(),
    ensures
        h.prune().counted() <==> (forall|k: K| !h.saved_leans_on_old(k)),
        (forall|k: K| !h.saved_leans_on_old(k)) ==> h.prune().contents() == h.contents(),
{
    let g = h.prune();
    let n = h.layers.len() as int;
    lemma_prune(h);
    if n > 2 {
        let kept = g.contents_at(1);
        let saved = h.contents_at(n - 1);
        assert(g.layers[0] == h.layers[n - 2]);
        assert(g.layers[1] == h.layers[n - 1]);
        assert(g.contents_at(0) =~= Map::<K, V>::empty());
        assert(kept == g.layers[0].over(g.contents_at(0)));
        assert(saved == h.layers[n - 2].over(h.contents_at(n - 2)));
        assert(h.layers[n - 2].count == h.contents_at(n - 2 + 1).len());
        assert(h.layers[n - 1].count == h.contents_at(n - 1 + 1).len());
        lemma_contents_at_finite(h, n - 1);
        if forall|k: K| !h.saved_leans_on_old(k) {
            assert forall|k: K| !h.leans_on_old(k) by {
                assert(!h.saved_leans_on_old(k));
            }
            assert forall|k: K| #[trigger] kept.dom().contains(k) == saved.dom().contains(k) by {
                assert(!h.saved_leans_on_old(k));
            }
            assert(kept =~= saved);
            assert forall|i: int| 0 <= i < g.layers.len() implies (#[trigger] g.layers[i]).count
                == g.contents_at(i + 1).len() by {
            }
        } else {
            let k = choose|k: K| h.saved_leans_on_old(k);
            assert(saved.dom().contains(k));
            assert(kept.dom().subset_of(saved.dom().remove(k)));
            lemma_len_subset(kept.dom(), saved.dom().remove(k));
            assert(g.layers[0].count != kept.len());
        }
    } else {
        assert forall|k: K| !h.saved_leans_on_old(k) by {
        }
    }
}

} // verus!
