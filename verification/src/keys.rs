//! What the container asks of its key type.

use vstd::laws_cmp::obeys_cmp;
use vstd::prelude::*;

verus! {

/// The key type's comparison is a total order that agrees with equality.
pub open spec fn key_ordered<K: Ord>() -> bool {
    obeys_cmp::<K>()
}

/// Cloning a key gives back an equal key.
pub open spec fn key_clone_exact<K: Clone>() -> bool {
    forall|a: K, b: K| #[trigger] cloned(a, b) ==> a == b
}

} // verus!
