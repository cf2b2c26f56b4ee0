//! What a tree holds, as a map from positions to leaf values, and what each
//! operation makes of such a map.
//!
//! A position is the sequence of fragments that leads from the root to a node;
//! the empty sequence is the root. A node is in the map exactly when it
//! exists, and its entry is its leaf value: `None` for a node that only routes
//! to others.

use std::sync::Arc;
use vstd::prelude::*;

verus! {

/// The address of a node: the fragments on the way from the root.
pub type Position<K> = Seq<Arc<K>>;

/// The nodes of a tree by position, each with its leaf value.
pub type Contents<K, V> = Map<Seq<Arc<K>>, Option<Arc<V>>>;

/// The contents of a tree that is only a root without a value.
pub open spec fn bare_root<K, V>() -> Contents<K, V> {
    Map::empty().insert(Seq::empty(), None)
}

/// Whether `m` is what some tree holds: the root exists, and every prefix of
/// the position of a node is the position of a node.
pub open spec fn is_tree<K, V>(m: Contents<K, V>) -> bool {
    &&& m.contains_key(Seq::empty())
    &&& forall|p: Position<K>, n: int|
        m.contains_key(p) && 0 <= n <= p.len() ==> #[trigger] m.contains_key(p.take(n))
}

/// The leaf value at `p`: absent both where no node is and where the node has
/// no value.
pub open spec fn value_at<K, V>(m: Contents<K, V>, p: Position<K>) -> Option<Arc<V>> {
    if m.contains_key(p) {
        m[p]
    } else {
        None
    }
}

/// The contents of the node at `p`, seen as a tree of its own: its positions
/// are those of `m` below `p`, counted from `p`.
pub open spec fn subtree<K, V>(m: Contents<K, V>, p: Position<K>) -> Contents<K, V> {
    Map::new(|q: Position<K>| m.contains_key(p + q), |q: Position<K>| m[p + q])
}

/// The positions of `m` at or below `p`.
pub open spec fn positions_under<K, V>(m: Contents<K, V>, p: Position<K>) -> Set<Position<K>> {
    Set::new(|q: Position<K>| m.contains_key(q) && p.is_prefix_of(q))
}

/// The positions of `m` below `p`, `p` itself left out.
pub open spec fn positions_below<K, V>(m: Contents<K, V>, p: Position<K>) -> Set<Position<K>> {
    positions_under(m, p).remove(p)
}

/// The fragments that name the children of the root.
pub open spec fn branch_names<K, V>(m: Contents<K, V>) -> Set<Arc<K>> {
    Set::new(|k: Arc<K>| m.contains_key(seq![k]))
}

/// `m` after a value is stored at `p`: every prefix of `p` that had no node
/// gets one without a value, `p` itself holds `v`, and nothing else changes.
pub open spec fn inserted<K, V>(m: Contents<K, V>, p: Position<K>, v: Arc<V>) -> Contents<K, V> {
    Map::new(
        |q: Position<K>| m.contains_key(q) || q.is_prefix_of(p),
        |q: Position<K>|
            if q =~= p {
                Some(v)
            } else if m.contains_key(q) {
                m[q]
            } else {
                None
            },
    )
}

/// `m` after the value at `p` is taken away: the node stays, and so does
/// everything below it. Nothing changes where `p` is no node.
pub open spec fn cleared<K, V>(m: Contents<K, V>, p: Position<K>) -> Contents<K, V> {
    if m.contains_key(p) {
        m.insert(p, None)
    } else {
        m
    }
}

/// `m` after the node at `p` is cut off with everything below it. The root
/// cannot be cut off: for the empty position only its value goes.
pub open spec fn deleted<K, V>(m: Contents<K, V>, p: Position<K>) -> Contents<K, V> {
    if p.len() == 0 {
        m.insert(p, None)
    } else {
        Map::new(|q: Position<K>| m.contains_key(q) && !p.is_prefix_of(q), |q: Position<K>| m[q])
    }
}

/// `m` with `sub` in the place of whatever was at and below `p`. Prefixes of
/// `p` that had no node get one without a value.
pub open spec fn grafted<K, V>(m: Contents<K, V>, p: Position<K>, sub: Contents<K, V>) -> Contents<
    K,
    V,
> {
    Map::new(
        |q: Position<K>|
            if p.is_prefix_of(q) {
                sub.contains_key(q.skip(p.len() as int))
            } else {
                m.contains_key(q) || q.is_prefix_of(p)
            },
        |q: Position<K>|
            if p.is_prefix_of(q) {
                sub[q.skip(p.len() as int)]
            } else if m.contains_key(q) {
                m[q]
            } else {
                None
            },
    )
}

/// Whether `entries` lists the nodes of `m` at and below `p`, each once, by
/// its position from the root and with its leaf value. The order is open.
/// Where `p` is no node of a tree there is nothing to list.
pub open spec fn enumerates<K, V>(
    entries: Seq<(Vec<Arc<K>>, Option<Arc<V>>)>,
    m: Contents<K, V>,
    p: Position<K>,
) -> bool {
    &&& forall|i: int|
        0 <= i < entries.len() ==> {
            &&& positions_under(m, p).contains(#[trigger] entries[i].0@)
            &&& entries[i].1 == m[entries[i].0@]
        }
    &&& forall|q: Position<K>| #[trigger]
        positions_under(m, p).contains(q) ==> exists|i: int|
            0 <= i < entries.len() && #[trigger] entries[i].0@ == q
    &&& forall|i: int, j: int|
        0 <= i < j < entries.len() ==> #[trigger] entries[i].0@ != #[trigger] entries[j].0@
}

} // verus!
