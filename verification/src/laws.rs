//! What holds of the operations on a tree, whatever the tree holds.
//!
//! The laws speak of contents, the maps that the operations are described by:
//! what they say of `inserted(m, p, v)` holds of every tree after
//! `insert(p, v)`, and so on.

use crate::model::{
    bare_root, cleared, deleted, enumerates, grafted, inserted, is_tree, positions_below,
    positions_under, subtree, value_at, Contents, Position,
};
use std::sync::Arc;
use vstd::prelude::*;

verus! {

/// A value that was stored at a position is the value found there.
pub proof fn lemma_insert_then_get<K, V>(m: Contents<K, V>, p: Position<K>, v: Arc<V>)
    ensures
        value_at(inserted(m, p, v), p) == Some(v),
{
    assert(p.is_prefix_of(p));
}

/// Of two values stored at one position the second finds the first there, and
/// is the one found afterwards; the first leaves no other trace.
pub proof fn lemma_insert_twice<K, V>(m: Contents<K, V>, p: Position<K>, v1: Arc<V>, v2: Arc<V>)
    ensures
        value_at(inserted(m, p, v1), p) == Some(v1),
        value_at(inserted(inserted(m, p, v1), p, v2), p) == Some(v2),
        inserted(inserted(m, p, v1), p, v2) == inserted(m, p, v2),
{
    assert(p.is_prefix_of(p));
}

/// Storing a value at one position leaves the value at every other position
/// as it was, whether the two positions begin alike or not.
pub proof fn lemma_insert_elsewhere<K, V>(
    m: Contents<K, V>,
    p1: Position<K>,
    v: Arc<V>,
    p2: Position<K>,
)
    requires
        p1 != p2,
    ensures
        value_at(inserted(m, p1, v), p2) == value_at(m, p2),
{
}

/// Values stored at two different positions can be stored in either order.
pub proof fn lemma_inserts_commute<K, V>(
    m: Contents<K, V>,
    p1: Position<K>,
    v1: Arc<V>,
    p2: Position<K>,
    v2: Arc<V>,
)
    requires
        p1 != p2,
    ensures
        inserted(inserted(m, p1, v1), p2, v2) == inserted(inserted(m, p2, v2), p1, v1),
{
}

/// A new tree holds no value, at the root or anywhere else.
pub proof fn lemma_new_tree_holds_nothing<K, V>(p: Position<K>)
    ensures
        value_at(bare_root::<K, V>(), p) is None,
{
}

/// Clearing a position takes its value and nothing more: the nodes are the
/// same, at and below every position, and every other value is as it was.
pub proof fn lemma_clear_keeps_the_rest<K, V>(m: Contents<K, V>, p: Position<K>)
    ensures
        value_at(cleared(m, p), p) is None,
        cleared(m, p).dom() == m.dom(),
        forall|q: Position<K>| q != p ==> #[trigger] cleared(m, p)[q] == m[q],
        forall|a: Position<K>| #[trigger] positions_under(cleared(m, p), a) == positions_under(m, a),
{
    assert forall|a: Position<K>| #[trigger]
        positions_under(cleared(m, p), a) == positions_under(m, a) by {
        assert(positions_under(cleared(m, p), a) =~= positions_under(m, a));
    }
}

/// Deleting a position other than the root takes the node and every node
/// below it: none of them is found afterwards, none holds a value, and none
/// is listed at or below any position. Every other node stays as it was.
pub proof fn lemma_delete_cuts_the_subtree<K, V>(m: Contents<K, V>, p: Position<K>)
    requires
        p.len() > 0,
    ensures
        forall|q: Position<K>|
            p.is_prefix_of(q) ==> !(#[trigger] deleted(m, p).contains_key(q)) && value_at(
                deleted(m, p),
                q,
            ) is None,
        forall|a: Position<K>, q: Position<K>|
            p.is_prefix_of(q) ==> !(#[trigger] positions_under(deleted(m, p), a).contains(q)),
        forall|q: Position<K>|
            !p.is_prefix_of(q) ==> (#[trigger] deleted(m, p).contains_key(q)) == m.contains_key(q)
                && value_at(deleted(m, p), q) == value_at(m, q),
{
}

/// Deleting the root takes its value and nothing more.
pub proof fn lemma_delete_root_clears_it<K, V>(m: Contents<K, V>)
    requires
        is_tree(m),
    ensures
        deleted(m, Seq::empty()) == cleared(m, Seq::empty()),
        value_at(deleted(m, Seq::empty()), Seq::empty()) is None,
{
}

/// A listing of the nodes at and below a position has one entry for each:
/// where the position is a node, one for it and one for each node below it.
pub proof fn lemma_listing_counts<K, V>(
    entries: Seq<(Vec<Arc<K>>, Option<Arc<V>>)>,
    m: Contents<K, V>,
    p: Position<K>,
)
    requires
        enumerates(entries, m, p),
    ensures
        positions_under(m, p).finite(),
        positions_below(m, p).finite(),
        entries.len() == positions_under(m, p).len(),
        m.contains_key(p) ==> entries.len() == 1 + positions_below(m, p).len(),
{
    // The positions that are listed, in the order of the listing: none comes
    // twice, and as a set they are the positions at and below `p`.
    let listed = entries.map_values(|e: (Vec<Arc<K>>, Option<Arc<V>>)| e.0@);
    assert(listed.no_duplicates());
    assert forall|q: Position<K>| listed.to_set().contains(q) == positions_under(m, p).contains(
        q,
    ) by {
        if positions_under(m, p).contains(q) {
            let i = choose|i: int| 0 <= i < entries.len() && #[trigger] entries[i].0@ == q;
            assert(listed[i] == q);
        }
    }
    assert(listed.to_set() =~= positions_under(m, p));
    listed.unique_seq_to_set();
    vstd::seq_lib::seq_to_set_is_finite(listed);
    assert(p.is_prefix_of(p));
}

/// Where no node is at a position, no node is below it, and a listing from
/// there is empty.
pub proof fn lemma_nothing_under_no_node<K, V>(m: Contents<K, V>, p: Position<K>)
    requires
        is_tree(m),
        !m.contains_key(p),
    ensures
        positions_under(m, p) == Set::<Position<K>>::empty(),
{
    assert forall|q: Position<K>| !positions_under(m, p).contains(q) by {
        if m.contains_key(q) && p.is_prefix_of(q) {
            assert(q.take(p.len() as int) =~= p);
        }
    }
}

/// What is put in the place of a child is what stands there afterwards, and
/// the tree is as it was everywhere else.
pub proof fn lemma_graft_is_local<K, V>(m: Contents<K, V>, k: Arc<K>, sub: Contents<K, V>)
    requires
        is_tree(m),
    ensures
        subtree(grafted(m, seq![k], sub), seq![k]) == sub,
        forall|q: Position<K>|
            !seq![k].is_prefix_of(q) ==> (#[trigger] grafted(m, seq![k], sub).contains_key(q))
                == m.contains_key(q) && value_at(grafted(m, seq![k], sub), q) == value_at(m, q),
{
    let p = seq![k];
    let g = grafted(m, p, sub);
    assert forall|q: Position<K>|
        #![trigger subtree(g, p).contains_key(q)]
        subtree(g, p).contains_key(q) == sub.contains_key(q) && (subtree(g, p).contains_key(q)
            ==> subtree(g, p)[q] == sub[q]) by {
        assert((p + q).skip(p.len() as int) =~= q);
    }
    assert forall|q: Position<K>| !p.is_prefix_of(q) implies (#[trigger] g.contains_key(q))
        == m.contains_key(q) && value_at(g, q) == value_at(m, q) by {
        if q.is_prefix_of(p) {
            // What begins `p` without `p` beginning it is the root.
            assert(q =~= Seq::empty());
        }
    }
}

/// What a tree holds after a value is stored is again what a tree holds.
pub proof fn lemma_inserted_is_tree<K, V>(m: Contents<K, V>, p: Position<K>, v: Arc<V>)
    requires
        is_tree(m),
    ensures
        is_tree(inserted(m, p, v)),
{
    let after = inserted(m, p, v);
    assert forall|q: Position<K>, n: int|
        after.contains_key(q) && 0 <= n <= q.len() implies #[trigger] after.contains_key(
        q.take(n),
    ) by {
        if !m.contains_key(q) {
            assert(q.take(n) =~= p.subrange(0, n));
        }
    }
}

/// What a tree holds after a position is cleared is again what a tree holds.
pub proof fn lemma_cleared_is_tree<K, V>(m: Contents<K, V>, p: Position<K>)
    requires
        is_tree(m),
    ensures
        is_tree(cleared(m, p)),
{
    let after = cleared(m, p);
    assert forall|q: Position<K>, n: int|
        after.contains_key(q) && 0 <= n <= q.len() implies #[trigger] after.contains_key(
        q.take(n),
    ) by {
        assert(m.contains_key(q.take(n)));
    }
}

/// What a tree holds after a position is deleted is again what a tree holds.
pub proof fn lemma_deleted_is_tree<K, V>(m: Contents<K, V>, p: Position<K>)
    requires
        is_tree(m),
    ensures
        is_tree(deleted(m, p)),
{
    let after = deleted(m, p);
    assert forall|q: Position<K>, n: int|
        after.contains_key(q) && 0 <= n <= q.len() implies #[trigger] after.contains_key(
        q.take(n),
    ) by {
        if p.len() == 0 && q == p {
            assert(q =~= Seq::empty());
        }
        assert(m.contains_key(q.take(n)));
    }
}

/// One change to a tree.
pub enum Change<K, V> {
    Insert(Seq<Arc<K>>, Arc<V>),
    Clear(Seq<Arc<K>>),
    Delete(Seq<Arc<K>>),
}

/// What a tree holds after one change.
pub open spec fn changed<K, V>(m: Contents<K, V>, change: Change<K, V>) -> Contents<K, V> {
    match change {
        Change::Insert(p, v) => inserted(m, p, v),
        Change::Clear(p) => cleared(m, p),
        Change::Delete(p) => deleted(m, p),
    }
}

/// What a tree holds after a run of changes, the first of them first.
pub open spec fn changed_by_all<K, V>(m: Contents<K, V>, changes: Seq<Change<K, V>>) -> Contents<
    K,
    V,
>
    decreases changes.len(),
{
    if changes.len() == 0 {
        m
    } else {
        changed(changed_by_all(m, changes.drop_last()), changes.last())
    }
}

/// What a tree holds after one change is again what a tree holds.
pub proof fn lemma_changed_is_tree<K, V>(m: Contents<K, V>, change: Change<K, V>)
    requires
        is_tree(m),
    ensures
        is_tree(changed(m, change)),
{
    match change {
        Change::Insert(p, v) => lemma_inserted_is_tree(m, p, v),
        Change::Clear(p) => lemma_cleared_is_tree(m, p),
        Change::Delete(p) => lemma_deleted_is_tree(m, p),
    }
}

/// Whatever was done to a new tree, a position at which nothing was ever
/// stored holds no value.
pub proof fn lemma_never_inserted_is_absent<K, V>(changes: Seq<Change<K, V>>, p: Position<K>)
    requires
        forall|i: int|
            0 <= i < changes.len() ==> (#[trigger] changes[i] matches Change::Insert(at, _) ==> at
                != p),
    ensures
        value_at(changed_by_all(bare_root::<K, V>(), changes), p) is None,
    decreases changes.len(),
{
    if changes.len() > 0 {
        let earlier = changes.drop_last();
        assert forall|i: int| 0 <= i < earlier.len() implies (#[trigger] earlier[i] matches Change::Insert(
            at,
            _,
        ) ==> at != p) by {
            assert(earlier[i] == changes[i]);
        }
        lemma_never_inserted_is_absent(earlier, p);
        assert(changes[changes.len() - 1] == changes.last());
    }
}

/// Whatever was done to a new tree, it holds what a tree can hold, and nodes
/// only where a value was stored at or below: nothing but storing makes a
/// node, and it makes no node off its way.
pub proof fn lemma_nodes_come_from_inserts<K, V>(changes: Seq<Change<K, V>>, q: Position<K>)
    ensures
        is_tree(changed_by_all(bare_root::<K, V>(), changes)),
        changed_by_all(bare_root::<K, V>(), changes).contains_key(q) ==> q.len() == 0 || exists|
            i: int,
        |
            0 <= i < changes.len() && (#[trigger] changes[i] matches Change::Insert(at, _)
                && q.is_prefix_of(at)),
    decreases changes.len(),
{
    if changes.len() == 0 {
        assert forall|p: Position<K>, n: int|
            bare_root::<K, V>().contains_key(p) && 0 <= n <= p.len() implies #[trigger] bare_root::<
            K,
            V,
        >().contains_key(p.take(n)) by {
            assert(p.take(n) =~= Seq::empty());
        }
    } else {
        let earlier = changes.drop_last();
        let before = changed_by_all(bare_root::<K, V>(), earlier);
        let after = changed_by_all(bare_root::<K, V>(), changes);
        lemma_nodes_come_from_inserts(earlier, q);
        lemma_changed_is_tree(before, changes.last());
        if after.contains_key(q) && q.len() > 0 {
            if before.contains_key(q) {
                let i = choose|i: int|
                    0 <= i < earlier.len() && (#[trigger] earlier[i] matches Change::Insert(at, _)
                        && q.is_prefix_of(at));
                assert(changes[i] == earlier[i]);
            } else {
                assert(changes[changes.len() - 1] == changes.last());
            }
        }
    }
}

/// After values were stored at positions that all differ, in whatever order,
/// each position holds the value that was stored there: no write is lost.
pub proof fn lemma_every_insert_is_found<K, V>(
    m: Contents<K, V>,
    changes: Seq<Change<K, V>>,
    i: int,
)
    requires
        0 <= i < changes.len(),
        forall|j: int| 0 <= j < changes.len() ==> #[trigger] changes[j] is Insert,
        forall|j: int, k: int|
            0 <= j < k < changes.len() ==> (#[trigger] changes[j])->Insert_0 != (
            #[trigger] changes[k])->Insert_0,
    ensures
        value_at(changed_by_all(m, changes), changes[i]->Insert_0) == Some(changes[i]->Insert_1),
    decreases changes.len(),
{
    let earlier = changes.drop_last();
    let before = changed_by_all(m, earlier);
    let last = changes.last();
    assert(changes[changes.len() - 1] == last);
    if i == changes.len() - 1 {
        lemma_insert_then_get(before, last->Insert_0, last->Insert_1);
    } else {
        assert forall|j: int| 0 <= j < earlier.len() implies #[trigger] earlier[j] is Insert by {
            assert(earlier[j] == changes[j]);
        }
        assert forall|j: int, k: int| 0 <= j < k < earlier.len() implies (#[trigger] earlier[j])->Insert_0
            != (#[trigger] earlier[k])->Insert_0 by {
            assert(earlier[j] == changes[j]);
            assert(earlier[k] == changes[k]);
        }
        assert(earlier[i] == changes[i]);
        lemma_every_insert_is_found(m, earlier, i);
        lemma_insert_elsewhere(before, last->Insert_0, last->Insert_1, changes[i]->Insert_0);
    }
}

} // verus!
