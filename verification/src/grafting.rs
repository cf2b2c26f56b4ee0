//! How the contents of a tree change when what stands at one position is
//! replaced. The walks that change a tree rest on these facts: each step
//! down replaces a child, and the steps add up.

use crate::model::{
    bare_root, cleared, deleted, grafted, inserted, is_tree, subtree, Contents, Position,
};
use std::sync::Arc;
use vstd::prelude::*;

verus! {

/// What is at and below `p`, where a walk that makes the nodes it misses would
/// find it: the subtree at `p`, or a bare root where `p` is no node yet.
pub open spec fn found_or_made<K, V>(m: Contents<K, V>, p: Position<K>) -> Contents<K, V> {
    if m.contains_key(p) {
        subtree(m, p)
    } else {
        bare_root()
    }
}

/// `p.push(k)` begins `q` exactly when `p` begins `q` and `k` comes next in
/// `q`; what begins `p.push(k)` begins `p` or is all of `p.push(k)`.
pub proof fn lemma_prefix_push<K>(p: Position<K>, k: Arc<K>, q: Position<K>)
    ensures
        p.push(k).is_prefix_of(q) <==> p.is_prefix_of(q) && q.len() > p.len() && q[p.len() as int]
            == k,
        p.is_prefix_of(q) ==> (seq![k].is_prefix_of(q.skip(p.len() as int)) <==> p.push(
            k,
        ).is_prefix_of(q)),
        p.is_prefix_of(q) ==> p + q.skip(p.len() as int) == q,
        q.is_prefix_of(p.push(k)) <==> q.is_prefix_of(p) || q == p.push(k),
        p.is_prefix_of(q) && q.is_prefix_of(p) ==> q == p,
{
    let pk = p.push(k);
    if pk.is_prefix_of(q) {
        assert(q.subrange(0, pk.len() as int)[p.len() as int] == k);
    }
    if p.is_prefix_of(q) && seq![k].is_prefix_of(q.skip(p.len() as int)) {
        assert(q.skip(p.len() as int).subrange(0, 1)[0] == k);
    }
    if q.is_prefix_of(pk) && q.len() == pk.len() {
        assert(q =~= pk);
    }
}

/// In a tree, a node's prefixes are nodes.
pub proof fn lemma_prefix_is_node<K, V>(m: Contents<K, V>, p: Position<K>, q: Position<K>)
    requires
        is_tree(m),
        m.contains_key(q),
        p.is_prefix_of(q),
    ensures
        m.contains_key(p),
{
    assert(q.take(p.len() as int) =~= p);
}

/// The subtree at the root is the whole tree.
pub proof fn lemma_subtree_at_root<K, V>(m: Contents<K, V>)
    ensures
        subtree(m, Seq::empty()) == m,
{
    assert forall|q: Position<K>| Seq::<Arc<K>>::empty() + q == q by {
        assert(Seq::<Arc<K>>::empty() + q =~= q);
    }
}

/// One step further down: the child `k` of the subtree at `p` is the subtree
/// at `p.push(k)`, and is there exactly when that position is a node.
pub proof fn lemma_subtree_step<K, V>(m: Contents<K, V>, p: Position<K>, k: Arc<K>)
    ensures
        subtree(m, p).contains_key(seq![k]) <==> m.contains_key(p.push(k)),
        subtree(subtree(m, p), seq![k]) == subtree(m, p.push(k)),
{
    assert(p.push(k) =~= p + seq![k]);
    assert forall|q: Position<K>| p + (seq![k] + q) == p.push(k) + q by {
        assert(p + (seq![k] + q) =~= p.push(k) + q);
    }
}

/// Grafting at the root replaces the whole tree.
pub proof fn lemma_graft_at_root<K, V>(m: Contents<K, V>, sub: Contents<K, V>)
    ensures
        grafted(m, Seq::empty(), sub) == sub,
{
    let g = grafted(m, Seq::empty(), sub);
    assert forall|q: Position<K>|
        #![trigger g.contains_key(q)]
        g.contains_key(q) == sub.contains_key(q) && (g.contains_key(q) ==> g[q] == sub[q]) by {
        assert(q.skip(0) =~= q);
    }
}

/// One step further down: what is found or made at `p.push(k)` is the child
/// `k` of what is found or made at `p`.
pub proof fn lemma_found_or_made_step<K, V>(m: Contents<K, V>, p: Position<K>, k: Arc<K>)
    requires
        is_tree(m),
    ensures
        found_or_made(m, p.push(k)) == found_or_made(found_or_made(m, p), seq![k]),
{
    let lhs = found_or_made(m, p.push(k));
    let rhs = found_or_made(found_or_made(m, p), seq![k]);
    assert(p.push(k) =~= p + seq![k]);
    lemma_prefix_push(p, k, p.push(k));
    if m.contains_key(p.push(k)) {
        lemma_prefix_is_node(m, p, p.push(k));
        assert forall|q: Position<K>|
            #![trigger lhs.contains_key(q)]
            lhs.contains_key(q) == rhs.contains_key(q) && (lhs.contains_key(q) ==> lhs[q]
                == rhs[q]) by {
            assert(p.push(k) + q =~= p + (seq![k] + q));
        }
    }
}

/// Grafting below a graft: putting `sub` in for the child `k` of what is at
/// `p`, and that in for what is at `p`, puts `sub` in at `p.push(k)`.
pub proof fn lemma_graft_step<K, V>(
    m: Contents<K, V>,
    p: Position<K>,
    k: Arc<K>,
    sub: Contents<K, V>,
)
    requires
        is_tree(m),
    ensures
        grafted(m, p, grafted(found_or_made(m, p), seq![k], sub)) == grafted(m, p.push(k), sub),
{
    let lhs = grafted(m, p, grafted(found_or_made(m, p), seq![k], sub));
    let pk = p.push(k);
    let rhs = grafted(m, pk, sub);
    assert forall|q: Position<K>|
        #![trigger lhs.contains_key(q)]
        lhs.contains_key(q) == rhs.contains_key(q) && (lhs.contains_key(q) ==> lhs[q]
            == rhs[q]) by {
        lemma_prefix_push(p, k, q);
        if p.is_prefix_of(q) {
            let rest = q.skip(p.len() as int);
            if pk.is_prefix_of(q) {
                assert(rest.skip(1) =~= q.skip(pk.len() as int));
            } else {
                lemma_prefix_push(Seq::empty(), k, rest);
                if m.contains_key(q) {
                    lemma_prefix_is_node(m, p, q);
                }
            }
        }
    }
}

/// Storing a value in what is found or made at `p`, grafted back, is storing
/// it at `p`.
pub proof fn lemma_graft_value<K, V>(m: Contents<K, V>, p: Position<K>, v: Arc<V>)
    requires
        is_tree(m),
    ensures
        grafted(m, p, found_or_made(m, p).insert(Seq::empty(), Some(v))) == inserted(m, p, v),
{
    let lhs = grafted(m, p, found_or_made(m, p).insert(Seq::empty(), Some(v)));
    let rhs = inserted(m, p, v);
    assert forall|q: Position<K>|
        #![trigger lhs.contains_key(q)]
        lhs.contains_key(q) == rhs.contains_key(q) && (lhs.contains_key(q) ==> lhs[q]
            == rhs[q]) by {
        if p.is_prefix_of(q) {
            let rest = q.skip(p.len() as int);
            assert(p + rest =~= q);
            if rest.len() == 0 {
                assert(rest =~= Seq::empty());
            } else if m.contains_key(q) {
                lemma_prefix_is_node(m, p, q);
            }
        }
    }
}

/// Grafting a subtree back where it came from changes nothing.
pub proof fn lemma_graft_back<K, V>(m: Contents<K, V>, p: Position<K>)
    requires
        is_tree(m),
        m.contains_key(p),
    ensures
        grafted(m, p, subtree(m, p)) == m,
{
    let lhs = grafted(m, p, subtree(m, p));
    assert forall|q: Position<K>|
        #![trigger lhs.contains_key(q)]
        lhs.contains_key(q) == m.contains_key(q) && (lhs.contains_key(q) ==> lhs[q] == m[q]) by {
        if p.is_prefix_of(q) {
            assert(p + q.skip(p.len() as int) =~= q);
        } else if q.is_prefix_of(p) {
            lemma_prefix_is_node(m, q, p);
        }
    }
}

/// Taking the value from the subtree at `p`, grafted back, is clearing `p`.
pub proof fn lemma_graft_cleared<K, V>(m: Contents<K, V>, p: Position<K>)
    requires
        is_tree(m),
        m.contains_key(p),
    ensures
        grafted(m, p, subtree(m, p).insert(Seq::empty(), None)) == cleared(m, p),
{
    let lhs = grafted(m, p, subtree(m, p).insert(Seq::empty(), None));
    let rhs = cleared(m, p);
    assert forall|q: Position<K>|
        #![trigger lhs.contains_key(q)]
        lhs.contains_key(q) == rhs.contains_key(q) && (lhs.contains_key(q) ==> lhs[q]
            == rhs[q]) by {
        if p.is_prefix_of(q) {
            let rest = q.skip(p.len() as int);
            assert(p + rest =~= q);
            if rest.len() == 0 {
                assert(rest =~= Seq::empty());
            }
        } else if q.is_prefix_of(p) {
            lemma_prefix_is_node(m, q, p);
        }
    }
}

/// Cutting the child `k` off the subtree at `p`, grafted back, is deleting
/// `p.push(k)`.
pub proof fn lemma_graft_deleted<K, V>(m: Contents<K, V>, p: Position<K>, k: Arc<K>)
    requires
        is_tree(m),
        m.contains_key(p),
    ensures
        grafted(m, p, deleted(subtree(m, p), seq![k])) == deleted(m, p.push(k)),
{
    let lhs = grafted(m, p, deleted(subtree(m, p), seq![k]));
    let rhs = deleted(m, p.push(k));
    assert forall|q: Position<K>|
        #![trigger lhs.contains_key(q)]
        lhs.contains_key(q) == rhs.contains_key(q) && (lhs.contains_key(q) ==> lhs[q]
            == rhs[q]) by {
        lemma_prefix_push(p, k, q);
        if !p.is_prefix_of(q) && q.is_prefix_of(p) {
            lemma_prefix_is_node(m, q, p);
        }
    }
}

} // verus!
