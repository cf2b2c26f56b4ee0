//! The trie itself: a node holds an optional shared value and its children by
//! fragment.
//!
//! What a tree holds is its view, a map from the positions of its nodes to
//! their values (see `model`). Every operation says what it returns and what
//! it makes of that map.
//!
//! The children of a node are kept in a `HashMap`. What the operations promise
//! therefore rests on `obeys_key_model`, the assumption under which `vstd`
//! describes such a map: that hashing a fragment twice gives the same, and
//! that `==` holds of two fragments exactly when they are the same fragment.
//! `String`, `&str` and the integers are such fragments. Each operation asks
//! for it where it looks into a map: the walks along a path do for a path
//! that is not empty, the others always.

use crate::grafting::{
    found_or_made, lemma_found_or_made_step, lemma_graft_at_root, lemma_graft_back,
    lemma_graft_cleared, lemma_graft_deleted, lemma_graft_step, lemma_graft_value,
    lemma_prefix_is_node, lemma_prefix_push, lemma_subtree_at_root, lemma_subtree_step,
};
use crate::laws::{lemma_listing_counts, lemma_nothing_under_no_node};
use crate::model::{
    bare_root, branch_names, cleared, deleted, enumerates, grafted, inserted, is_tree,
    positions_below, positions_under, subtree, value_at, Contents, Position,
};
use std::collections::hash_map::Entry;
use std::collections::HashMap;
use std::hash::Hash;
use std::sync::Arc;
use vstd::prelude::*;
use vstd::std_specs::hash::{obeys_key_model, spec_hash_map_iter};
use vstd::std_specs::iter::IteratorSpec;

verus! {

/// PathTree represents a structure where every value is identified
/// by a path. The path consists of a vector of elements called
/// fragments. Multiple values in a PathTree can be retrieved
/// or deleted by referring to a position and applying an operation
/// to all branches at the position.
#[derive(Debug)]
pub struct PathTree<K, V> {
    leaf: Option<Arc<V>>,
    branches: HashMap<Arc<K>, PathTree<K, V>>,
}

/// The fragments that lead from the root to a position, each shared.
pub type Path<K> = Vec<Arc<K>>;

/// The shared value at a position, if the position holds one.
pub type Value<V> = Option<Arc<V>>;

/// `Arc::clone`: one more handle to the allocation that `handle` points to, and
/// so to the same value. Nothing is proved of it; the contract is what the
/// documentation of `Arc` says.
#[verifier::external_body]
fn share<T>(handle: &Arc<T>) -> (copy: Arc<T>)
    ensures
        copy == *handle,
{
    Arc::clone(handle)
}

/// One more handle to a value that may be absent.
fn share_value<V>(value: &Value<V>) -> (copy: Value<V>)
    ensures
        copy == *value,
{
    match value {
        None => None,
        Some(handle) => Some(share(handle)),
    }
}

/// A path with the same fragments, each shared.
fn share_path<K>(path: &[Arc<K>]) -> (copy: Path<K>)
    ensures
        copy@ == path@,
{
    let mut copy: Path<K> = Vec::new();
    let mut index: usize = 0;
    while index < path.len()
        invariant
            index <= path.len(),
            copy@ == path@.take(index as int),
        decreases path.len() - index,
    {
        copy.push(share(&path[index]));
        index += 1;
    }
    copy
}

/// Whether `entries` lists nodes of `sub`, each once and with its leaf value,
/// by the position that it has when the root of `sub` stands at `base`: the
/// root, and all nodes at and below the children named in `done`.
spec fn lists_part<K, V>(
    entries: Seq<(Path<K>, Value<V>)>,
    sub: Contents<K, V>,
    base: Position<K>,
    done: Set<Arc<K>>,
) -> bool {
    &&& forall|i: int|
        0 <= i < entries.len() ==> {
            &&& base.is_prefix_of(#[trigger] entries[i].0@)
            &&& sub.contains_key(entries[i].0@.skip(base.len() as int))
            &&& entries[i].1 == sub[entries[i].0@.skip(base.len() as int)]
            &&& (entries[i].0@.len() == base.len() || done.contains(
                entries[i].0@[base.len() as int],
            ))
        }
    &&& forall|q: Position<K>| #[trigger]
        sub.contains_key(q) && (q.len() == 0 || done.contains(q[0])) ==> exists|i: int|
            0 <= i < entries.len() && #[trigger] entries[i].0@ == base + q
    &&& forall|i: int, j: int|
        0 <= i < j < entries.len() ==> #[trigger] entries[i].0@ != #[trigger] entries[j].0@
}

/// Whether `entries` lists the nodes of `sub`, all of them.
spec fn lists_from<K, V>(
    entries: Seq<(Path<K>, Value<V>)>,
    sub: Contents<K, V>,
    base: Position<K>,
) -> bool {
    lists_part(entries, sub, base, Set::full())
}

/// A listing of the root alone lists the part without children.
proof fn lemma_listing_begins<K, V>(
    entries: Seq<(Path<K>, Value<V>)>,
    sub: Contents<K, V>,
    base: Position<K>,
)
    requires
        entries.len() == 1,
        entries[0].0@ == base,
        sub.contains_key(Seq::empty()),
        entries[0].1 == sub[Seq::empty()],
    ensures
        lists_part(entries, sub, base, Set::empty()),
{
    assert(base.skip(base.len() as int) =~= Seq::empty());
    assert forall|q: Position<K>| #[trigger]
        sub.contains_key(q) && (q.len() == 0 || Set::<Arc<K>>::empty().contains(
            q[0],
        )) implies exists|i: int| 0 <= i < entries.len() && #[trigger] entries[i].0@ == base + q by {
        assert(q =~= Seq::empty());
        assert(base + q =~= base);
        assert(entries[0].0@ == base + q);
    }
}

/// A listing grows by what is at and below one more child: by a listing of
/// what the child holds, with the root of the child at `base.push(name)`.
proof fn lemma_listing_grows<K, V>(
    so_far: Seq<(Path<K>, Value<V>)>,
    listed: Seq<(Path<K>, Value<V>)>,
    sub: Contents<K, V>,
    base: Position<K>,
    done: Set<Arc<K>>,
    name: Arc<K>,
)
    requires
        lists_part(so_far, sub, base, done),
        !done.contains(name),
        sub.contains_key(seq![name]),
        lists_from(listed, subtree(sub, seq![name]), base.push(name)),
    ensures
        lists_part(so_far + listed, sub, base, done.insert(name)),
{
    let all = so_far + listed;
    let child = subtree(sub, seq![name]);
    let below = base.push(name);
    let more = done.insert(name);
    assert forall|i: int| 0 <= i < all.len() implies {
        &&& base.is_prefix_of(#[trigger] all[i].0@)
        &&& sub.contains_key(all[i].0@.skip(base.len() as int))
        &&& all[i].1 == sub[all[i].0@.skip(base.len() as int)]
        &&& (all[i].0@.len() == base.len() || more.contains(all[i].0@[base.len() as int]))
    } by {
        if i >= so_far.len() {
            let entry = listed[i - so_far.len()];
            let q = entry.0@;
            lemma_prefix_push(base, name, q);
            let rest = q.skip(base.len() as int);
            assert(rest =~= seq![name] + q.skip(below.len() as int));
        }
    }
    assert forall|q: Position<K>| #[trigger]
        sub.contains_key(q) && (q.len() == 0 || more.contains(q[0])) implies exists|i: int|
        0 <= i < all.len() && #[trigger] all[i].0@ == base + q by {
        if q.len() > 0 && q[0] == name {
            assert(seq![name] + q.skip(1) =~= q);
            assert(child.contains_key(q.skip(1)));
            let i = choose|i: int|
                0 <= i < listed.len() && #[trigger] listed[i].0@ == below + q.skip(1);
            assert(all[so_far.len() + i] == listed[i]);
        } else {
            let i = choose|i: int| 0 <= i < so_far.len() && #[trigger] so_far[i].0@ == base + q;
            assert(all[i] == so_far[i]);
        }
    }
    assert forall|i: int, j: int| 0 <= i < j < all.len() implies #[trigger] all[i].0@
        != #[trigger] all[j].0@ by {
        if i < so_far.len() <= j {
            // One is at or below a child gone through before, or is the
            // root; the other is at or below the new child.
            lemma_prefix_push(base, name, all[j].0@);
        }
    }
}

/// A listing that has gone through every child is complete.
proof fn lemma_listing_ends<K, V>(
    entries: Seq<(Path<K>, Value<V>)>,
    sub: Contents<K, V>,
    base: Position<K>,
    done: Set<Arc<K>>,
)
    requires
        is_tree(sub),
        lists_part(entries, sub, base, done),
        forall|name: Arc<K>| sub.contains_key(seq![name]) ==> done.contains(name),
    ensures
        lists_from(entries, sub, base),
{
    assert forall|q: Position<K>| #[trigger]
        sub.contains_key(q) && (q.len() == 0 || Set::<Arc<K>>::full().contains(
            q[0],
        )) implies exists|i: int| 0 <= i < entries.len() && #[trigger] entries[i].0@ == base + q by {
        if q.len() > 0 {
            assert(q.take(1) =~= seq![q[0]]);
        }
    }
}

/// A listing of the subtree at `p`, by positions from `p` on, lists the nodes
/// of the tree at and below `p`.
proof fn lemma_listing_of_subtree<K, V>(
    entries: Seq<(Path<K>, Value<V>)>,
    m: Contents<K, V>,
    p: Position<K>,
)
    requires
        lists_from(entries, subtree(m, p), p),
    ensures
        enumerates(entries, m, p),
{
    let sub = subtree(m, p);
    assert forall|i: int| 0 <= i < entries.len() implies positions_under(m, p).contains(
        #[trigger] entries[i].0@,
    ) && entries[i].1 == m[entries[i].0@] by {
        let q = entries[i].0@;
        assert(p + q.skip(p.len() as int) =~= q);
    }
    assert forall|q: Position<K>| #[trigger] positions_under(m, p).contains(q) implies exists|
        i: int,
    |
        0 <= i < entries.len() && #[trigger] entries[i].0@ == q by {
        let rest = q.skip(p.len() as int);
        assert(p + rest =~= q);
        assert(sub.contains_key(rest));
    }
}

impl<K, V> PathTree<K, V> {
    /// The node that `path` leads to from this one, if each fragment in turn
    /// names a branch.
    spec fn node_at(self, path: Position<K>) -> Option<Self>
        decreases path.len(),
    {
        if path.len() == 0 {
            Some(self)
        } else if self.branches@.contains_key(path[0]) {
            self.branches@[path[0]].node_at(path.skip(1))
        } else {
            None
        }
    }

    /// Following `p` and then `q` is following `p + q`.
    proof fn lemma_node_at_concat(self, p: Position<K>, q: Position<K>)
        ensures
            self.node_at(p + q) == (match self.node_at(p) {
                Some(n) => n.node_at(q),
                None => None,
            }),
        decreases p.len(),
    {
        if p.len() == 0 {
            assert(p + q =~= q);
        } else {
            assert((p + q).skip(1) =~= p.skip(1) + q);
            if self.branches@.contains_key(p[0]) {
                self.branches@[p[0]].lemma_node_at_concat(p.skip(1), q);
            }
        }
    }

    /// The root is a node, and its entry is the value that the tree itself
    /// holds.
    proof fn lemma_root_entry(self)
        ensures
            self@.contains_key(Seq::empty()),
            self@[Seq::empty()] == self.leaf,
    {
    }

    /// What the tree holds below its root, by what its children hold.
    proof fn lemma_view_unfold(self)
        ensures
            forall|p: Position<K>|
                p.len() > 0 ==> (#[trigger] self@.contains_key(p) <==> self.branches@.contains_key(
                    p[0],
                ) && self.branches@[p[0]]@.contains_key(p.skip(1))),
            forall|p: Position<K>|
                p.len() > 0 && #[trigger] self@.contains_key(p) ==> self@[p]
                    == self.branches@[p[0]]@[p.skip(1)],
    {
    }

    /// A child holds what the tree holds below the child's name.
    proof fn lemma_branch_view(self, k: Arc<K>)
        ensures
            self@.contains_key(seq![k]) <==> self.branches@.contains_key(k),
            self.branches@.contains_key(k) ==> self.branches@[k]@ == subtree(self@, seq![k]),
    {
        let p = seq![k];
        assert(p.skip(1) =~= Seq::empty());
        reveal_with_fuel(PathTree::node_at, 2);
        if self.branches@.contains_key(k) {
            let child = self.branches@[k];
            assert(self.node_at(p) == Some(child));
            assert forall|q: Position<K>| child.node_at(q) == self.node_at(p + q) by {
                self.lemma_node_at_concat(p, q);
            }
            assert(child@ =~= subtree(self@, p));
        }
    }

    /// A tree that differs from this one in the child `k` holds this one's
    /// contents with the child's grafted in at `k`.
    proof fn lemma_branch_replaced(self, after: Self, k: Arc<K>, child: Self)
        requires
            after.leaf == self.leaf,
            after.branches@ == self.branches@.insert(k, child),
        ensures
            after@ == grafted(self@, seq![k], child@),
    {
        let g = grafted(self@, seq![k], child@);
        self.lemma_view_unfold();
        after.lemma_view_unfold();
        self.lemma_root_entry();
        after.lemma_root_entry();
        assert forall|q: Position<K>|
            #![trigger after@.contains_key(q)]
            after@.contains_key(q) == g.contains_key(q) && (after@.contains_key(q) ==> after@[q]
                == g[q]) by {
            lemma_prefix_push(Seq::empty(), k, q);
        }
    }

    /// A tree with the same children holds the same but for the root's value.
    proof fn lemma_leaf_replaced(self, after: Self)
        requires
            after.branches@ == self.branches@,
        ensures
            after@ == self@.insert(Seq::empty(), after.leaf),
    {
        let g = self@.insert(Seq::empty(), after.leaf);
        self.lemma_view_unfold();
        after.lemma_view_unfold();
        self.lemma_root_entry();
        after.lemma_root_entry();
        assert forall|q: Position<K>|
            #![trigger after@.contains_key(q)]
            after@.contains_key(q) == g.contains_key(q) && (after@.contains_key(q) ==> after@[q]
                == g[q]) by {
            if q.len() == 0 {
                assert(q =~= Seq::empty());
            }
        }
    }

    /// A tree with the same value and the same children holds the same.
    proof fn lemma_same_node(self, after: Self)
        requires
            after.leaf == self.leaf,
            after.branches@ == self.branches@,
        ensures
            after@ == self@,
    {
        self.lemma_root_entry();
        self.lemma_leaf_replaced(after);
        assert(self@.insert(Seq::empty(), after.leaf) =~= self@);
    }

    /// A tree that lacks the child `k` of this one, and is the same otherwise,
    /// holds this one's contents without what was at and below `k`.
    proof fn lemma_branch_removed(self, after: Self, k: Arc<K>)
        requires
            after.leaf == self.leaf,
            after.branches@ == self.branches@.remove(k),
        ensures
            after@ == deleted(self@, seq![k]),
    {
        let g = deleted(self@, seq![k]);
        self.lemma_view_unfold();
        after.lemma_view_unfold();
        self.lemma_root_entry();
        after.lemma_root_entry();
        assert forall|q: Position<K>|
            #![trigger after@.contains_key(q)]
            after@.contains_key(q) == g.contains_key(q) && (after@.contains_key(q) ==> after@[q]
                == g[q]) by {
            lemma_prefix_push(Seq::empty(), k, q);
        }
    }

    /// What a tree holds is what a tree can hold: its root is a node, and with
    /// a node every node on the way to it.
    pub proof fn lemma_view_is_tree(self)
        ensures
            is_tree(self@),
    {
        self.lemma_root_entry();
        assert forall|p: Position<K>, n: int|
            self@.contains_key(p) && 0 <= n <= p.len() implies #[trigger] self@.contains_key(
            p.take(n),
        ) by {
            assert(p =~= p.take(n) + p.skip(n));
            self.lemma_node_at_concat(p.take(n), p.skip(n));
        }
    }
}

impl<K, V> View for PathTree<K, V> {
    type V = Contents<K, V>;

    /// The nodes of the tree by position, each with its leaf value.
    closed spec fn view(&self) -> Self::V {
        Map::new(
            |p: Position<K>| self.node_at(p) is Some,
            |p: Position<K>| self.node_at(p)->0.leaf,
        )
    }
}

impl<K: Eq + Hash, V> Default for PathTree<K, V> {
    fn default() -> (tree: Self)
        ensures
            tree@ == bare_root::<K, V>(),
    {
        Self::new()
    }
}

impl<K: Eq + Hash, V> PathTree<K, V> {
    /// Constructs a new empty PathTree: a root without a value and without
    /// branches.
    pub fn new() -> (tree: PathTree<K, V>)
        ensures
            tree@ == bare_root::<K, V>(),
    {
        let tree = PathTree { leaf: None, branches: HashMap::new() };
        proof {
            tree.lemma_root_entry();
            tree.lemma_view_unfold();
            assert forall|p: Position<K>| tree@.contains_key(p) implies p == Seq::<Arc<K>>::empty() by {
                assert(p =~= Seq::empty());
            }
            assert(tree@ =~= bare_root::<K, V>());
        }
        tree
    }

    /// Gets an immutable reference to a position at a given path: the node
    /// that the path leads to, which holds what the tree holds from there on.
    /// There is none where a fragment on the way names no branch.
    pub fn get_ref(&self, path: &[Arc<K>]) -> (node: Option<&PathTree<K, V>>)
        requires
            path@.len() > 0 ==> obeys_key_model::<Arc<K>>(),
        ensures
            (match node {
                Some(found) => self@.contains_key(path@) && found@ == subtree(self@, path@),
                None => !self@.contains_key(path@),
            }),
    {
        proof {
            self.lemma_root_entry();
            self.lemma_view_is_tree();
            lemma_subtree_at_root(self@);
        }
        let mut iteratee = self;
        let mut index: usize = 0;
        while index < path.len()
            invariant
                path@.len() > 0 ==> obeys_key_model::<Arc<K>>(),
                index <= path.len(),
                is_tree(self@),
                self@.contains_key(path@.take(index as int)),
                iteratee@ == subtree(self@, path@.take(index as int)),
            decreases path.len() - index,
        {
            proof {
                let walked = path@.take(index as int);
                let fragment = path@[index as int];
                iteratee.lemma_branch_view(fragment);
                lemma_subtree_step(self@, walked, fragment);
                assert(path@.take(index + 1) =~= walked.push(fragment));
            }
            match iteratee.branches.get(&path[index]) {
                None => {
                    proof {
                        let missing = path@.take(index + 1);
                        if self@.contains_key(path@) {
                            lemma_prefix_is_node(self@, missing, path@);
                        }
                    }
                    return None;
                },
                Some(path_tree) => {
                    iteratee = path_tree;
                },
            }
            index += 1;
        }
        proof {
            assert(path@.take(index as int) =~= path@);
        }
        Some(iteratee)
    }

    /// Gets a reference to a value at given path. A path that leads to no
    /// node and a path that leads to a node without a value both give `None`.
    pub fn get(&self, path: &[Arc<K>]) -> (value: Value<V>) where V: Clone
        requires
            path@.len() > 0 ==> obeys_key_model::<Arc<K>>(),
        ensures
            value == value_at(self@, path@),
    {
        match self.get_ref(path) {
            None => None,
            Some(node) => {
                proof {
                    node.lemma_root_entry();
                }
                share_value(&node.leaf)
            },
        }
    }

    /// Lists this node and every node below it, each by the position that it
    /// has when this node stands at `path`. Utility function used by get_all.
    fn get_leaves(&self, path: &[Arc<K>]) -> (leaves: Vec<(Path<K>, Value<V>)>)
        requires
            obeys_key_model::<Arc<K>>(),
        ensures
            lists_from(leaves@, self@, path@),
        decreases self,
    {
        let mut leaves: Vec<(Path<K>, Value<V>)> = Vec::new();
        leaves.push((share_path(path), share_value(&self.leaf)));
        // The names of the branches that are gone through.
        let ghost mut done: Set<Arc<K>> = Set::empty();
        proof {
            self.lemma_root_entry();
            lemma_listing_begins(leaves@, self@, path@);
        }
        for branch in it: self.branches.iter()
            invariant
                obeys_key_model::<Arc<K>>(),
                it.seq() == spec_hash_map_iter(&self.branches).remaining(),
                it.seq().no_duplicates(),
                forall|j: int|
                    0 <= j < it.seq().len() ==> (done.contains(*it.seq()[j].0) <==> j < it.index()),
                lists_part(leaves@, self@, path@, done),
        {
            let mut branch_path = share_path(path);
            branch_path.push(share(branch.0));
            let ghost name = *branch.0;
            proof {
                assert(self.branches@.contains_key(name) && self.branches@[name] == *branch.1);
                assert(decreases_to!(self.branches => self.branches@));
                assert(decreases_to!(self.branches@ => self.branches@[name]));
                self.lemma_branch_view(name);
            }
            let mut below = branch.1.get_leaves(branch_path.as_slice());
            proof {
                lemma_listing_grows(leaves@, below@, self@, path@, done, name);
                assert forall|j: int| 0 <= j < it.seq().len() implies (done.insert(name).contains(
                    *it.seq()[j].0,
                ) <==> j < it.index() + 1) by {
                    let pairs = it.seq();
                    assert(self.branches@[*pairs[j].0] == *pairs[j].1);
                    if *pairs[j].0 == name && j != it.index() {
                        assert(pairs[j] == pairs[it.index()]);
                    }
                }
                done = done.insert(name);
            }
            leaves.append(&mut below);
        }
        proof {
            let pairs = spec_hash_map_iter(&self.branches).remaining();
            assert forall|name: Arc<K>| self@.contains_key(seq![name]) implies done.contains(
                name,
            ) by {
                self.lemma_branch_view(name);
                let pair = (&name, &self.branches@[name]);
                assert(pairs.contains(pair));
                let j = choose|j: int| 0 <= j < pairs.len() && pairs[j] == pair;
                assert(done.contains(*pairs[j].0));
            }
            self.lemma_view_is_tree();
            lemma_listing_ends(leaves@, self@, path@, done);
        }
        leaves
    }

    /// Gets all values in the branches at the path including the position
    /// at the path itself: one entry for each node at and below the path,
    /// with its position from the root of the tree and its value. Nodes
    /// without a value are listed too. The order of the entries is that in
    /// which the branches happen to come; where the path leads to no node the
    /// listing is empty.
    pub fn get_all(&self, path: &[Arc<K>]) -> (all: Vec<(Path<K>, Value<V>)>)
        requires
            obeys_key_model::<Arc<K>>(),
        ensures
            enumerates(all@, self@, path@),
            positions_under(self@, path@).finite(),
            self@.contains_key(path@) ==> all@.len() == 1 + positions_below(self@, path@).len(),
            !self@.contains_key(path@) ==> all@.len() == 0,
    {
        let all = match self.get_ref(path) {
            None => {
                proof {
                    self.lemma_view_is_tree();
                    lemma_nothing_under_no_node(self@, path@);
                }
                Vec::new()
            },
            Some(node) => {
                let leaves = node.get_leaves(path);
                proof {
                    lemma_listing_of_subtree(leaves@, self@, path@);
                }
                leaves
            },
        };
        proof {
            lemma_listing_counts(all@, self@, path@);
        }
        all
    }

    /// Lists all branches at the position: the fragments that name the
    /// children of this node, each once, in no particular order.
    pub fn list_branches(&self) -> (names: Path<K>)
        requires
            obeys_key_model::<Arc<K>>(),
        ensures
            names@.no_duplicates(),
            names@.to_set() == branch_names(self@),
    {
        let mut branches: Path<K> = Vec::new();
        for branch in it: self.branches.iter()
            invariant
                it.seq() == spec_hash_map_iter(&self.branches).remaining(),
                it.seq().no_duplicates(),
                branches@.len() == it.index(),
                forall|j: int| 0 <= j < it.index() ==> branches@[j] == *it.seq()[j].0,
        {
            branches.push(share(branch.0));
        }
        proof {
            let pairs = spec_hash_map_iter(&self.branches).remaining();
            assert forall|i: int, j: int|
                0 <= i < branches@.len() && 0 <= j < branches@.len() && i != j implies branches@[i]
                != branches@[j] by {
                assert(self.branches@[*pairs[i].0] == *pairs[i].1);
                assert(self.branches@[*pairs[j].0] == *pairs[j].1);
                if branches@[i] == branches@[j] {
                    assert(pairs[i] == pairs[j]);
                }
            }
            assert forall|k: Arc<K>| branches@.to_set().contains(k) == branch_names(self@).contains(
                k,
            ) by {
                self.lemma_branch_view(k);
                if self.branches@.contains_key(k) {
                    let pair = (&k, &self.branches@[k]);
                    assert(pairs.contains(pair));
                    let i = choose|i: int| 0 <= i < pairs.len() && pairs[i] == pair;
                    assert(branches@[i] == k);
                }
                if branches@.to_set().contains(k) {
                    let i = choose|i: int| 0 <= i < branches@.len() && branches@[i] == k;
                    assert(self.branches@.contains_key(*pairs[i].0));
                }
            }
            assert(branches@.to_set() =~= branch_names(self@));
        }
        branches
    }

    /// Gets an immutable reference to a branch at the position identified by
    /// a path fragment: the child of that name, if there is one.
    pub fn get_branch(&self, branch_name: Arc<K>) -> (branch: Option<&PathTree<K, V>>)
        requires
            obeys_key_model::<Arc<K>>(),
        ensures
            (match branch {
                Some(child) => self@.contains_key(seq![branch_name]) && child@ == subtree(
                    self@,
                    seq![branch_name],
                ),
                None => !self@.contains_key(seq![branch_name]),
            }),
    {
        proof {
            self.lemma_branch_view(branch_name);
        }
        self.branches.get(&branch_name)
    }

    /// Gets a mutable reference to a branch at the position identified by
    /// a path fragment. What is done to the child through the reference is
    /// done to the tree below that fragment, and nowhere else.
    pub fn get_branch_mut(&mut self, branch_name: Arc<K>) -> (branch: Option<&mut PathTree<K, V>>)
        requires
            obeys_key_model::<Arc<K>>(),
        ensures
            (match branch {
                Some(child) => {
                    &&& old(self)@.contains_key(seq![branch_name])
                    &&& child@ == subtree(old(self)@, seq![branch_name])
                    &&& final(self)@ == grafted(old(self)@, seq![branch_name], final(child)@)
                },
                None => !old(self)@.contains_key(seq![branch_name]) && final(self)@ == old(self)@,
            }),
    {
        let ghost here = *self;
        let ghost this = self;
        proof {
            here.lemma_branch_view(branch_name);
        }
        match self.branches.entry(branch_name) {
            Entry::Vacant(_) => {
                proof {
                    assert(final(this).branches@ =~= here.branches@);
                    here.lemma_same_node(*final(this));
                }
                None
            },
            Entry::Occupied(found) => {
                let child = found.into_mut();
                proof {
                    here.lemma_branch_replaced(*final(this), branch_name, *final(child));
                }
                Some(child)
            },
        }
    }

    /// Inserts a value at a given path. If a value already exists
    /// at the position it is returned and replaced by the new value.
    /// Nodes that are missing on the way are made, without a value.
    pub fn insert(&mut self, path: &[Arc<K>], value: Arc<V>) -> (previous: Value<V>)
        requires
            path@.len() > 0 ==> obeys_key_model::<Arc<K>>(),
        ensures
            final(self)@ == inserted(old(self)@, path@, value),
            previous == value_at(old(self)@, path@),
    {
        let ghost before = self@;
        proof {
            self.lemma_view_is_tree();
            lemma_subtree_at_root(before);
            lemma_graft_at_root(before, final(self)@);
        }
        let mut iteratee = self;
        let mut index: usize = 0;
        while index < path.len()
            invariant
                path@.len() > 0 ==> obeys_key_model::<Arc<K>>(),
                index <= path.len(),
                is_tree(before),
                iteratee@ == found_or_made(before, path@.take(index as int)),
                final(self)@ == grafted(before, path@.take(index as int), final(iteratee)@),
            decreases path.len() - index,
        {
            let ghost here = *iteratee;
            let ghost cursor = iteratee;
            let ghost walked = path@.take(index as int);
            let ghost fragment = path@[index as int];
            let child = iteratee.branches.entry(share(&path[index])).or_insert(PathTree::new());
            proof {
                here.lemma_branch_replaced(*final(cursor), fragment, *final(child));
                lemma_graft_step(before, walked, fragment, final(child)@);
                here.lemma_branch_view(fragment);
                lemma_found_or_made_step(before, walked, fragment);
                assert(path@.take(index + 1) =~= walked.push(fragment));
            }
            iteratee = child;
            index += 1;
        }
        let ghost here = *iteratee;
        let old_value = share_value(&iteratee.leaf);
        iteratee.leaf = Some(value);
        proof {
            assert(path@.take(index as int) =~= path@);
            here.lemma_root_entry();
            here.lemma_leaf_replaced(*final(iteratee));
            lemma_graft_value(before, path@, value);
        }
        old_value
    }

    /// Clears a value at a given path if a position exists at the path. The
    /// node stays, with all that is below it.
    pub fn clear(&mut self, path: &[Arc<K>])
        requires
            path@.len() > 0 ==> obeys_key_model::<Arc<K>>(),
        ensures
            final(self)@ == cleared(old(self)@, path@),
    {
        let ghost before = self@;
        proof {
            self.lemma_view_is_tree();
            lemma_subtree_at_root(before);
            lemma_graft_at_root(before, final(self)@);
        }
        let mut iteratee = self;
        let mut index: usize = 0;
        while index < path.len()
            invariant
                path@.len() > 0 ==> obeys_key_model::<Arc<K>>(),
                index <= path.len(),
                before == old(self)@,
                is_tree(before),
                before.contains_key(path@.take(index as int)),
                iteratee@ == subtree(before, path@.take(index as int)),
                final(self)@ == grafted(before, path@.take(index as int), final(iteratee)@),
            decreases path.len() - index,
        {
            let ghost here = *iteratee;
            let ghost cursor = iteratee;
            let ghost walked = path@.take(index as int);
            let ghost fragment = path@[index as int];
            proof {
                here.lemma_branch_view(fragment);
                lemma_subtree_step(before, walked, fragment);
                assert(path@.take(index + 1) =~= walked.push(fragment));
            }
            match iteratee.branches.entry(share(&path[index])) {
                Entry::Vacant(_) => {
                    proof {
                        assert(final(cursor).branches@ =~= here.branches@);
                        here.lemma_same_node(*final(cursor));
                        lemma_graft_back(before, walked);
                        if before.contains_key(path@) {
                            lemma_prefix_is_node(before, path@.take(index + 1), path@);
                        }
                    }
                    return ;
                },
                Entry::Occupied(found) => {
                    let child = found.into_mut();
                    proof {
                        here.lemma_branch_replaced(*final(cursor), fragment, *final(child));
                        lemma_graft_step(before, walked, fragment, final(child)@);
                    }
                    iteratee = child;
                },
            }
            index += 1;
        }
        let ghost here = *iteratee;
        iteratee.leaf = None;
        proof {
            assert(path@.take(index as int) =~= path@);
            here.lemma_leaf_replaced(*final(iteratee));
            lemma_graft_cleared(before, path@);
        }
    }

    /// Deletes a path including every path under it: the node at the path
    /// is taken from its parent. Nothing happens where the path leads to no
    /// node. The root has no parent to be taken from: the empty path clears
    /// its value and leaves its branches.
    pub fn delete(&mut self, path: &[Arc<K>])
        requires
            path@.len() > 0 ==> obeys_key_model::<Arc<K>>(),
        ensures
            final(self)@ == deleted(old(self)@, path@),
    {
        let ghost before = self@;
        if path.len() == 0 {
            let ghost here = *self;
            self.leaf = None;
            proof {
                here.lemma_leaf_replaced(*final(self));
                assert(path@ =~= Seq::empty());
            }
            return ;
        }
        proof {
            self.lemma_view_is_tree();
            lemma_subtree_at_root(before);
            lemma_graft_at_root(before, final(self)@);
        }
        let last: usize = path.len() - 1;
        let mut iteratee = self;
        let mut index: usize = 0;
        while index < last
            invariant
                path@.len() > 0 ==> obeys_key_model::<Arc<K>>(),
                index <= last,
                last == path.len() - 1,
                before == old(self)@,
                is_tree(before),
                before.contains_key(path@.take(index as int)),
                iteratee@ == subtree(before, path@.take(index as int)),
                final(self)@ == grafted(before, path@.take(index as int), final(iteratee)@),
            decreases last - index,
        {
            let ghost here = *iteratee;
            let ghost cursor = iteratee;
            let ghost walked = path@.take(index as int);
            let ghost fragment = path@[index as int];
            proof {
                here.lemma_branch_view(fragment);
                lemma_subtree_step(before, walked, fragment);
                assert(path@.take(index + 1) =~= walked.push(fragment));
            }
            match iteratee.branches.entry(share(&path[index])) {
                Entry::Vacant(_) => {
                    proof {
                        assert(final(cursor).branches@ =~= here.branches@);
                        here.lemma_same_node(*final(cursor));
                        lemma_graft_back(before, walked);
                        let missing = path@.take(index + 1);
                        assert forall|q: Position<K>| before.contains_key(q) implies !path@.is_prefix_of(
                            q,
                        ) by {
                            if path@.is_prefix_of(q) {
                                lemma_prefix_is_node(before, missing, q);
                            }
                        }
                    }
                    return ;
                },
                Entry::Occupied(found) => {
                    let child = found.into_mut();
                    proof {
                        here.lemma_branch_replaced(*final(cursor), fragment, *final(child));
                        lemma_graft_step(before, walked, fragment, final(child)@);
                    }
                    iteratee = child;
                },
            }
            index += 1;
        }
        let ghost here = *iteratee;
        let ghost fragment = path@[last as int];
        iteratee.branches.remove(&path[last]);
        proof {
            here.lemma_branch_removed(*final(iteratee), fragment);
            lemma_graft_deleted(before, path@.take(last as int), fragment);
        }
    }
}

} // verus!
