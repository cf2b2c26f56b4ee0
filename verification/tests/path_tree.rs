use ephemeral::PathTree;
use std::collections::HashSet;
use std::sync::Arc;

type Entry = (Vec<Arc<&'static str>>, Option<Arc<i32>>);

fn path(fragments: &[&'static str]) -> Vec<Arc<&'static str>> {
    fragments.iter().map(|fragment| Arc::new(*fragment)).collect()
}

/// The positions that a listing holds, as plain strings, and its length.
fn positions(entries: &[Entry]) -> HashSet<Vec<&'static str>> {
    entries
        .iter()
        .map(|entry| entry.0.iter().map(|fragment| **fragment).collect())
        .collect()
}

fn set_of(paths: &[&[&'static str]]) -> HashSet<Vec<&'static str>> {
    paths.iter().map(|p| p.to_vec()).collect()
}

/// A tree with values at a/b, a/b/c, a/d and e, and so with nodes at the root,
/// a, a/b, a/b/c, a/d and e.
fn sample() -> PathTree<&'static str, i32> {
    let mut tree = PathTree::new();
    tree.insert(&path(&["a", "b"]), Arc::new(1));
    tree.insert(&path(&["a", "b", "c"]), Arc::new(2));
    tree.insert(&path(&["a", "d"]), Arc::new(3));
    tree.insert(&path(&["e"]), Arc::new(4));
    tree
}

#[test]
fn insert_get() {
    let mut puu = PathTree::new();
    let eka = Arc::new("eka");
    let eka_2 = Arc::new("eka");
    let eka_3 = Arc::new("eka");
    let toka = Arc::new("toka");
    let vika = Arc::new("vika");
    let kolmas = Arc::new("kolmas");
    let taas = Arc::new("taas");
    let n42 = Arc::new(42);
    let n12 = Arc::new(12);
    let n13 = Arc::new(13);
    let n33 = Arc::new(33);

    let result = puu.insert(&vec![eka.clone(), toka.clone(), vika.clone()], n42.clone());
    assert_eq!(result, None);
    let result = puu.get(&vec![eka_2.clone(), toka.clone(), vika.clone()]);
    assert_eq!(result.unwrap(), n42);
    let result = puu.insert(
        &vec![eka_3.clone(), toka.clone(), vika.clone()],
        n13.clone(),
    );
    assert_eq!(result.unwrap(), n42);
    let result = puu.get(&vec![eka.clone(), toka.clone(), vika.clone()]);
    assert_eq!(result.unwrap(), n13);
    let result = puu.insert(&vec![eka_2.clone(), kolmas.clone()], n12.clone());
    assert_eq!(result, None);
    let result = puu.get(&vec![eka_3.clone(), kolmas.clone()]);
    assert_eq!(result.unwrap(), n12);
    let result = puu.insert(
        &vec![eka.clone(), toka.clone(), vika.clone(), taas.clone()],
        n33.clone(),
    );
    assert_eq!(result, None);
    let result = puu.get(&vec![
        eka_2.clone(),
        toka.clone(),
        vika.clone(),
        taas.clone(),
    ]);
    assert_eq!(result.unwrap(), n33.clone());

    assert_eq!(puu.get_all(&Vec::new()).len(), 6);
    assert_eq!(
        puu.get_all(&vec![eka.clone(), toka.clone(), vika.clone(), taas.clone()]),
        [(
            vec![eka.clone(), toka.clone(), vika.clone(), taas.clone()],
            Some(n33.clone())
        )]
        .to_vec()
    );

    puu.delete(&vec![eka.clone(), toka.clone()]);
    assert_eq!(puu.get_all(&Vec::new()).len(), 3);
    puu.delete(&vec![eka.clone()]);
    assert_eq!(puu.get_all(&Vec::new()).len(), 1);
}

#[test]
fn new_tree_holds_no_value_anywhere() {
    let tree: PathTree<&'static str, i32> = PathTree::new();
    assert_eq!(tree.get(&path(&[])), None);
    assert_eq!(tree.get(&path(&["a"])), None);
    assert_eq!(tree.get(&path(&["a", "b", "c"])), None);
    assert!(tree.get_ref(&path(&[])).is_some());
    assert!(tree.get_ref(&path(&["a"])).is_none());
    assert_eq!(tree.list_branches().len(), 0);
    let all = tree.get_all(&path(&[]));
    assert_eq!(all, vec![(path(&[]), None)]);
}

#[test]
fn default_tree_is_a_new_tree() {
    let tree: PathTree<&'static str, i32> = PathTree::default();
    assert_eq!(tree.get(&path(&[])), None);
    assert_eq!(tree.get_all(&path(&[])).len(), 1);
}

#[test]
fn inserted_value_is_found() {
    let mut tree = PathTree::new();
    for (index, fragments) in [&[][..], &["a"][..], &["a", "b"][..], &["x", "y", "z"][..]]
        .iter()
        .enumerate()
    {
        let value = Arc::new(index as i32);
        assert_eq!(tree.insert(&path(fragments), value.clone()), None);
        assert_eq!(tree.get(&path(fragments)), Some(value));
    }
}

#[test]
fn insert_at_the_empty_path_sets_the_root() {
    let mut tree = sample();
    assert_eq!(tree.insert(&path(&[]), Arc::new(7)), None);
    assert_eq!(tree.get(&path(&[])), Some(Arc::new(7)));
    assert_eq!(tree.insert(&path(&[]), Arc::new(8)), Some(Arc::new(7)));
    assert_eq!(tree.get(&path(&[])), Some(Arc::new(8)));
    assert_eq!(tree.get_all(&path(&[])).len(), 6);
}

#[test]
fn second_insert_returns_the_first_value() {
    let mut tree = PathTree::new();
    let at = path(&["a", "b"]);
    assert_eq!(tree.insert(&at, Arc::new(1)), None);
    assert_eq!(tree.insert(&at, Arc::new(2)), Some(Arc::new(1)));
    assert_eq!(tree.get(&at), Some(Arc::new(2)));
    assert_eq!(tree.insert(&at, Arc::new(3)), Some(Arc::new(2)));
    assert_eq!(tree.get(&at), Some(Arc::new(3)));
}

#[test]
fn insert_leaves_other_positions_alone() {
    let mut tree = sample();
    tree.insert(&path(&["a", "b", "x"]), Arc::new(10));
    tree.insert(&path(&["a"]), Arc::new(11));
    tree.insert(&path(&["a", "b", "c", "deep"]), Arc::new(12));
    assert_eq!(tree.get(&path(&["a", "b"])), Some(Arc::new(1)));
    assert_eq!(tree.get(&path(&["a", "b", "c"])), Some(Arc::new(2)));
    assert_eq!(tree.get(&path(&["a", "d"])), Some(Arc::new(3)));
    assert_eq!(tree.get(&path(&["e"])), Some(Arc::new(4)));
    assert_eq!(tree.get(&path(&[])), None);
}

#[test]
fn insert_makes_the_nodes_on_the_way_without_values() {
    let mut tree = PathTree::new();
    tree.insert(&path(&["a", "b", "c"]), Arc::new(1));
    assert!(tree.get_ref(&path(&["a"])).is_some());
    assert!(tree.get_ref(&path(&["a", "b"])).is_some());
    assert_eq!(tree.get(&path(&["a"])), None);
    assert_eq!(tree.get(&path(&["a", "b"])), None);
    assert!(tree.get_ref(&path(&["a", "c"])).is_none());
    assert!(tree.get_ref(&path(&["a", "b", "c", "d"])).is_none());
    assert_eq!(
        positions(&tree.get_all(&path(&[]))),
        set_of(&[&[], &["a"], &["a", "b"], &["a", "b", "c"]])
    );
}

#[test]
fn never_inserted_position_stays_absent() {
    let mut tree = sample();
    tree.clear(&path(&["a", "b"]));
    tree.delete(&path(&["e"]));
    tree.insert(&path(&["a", "q", "r"]), Arc::new(5));
    assert_eq!(tree.get(&path(&["a"])), None);
    assert_eq!(tree.get(&path(&["a", "q"])), None);
    assert_eq!(tree.get(&path(&["never"])), None);
    assert_eq!(tree.get(&path(&[])), None);
}

#[test]
fn get_ref_tells_a_missing_node_from_an_empty_one() {
    let tree = sample();
    let empty = tree.get_ref(&path(&["a"]));
    assert!(empty.is_some());
    assert_eq!(empty.unwrap().get(&path(&[])), None);
    assert!(tree.get_ref(&path(&["missing"])).is_none());
    assert_eq!(tree.get(&path(&["a"])), tree.get(&path(&["missing"])));
}

#[test]
fn get_ref_gives_the_subtree() {
    let tree = sample();
    let node = tree.get_ref(&path(&["a"])).unwrap();
    assert_eq!(node.get(&path(&["b"])), Some(Arc::new(1)));
    assert_eq!(node.get(&path(&["b", "c"])), Some(Arc::new(2)));
    assert_eq!(node.get(&path(&["d"])), Some(Arc::new(3)));
    assert_eq!(node.get(&path(&["e"])), None);
    assert_eq!(
        positions(&node.get_all(&path(&[]))),
        set_of(&[&[], &["b"], &["b", "c"], &["d"]])
    );
}

#[test]
fn clear_takes_only_the_value() {
    let mut tree = sample();
    let before = tree.get_all(&path(&["a"]));
    tree.clear(&path(&["a", "b"]));
    let after = tree.get_all(&path(&["a"]));
    assert_eq!(tree.get(&path(&["a", "b"])), None);
    assert!(tree.get_ref(&path(&["a", "b"])).is_some());
    assert_eq!(positions(&before), positions(&after));
    assert_eq!(before.len(), after.len());
    for (at, value) in before {
        let expected = if at == path(&["a", "b"]) { None } else { value };
        assert_eq!(tree.get(&at), expected);
    }
    assert_eq!(tree.get(&path(&["a", "b", "c"])), Some(Arc::new(2)));
    assert_eq!(tree.get(&path(&["e"])), Some(Arc::new(4)));
}

#[test]
fn clear_of_a_missing_position_changes_nothing() {
    let mut tree = sample();
    let before = tree.get_all(&path(&[]));
    tree.clear(&path(&["a", "missing"]));
    tree.clear(&path(&["missing", "deeper"]));
    tree.clear(&path(&["a", "b", "c", "d"]));
    let after = tree.get_all(&path(&[]));
    assert_eq!(positions(&before), positions(&after));
    for (at, value) in before {
        assert_eq!(tree.get(&at), value);
    }
}

#[test]
fn clear_of_the_root_takes_its_value() {
    let mut tree = sample();
    tree.insert(&path(&[]), Arc::new(9));
    tree.clear(&path(&[]));
    assert_eq!(tree.get(&path(&[])), None);
    assert_eq!(tree.get_all(&path(&[])).len(), 6);
}

#[test]
fn delete_takes_the_node_and_all_below_it() {
    let mut tree = sample();
    tree.delete(&path(&["a", "b"]));
    assert_eq!(tree.get(&path(&["a", "b"])), None);
    assert_eq!(tree.get(&path(&["a", "b", "c"])), None);
    assert!(tree.get_ref(&path(&["a", "b"])).is_none());
    assert!(tree.get_ref(&path(&["a", "b", "c"])).is_none());
    assert_eq!(
        positions(&tree.get_all(&path(&[]))),
        set_of(&[&[], &["a"], &["a", "d"], &["e"]])
    );
    assert_eq!(
        positions(&tree.get_all(&path(&["a"]))),
        set_of(&[&["a"], &["a", "d"]])
    );
    assert_eq!(tree.get(&path(&["a", "d"])), Some(Arc::new(3)));
    assert_eq!(tree.get(&path(&["e"])), Some(Arc::new(4)));
}

#[test]
fn delete_leaves_the_value_of_the_parent() {
    let mut tree = sample();
    tree.insert(&path(&["a"]), Arc::new(5));
    tree.delete(&path(&["a", "b"]));
    assert_eq!(tree.get(&path(&["a"])), Some(Arc::new(5)));
    tree.insert(&path(&[]), Arc::new(6));
    tree.delete(&path(&["e"]));
    assert_eq!(tree.get(&path(&[])), Some(Arc::new(6)));
}

#[test]
fn delete_of_a_missing_position_changes_nothing() {
    let mut tree = sample();
    tree.insert(&path(&["a"]), Arc::new(5));
    let before = tree.get_all(&path(&[]));
    tree.delete(&path(&["a", "missing"]));
    tree.delete(&path(&["missing", "deeper", "still"]));
    tree.delete(&path(&["a", "b", "c", "d"]));
    let after = tree.get_all(&path(&[]));
    assert_eq!(positions(&before), positions(&after));
    for (at, value) in before {
        assert_eq!(tree.get(&at), value);
    }
}

#[test]
fn delete_of_the_root_clears_only_its_value() {
    let mut tree = sample();
    tree.insert(&path(&[]), Arc::new(9));
    tree.delete(&path(&[]));
    assert_eq!(tree.get(&path(&[])), None);
    assert_eq!(tree.get(&path(&["a", "b"])), Some(Arc::new(1)));
    assert_eq!(tree.get_all(&path(&[])).len(), 6);
}

#[test]
fn get_all_lists_each_node_once_with_its_full_path() {
    let tree = sample();
    let all = tree.get_all(&path(&[]));
    assert_eq!(all.len(), 6);
    assert_eq!(
        positions(&all),
        set_of(&[&[], &["a"], &["a", "b"], &["a", "b", "c"], &["a", "d"], &["e"]])
    );
    for (at, value) in &all {
        assert_eq!(tree.get(at), *value);
    }
    let below = tree.get_all(&path(&["a", "b"]));
    assert_eq!(below.len(), 2);
    assert_eq!(positions(&below), set_of(&[&["a", "b"], &["a", "b", "c"]]));
    assert!(below.contains(&(path(&["a", "b"]), Some(Arc::new(1)))));
    assert!(below.contains(&(path(&["a", "b", "c"]), Some(Arc::new(2)))));
    let leaf = tree.get_all(&path(&["e"]));
    assert_eq!(leaf, vec![(path(&["e"]), Some(Arc::new(4)))]);
}

#[test]
fn get_all_lists_nodes_without_values() {
    let tree = sample();
    let all = tree.get_all(&path(&["a"]));
    assert_eq!(all.len(), 4);
    assert!(all.contains(&(path(&["a"]), None)));
}

#[test]
fn get_all_of_a_missing_position_is_empty() {
    let tree = sample();
    assert_eq!(tree.get_all(&path(&["missing"])), Vec::<Entry>::new());
    assert_eq!(tree.get_all(&path(&["a", "b", "c", "d"])).len(), 0);
}

#[test]
fn repeated_fragments_count_by_position() {
    let mut tree = PathTree::new();
    tree.insert(&path(&["a"]), Arc::new(1));
    tree.insert(&path(&["a", "a"]), Arc::new(2));
    tree.insert(&path(&["a", "a", "a"]), Arc::new(3));
    assert_eq!(tree.get(&path(&["a"])), Some(Arc::new(1)));
    assert_eq!(tree.get(&path(&["a", "a"])), Some(Arc::new(2)));
    assert_eq!(tree.get(&path(&["a", "a", "a"])), Some(Arc::new(3)));
    assert_eq!(tree.get(&path(&["a", "a", "a", "a"])), None);
    assert_eq!(tree.get_all(&path(&[])).len(), 4);
    tree.delete(&path(&["a", "a"]));
    assert_eq!(tree.get(&path(&["a"])), Some(Arc::new(1)));
    assert_eq!(tree.get(&path(&["a", "a"])), None);
    assert_eq!(tree.get_all(&path(&[])).len(), 2);
}

#[test]
fn fragments_are_found_by_what_they_say() {
    let mut tree = PathTree::new();
    let stored = Arc::new(String::from("alpha"));
    let asked = Arc::new(String::from("alpha"));
    assert!(!Arc::ptr_eq(&stored, &asked));
    tree.insert(&[stored], Arc::new(1));
    assert_eq!(tree.get(&[asked]), Some(Arc::new(1)));
}

#[test]
fn list_branches_names_the_children_of_the_node() {
    let tree = sample();
    let mut names: Vec<&str> = tree.list_branches().iter().map(|name| **name).collect();
    names.sort();
    assert_eq!(names, vec!["a", "e"]);
    let node = tree.get_ref(&path(&["a"])).unwrap();
    let mut names: Vec<&str> = node.list_branches().iter().map(|name| **name).collect();
    names.sort();
    assert_eq!(names, vec!["b", "d"]);
    let leaf = tree.get_ref(&path(&["e"])).unwrap();
    assert_eq!(leaf.list_branches().len(), 0);
}

#[test]
fn get_branch_gives_the_child() {
    let tree = sample();
    let child = tree.get_branch(Arc::new("a")).unwrap();
    assert_eq!(child.get(&path(&["b"])), Some(Arc::new(1)));
    assert_eq!(child.get(&path(&["d"])), Some(Arc::new(3)));
    assert!(tree.get_branch(Arc::new("b")).is_none());
    assert!(tree.get_branch(Arc::new("missing")).is_none());
}

#[test]
fn get_branch_mut_changes_the_tree_through_the_child() {
    let mut tree = sample();
    {
        let child = tree.get_branch_mut(Arc::new("a")).unwrap();
        assert_eq!(child.insert(&path(&["b"]), Arc::new(10)), Some(Arc::new(1)));
        child.insert(&path(&["new"]), Arc::new(11));
        child.delete(&path(&["d"]));
    }
    assert_eq!(tree.get(&path(&["a", "b"])), Some(Arc::new(10)));
    assert_eq!(tree.get(&path(&["a", "new"])), Some(Arc::new(11)));
    assert_eq!(tree.get(&path(&["a", "d"])), None);
    assert_eq!(tree.get(&path(&["e"])), Some(Arc::new(4)));
    assert!(tree.get_branch_mut(Arc::new("missing")).is_none());
    assert_eq!(
        positions(&tree.get_all(&path(&[]))),
        set_of(&[&[], &["a"], &["a", "b"], &["a", "b", "c"], &["a", "new"], &["e"]])
    );
}

#[test]
fn values_are_handed_out_shared() {
    let mut tree = PathTree::new();
    let value = Arc::new(String::from("payload"));
    let at = path(&["a"]);
    tree.insert(&at, value.clone());
    let read = tree.get(&at).unwrap();
    assert!(Arc::ptr_eq(&read, &value));
    let previous = tree.insert(&at, Arc::new(String::from("other"))).unwrap();
    assert!(Arc::ptr_eq(&previous, &value));
    tree.delete(&at);
    assert_eq!(tree.get(&at), None);
    assert_eq!(*read, "payload");
    assert_eq!(*previous, "payload");
}

#[test]
fn listed_values_are_shared_too() {
    let mut tree = PathTree::new();
    let value = Arc::new(5);
    tree.insert(&path(&["a"]), value.clone());
    let all = tree.get_all(&path(&["a"]));
    assert!(Arc::ptr_eq(all[0].1.as_ref().unwrap(), &value));
}

#[test]
fn long_paths_are_walked_without_recursion() {
    let depth: usize = 200_000;
    let long: Vec<Arc<usize>> = (0..depth).map(Arc::new).collect();
    let mut tree = PathTree::new();
    assert_eq!(tree.insert(&long, Arc::new(1)), None);
    assert_eq!(tree.get(&long), Some(Arc::new(1)));
    assert!(tree.get_ref(&long[..depth - 1]).is_some());
    tree.clear(&long);
    assert_eq!(tree.get(&long), None);
    assert!(tree.get_ref(&long).is_some());
    tree.delete(&long[..depth - 2]);
    assert!(tree.get_ref(&long[..depth - 2]).is_none());
    assert!(tree.get_ref(&long[..depth - 3]).is_some());
    // Taking the tree apart goes node by node down the stack; this one is
    // left standing.
    std::mem::forget(tree);
}

#[test]
fn writes_at_different_positions_are_all_found_in_any_order() {
    let places: Vec<Vec<Arc<&'static str>>> = vec![
        path(&["a"]),
        path(&["a", "b"]),
        path(&["a", "c"]),
        path(&["d", "e", "f"]),
        path(&[]),
    ];
    let mut forward = PathTree::new();
    for (index, at) in places.iter().enumerate() {
        forward.insert(at, Arc::new(index as i32));
    }
    let mut backward = PathTree::new();
    for (index, at) in places.iter().enumerate().rev() {
        backward.insert(at, Arc::new(index as i32));
    }
    for (index, at) in places.iter().enumerate() {
        assert_eq!(forward.get(at), Some(Arc::new(index as i32)));
        assert_eq!(backward.get(at), Some(Arc::new(index as i32)));
    }
    assert_eq!(
        positions(&forward.get_all(&path(&[]))),
        positions(&backward.get_all(&path(&[])))
    );
}

/// What a tree should hold after a run of operations, kept as a plain map from
/// positions to values.
struct Positions {
    nodes: std::collections::BTreeMap<Vec<u8>, Option<u32>>,
}

impl Positions {
    fn new() -> Positions {
        let mut nodes = std::collections::BTreeMap::new();
        nodes.insert(Vec::new(), None);
        Positions { nodes }
    }

    fn insert(&mut self, at: &[u8], value: u32) -> Option<u32> {
        for length in 0..at.len() {
            self.nodes.entry(at[..length].to_vec()).or_insert(None);
        }
        self.nodes.insert(at.to_vec(), Some(value)).flatten()
    }

    fn clear(&mut self, at: &[u8]) {
        if let Some(value) = self.nodes.get_mut(at) {
            *value = None;
        }
    }

    fn delete(&mut self, at: &[u8]) {
        if at.is_empty() {
            self.clear(at);
        } else {
            self.nodes.retain(|position, _| !position.starts_with(at));
        }
    }

    fn get(&self, at: &[u8]) -> Option<u32> {
        self.nodes.get(at).copied().flatten()
    }

    fn under(&self, at: &[u8]) -> Vec<(Vec<u8>, Option<u32>)> {
        self.nodes
            .iter()
            .filter(|(position, _)| position.starts_with(at))
            .map(|(position, value)| (position.clone(), *value))
            .collect()
    }

    fn branches(&self, at: &[u8]) -> Vec<u8> {
        self.nodes
            .keys()
            .filter(|position| position.len() == at.len() + 1 && position.starts_with(at))
            .map(|position| position[at.len()])
            .collect()
    }
}

/// A small generator of numbers that gives the same run every time.
struct Dice(u64);

impl Dice {
    fn roll(&mut self, sides: u64) -> u64 {
        self.0 = self
            .0
            .wrapping_mul(6364136223846793005)
            .wrapping_add(1442695040888963407);
        (self.0 >> 33) % sides
    }

    fn position(&mut self) -> Vec<u8> {
        let length = self.roll(5);
        (0..length).map(|_| self.roll(3) as u8).collect()
    }
}

fn shared(at: &[u8]) -> Vec<Arc<u8>> {
    at.iter().map(|fragment| Arc::new(*fragment)).collect()
}

#[test]
fn random_operations_agree_with_a_map_of_positions() {
    let mut dice = Dice(2024);
    let mut tree: PathTree<u8, u32> = PathTree::new();
    let mut expected = Positions::new();
    for step in 0..4000 {
        let at = dice.position();
        match dice.roll(8) {
            0 | 1 | 2 => {
                let value = step as u32;
                let previous = tree.insert(&shared(&at), Arc::new(value));
                assert_eq!(previous.map(|v| *v), expected.insert(&at, value));
            }
            3 => {
                tree.clear(&shared(&at));
                expected.clear(&at);
            }
            4 => {
                tree.delete(&shared(&at));
                expected.delete(&at);
            }
            5 => {
                assert_eq!(tree.get(&shared(&at)).map(|v| *v), expected.get(&at));
                assert_eq!(
                    tree.get_ref(&shared(&at)).is_some(),
                    expected.nodes.contains_key(&at)
                );
            }
            6 => {
                let mut listed: Vec<(Vec<u8>, Option<u32>)> = tree
                    .get_all(&shared(&at))
                    .iter()
                    .map(|(position, value)| {
                        (
                            position.iter().map(|f| **f).collect(),
                            value.as_ref().map(|v| **v),
                        )
                    })
                    .collect();
                listed.sort();
                assert_eq!(listed, expected.under(&at));
            }
            _ => {
                let mut names: Vec<u8> = match tree.get_ref(&shared(&at)) {
                    Some(node) => node.list_branches().iter().map(|f| **f).collect(),
                    None => Vec::new(),
                };
                names.sort();
                assert_eq!(names, expected.branches(&at));
                if let Some(first) = names.first() {
                    let node = tree.get_ref(&shared(&at)).unwrap();
                    let mut below = at.clone();
                    below.push(*first);
                    assert_eq!(
                        node.get_branch(Arc::new(*first)).unwrap().get(&[]).map(|v| *v),
                        expected.get(&below)
                    );
                }
            }
        }
    }
    let mut listed: Vec<(Vec<u8>, Option<u32>)> = tree
        .get_all(&[])
        .iter()
        .map(|(position, value)| {
            (
                position.iter().map(|f| **f).collect(),
                value.as_ref().map(|v| **v),
            )
        })
        .collect();
    listed.sort();
    assert_eq!(listed, expected.under(&[]));
}
