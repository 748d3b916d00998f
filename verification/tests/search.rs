use fallible_collections::btree::node::{ForceResult, Handle, Node, Slot};
use fallible_collections::btree::order::{compare, Rel};
use fallible_collections::btree::search::{
    search_linear, search_linear_at, search_node, search_node_at, search_tree, search_tree_many,
    SearchResult,
};
use fallible_collections::btree::BTreeMap;

fn leaf(keys: &[i64]) -> Node<i64, u64> {
    Node {
        keys: keys.to_vec(),
        vals: keys.iter().map(|k| (*k as u64) * 10).collect(),
        edges: Vec::new(),
    }
}

fn map_of(n: i64) -> BTreeMap<i64, u64> {
    let mut m = BTreeMap::new();
    for i in 0..n {
        m.try_insert(i * 2, (i * 2) as u64).unwrap();
    }
    m
}

#[test]
fn compare_orders_keys() {
    assert_eq!(Rel::Less, compare(&1i64, &2i64));
    assert_eq!(Rel::Equal, compare(&2i64, &2i64));
    assert_eq!(Rel::Greater, compare(&3i64, &2i64));
    assert_eq!(Rel::Less, compare(&i64::MIN, &i64::MAX));
}

#[test]
fn search_linear_gives_first_key_not_below() {
    let node = leaf(&[10, 20, 30]);
    assert_eq!((0, false), search_linear(&node, &5));
    assert_eq!((0, true), search_linear(&node, &10));
    assert_eq!((1, false), search_linear(&node, &15));
    assert_eq!((1, true), search_linear(&node, &20));
    assert_eq!((2, false), search_linear(&node, &25));
    assert_eq!((2, true), search_linear(&node, &30));
    assert_eq!((3, false), search_linear(&node, &35));
}

#[test]
fn search_linear_in_empty_node() {
    let node = leaf(&[]);
    assert_eq!((0, false), search_linear(&node, &7));
    assert_eq!((0, false), search_linear_at(&node, &7, 0));
}

#[test]
fn search_linear_at_scans_from_start() {
    let node = leaf(&[10, 20, 30]);
    assert_eq!((2, true), search_linear_at(&node, &30, 1));
    assert_eq!((1, true), search_linear_at(&node, &20, 1));
    assert_eq!((3, false), search_linear_at(&node, &35, 2));
    assert_eq!((3, false), search_linear_at(&node, &35, 3));
    // a key before the start is not looked for behind it
    assert_eq!((2, false), search_linear_at(&node, &10, 2));
    assert_eq!((3, false), search_linear_at(&node, &10, 3));
}

#[test]
fn search_node_gives_entry_or_gap() {
    let node = leaf(&[10, 20, 30]);
    match search_node(&node, &20) {
        SearchResult::Found(h) => {
            assert_eq!(1, h.idx);
            assert_eq!(Slot::KV, h.slot);
            assert_eq!((&20, &200), h.into_kv());
        }
        SearchResult::GoDown(_) => panic!("20 is in the node"),
    }
    match search_node(&node, &25) {
        SearchResult::Found(_) => panic!("25 is not in the node"),
        SearchResult::GoDown(h) => {
            assert_eq!(2, h.idx);
            assert_eq!(Slot::Edge, h.slot);
        }
    }
}

#[test]
fn search_node_at_goes_on_from_a_gap() {
    let node = leaf(&[10, 20, 30]);
    let from = Handle::new_edge(&node, 1);
    match search_node_at(from, &30) {
        SearchResult::Found(h) => {
            assert_eq!(2, h.idx);
            assert_eq!(Slot::KV, h.slot);
        }
        SearchResult::GoDown(_) => panic!("30 is in the node"),
    }
    match search_node_at(from, &40) {
        SearchResult::Found(_) => panic!("40 is not in the node"),
        SearchResult::GoDown(h) => {
            assert_eq!(3, h.idx);
            assert_eq!(Slot::Edge, h.slot);
        }
    }
}

#[test]
fn search_tree_finds_every_key() {
    let m = map_of(500);
    let root = m.root.as_ref().unwrap();
    assert!(m.height >= 2);
    for i in 0..500 {
        match search_tree(root, &(i * 2)) {
            SearchResult::Found(h) => {
                let (k, v) = h.into_kv();
                assert_eq!(i * 2, *k);
                assert_eq!((i * 2) as u64, *v);
            }
            SearchResult::GoDown(_) => panic!("key {} is in the tree", i * 2),
        }
    }
}

#[test]
fn search_tree_ends_at_the_gap_in_a_leaf() {
    let m = map_of(500);
    let root = m.root.as_ref().unwrap();
    for k in [-1i64, 1, 77, 499, 997, 999, 5000] {
        match search_tree(root, &k) {
            SearchResult::Found(_) => panic!("key {} is not in the tree", k),
            SearchResult::GoDown(h) => {
                assert_eq!(Slot::Edge, h.slot);
                assert!(h.node.edges.is_empty());
                assert!(h.idx <= h.node.keys.len());
                if h.idx > 0 {
                    assert!(h.node.keys[h.idx - 1] < k);
                }
                if h.idx < h.node.keys.len() {
                    assert!(k < h.node.keys[h.idx]);
                }
            }
        }
    }
}

#[test]
fn search_tree_many_gives_what_search_tree_finds() {
    let m = map_of(3000);
    let root = m.root.as_ref().unwrap();
    assert!(m.height >= 3);
    let keys: Vec<i64> = (-3..6010).collect();
    let mut out = Vec::new();
    search_tree_many(root, &keys, &mut out);
    assert_eq!(keys.len(), out.len());
    for (k, found) in keys.iter().zip(out.iter()) {
        if *k >= 0 && *k < 6000 && *k % 2 == 0 {
            assert_eq!(Some(&(*k as u64)), *found);
        } else {
            assert_eq!(None, *found);
        }
    }
}

#[test]
fn search_tree_many_repeats_for_repeated_keys() {
    let m = map_of(200);
    let root = m.root.as_ref().unwrap();
    let keys: Vec<i64> = vec![0, 0, 0, 1, 1, 22, 22, 22, 23, 398, 398, 399, 399];
    let mut out = Vec::new();
    search_tree_many(root, &keys, &mut out);
    let want: Vec<Option<u64>> = keys
        .iter()
        .map(|k| if k % 2 == 0 { Some(*k as u64) } else { None })
        .collect();
    assert_eq!(want, out.iter().map(|o| o.cloned()).collect::<Vec<_>>());
}

#[test]
fn search_tree_many_in_a_single_leaf() {
    let node = leaf(&[10, 20, 30]);
    let mut out = vec![Some(&7u64)];
    search_tree_many(&node, &[5, 10, 10, 25, 30, 31], &mut out);
    assert_eq!(
        vec![Some(&7), None, Some(&100), Some(&100), None, Some(&300), None],
        out
    );
}

#[test]
fn handles_move_between_entries_and_gaps() {
    let node = leaf(&[10, 20, 30]);
    let kv = Handle::new_kv(&node, 1);
    assert_eq!(Slot::KV, kv.slot);
    let left = kv.left_edge();
    assert_eq!((1, Slot::Edge), (left.idx, left.slot));
    let right = kv.right_edge();
    assert_eq!((2, Slot::Edge), (right.idx, right.slot));
    match right.right_kv() {
        Ok(h) => assert_eq!((2, Slot::KV), (h.idx, h.slot)),
        Err(_) => panic!("an entry stands behind the gap"),
    }
    let last = node.last_edge();
    assert_eq!(3, last.idx);
    match last.right_kv() {
        Ok(_) => panic!("no entry stands behind the last gap"),
        Err(h) => assert_eq!((3, Slot::Edge), (h.idx, h.slot)),
    }
    let first = node.first_edge();
    assert_eq!((0, Slot::Edge), (first.idx, first.slot));
    let (n, i) = right.into_node_and_index();
    assert_eq!(2, i);
    assert_eq!(vec![10, 20, 30], n.keys);
}

#[test]
fn force_tells_leaf_from_internal() {
    let m = map_of(30);
    let root = m.root.as_ref().unwrap();
    assert_eq!(1, m.height);
    match root.first_edge().force() {
        ForceResult::Leaf(_) => panic!("the root has children"),
        ForceResult::Internal(h) => {
            let child = h.descend();
            assert_eq!(0, child.keys[0]);
            match child.first_edge().force() {
                ForceResult::Leaf(l) => assert!(l.node.edges.is_empty()),
                ForceResult::Internal(_) => panic!("the tree has two levels"),
            }
        }
    }
}
