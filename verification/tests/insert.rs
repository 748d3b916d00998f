use fallible_collections::btree::insert::{granted, move_tail, reserve_nodes};
use fallible_collections::btree::node::{Node, CAPACITY, MAX_DEPTH, MIN_LEN, SPLIT_AT};
use fallible_collections::btree::{AllocationFailure, BTreeMap};
use std::collections::BTreeMap as Model;

/// Checks the subtree and returns the depth of its leaves.
fn check_node(node: &Node<i64, u64>, lo: Option<i64>, hi: Option<i64>, root: bool) -> usize {
    assert_eq!(node.keys.len(), node.vals.len());
    assert!(node.keys.len() <= CAPACITY);
    if root {
        assert!(node.keys.len() >= 1);
    } else {
        assert!(node.keys.len() >= MIN_LEN);
    }
    for w in node.keys.windows(2) {
        assert!(w[0] < w[1]);
    }
    for k in &node.keys {
        assert!(lo.map_or(true, |l| l < *k));
        assert!(hi.map_or(true, |h| *k < h));
    }
    if node.edges.is_empty() {
        return 0;
    }
    assert_eq!(node.keys.len() + 1, node.edges.len());
    let mut depth = None;
    for (i, child) in node.edges.iter().enumerate() {
        let clo = if i == 0 { lo } else { Some(node.keys[i - 1]) };
        let chi = if i == node.keys.len() { hi } else { Some(node.keys[i]) };
        let d = check_node(child, clo, chi, false);
        assert!(depth.map_or(true, |x| x == d));
        depth = Some(d);
    }
    depth.unwrap() + 1
}

fn check_map(m: &BTreeMap<i64, u64>) {
    match &m.root {
        None => {
            assert_eq!(0, m.height);
            assert_eq!(0, m.length);
        }
        Some(root) => {
            assert_eq!(m.height, check_node(root, None, None, true));
            assert!(m.height < MAX_DEPTH);
        }
    }
}

fn scramble(x: u64) -> u64 {
    x.wrapping_mul(6364136223846793005).wrapping_add(1442695040888963407)
}

#[test]
fn constants_fit_together() {
    assert_eq!(11, CAPACITY);
    assert_eq!(5, MIN_LEN);
    assert_eq!((CAPACITY + 1) / 2 - 1, MIN_LEN);
    assert_eq!(6, SPLIT_AT);
    assert!(SPLIT_AT >= MIN_LEN);
    assert!(CAPACITY - SPLIT_AT >= MIN_LEN);
    assert_eq!(32, MAX_DEPTH);
}

#[test]
fn new_map_is_empty() {
    let m: BTreeMap<i64, u64> = BTreeMap::new();
    assert_eq!(0, m.len());
    assert_eq!(0, m.height);
    assert!(m.root.is_none());
    assert!(m.iter().is_empty());
    assert_eq!(None, m.get(&0));
    check_map(&m);
}

#[test]
fn first_insert_makes_the_root() {
    let mut m: BTreeMap<i64, u64> = BTreeMap::new();
    assert_eq!((1, false), m.probe(&7));
    assert_eq!(Ok(None), m.try_insert(7, 70));
    assert_eq!(1, m.len());
    assert_eq!(0, m.height);
    assert_eq!(vec![7], m.root.as_ref().unwrap().keys);
    assert_eq!(Some(&70), m.get(&7));
    assert_eq!(None, m.get(&8));
    check_map(&m);
}

#[test]
fn insert_gives_back_the_old_value() {
    let mut m: BTreeMap<i64, u64> = BTreeMap::new();
    assert_eq!(Ok(None), m.try_insert(1, 10));
    assert_eq!(Ok(Some(10)), m.try_insert(1, 11));
    assert_eq!(Ok(Some(11)), m.try_insert(1, 12));
    assert_eq!(1, m.len());
    assert_eq!(Some(&12), m.get(&1));
}

#[test]
fn a_full_root_is_split_by_the_next_key() {
    let mut m: BTreeMap<i64, u64> = BTreeMap::new();
    for i in 0..11 {
        m.try_insert(i, i as u64).unwrap();
    }
    assert_eq!(0, m.height);
    assert_eq!(11, m.root.as_ref().unwrap().keys.len());
    assert_eq!((0, true), m.probe(&3));
    assert_eq!((2, false), m.probe(&11));
    m.try_insert(11, 11).unwrap();
    assert_eq!(1, m.height);
    assert_eq!(12, m.len());
    let root = m.root.as_ref().unwrap();
    assert_eq!(vec![6], root.keys);
    assert_eq!(vec![6], root.vals);
    assert_eq!(2, root.edges.len());
    assert_eq!(vec![0, 1, 2, 3, 4, 5], root.edges[0].keys);
    assert_eq!(vec![7, 8, 9, 10, 11], root.edges[1].keys);
    assert_eq!(vec![7, 8, 9, 10, 11], root.edges[1].vals);
    assert_eq!((0, false), m.probe(&12));
    assert_eq!((0, false), m.probe(&-1));
    check_map(&m);
}

#[test]
fn probe_counts_the_full_nodes_on_the_way() {
    let mut m: BTreeMap<i64, u64> = BTreeMap::new();
    // the leaves to the right fill up one after the other
    for i in 0..17 {
        m.try_insert(i, 0).unwrap();
    }
    // root [6], leaves [0..6) and [7..17): the right leaf holds ten keys
    assert_eq!(vec![6], m.root.as_ref().unwrap().keys);
    assert_eq!(10, m.root.as_ref().unwrap().edges[1].keys.len());
    assert_eq!((0, false), m.probe(&17));
    m.try_insert(17, 0).unwrap();
    // now it is full: the next key splits it, the root has room
    assert_eq!((1, false), m.probe(&18));
    assert_eq!((0, true), m.probe(&17));
    assert_eq!((0, true), m.probe(&6));
    assert_eq!((0, false), m.probe(&-5));
}

#[test]
fn insert_with_takes_the_nodes_handed_in() {
    let mut m: BTreeMap<i64, u64> = BTreeMap::new();
    let spare = reserve_nodes(1).unwrap();
    assert_eq!(None, m.insert_with(4, 40, spare));
    for i in 0..10 {
        assert_eq!(None, m.insert_with(10 + i, 0, Vec::new()));
    }
    assert_eq!(Some(40), m.insert_with(4, 41, Vec::new()));
    assert_eq!((2, false), m.probe(&5));
    let spare = reserve_nodes(2).unwrap();
    assert_eq!(None, m.insert_with(5, 50, spare));
    assert_eq!(12, m.len());
    assert_eq!(1, m.height);
    assert_eq!(Some(&41), m.get(&4));
    assert_eq!(Some(&50), m.get(&5));
    check_map(&m);
}

#[test]
fn reserve_nodes_makes_empty_nodes() {
    let nodes: Vec<Node<i64, u64>> = reserve_nodes(3).unwrap();
    assert_eq!(3, nodes.len());
    for node in &nodes {
        assert!(node.keys.is_empty());
        assert!(node.vals.is_empty());
        assert!(node.edges.is_empty());
        assert!(node.keys.capacity() >= CAPACITY + 1);
        assert!(node.vals.capacity() >= CAPACITY + 1);
    }
    assert!(nodes[0].edges.capacity() >= CAPACITY + 2);
    assert!(nodes[1].edges.capacity() >= CAPACITY + 2);
    let none: Vec<Node<i64, u64>> = reserve_nodes(0).unwrap();
    assert!(none.is_empty());
}

#[test]
fn reserve_nodes_reports_what_cannot_be_had() {
    let r = reserve_nodes::<i64, u64>(usize::MAX);
    assert!(matches!(r, Err(AllocationFailure)));
}

#[test]
fn try_new_gives_an_empty_node() {
    let node: Node<i64, u64> = Node::try_new(true).unwrap();
    assert!(node.keys.is_empty() && node.vals.is_empty() && node.edges.is_empty());
    let node: Node<i64, u64> = Node::try_new(false).unwrap();
    assert!(node.keys.is_empty() && node.vals.is_empty() && node.edges.is_empty());
}

#[test]
fn move_tail_moves_the_items_behind_an_index() {
    let mut src = vec![1, 2, 3, 4, 5];
    let mut dst = vec![9];
    move_tail(&mut src, 2, &mut dst);
    assert_eq!(vec![1, 2], src);
    assert_eq!(vec![9, 3, 4, 5], dst);
    move_tail(&mut src, 2, &mut dst);
    assert_eq!(vec![1, 2], src);
    assert_eq!(vec![9, 3, 4, 5], dst);
    move_tail(&mut src, 0, &mut dst);
    assert!(src.is_empty());
    assert_eq!(vec![9, 3, 4, 5, 1, 2], dst);
}

#[test]
fn split_parts_a_node_at_its_middle() {
    let mut node: Node<i64, u64> = Node {
        keys: (0..12).collect(),
        vals: (100..112).collect(),
        edges: Vec::new(),
    };
    let blank: Node<i64, u64> = Node::try_new(false).unwrap();
    let (k, v, right) = node.split(blank);
    assert_eq!((6, 106), (k, v));
    assert_eq!(vec![0, 1, 2, 3, 4, 5], node.keys);
    assert_eq!(vec![100, 101, 102, 103, 104, 105], node.vals);
    assert_eq!(vec![7, 8, 9, 10, 11], right.keys);
    assert_eq!(vec![107, 108, 109, 110, 111], right.vals);
    assert!(node.edges.is_empty() && right.edges.is_empty());
}

#[test]
fn nodes_stay_within_their_sizes() {
    let mut m: BTreeMap<i64, u64> = BTreeMap::new();
    let mut x = 1u64;
    for i in 0..20000u64 {
        x = scramble(x);
        m.try_insert((x >> 40) as i64, i).unwrap();
        if i % 997 == 0 {
            check_map(&m);
        }
    }
    check_map(&m);
    assert!(m.height >= 3);
}

#[test]
fn ascending_and_descending_inserts_keep_the_tree_balanced() {
    let mut up: BTreeMap<i64, u64> = BTreeMap::new();
    let mut down: BTreeMap<i64, u64> = BTreeMap::new();
    for i in 0..5000 {
        up.try_insert(i, i as u64).unwrap();
        down.try_insert(-i, i as u64).unwrap();
    }
    check_map(&up);
    check_map(&down);
    assert_eq!(5000, up.len());
    assert_eq!(5000, down.len());
    assert_eq!(Some(&4999), down.get(&-4999));
}

#[test]
fn iter_yields_ascending_keys() {
    let mut m: BTreeMap<i64, u64> = BTreeMap::new();
    let mut x = 7u64;
    for i in 0..5000u64 {
        x = scramble(x);
        m.try_insert((x >> 48) as i64 - 30000, i).unwrap();
    }
    let entries = m.iter();
    assert_eq!(m.len(), entries.len());
    for w in entries.windows(2) {
        assert!(w[0].0 < w[1].0);
    }
    for (k, v) in &entries {
        assert_eq!(Some(*v), m.get(k));
    }
}

#[test]
fn get_finds_what_was_put_last() {
    let mut m: BTreeMap<i64, u64> = BTreeMap::new();
    let mut model: Model<i64, u64> = Model::new();
    let mut x = 3u64;
    for i in 0..8000u64 {
        x = scramble(x);
        let k = (x >> 52) as i64;
        assert_eq!(model.insert(k, i), m.try_insert(k, i).unwrap());
    }
    assert_eq!(model.len(), m.len());
    for k in -1..4097 {
        assert_eq!(model.get(&k), m.get(&k));
    }
    assert_eq!(
        model.iter().collect::<Vec<_>>(),
        m.iter().into_iter().collect::<Vec<_>>()
    );
}

#[test]
fn keys_at_the_ends_of_the_range() {
    let mut m: BTreeMap<i64, u64> = BTreeMap::new();
    for k in [i64::MAX, i64::MIN, 0, -1, 1] {
        m.try_insert(k, k as u64).unwrap();
    }
    assert_eq!(
        vec![i64::MIN, -1, 0, 1, i64::MAX],
        m.iter().into_iter().map(|(k, _)| *k).collect::<Vec<_>>()
    );
    assert_eq!(Some(&(i64::MIN as u64)), m.get(&i64::MIN));
}

#[test]
fn insert_reserved_fails_where_the_nodes_could_not_be_made() {
    let mut m: BTreeMap<i64, u64> = BTreeMap::new();
    for i in 0..11 {
        m.try_insert(i, i as u64).unwrap();
    }
    let before: Vec<(i64, u64)> = m.iter().into_iter().map(|(k, v)| (*k, *v)).collect();
    assert_eq!(Err(AllocationFailure), m.insert_reserved(11, 11, Err(AllocationFailure)));
    assert_eq!(11, m.len());
    assert_eq!(0, m.height);
    assert_eq!(
        before,
        m.iter().into_iter().map(|(k, v)| (*k, *v)).collect::<Vec<_>>()
    );
    assert_eq!(None, m.get(&11));
    // a key that is there needs no node, but the attempt decides
    assert_eq!(Err(AllocationFailure), m.insert_reserved(3, 30, Err(AllocationFailure)));
    assert_eq!(Some(&3), m.get(&3));
    assert_eq!(Ok(Some(3)), m.insert_reserved(3, 30, Ok(Vec::new())));
    assert_eq!(Ok(None), m.insert_reserved(11, 11, reserve_nodes(2)));
    assert_eq!(12, m.len());
    assert_eq!(1, m.height);
    check_map(&m);
}

#[test]
fn the_tree_grows_by_a_level_when_the_root_is_split() {
    let mut m: BTreeMap<i64, u64> = BTreeMap::new();
    let mut heights = vec![];
    for i in 0..200 {
        let (needed, _) = m.probe(&i);
        let before = m.height;
        m.try_insert(i, 0).unwrap();
        if m.height != before {
            assert_eq!(before + 1, m.height);
            assert_eq!(before + 2, needed);
            heights.push(i);
        }
    }
    // the first split comes with the twelfth key
    assert_eq!(11, heights[0]);
    assert_eq!(2, m.height);
    check_map(&m);
}

#[test]
fn granted_reports_a_failed_attempt() {
    let mut bytes: Vec<u8> = Vec::new();
    assert_eq!(Ok(()), granted(bytes.try_reserve(16)));
    assert!(bytes.capacity() >= 16);
    assert_eq!(Err(AllocationFailure), granted(bytes.try_reserve(usize::MAX)));
    assert_eq!(Ok(()), granted(Ok(())));
}

#[test]
fn no_nodes_can_always_be_had() {
    for _ in 0..3 {
        let nodes: Vec<Node<i64, u64>> = reserve_nodes(0).unwrap();
        assert!(nodes.is_empty());
    }
}
