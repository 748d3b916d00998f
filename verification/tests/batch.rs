use fallible_collections::btree::batch::{pairs_sorted, reverse};
use fallible_collections::btree::search::is_sorted;
use fallible_collections::btree::insert::reserve_nodes;
use fallible_collections::btree::node::Node;
use fallible_collections::btree::{AllocationFailure, BTreeMap};

fn scramble(x: u64) -> u64 {
    x.wrapping_mul(6364136223846793005).wrapping_add(1442695040888963407)
}

fn entries_of<V: Clone>(m: &BTreeMap<i64, V>) -> Vec<(i64, V)> {
    m.iter().into_iter().map(|(k, v)| (*k, v.clone())).collect()
}

fn random_pairs(seed: u64, n: usize, bits: u32) -> Vec<(i64, u64)> {
    let mut x = seed;
    let mut pairs = Vec::new();
    for i in 0..n {
        x = scramble(x);
        pairs.push(((x >> (64 - bits)) as i64, i as u64));
    }
    pairs.sort_by(|a, b| a.0.cmp(&b.0));
    pairs
}

#[test]
fn the_last_of_two_pairs_with_one_key_stays() {
    let mut m: BTreeMap<i64, &str> = BTreeMap::new();
    m.try_insert_many(vec![(5, "a"), (5, "b"), (9, "c")]).unwrap();
    assert_eq!(Some(&"b"), m.get(&5));
    assert_eq!(Some(&"c"), m.get(&9));
    assert_eq!(2, m.len());
    assert_eq!(vec![(5, "b"), (9, "c")], entries_of(&m));
}

#[test]
fn a_batch_replaces_values_that_were_there() {
    let mut m: BTreeMap<i64, u64> = BTreeMap::new();
    for i in 0..100 {
        m.try_insert(i, 0).unwrap();
    }
    m.try_insert_many(vec![(3, 1), (3, 2), (50, 3), (99, 4), (99, 5), (100, 6)])
        .unwrap();
    assert_eq!(101, m.len());
    assert_eq!(Some(&2), m.get(&3));
    assert_eq!(Some(&3), m.get(&50));
    assert_eq!(Some(&5), m.get(&99));
    assert_eq!(Some(&6), m.get(&100));
    assert_eq!(Some(&0), m.get(&4));
}

#[test]
fn an_empty_batch_changes_nothing() {
    let mut m: BTreeMap<i64, u64> = BTreeMap::new();
    m.try_insert_many(Vec::new()).unwrap();
    assert_eq!(0, m.len());
    assert!(m.root.is_none());
    m.try_insert(1, 1).unwrap();
    m.try_insert_many(Vec::new()).unwrap();
    assert_eq!(vec![(1, 1)], entries_of(&m));
}

#[test]
fn a_batch_into_an_empty_map() {
    let mut m: BTreeMap<i64, u64> = BTreeMap::new();
    m.try_insert_many((0..1000).map(|i| (i, i as u64)).collect()).unwrap();
    assert_eq!(1000, m.len());
    assert_eq!(
        (0..1000).map(|i| (i, i as u64)).collect::<Vec<_>>(),
        entries_of(&m)
    );
    assert!(m.height >= 2);
}

#[test]
fn a_batch_is_its_pairs_one_by_one() {
    for round in 0..40u64 {
        let start = random_pairs(round * 2 + 1, (round as usize) * 37, 12);
        let batch = random_pairs(round * 2 + 2, 1 + (round as usize) * 53, 12);
        let mut by_batch: BTreeMap<i64, u64> = BTreeMap::new();
        let mut one_by_one: BTreeMap<i64, u64> = BTreeMap::new();
        for (k, v) in &start {
            by_batch.try_insert(*k, *v).unwrap();
            one_by_one.try_insert(*k, *v).unwrap();
        }
        by_batch.try_insert_many(batch.clone()).unwrap();
        for (k, v) in &batch {
            one_by_one.try_insert(*k, *v).unwrap();
        }
        assert_eq!(one_by_one.len(), by_batch.len());
        assert_eq!(entries_of(&one_by_one), entries_of(&by_batch));
        for (k, _) in &batch {
            assert_eq!(one_by_one.get(k), by_batch.get(k));
        }
    }
}

#[test]
fn batches_grow_a_deep_tree() {
    let mut m: BTreeMap<i64, u64> = BTreeMap::new();
    let mut model = std::collections::BTreeMap::new();
    for round in 0..30u64 {
        let batch = random_pairs(round + 100, 3000, 20);
        for (k, v) in &batch {
            model.insert(*k, *v);
        }
        m.try_insert_many(batch).unwrap();
        assert_eq!(model.len(), m.len());
    }
    assert!(m.height >= 3);
    assert_eq!(
        model.into_iter().collect::<Vec<_>>(),
        entries_of(&m)
    );
}

#[test]
fn get_many_is_get_for_each_key() {
    let mut m: BTreeMap<i64, u64> = BTreeMap::new();
    m.try_insert_many(random_pairs(11, 20000, 16)).unwrap();
    for round in 0..20u64 {
        let keys: Vec<i64> = random_pairs(round + 500, 1 + (round as usize) * 211, 17)
            .into_iter()
            .map(|(k, _)| k - 10)
            .collect();
        let mut out = Vec::new();
        m.get_many(&keys, &mut out);
        assert_eq!(
            keys.iter().map(|k| m.get(k)).collect::<Vec<_>>(),
            out
        );
    }
}

#[test]
fn get_many_of_a_key_that_is_not_there() {
    let mut m: BTreeMap<i64, u64> = BTreeMap::new();
    for i in 0..64 {
        m.try_insert(i, i as u64).unwrap();
    }
    let mut out = vec![];
    m.get_many(&[100], &mut out);
    assert_eq!(vec![None], out);
    let mut out = vec![];
    m.get_many(&[-1, 0, 63, 64], &mut out);
    assert_eq!(vec![None, Some(&0), Some(&63), None], out);
}

#[test]
fn get_many_on_an_empty_map() {
    let m: BTreeMap<i64, u64> = BTreeMap::new();
    let mut out = vec![];
    m.get_many(&[1, 2, 3], &mut out);
    assert_eq!(vec![None, None, None], out);
    m.get_many(&[], &mut out);
    assert_eq!(3, out.len());
}

#[test]
fn get_many_appends_to_what_is_there() {
    let mut m: BTreeMap<i64, u64> = BTreeMap::new();
    m.try_insert(1, 10).unwrap();
    let seven = 7u64;
    let mut out = vec![Some(&seven), None];
    m.get_many(&[1, 1, 2], &mut out);
    assert_eq!(vec![Some(&7), None, Some(&10), Some(&10), None], out);
}

#[test]
fn reverse_turns_the_items_round() {
    for n in 0..12 {
        let mut items: Vec<usize> = (0..n).collect();
        reverse(&mut items);
        assert_eq!((0..n).rev().collect::<Vec<_>>(), items);
    }
    let mut pairs = vec![(1, 'a'), (2, 'b'), (3, 'c')];
    reverse(&mut pairs);
    assert_eq!(vec![(3, 'c'), (2, 'b'), (1, 'a')], pairs);
}

#[test]
fn a_batch_of_keys_that_are_there_replaces_their_values() {
    let mut m: BTreeMap<i64, u64> = BTreeMap::new();
    m.try_insert_many((0..500).map(|i| (i, 0)).collect()).unwrap();
    let height = m.height;
    assert_eq!(
        Ok(()),
        m.try_insert_many((0..500).map(|i| (i, i as u64 + 1)).collect())
    );
    assert_eq!(500, m.len());
    assert_eq!(height, m.height);
    assert_eq!(
        (0..500).map(|i| (i, i as u64 + 1)).collect::<Vec<_>>(),
        entries_of(&m)
    );
}

#[test]
fn is_sorted_takes_repeated_keys() {
    assert!(is_sorted::<i64>(&[]));
    assert!(is_sorted(&[7]));
    assert!(is_sorted(&[1, 2, 2, 3, 10]));
    assert!(is_sorted(&[i64::MIN, 0, i64::MAX]));
    assert!(!is_sorted(&[1, 3, 2]));
    assert!(!is_sorted(&[2, 1]));
    assert!(!is_sorted(&[1, 2, 3, 4, 0]));
}

#[test]
fn pairs_sorted_looks_at_the_keys_only() {
    assert!(pairs_sorted::<i64, u64>(&[]));
    assert!(pairs_sorted(&[(1, 9), (1, 3), (2, 0)]));
    assert!(pairs_sorted(&[(5, "a"), (5, "b"), (9, "c")]));
    assert!(!pairs_sorted(&[(2, 0), (1, 1)]));
    assert!(!pairs_sorted(&[(1, 0), (3, 1), (2, 2)]));
}

fn full_leaf() -> Node<i64, u64> {
    Node {
        keys: (0..11).map(|i| i * 10).collect(),
        vals: (0..11).map(|i| i as u64).collect(),
        edges: Vec::new(),
    }
}

#[test]
fn put_reserved_splits_a_full_leaf() {
    let mut leaf = full_leaf();
    let mut pending = vec![(200, 7), (35, 99)];
    let mut length = 11usize;
    let r = leaf.put_reserved(4, &mut pending, &mut length, reserve_nodes(3));
    let (sk, sv, right, rest) = match r {
        Ok(parts) => parts,
        Err(_) => panic!("the nodes were there"),
    };
    // 0 10 20 30 35 40 | 50 | 60 70 80 90 100
    assert_eq!((50, 5), (sk, sv));
    assert_eq!(vec![0, 10, 20, 30, 35, 40], leaf.keys);
    assert_eq!(vec![0, 1, 2, 3, 99, 4], leaf.vals);
    assert_eq!(vec![60, 70, 80, 90, 100], right.keys);
    assert_eq!(vec![6, 7, 8, 9, 10], right.vals);
    assert!(leaf.edges.is_empty() && right.edges.is_empty());
    assert_eq!(vec![(200, 7)], pending);
    assert_eq!(12, length);
    assert_eq!(2, rest.len());
}

#[test]
fn put_reserved_moves_the_new_pair_up_when_it_lands_in_the_middle() {
    let mut leaf = full_leaf();
    let mut pending = vec![(55, 1)];
    let mut length = 11usize;
    match leaf.put_reserved(6, &mut pending, &mut length, reserve_nodes(1)) {
        Ok((sk, sv, right, rest)) => {
            assert_eq!((55, 1), (sk, sv));
            assert_eq!(vec![0, 10, 20, 30, 40, 50], leaf.keys);
            assert_eq!(vec![60, 70, 80, 90, 100], right.keys);
            assert!(rest.is_empty());
        }
        Err(_) => panic!("the node was there"),
    }
    assert!(pending.is_empty());
}

#[test]
fn put_reserved_fails_where_the_nodes_could_not_be_made() {
    let mut leaf = full_leaf();
    let mut pending = vec![(200, 7), (35, 99)];
    let mut length = 11usize;
    let r = leaf.put_reserved(4, &mut pending, &mut length, Err(AllocationFailure));
    assert!(matches!(r, Err(AllocationFailure)));
    assert_eq!(full_leaf().keys, leaf.keys);
    assert_eq!(full_leaf().vals, leaf.vals);
    assert!(leaf.edges.is_empty());
    assert_eq!(vec![(200, 7), (35, 99)], pending);
    assert_eq!(11, length);
}

#[test]
fn a_batch_of_new_keys_that_need_no_node_goes_in() {
    let mut m: BTreeMap<i64, u64> = BTreeMap::new();
    m.try_insert(0, 0).unwrap();
    // the root is a leaf with room for ten more
    for k in 1..=10 {
        assert_eq!((0, false), m.probe(&k));
    }
    assert_eq!(Ok(()), m.try_insert_many((1..=10).map(|k| (k, k as u64)).collect()));
    assert_eq!(11, m.len());
    assert_eq!(0, m.height);
    assert_eq!(
        (0..=10).map(|k| (k, k as u64)).collect::<Vec<_>>(),
        entries_of(&m)
    );
}
