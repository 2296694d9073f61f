use std::collections::BTreeMap;

use arbitrary::Unstructured;
use cmap::list::Item;
use cmap::map::{Op, TrieMap};
use cmap::trie::{expand, key_hash, Node};
use rand::{rngs::SmallRng, Rng, SeedableRng};

fn nibble(k: u32, d: u32) -> u16 {
    ((key_hash(k) >> (4 * d)) & 15) as u16
}

fn slot_child<V>(node: &Node<V>, s: u16) -> Option<&Node<V>> {
    match node {
        Node::Trie { bmp, childs } => {
            if bmp & (1 << s) == 0 {
                None
            } else {
                let idx = (bmp & ((1u16 << s) - 1)).count_ones() as usize;
                Some(&childs[idx].node)
            }
        }
        _ => None,
    }
}

#[test]
fn key_hash_values() {
    assert_eq!(key_hash(0), 0);
    assert_eq!(key_hash(1), 0x9e3779bd8ef1b1de);
    assert_eq!(key_hash(7), 0x53845410e72bc400);
}

#[test]
fn set_then_get() {
    let mut map: TrieMap<u64> = TrieMap::new();
    assert_eq!(map.set(42, 4200), None);
    assert_eq!(map.get(42), Some(4200));
    assert_eq!(map.len(), 1);
}

#[test]
fn set_twice_returns_first_value() {
    let mut map: TrieMap<u64> = TrieMap::new();
    assert_eq!(map.set(7, 1), None);
    assert_eq!(map.set(7, 2), Some(1));
    assert_eq!(map.get(7), Some(2));
    assert_eq!(map.len(), 1);
}

#[test]
fn set_remove_get() {
    let mut map: TrieMap<u64> = TrieMap::new();
    map.set(9, 90);
    assert_eq!(map.remove(9), Some(90));
    assert_eq!(map.get(9), None);
    assert_eq!(map.len(), 0);
}

#[test]
fn remove_absent_changes_nothing() {
    let mut map: TrieMap<u64> = TrieMap::new();
    map.set(1, 10);
    map.set(2, 20);
    assert_eq!(map.remove(3), None);
    assert_eq!(map.len(), 2);
    assert_eq!(map.get(1), Some(10));
    assert_eq!(map.get(2), Some(20));
    let mut empty: TrieMap<u64> = TrieMap::new();
    assert_eq!(empty.remove(0), None);
    assert_eq!(empty.len(), 0);
}

#[test]
fn root_stays_trie() {
    let mut map: TrieMap<u64> = TrieMap::new();
    assert!(matches!(map.as_root(), Node::Trie { .. }));
    map.set(5, 50);
    assert!(matches!(map.as_root(), Node::Trie { .. }));
    map.remove(5);
    assert!(matches!(map.as_root(), Node::Trie { .. }));
}

#[test]
fn expand_at_list_depth_gives_two_item_list() {
    let a = Item { key: 3, value: 30u64 };
    let b = Item { key: 4, value: 40u64 };
    match expand(15, a, key_hash(3), b, key_hash(4)) {
        Node::List { items } => assert_eq!(items, vec![a, b]),
        _ => panic!("expected a list"),
    }
}

#[test]
fn expand_splits_on_first_differing_nibble() {
    let a = Item { key: 3, value: 30u64 };
    let b = Item { key: 4, value: 40u64 };
    let node = expand(1, a, key_hash(3), b, key_hash(4));
    let mut d = 1;
    let mut cur = &node;
    while nibble(3, d) == nibble(4, d) {
        cur = slot_child(cur, nibble(3, d)).unwrap();
        d += 1;
    }
    assert!(matches!(slot_child(cur, nibble(3, d)), Some(Node::Tomb { item }) if *item == a));
    assert!(matches!(slot_child(cur, nibble(4, d)), Some(Node::Tomb { item }) if *item == b));
}

#[test]
fn tomb_collapse_after_remove() {
    let mut pair = None;
    'outer: for k1 in 0u32..1000 {
        for k2 in (k1 + 1)..1000 {
            if nibble(k1, 0) == nibble(k2, 0) && nibble(k1, 1) != nibble(k2, 1) {
                pair = Some((k1, k2));
                break 'outer;
            }
        }
    }
    let (k1, k2) = pair.unwrap();
    let mut map: TrieMap<u64> = TrieMap::new();
    map.set(k1, 1);
    map.set(k2, 2);
    let below = slot_child(map.as_root(), nibble(k1, 0)).unwrap();
    assert!(matches!(below, Node::Trie { childs, .. } if childs.len() == 2));
    assert_eq!(map.remove(k1), Some(1));
    let below = slot_child(map.as_root(), nibble(k2, 0)).unwrap();
    assert!(matches!(below, Node::Tomb { item } if item.key == k2 && item.value == 2));
    assert_eq!(map.get(k2), Some(2));
    assert_eq!(map.get(k1), None);
}

#[test]
fn collapse_runs_up_two_levels() {
    let mut pair = None;
    'outer: for k1 in 0u32..5000 {
        for k2 in (k1 + 1)..5000 {
            if nibble(k1, 0) == nibble(k2, 0)
                && nibble(k1, 1) == nibble(k2, 1)
                && nibble(k1, 2) != nibble(k2, 2)
            {
                pair = Some((k1, k2));
                break 'outer;
            }
        }
    }
    let (k1, k2) = pair.unwrap();
    let mut map: TrieMap<u64> = TrieMap::new();
    map.set(k1, 1);
    map.set(k2, 2);
    assert_eq!(map.remove(k2), Some(2));
    let below = slot_child(map.as_root(), nibble(k1, 0)).unwrap();
    assert!(matches!(below, Node::Tomb { item } if item.key == k1));
    assert_eq!(map.len(), 1);
}

#[test]
fn many_keys_round_trip() {
    let mut map: TrieMap<u64> = TrieMap::new();
    for k in 0u32..5000 {
        assert_eq!(map.set(k * 7919, k as u64), None);
    }
    assert_eq!(map.len(), 5000);
    for k in 0u32..5000 {
        assert_eq!(map.get(k * 7919), Some(k as u64));
    }
    for k in (0u32..5000).step_by(2) {
        assert_eq!(map.remove(k * 7919), Some(k as u64));
    }
    assert_eq!(map.len(), 2500);
    for k in 0u32..5000 {
        let expect = if k % 2 == 0 { None } else { Some(k as u64) };
        assert_eq!(map.get(k * 7919), expect);
    }
    for k in (1u32..5000).step_by(2) {
        assert_eq!(map.remove(k * 7919), Some(k as u64));
    }
    assert_eq!(map.len(), 0);
    assert!(matches!(map.as_root(), Node::Trie { childs, .. } if childs.is_empty()));
}

#[test]
fn len_follows_serial_replay() {
    let ops: Vec<Op<u64>> = vec![
        Op::Put(1, 10),
        Op::Put(2, 20),
        Op::Put(1, 11),
        Op::Remove(3),
        Op::Get(2),
        Op::Remove(2),
        Op::Put(4, 40),
    ];
    let mut map: TrieMap<u64> = TrieMap::new();
    let mut expected: i64 = 0;
    let mut reference: BTreeMap<u32, u64> = BTreeMap::new();
    for op in ops {
        match op {
            Op::Put(k, v) => {
                if !reference.contains_key(&k) {
                    expected += 1;
                }
                reference.insert(k, v);
            }
            Op::Remove(k) => {
                if reference.remove(&k).is_some() {
                    expected -= 1;
                }
            }
            Op::Get(_) => {}
        }
        map.apply(op);
    }
    assert_eq!(map.len() as i64, expected);
    assert_eq!(map.len(), 2);
}

#[test]
fn random_ops_match_btreemap() {
    let mut rng = SmallRng::seed_from_u64(0x5eed);
    let mut map: TrieMap<u64> = TrieMap::new();
    let mut reference: BTreeMap<u32, u64> = BTreeMap::new();
    for _ in 0..100 {
        let bytes: [u8; 16] = rng.gen();
        let mut u = Unstructured::new(&bytes);
        let kind: u8 = u.int_in_range(0..=2).unwrap();
        let key: u32 = u.int_in_range(0..=31).unwrap();
        let value: u64 = u.arbitrary().unwrap();
        let op = match kind {
            0 => Op::Get(key),
            1 => Op::Put(key, value),
            _ => Op::Remove(key),
        };
        let got = map.apply(op);
        let want = match op {
            Op::Get(k) => reference.get(&k).cloned(),
            Op::Put(k, v) => reference.insert(k, v),
            Op::Remove(k) => reference.remove(&k),
        };
        assert_eq!(got, want);
        assert_eq!(map.len(), reference.len());
    }
    for (k, v) in reference.iter() {
        assert_eq!(map.get(*k), Some(*v));
    }
}

#[test]
fn partitioned_keys_from_many_workers() {
    let n_workers: u32 = 8;
    let modul = u32::MAX / n_workers;
    let mut map: TrieMap<u64> = TrieMap::new();
    let mut reference: BTreeMap<u32, u64> = BTreeMap::new();
    let mut rng = SmallRng::seed_from_u64(42);
    for id in 0..n_workers {
        for _ in 0..2000 {
            let kind: u8 = rng.gen_range(0..3);
            let key: u32 = rng.gen();
            let value: u64 = rng.gen();
            let op = match kind {
                0 => Op::Get(key),
                1 => Op::Put(key, value),
                _ => Op::Remove(key),
            }
            .adjust_key(id, modul);
            let got = map.apply(op);
            let want = match op {
                Op::Get(k) => reference.get(&k).cloned(),
                Op::Put(k, v) => reference.insert(k, v),
                Op::Remove(k) => reference.remove(&k),
            };
            assert_eq!(got, want);
        }
    }
    assert_eq!(map.len(), reference.len());
    for (k, v) in reference.iter() {
        assert_eq!(map.get(*k), Some(*v));
    }
}

#[test]
fn adjust_key_maps_into_worker_slice() {
    let op: Op<u64> = Op::Put(1000, 5);
    assert_eq!(op.adjust_key(2, 100), Op::Put(200, 5));
    let op: Op<u64> = Op::Get(1234);
    assert_eq!(op.adjust_key(3, 1000), Op::Get(3234));
    let op: Op<u64> = Op::Remove(7);
    assert_eq!(op.adjust_key(0, 5), Op::Remove(2));
}

#[test]
fn stress_on_small_key_space() {
    let mut map: TrieMap<u64> = TrieMap::new();
    let mut reference: BTreeMap<u32, u64> = BTreeMap::new();
    let mut rng = SmallRng::seed_from_u64(7);
    for _ in 0..20000 {
        let key: u32 = rng.gen_range(0..256);
        let value: u64 = rng.gen();
        if rng.gen_bool(0.5) {
            assert_eq!(map.set(key, value), reference.insert(key, value));
        } else {
            assert_eq!(map.remove(key), reference.remove(&key));
        }
    }
    assert_eq!(map.len(), reference.len());
}

fn check_shape(node: &Node<u64>, depth: u32) -> usize {
    match node {
        Node::Trie { bmp, childs } => {
            assert!(depth < 15);
            assert_eq!(childs.len(), bmp.count_ones() as usize);
            childs.iter().map(|c| check_shape(&c.node, depth + 1)).sum()
        }
        Node::List { items } => {
            assert_eq!(depth, 15);
            assert!(items.len() >= 2);
            for i in 0..items.len() {
                for j in (i + 1)..items.len() {
                    assert_ne!(items[i].key, items[j].key);
                }
            }
            items.len()
        }
        Node::Tomb { .. } => 1,
    }
}

#[test]
fn every_node_keeps_its_shape() {
    let mut map: TrieMap<u64> = TrieMap::new();
    let mut rng = SmallRng::seed_from_u64(99);
    for _ in 0..5000 {
        let key: u32 = rng.gen_range(0..2000);
        if rng.gen_bool(0.6) {
            map.set(key, key as u64);
        } else {
            map.remove(key);
        }
    }
    assert!(matches!(map.as_root(), Node::Trie { .. }));
    assert_eq!(check_shape(map.as_root(), 0), map.len());
}
