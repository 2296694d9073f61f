use std::sync::atomic::{AtomicU64, AtomicUsize, Ordering};
use std::sync::Arc;

use cmap::gc::{enter_stamp, gc_cutoff, Cas, Epoch, Mem, Reclaim, ENTER_MASK, EPOCH_MASK, MAX_POOL_SIZE};
use cmap::list::Item;
use cmap::trie::{Child, Node};

fn tomb(k: u32) -> Box<Node<u64>> {
    Box::new(Node::Tomb { item: Item { key: k, value: 0 } })
}

#[test]
fn enter_stamp_sets_flag() {
    assert_eq!(enter_stamp(5), 5 | ENTER_MASK);
    assert_eq!(enter_stamp(5) & EPOCH_MASK, 5);
    assert_eq!(enter_stamp(ENTER_MASK | 3), ENTER_MASK | 3);
}

#[test]
fn gc_cutoff_takes_least_floor() {
    assert_eq!(gc_cutoff(10, &vec![]), 10);
    assert_eq!(gc_cutoff(10, &vec![4]), 10);
    assert_eq!(gc_cutoff(10, &vec![4 | ENTER_MASK, 7 | ENTER_MASK, 9]), 4);
    assert_eq!(gc_cutoff(10, &vec![12 | ENTER_MASK]), 10);
}

#[test]
fn epoch_enter_and_exit() {
    let global = Arc::new(AtomicU64::new(7));
    let at = Arc::new(AtomicU64::new(0));
    let compacts = Arc::new(AtomicUsize::new(0));
    let retries = Arc::new(AtomicUsize::new(0));
    let e = Epoch::new(global.clone(), at.clone(), compacts.clone(), retries.clone());
    assert_eq!(at.load(Ordering::SeqCst), 7 | ENTER_MASK);
    e.count_retries(0);
    e.count_retries(1);
    assert_eq!(retries.load(Ordering::SeqCst), 0);
    e.count_retries(2);
    e.count_retries(5);
    assert_eq!(retries.load(Ordering::SeqCst), 2);
    e.count_compacts();
    assert_eq!(compacts.load(Ordering::SeqCst), 1);
    e.exit();
    assert_eq!(at.load(Ordering::SeqCst), 7);
    assert_eq!(global.load(Ordering::SeqCst), 8);
}

#[test]
fn alloc_from_empty_pools_counts() {
    let mut cas: Cas<u64> = Cas::new();
    assert_eq!(cas.to_pools_len(), 0);
    let t = cas.alloc_node('t');
    assert!(matches!(*t, Node::Trie { bmp: 0, ref childs } if childs.is_empty()));
    let l = cas.alloc_node('l');
    assert!(matches!(*l, Node::List { ref items } if items.is_empty()));
    let b = cas.alloc_node('b');
    assert!(matches!(*b, Node::Tomb { .. }));
    let c = cas.alloc_child();
    let r = cas.alloc_reclaim();
    assert_eq!(cas.to_alloc_count(), 5);
    cas.free_node(t);
    cas.free_node(l);
    cas.free_node(b);
    cas.free_child(c);
    cas.free_reclaim(r);
    assert_eq!(cas.to_pools_len(), 5);
    assert_eq!(cas.to_free_count(), 0);
    let _t = cas.alloc_node('t');
    assert_eq!(cas.to_alloc_count(), 5);
    assert_eq!(cas.to_pools_len(), 4);
}

#[test]
fn free_node_resets_before_pooling() {
    let mut cas: Cas<u64> = Cas::new();
    let mut items = Vec::new();
    items.push(Item { key: 1, value: 1u64 });
    items.push(Item { key: 2, value: 2u64 });
    cas.free_node(Box::new(Node::List { items }));
    let l = cas.alloc_node('l');
    assert!(matches!(*l, Node::List { ref items } if items.is_empty()));
    assert_eq!(cas.to_alloc_count(), 0);
}

#[test]
fn pools_are_capped() {
    let mut cas: Cas<u64> = Cas::new();
    for _ in 0..(MAX_POOL_SIZE + 3) {
        cas.free_child(Box::new(Child { node: tomb(0) }));
    }
    assert_eq!(cas.to_pools_len(), MAX_POOL_SIZE);
    assert_eq!(cas.to_free_count(), 3);
    assert!(!cas.validate());
}

#[test]
fn swing_success_commits_a_bin() {
    let global = Arc::new(AtomicU64::new(3));
    let mut cas: Cas<u64> = Cas::new();
    cas.free_on_pass(Mem::Node(tomb(1)));
    cas.free_on_pass(Mem::Child(Box::new(Child { node: tomb(2) })));
    cas.free_on_fail(Mem::Node(tomb(3)));
    assert!(cas.swing(&global, true));
    assert!(cas.has_reclaims());
    assert_eq!(cas.to_pools_len(), 0);
    assert!(cas.validate());
    cas.garbage_collect(3);
    assert!(cas.has_reclaims());
    cas.garbage_collect(4);
    assert!(!cas.has_reclaims());
    assert_eq!(cas.to_pools_len(), 3);
}

#[test]
fn swing_failure_returns_newer() {
    let global = Arc::new(AtomicU64::new(3));
    let mut cas: Cas<u64> = Cas::new();
    cas.free_on_pass(Mem::Node(tomb(1)));
    cas.free_on_fail(Mem::Node(tomb(2)));
    cas.free_on_fail(Mem::Child(Box::new(Child { node: tomb(3) })));
    assert!(!cas.swing(&global, false));
    assert!(!cas.has_reclaims());
    assert_eq!(cas.to_pools_len(), 2);
    assert_eq!(cas.to_alloc_count(), 0);
}

#[test]
fn garbage_collect_drains_only_stale_bins() {
    let global = Arc::new(AtomicU64::new(1));
    let mut cas: Cas<u64> = Cas::new();
    cas.free_on_pass(Mem::Node(tomb(1)));
    cas.swing(&global, true);
    global.store(5, Ordering::SeqCst);
    cas.free_on_pass(Mem::Node(tomb(2)));
    cas.swing(&global, true);
    cas.garbage_collect(2);
    assert!(cas.has_reclaims());
    assert_eq!(cas.to_pools_len(), 2);
    assert!(!cas.is_settled());
    cas.garbage_collect(global.load(Ordering::SeqCst) + 1);
    assert!(!cas.has_reclaims());
    assert!(cas.is_settled());
    assert_eq!(cas.to_pools_len(), 4);
    assert!(cas.validate());
}

#[test]
fn reclaim_default_is_empty() {
    let _r: Reclaim<u64> = Reclaim::default();
}

#[test]
fn stress_keeps_pools_within_cap() {
    let global = Arc::new(AtomicU64::new(0));
    let mut cas: Cas<u64> = Cas::new();
    for round in 0..3000u32 {
        let t = cas.alloc_node('b');
        cas.free_on_pass(Mem::Node(t));
        let c = cas.alloc_child();
        cas.free_on_fail(Mem::Child(c));
        let swapped = round % 3 != 0;
        assert_eq!(cas.swing(&global, swapped), swapped);
        global.fetch_add(1, Ordering::SeqCst);
        if round % 100 == 0 {
            cas.garbage_collect(global.load(Ordering::SeqCst));
        }
    }
    cas.garbage_collect(global.load(Ordering::SeqCst) + 1);
    assert!(cas.is_settled());
    assert!(cas.to_pools_len() <= 5 * MAX_POOL_SIZE);
}

#[test]
fn collect_at_zero_changes_nothing() {
    let global = Arc::new(AtomicU64::new(0));
    let mut cas: Cas<u64> = Cas::new();
    cas.free_on_pass(Mem::Node(tomb(1)));
    cas.swing(&global, true);
    let pools = cas.to_pools_len();
    let frees = cas.to_free_count();
    cas.garbage_collect(0);
    assert!(cas.has_reclaims());
    assert_eq!(cas.to_pools_len(), pools);
    assert_eq!(cas.to_free_count(), frees);
    cas.garbage_collect(1);
    let pools = cas.to_pools_len();
    cas.garbage_collect(1);
    assert_eq!(cas.to_pools_len(), pools);
}

#[test]
fn fresh_tomb_and_pooled_tomb() {
    let mut cas: Cas<u64> = Cas::new();
    let b = cas.alloc_node('b');
    assert!(matches!(*b, Node::Tomb { item } if item.key == 0));
    cas.free_node(tomb(77));
    let b = cas.alloc_node('b');
    assert!(matches!(*b, Node::Tomb { item } if item.key == 77));
    assert_eq!(cas.to_alloc_count(), 1);
}
