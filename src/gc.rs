use std::sync::atomic::{AtomicU64, AtomicUsize, Ordering};
use std::sync::Arc;
use vstd::prelude::*;

use crate::list::Item;
use crate::trie::{Child, Node};

verus! {

/// Top bit of a beacon: the access is inside an operation.
pub const ENTER_MASK: u64 = 0x8000000000000000;

/// Low bits of a beacon: the global epoch it captured.
pub const EPOCH_MASK: u64 = 0x7FFFFFFFFFFFFFFF;

/// Most entries a pool keeps.
pub const MAX_POOL_SIZE: usize = 1024;

/// What a beacon says of the oldest epoch its access may still see: the captured epoch while
/// the access is inside an operation, else the global epoch.
pub open spec fn beacon_floor(global: u64, at: u64) -> u64 {
    if at & ENTER_MASK != 0 {
        at & EPOCH_MASK
    } else {
        global
    }
}

/// The beacon value stored on entering an operation at global epoch `global`.
pub fn enter_stamp(global: u64) -> (r: u64)
    ensures
        r == global | ENTER_MASK,
        r & ENTER_MASK != 0,
        r & EPOCH_MASK == global & EPOCH_MASK,
{
    let r = global | ENTER_MASK;
    assert(r & ENTER_MASK != 0 && r & EPOCH_MASK == global & EPOCH_MASK) by (bit_vector)
        requires
            r == global | ENTER_MASK,
            ENTER_MASK == 0x8000000000000000u64,
            EPOCH_MASK == 0x7FFFFFFFFFFFFFFFu64,
    ;
    r
}

/// The reclaim cutoff: the least of the global epoch and the floors of all beacons. A bin
/// stamped below it can no longer be seen by any access.
pub fn gc_cutoff(global: u64, beacons: &Vec<u64>) -> (r: u64)
    ensures
        r <= global,
        forall|i: int| 0 <= i < beacons@.len() ==> r <= beacon_floor(global, beacons@[i]),
        r == global || exists|i: int|
            0 <= i < beacons@.len() && r == beacon_floor(global, beacons@[i]),
{
    let mut r: u64 = global;
    let mut i: usize = 0;
    while i < beacons.len()
        invariant
            i <= beacons@.len(),
            r <= global,
            forall|j: int| 0 <= j < i ==> r <= beacon_floor(global, beacons@[j]),
            r == global || exists|j: int| 0 <= j < i && r == beacon_floor(global, beacons@[j]),
        decreases beacons.len() - i,
    {
        let at = beacons[i];
        let floor = if at & ENTER_MASK != 0 {
            at & EPOCH_MASK
        } else {
            global
        };
        if floor < r {
            r = floor;
        }
        i = i + 1;
    }
    r
}

/// A beacon held for the length of one operation on the map: entering stamps the access's
/// beacon, `exit` clears the stamp and moves the global epoch on.
pub struct Epoch {
    epoch: Arc<AtomicU64>,
    at: Arc<AtomicU64>,
    n_compacts: Arc<AtomicUsize>,
    n_retries: Arc<AtomicUsize>,
}

impl Epoch {
    pub closed spec fn global(&self) -> AtomicU64 {
        *self.epoch
    }

    pub closed spec fn beacon(&self) -> AtomicU64 {
        *self.at
    }

    /// Enters an operation: the beacon `at` is set to the global epoch with the enter flag.
    pub fn new(
        epoch: Arc<AtomicU64>,
        at: Arc<AtomicU64>,
        n_compacts: Arc<AtomicUsize>,
        n_retries: Arc<AtomicUsize>,
    ) -> (r: Epoch)
        ensures
            r.global() == *epoch,
            r.beacon() == *at,
    {
        let g = epoch.load(Ordering::SeqCst);
        at.store(enter_stamp(g), Ordering::SeqCst);
        Epoch { epoch, at, n_compacts, n_retries }
    }

    /// Counts an operation that needed two tries or more.
    pub fn count_retries(&self, retries: usize) {
        if retries >= 2 {
            self.n_retries.fetch_add(1, Ordering::SeqCst);
        }
    }

    /// Leaves the operation: the beacon takes the global epoch without the enter flag, then the
    /// global epoch moves on by one.
    pub fn exit(self) {
        self.at.store(self.epoch.load(Ordering::SeqCst), Ordering::SeqCst);
        self.epoch.fetch_add(1, Ordering::SeqCst);
    }

    /// Counts one collapse of a subtree into a tomb.
    pub fn count_compacts(&self) {
        self.n_compacts.fetch_add(1, Ordering::SeqCst);
    }
}

/// A trie node in the state a pool keeps it: an empty trie.
pub open spec fn is_blank_trie<V>(n: Node<V>) -> bool {
    match n {
        Node::Trie { bmp, childs } => bmp == 0 && childs@.len() == 0,
        _ => false,
    }
}

/// A list node in the state a pool keeps it: no items.
pub open spec fn is_blank_list<V>(n: Node<V>) -> bool {
    match n {
        Node::List { items } => items@.len() == 0,
        _ => false,
    }
}

/// A tomb as a new allocation holds it: key 0.
pub open spec fn is_fresh_tomb<V>(n: Node<V>) -> bool {
    match n {
        Node::Tomb { item } => item.key == 0,
        _ => false,
    }
}

pub open spec fn is_tomb<V>(n: Node<V>) -> bool {
    n is Tomb
}

/// An allocation handed to the sidecar.
pub enum Mem<V> {
    Child(Box<Child<V>>),
    Node(Box<Node<V>>),
}

/// An allocation the sidecar holds until it is resolved.
pub enum OwnedMem<V> {
    Child(Box<Child<V>>),
    Node(Box<Node<V>>),
}

/// The sidecar's entry for an allocation handed to it.
pub open spec fn owned_of<V>(m: Mem<V>) -> OwnedMem<V> {
    match m {
        Mem::Child(c) => OwnedMem::Child(c),
        Mem::Node(n) => OwnedMem::Node(n),
    }
}

/// Relies on `Box::leak`: ownership of the allocation is given up and it is never freed.
#[verifier::external_body]
fn leak_box<T>(b: Box<T>) {
    Box::leak(b);
}

impl<V> OwnedMem<V> {
    /// Gives up the allocation without freeing it: it was published and stays reachable from
    /// the trie.
    fn leak(self) {
        match self {
            OwnedMem::Child(c) => leak_box(c),
            OwnedMem::Node(n) => leak_box(n),
        }
    }
}

/// A bin of detached allocations, stamped with the global epoch at which they were detached.
pub struct Reclaim<V> {
    epoch: Option<u64>,
    items: Vec<OwnedMem<V>>,
}

impl<V> Reclaim<V> {
    pub closed spec fn stamp(&self) -> Option<u64> {
        self.epoch
    }

    pub closed spec fn len(&self) -> nat {
        self.items@.len()
    }

    /// The allocations the bin holds.
    pub closed spec fn items(&self) -> Seq<OwnedMem<V>> {
        self.items@
    }
}

impl<V> Default for Reclaim<V> {
    fn default() -> (r: Self)
        ensures
            r.stamp().is_none(),
            r.len() == 0,
    {
        Reclaim { epoch: None, items: Vec::new() }
    }
}

/// The pools and the free count: the entries of the child and tomb pools, and how many reset
/// nodes and bins the other pools hold.
pub struct PoolsView<V> {
    pub child: Seq<Box<Child<V>>>,
    pub trie: nat,
    pub list: nat,
    pub tomb: Seq<Box<Node<V>>>,
    pub reclaim: nat,
    pub frees: nat,
}

/// The pools after one allocation is handed back: it joins its pool while that is under the
/// cap (a trie or list node reset), else it is freed and counted.
pub open spec fn give_back<V>(p: PoolsView<V>, m: OwnedMem<V>) -> PoolsView<V> {
    match m {
        OwnedMem::Child(c) => if p.child.len() < MAX_POOL_SIZE {
            PoolsView { child: p.child.push(c), ..p }
        } else {
            PoolsView { frees: p.frees + 1, ..p }
        },
        OwnedMem::Node(n) => match *n {
            Node::Trie { .. } => if p.trie < MAX_POOL_SIZE {
                PoolsView { trie: p.trie + 1, ..p }
            } else {
                PoolsView { frees: p.frees + 1, ..p }
            },
            Node::List { .. } => if p.list < MAX_POOL_SIZE {
                PoolsView { list: p.list + 1, ..p }
            } else {
                PoolsView { frees: p.frees + 1, ..p }
            },
            Node::Tomb { .. } => if p.tomb.len() < MAX_POOL_SIZE {
                PoolsView { tomb: p.tomb.push(n), ..p }
            } else {
                PoolsView { frees: p.frees + 1, ..p }
            },
        },
    }
}

/// The pools after the allocations `items` are handed back, the last one first.
pub open spec fn give_back_all<V>(p: PoolsView<V>, items: Seq<OwnedMem<V>>) -> PoolsView<V>
    decreases items.len(),
{
    if items.len() == 0 {
        p
    } else {
        give_back(give_back_all(p, items.drop_first()), items[0])
    }
}

/// The pools after an emptied bin is handed back.
pub open spec fn bin_back<V>(p: PoolsView<V>) -> PoolsView<V> {
    if p.reclaim < MAX_POOL_SIZE {
        PoolsView { reclaim: p.reclaim + 1, ..p }
    } else {
        PoolsView { frees: p.frees + 1, ..p }
    }
}

/// The pools after a collection at cutoff `gc_epoch` drains the stale ones of `bins`, the last
/// bin first: each one's allocations, then the bin.
pub open spec fn gc_pools<V>(p: PoolsView<V>, bins: Seq<Box<Reclaim<V>>>, gc_epoch: u64) -> PoolsView<V>
    decreases bins.len(),
{
    if bins.len() == 0 {
        p
    } else {
        let q = gc_pools(p, bins.drop_first(), gc_epoch);
        if is_stale((bins[0].stamp(), bins[0].len()), gc_epoch) {
            bin_back(give_back_all(q, bins[0].items()))
        } else {
            q
        }
    }
}

/// A collection finding no stale bin leaves the pools as they are.
pub proof fn lemma_gc_pools_none_stale<V>(p: PoolsView<V>, bins: Seq<Box<Reclaim<V>>>, gc_epoch: u64)
    requires
        forall|i: int| 0 <= i < bins.len() ==> !is_stale((#[trigger] bins[i].stamp(), bins[i].len()), gc_epoch),
    ensures
        gc_pools(p, bins, gc_epoch) == p,
    decreases bins.len(),
{
    if bins.len() > 0 {
        assert(!is_stale((bins[0].stamp(), bins[0].len()), gc_epoch));
        assert forall|i: int| 0 <= i < bins.drop_first().len() implies !is_stale(
            (#[trigger] bins.drop_first()[i].stamp(), bins.drop_first()[i].len()),
            gc_epoch,
        ) by {
            assert(bins.drop_first()[i] == bins[i + 1]);
        }
        lemma_gc_pools_none_stale(p, bins.drop_first(), gc_epoch);
    }
}

/// A collection keeps every bin when none is stale, and leaves no stale bin: so a collection
/// at cutoff 0, or a second one at the same cutoff, keeps every bin.
pub proof fn lemma_kept_bins(bins: Seq<(Option<u64>, nat)>, gc_epoch: u64)
    ensures
        forall|i: int| 0 <= i < kept_bins(bins, gc_epoch).len() ==> !is_stale(#[trigger] kept_bins(bins, gc_epoch)[i], gc_epoch),
        (forall|i: int| 0 <= i < bins.len() ==> !is_stale(#[trigger] bins[i], gc_epoch)) ==> kept_bins(bins, gc_epoch) == bins,
        gc_epoch == 0 ==> kept_bins(bins, gc_epoch) == bins,
    decreases bins.len(),
{
    if bins.len() > 0 {
        lemma_kept_bins(bins.drop_first(), gc_epoch);
        let rest = kept_bins(bins.drop_first(), gc_epoch);
        if !is_stale(bins[0], gc_epoch) {
            assert forall|i: int| 0 <= i < kept_bins(bins, gc_epoch).len() implies !is_stale(#[trigger] kept_bins(bins, gc_epoch)[i], gc_epoch) by {
                if i > 0 {
                    assert(kept_bins(bins, gc_epoch)[i] == rest[i - 1]);
                }
            }
        }
        if forall|i: int| 0 <= i < bins.len() ==> !is_stale(#[trigger] bins[i], gc_epoch) {
            assert forall|i: int| 0 <= i < bins.drop_first().len() implies !is_stale(#[trigger] bins.drop_first()[i], gc_epoch) by {
                assert(bins.drop_first()[i] == bins[i + 1]);
            }
            assert(seq![bins[0]].add(bins.drop_first()) =~= bins);
        }
        if gc_epoch == 0 {
            assert forall|i: int| 0 <= i < bins.len() implies !is_stale(#[trigger] bins[i], gc_epoch) by {}
            assert forall|i: int| 0 <= i < bins.drop_first().len() implies !is_stale(#[trigger] bins.drop_first()[i], gc_epoch) by {
                assert(bins.drop_first()[i] == bins[i + 1]);
            }
            assert(seq![bins[0]].add(bins.drop_first()) =~= bins);
        }
    } else {
        assert(kept_bins(bins, gc_epoch) =~= bins);
    }
}

/// A bin whose stamp is below the cutoff.
pub open spec fn is_stale(bin: (Option<u64>, nat), gc_epoch: u64) -> bool {
    bin.0.is_some() && bin.0.unwrap() < gc_epoch
}

/// The bins that a collection at cutoff `gc_epoch` keeps, in their order.
pub open spec fn kept_bins(bins: Seq<(Option<u64>, nat)>, gc_epoch: u64) -> Seq<(Option<u64>, nat)>
    decreases bins.len(),
{
    if bins.len() == 0 {
        bins
    } else {
        let rest = kept_bins(bins.drop_first(), gc_epoch);
        if is_stale(bins[0], gc_epoch) {
            rest
        } else {
            seq![bins[0]].add(rest)
        }
    }
}

/// Allocations that a collection at cutoff `gc_epoch` hands back: the items of each stale bin
/// and the bin itself.
pub open spec fn drained_count(bins: Seq<(Option<u64>, nat)>, gc_epoch: u64) -> nat
    decreases bins.len(),
{
    if bins.len() == 0 {
        0
    } else {
        let rest = drained_count(bins.drop_first(), gc_epoch);
        if is_stale(bins[0], gc_epoch) {
            rest + bins[0].1 + 1
        } else {
            rest
        }
    }
}

/// Allocations held by the bins.
pub open spec fn held_count(bins: Seq<(Option<u64>, nat)>) -> nat
    decreases bins.len(),
{
    if bins.len() == 0 {
        0
    } else {
        held_count(bins.drop_first()) + bins[0].1 + 1
    }
}

pub proof fn lemma_held_last(bins: Seq<(Option<u64>, nat)>)
    requires
        bins.len() > 0,
    ensures
        held_count(bins) == held_count(bins.drop_last()) + bins.last().1 + 1,
    decreases bins.len(),
{
    if bins.len() > 1 {
        lemma_held_last(bins.drop_first());
        assert(bins.drop_first().drop_last() =~= bins.drop_last().drop_first());
        assert(bins.drop_first().last() == bins.last());
        assert(bins.drop_last()[0] == bins[0]);
        assert(held_count(bins.drop_last()) == held_count(bins.drop_last().drop_first())
            + bins.drop_last()[0].1 + 1);
    } else {
        assert(held_count(bins.drop_last()) == 0);
        assert(held_count(bins.drop_first()) == 0);
    }
}

/// A collection at a cutoff above every stamp drains every bin.
pub proof fn lemma_gc_drains_all(bins: Seq<(Option<u64>, nat)>, gc_epoch: u64)
    requires
        forall|i: int| 0 <= i < bins.len() ==> is_stale(#[trigger] bins[i], gc_epoch),
    ensures
        kept_bins(bins, gc_epoch).len() == 0,
        drained_count(bins, gc_epoch) == held_count(bins),
    decreases bins.len(),
{
    if bins.len() > 0 {
        assert(is_stale(bins[0], gc_epoch));
        assert forall|i: int| 0 <= i < bins.drop_first().len() implies is_stale(
            #[trigger] bins.drop_first()[i],
            gc_epoch,
        ) by {
            assert(bins.drop_first()[i] == bins[i + 1]);
        }
        lemma_gc_drains_all(bins.drop_first(), gc_epoch);
    }
}

/// Per-thread sidecar of the compare-and-swap steps: stages what one step would detach
/// (`older`) and what it would publish (`newer`), keeps committed bins (`reclaims`), and pools
/// allocations for reuse.
pub struct Cas<V> {
    reclaims: Vec<Box<Reclaim<V>>>,
    older: Vec<OwnedMem<V>>,
    newer: Vec<OwnedMem<V>>,
    child_pool: Vec<Box<Child<V>>>,
    node_trie_pool: Vec<Box<Node<V>>>,
    node_list_pool: Vec<Box<Node<V>>>,
    node_tomb_pool: Vec<Box<Node<V>>>,
    reclaim_pool: Vec<Box<Reclaim<V>>>,
    n_allocs: usize,
    n_frees: usize,
}

impl<V> Cas<V> {
    /// The committed bins, oldest first: stamp and number of allocations held.
    pub closed spec fn bins(&self) -> Seq<(Option<u64>, nat)> {
        self.reclaims@.map_values(|b: Box<Reclaim<V>>| (b.epoch, b.items@.len()))
    }

    /// The committed bins themselves, oldest first.
    pub closed spec fn bin_view(&self) -> Seq<Box<Reclaim<V>>> {
        self.reclaims@
    }

    /// Staged allocations that a successful swing detaches.
    pub closed spec fn older_view(&self) -> Seq<OwnedMem<V>> {
        self.older@
    }

    /// Staged allocations that a failed swing hands back.
    pub closed spec fn newer_view(&self) -> Seq<OwnedMem<V>> {
        self.newer@
    }

    pub closed spec fn child_pool_view(&self) -> Seq<Box<Child<V>>> {
        self.child_pool@
    }

    pub closed spec fn tomb_pool_view(&self) -> Seq<Box<Node<V>>> {
        self.node_tomb_pool@
    }

    pub closed spec fn reclaim_pool_view(&self) -> Seq<Box<Reclaim<V>>> {
        self.reclaim_pool@
    }

    /// The pools and the free count.
    pub closed spec fn pools(&self) -> PoolsView<V> {
        PoolsView {
            child: self.child_pool@,
            trie: self.node_trie_pool@.len(),
            list: self.node_list_pool@.len(),
            tomb: self.node_tomb_pool@,
            reclaim: self.reclaim_pool@.len(),
            frees: self.n_frees as nat,
        }
    }

    /// Every pool within its cap.
    pub proof fn lemma_pool_caps(&self)
        requires
            self.wf(),
        ensures
            self.child_pool_len() <= MAX_POOL_SIZE,
            self.trie_pool_len() <= MAX_POOL_SIZE,
            self.list_pool_len() <= MAX_POOL_SIZE,
            self.tomb_pool_len() <= MAX_POOL_SIZE,
            self.reclaim_pool_len() <= MAX_POOL_SIZE,
            self.pools_len() <= 5 * MAX_POOL_SIZE,
    {
    }

    pub closed spec fn older_len(&self) -> nat {
        self.older@.len()
    }

    pub closed spec fn newer_len(&self) -> nat {
        self.newer@.len()
    }

    pub closed spec fn child_pool_len(&self) -> nat {
        self.child_pool@.len()
    }

    pub closed spec fn trie_pool_len(&self) -> nat {
        self.node_trie_pool@.len()
    }

    pub closed spec fn list_pool_len(&self) -> nat {
        self.node_list_pool@.len()
    }

    pub closed spec fn tomb_pool_len(&self) -> nat {
        self.node_tomb_pool@.len()
    }

    pub closed spec fn reclaim_pool_len(&self) -> nat {
        self.reclaim_pool@.len()
    }

    pub open spec fn pools_len(&self) -> nat {
        self.child_pool_len() + self.trie_pool_len() + self.list_pool_len()
            + self.tomb_pool_len() + self.reclaim_pool_len()
    }

    pub closed spec fn allocs(&self) -> nat {
        self.n_allocs as nat
    }

    pub closed spec fn frees(&self) -> nat {
        self.n_frees as nat
    }

    /// Every pool within its cap and holding its allocations reset; every committed bin stamped.
    pub closed spec fn wf(&self) -> bool {
        &&& self.child_pool@.len() <= MAX_POOL_SIZE
        &&& self.node_trie_pool@.len() <= MAX_POOL_SIZE
        &&& self.node_list_pool@.len() <= MAX_POOL_SIZE
        &&& self.node_tomb_pool@.len() <= MAX_POOL_SIZE
        &&& self.reclaim_pool@.len() <= MAX_POOL_SIZE
        &&& forall|i: int| 0 <= i < self.node_trie_pool@.len() ==> is_blank_trie(*self.node_trie_pool@[i])
        &&& forall|i: int| 0 <= i < self.node_list_pool@.len() ==> is_blank_list(*self.node_list_pool@[i])
        &&& forall|i: int| 0 <= i < self.node_tomb_pool@.len() ==> is_tomb(*self.node_tomb_pool@[i])
        &&& forall|i: int| 0 <= i < self.reclaim_pool@.len() ==> {
            &&& self.reclaim_pool@[i].epoch.is_none()
            &&& self.reclaim_pool@[i].items@.len() == 0
        }
        &&& forall|i: int| 0 <= i < self.reclaims@.len() ==> self.reclaims@[i].epoch.is_some()
    }

    pub fn new() -> (r: Self)
        ensures
            r.wf(),
            r.bins().len() == 0,
            r.older_len() == 0,
            r.newer_len() == 0,
            r.pools_len() == 0,
            r.allocs() == 0,
            r.frees() == 0,
    {
        Cas {
            reclaims: Vec::new(),
            older: Vec::new(),
            newer: Vec::new(),
            child_pool: Vec::new(),
            node_trie_pool: Vec::new(),
            node_list_pool: Vec::new(),
            node_tomb_pool: Vec::new(),
            reclaim_pool: Vec::new(),
            n_allocs: 0,
            n_frees: 0,
        }
    }

    /// Number of pooled allocations, over all pools.
    pub fn to_pools_len(&self) -> (r: usize)
        requires
            self.wf(),
        ensures
            r == self.pools_len(),
    {
        self.child_pool.len() + self.node_trie_pool.len() + self.node_list_pool.len()
            + self.node_tomb_pool.len() + self.reclaim_pool.len()
    }

    pub fn to_alloc_count(&self) -> (r: usize)
        ensures
            r == self.allocs(),
    {
        self.n_allocs
    }

    pub fn to_free_count(&self) -> (r: usize)
        ensures
            r == self.frees(),
    {
        self.n_frees
    }

    pub fn has_reclaims(&self) -> (r: bool)
        ensures
            r == (self.bins().len() > 0),
    {
        self.reclaims.len() > 0
    }

    /// Bins and staged allocations agree.
    pub open spec fn same_stage(&self, o: &Self) -> bool {
        &&& self.bin_view() == o.bin_view()
        &&& self.older_view() == o.older_view()
        &&& self.newer_view() == o.newer_view()
        &&& self.bins() == o.bins()
        &&& self.older_len() == o.older_len()
        &&& self.newer_len() == o.newer_len()
    }

    /// The pools whose entries can be told apart hold the same entries.
    pub open spec fn same_entries(&self, o: &Self, child: bool, tomb: bool, reclaim: bool) -> bool {
        &&& (child || self.child_pool_view() == o.child_pool_view())
        &&& (tomb || self.tomb_pool_view() == o.tomb_pool_view())
        &&& (reclaim || self.reclaim_pool_view() == o.reclaim_pool_view())
    }

    /// Pool lengths agree but for those that `alloc_*` and `free_*` name.
    pub open spec fn same_pools(&self, o: &Self, child: bool, trie: bool, list: bool, tomb: bool, reclaim: bool) -> bool {
        &&& (child || self.child_pool_len() == o.child_pool_len())
        &&& (trie || self.trie_pool_len() == o.trie_pool_len())
        &&& (list || self.list_pool_len() == o.list_pool_len())
        &&& (tomb || self.tomb_pool_len() == o.tomb_pool_len())
        &&& (reclaim || self.reclaim_pool_len() == o.reclaim_pool_len())
    }

    /// Stages an allocation that the next swing detaches if it succeeds.
    pub fn free_on_pass(&mut self, m: Mem<V>)
        ensures
            final(self).wf() == old(self).wf(),
            final(self).older_len() == old(self).older_len() + 1,
            final(self).newer_len() == old(self).newer_len(),
            final(self).older_view() == old(self).older_view().push(owned_of(m)),
            final(self).newer_view() == old(self).newer_view(),
            final(self).bin_view() == old(self).bin_view(),
            final(self).same_entries(old(self), false, false, false),
            final(self).bins() == old(self).bins(),
            final(self).same_pools(old(self), false, false, false, false, false),
            final(self).allocs() == old(self).allocs(),
            final(self).frees() == old(self).frees(),
    {
        match m {
            Mem::Child(c) => self.older.push(OwnedMem::Child(c)),
            Mem::Node(n) => self.older.push(OwnedMem::Node(n)),
        }
    }

    /// Stages an allocation that the next swing hands back to the pools if it fails.
    pub fn free_on_fail(&mut self, m: Mem<V>)
        ensures
            final(self).wf() == old(self).wf(),
            final(self).older_len() == old(self).older_len(),
            final(self).newer_len() == old(self).newer_len() + 1,
            final(self).newer_view() == old(self).newer_view().push(owned_of(m)),
            final(self).older_view() == old(self).older_view(),
            final(self).bin_view() == old(self).bin_view(),
            final(self).same_entries(old(self), false, false, false),
            final(self).bins() == old(self).bins(),
            final(self).same_pools(old(self), false, false, false, false, false),
            final(self).allocs() == old(self).allocs(),
            final(self).frees() == old(self).frees(),
    {
        match m {
            Mem::Child(c) => self.newer.push(OwnedMem::Child(c)),
            Mem::Node(n) => self.newer.push(OwnedMem::Node(n)),
        }
    }

    /// A node of the variant `variant` names (`'t'` trie, `'l'` list, `'b'` tomb), reset: from
    /// its pool when that holds one, else a new allocation, which is counted.
    pub fn alloc_node(&mut self, variant: char) -> (r: Box<Node<V>>)
        where
            V: Default,
        requires
            old(self).wf(),
            variant == 't' || variant == 'l' || variant == 'b',
            old(self).allocs() < usize::MAX,
        ensures
            final(self).wf(),
            final(self).same_stage(old(self)),
            final(self).frees() == old(self).frees(),
            variant == 't' ==> is_blank_trie(*r) && final(self).same_pools(old(self), false, true, false, false, false)
                && if old(self).trie_pool_len() > 0 {
                    final(self).trie_pool_len() + 1 == old(self).trie_pool_len() && final(self).allocs() == old(self).allocs()
                } else {
                    final(self).trie_pool_len() == 0 && final(self).allocs() == old(self).allocs() + 1
                },
            variant == 'l' ==> is_blank_list(*r) && final(self).same_pools(old(self), false, false, true, false, false)
                && if old(self).list_pool_len() > 0 {
                    final(self).list_pool_len() + 1 == old(self).list_pool_len() && final(self).allocs() == old(self).allocs()
                } else {
                    final(self).list_pool_len() == 0 && final(self).allocs() == old(self).allocs() + 1
                },
            final(self).same_entries(old(self), false, variant == 'b', false),
            variant == 'b' && old(self).tomb_pool_len() > 0 ==> r == old(self).tomb_pool_view().last()
                && final(self).tomb_pool_view() == old(self).tomb_pool_view().drop_last(),
            variant == 'b' && old(self).tomb_pool_len() == 0 ==> is_fresh_tomb(*r),
            variant == 'b' ==> is_tomb(*r) && final(self).same_pools(old(self), false, false, false, true, false)
                && if old(self).tomb_pool_len() > 0 {
                    final(self).tomb_pool_len() + 1 == old(self).tomb_pool_len() && final(self).allocs() == old(self).allocs()
                } else {
                    final(self).tomb_pool_len() == 0 && final(self).allocs() == old(self).allocs() + 1
                },
    {
        if variant == 'l' {
            match self.node_list_pool.pop() {
                Some(val) => val,
                None => {
                    self.n_allocs = self.n_allocs + 1;
                    Box::new(Node::List { items: Vec::new() })
                },
            }
        } else if variant == 't' {
            match self.node_trie_pool.pop() {
                Some(val) => val,
                None => {
                    self.n_allocs = self.n_allocs + 1;
                    Box::new(Node::Trie { bmp: 0, childs: Vec::new() })
                },
            }
        } else {
            match self.node_tomb_pool.pop() {
                Some(val) => val,
                None => {
                    self.n_allocs = self.n_allocs + 1;
                    Box::new(Node::Tomb { item: Item { key: 0, value: V::default() } })
                },
            }
        }
    }

    /// A child slot: from its pool when that holds one, else a new allocation, which is counted.
    pub fn alloc_child(&mut self) -> (r: Box<Child<V>>)
        requires
            old(self).wf(),
            old(self).allocs() < usize::MAX,
        ensures
            final(self).wf(),
            final(self).same_stage(old(self)),
            final(self).frees() == old(self).frees(),
            final(self).same_pools(old(self), true, false, false, false, false),
            final(self).same_entries(old(self), true, false, false),
            old(self).child_pool_len() > 0 ==> r == old(self).child_pool_view().last()
                && final(self).child_pool_view() == old(self).child_pool_view().drop_last(),
            old(self).child_pool_len() == 0 ==> is_blank_trie(*r.node),
            old(self).child_pool_len() > 0 ==> final(self).child_pool_len() + 1 == old(self).child_pool_len()
                && final(self).allocs() == old(self).allocs(),
            old(self).child_pool_len() == 0 ==> final(self).child_pool_len() == 0
                && final(self).allocs() == old(self).allocs() + 1,
    {
        match self.child_pool.pop() {
            Some(val) => val,
            None => {
                self.n_allocs = self.n_allocs + 1;
                Box::new(Child { node: Box::new(Node::Trie { bmp: 0, childs: Vec::new() }) })
            },
        }
    }

    /// An empty, unstamped bin: from its pool when that holds one, else a new allocation,
    /// which is counted.
    pub fn alloc_reclaim(&mut self) -> (r: Box<Reclaim<V>>)
        requires
            old(self).wf(),
            old(self).allocs() < usize::MAX,
        ensures
            final(self).wf(),
            r.stamp().is_none(),
            r.len() == 0,
            final(self).same_stage(old(self)),
            final(self).frees() == old(self).frees(),
            final(self).same_pools(old(self), false, false, false, false, true),
            final(self).same_entries(old(self), false, false, true),
            old(self).reclaim_pool_len() > 0 ==> r == old(self).reclaim_pool_view().last()
                && final(self).reclaim_pool_view() == old(self).reclaim_pool_view().drop_last(),
            old(self).reclaim_pool_len() > 0 ==> final(self).reclaim_pool_len() + 1 == old(self).reclaim_pool_len()
                && final(self).allocs() == old(self).allocs(),
            old(self).reclaim_pool_len() == 0 ==> final(self).reclaim_pool_len() == 0
                && final(self).allocs() == old(self).allocs() + 1,
    {
        match self.reclaim_pool.pop() {
            Some(val) => val,
            None => {
                self.n_allocs = self.n_allocs + 1;
                Box::new(Reclaim::default())
            },
        }
    }

    /// Hands a node back: reset, it goes to its variant's pool while that is under the cap;
    /// past the cap it is freed and counted.
    pub fn free_node(&mut self, node: Box<Node<V>>)
        requires
            old(self).wf(),
            old(self).frees() < usize::MAX,
        ensures
            final(self).wf(),
            final(self).same_stage(old(self)),
            final(self).allocs() == old(self).allocs(),
            final(self).pools_len() + final(self).frees() == old(self).pools_len() + old(self).frees() + 1,
            final(self).frees() <= old(self).frees() + 1,
            final(self).same_entries(old(self), false, *node is Tomb, false),
            final(self).pools() == give_back(old(self).pools(), OwnedMem::Node(node)),
            *node is Tomb && old(self).tomb_pool_len() < MAX_POOL_SIZE ==> final(self).tomb_pool_view()
                == old(self).tomb_pool_view().push(node),
            *node is Trie ==> final(self).same_pools(old(self), false, true, false, false, false)
                && if old(self).trie_pool_len() < MAX_POOL_SIZE {
                    final(self).trie_pool_len() == old(self).trie_pool_len() + 1 && final(self).frees() == old(self).frees()
                } else {
                    final(self).trie_pool_len() == old(self).trie_pool_len() && final(self).frees() == old(self).frees() + 1
                },
            *node is List ==> final(self).same_pools(old(self), false, false, true, false, false)
                && if old(self).list_pool_len() < MAX_POOL_SIZE {
                    final(self).list_pool_len() == old(self).list_pool_len() + 1 && final(self).frees() == old(self).frees()
                } else {
                    final(self).list_pool_len() == old(self).list_pool_len() && final(self).frees() == old(self).frees() + 1
                },
            *node is Tomb ==> final(self).same_pools(old(self), false, false, false, true, false)
                && if old(self).tomb_pool_len() < MAX_POOL_SIZE {
                    final(self).tomb_pool_len() == old(self).tomb_pool_len() + 1 && final(self).frees() == old(self).frees()
                } else {
                    final(self).tomb_pool_len() == old(self).tomb_pool_len() && final(self).frees() == old(self).frees() + 1
                },
    {
        let mut node = node;
        match *node {
            Node::Trie { .. } => {
                *node = Node::Trie { bmp: 0, childs: Vec::new() };
                if self.node_trie_pool.len() < MAX_POOL_SIZE {
                    self.node_trie_pool.push(node);
                } else {
                    self.n_frees = self.n_frees + 1;
                }
            },
            Node::List { .. } => {
                *node = Node::List { items: Vec::new() };
                if self.node_list_pool.len() < MAX_POOL_SIZE {
                    self.node_list_pool.push(node);
                } else {
                    self.n_frees = self.n_frees + 1;
                }
            },
            Node::Tomb { .. } => {
                if self.node_tomb_pool.len() < MAX_POOL_SIZE {
                    self.node_tomb_pool.push(node);
                } else {
                    self.n_frees = self.n_frees + 1;
                }
            },
        }
    }

    /// Hands a child slot back: to its pool while that is under the cap, else freed and counted.
    pub fn free_child(&mut self, child: Box<Child<V>>)
        requires
            old(self).wf(),
            old(self).frees() < usize::MAX,
        ensures
            final(self).wf(),
            final(self).same_stage(old(self)),
            final(self).allocs() == old(self).allocs(),
            final(self).same_pools(old(self), true, false, false, false, false),
            final(self).same_entries(old(self), true, false, false),
            final(self).pools() == give_back(old(self).pools(), OwnedMem::Child(child)),
            old(self).child_pool_len() < MAX_POOL_SIZE ==> final(self).child_pool_view()
                == old(self).child_pool_view().push(child),
            old(self).child_pool_len() < MAX_POOL_SIZE ==> final(self).child_pool_len() == old(self).child_pool_len() + 1
                && final(self).frees() == old(self).frees(),
            old(self).child_pool_len() >= MAX_POOL_SIZE ==> final(self).child_pool_len() == old(self).child_pool_len()
                && final(self).frees() == old(self).frees() + 1,
    {
        if self.child_pool.len() < MAX_POOL_SIZE {
            self.child_pool.push(child);
        } else {
            self.n_frees = self.n_frees + 1;
        }
    }

    /// Hands an emptied, unstamped bin back: to its pool while that is under the cap, else
    /// freed and counted.
    pub fn free_reclaim(&mut self, reclaim: Box<Reclaim<V>>)
        requires
            old(self).wf(),
            old(self).frees() < usize::MAX,
            reclaim.stamp().is_none(),
            reclaim.len() == 0,
        ensures
            final(self).wf(),
            final(self).same_stage(old(self)),
            final(self).allocs() == old(self).allocs(),
            final(self).same_pools(old(self), false, false, false, false, true),
            final(self).same_entries(old(self), false, false, true),
            final(self).pools() == bin_back(old(self).pools()),
            old(self).reclaim_pool_len() < MAX_POOL_SIZE ==> final(self).reclaim_pool_view()
                == old(self).reclaim_pool_view().push(reclaim),
            old(self).reclaim_pool_len() < MAX_POOL_SIZE ==> final(self).reclaim_pool_len() == old(self).reclaim_pool_len() + 1
                && final(self).frees() == old(self).frees(),
            old(self).reclaim_pool_len() >= MAX_POOL_SIZE ==> final(self).reclaim_pool_len() == old(self).reclaim_pool_len()
                && final(self).frees() == old(self).frees() + 1,
    {
        if self.reclaim_pool.len() < MAX_POOL_SIZE {
            self.reclaim_pool.push(reclaim);
        } else {
            self.n_frees = self.n_frees + 1;
        }
    }

    /// Hands every staged `newer` allocation back to the pools.
    fn return_newer(&mut self)
        requires
            old(self).wf(),
            old(self).frees() + old(self).newer_len() <= usize::MAX,
        ensures
            final(self).wf(),
            final(self).newer_len() == 0,
            final(self).older_len() == old(self).older_len(),
            final(self).bins() == old(self).bins(),
            final(self).allocs() == old(self).allocs(),
            final(self).pools_len() + final(self).frees() == old(self).pools_len() + old(self).frees()
                + old(self).newer_len(),
            final(self).pools() == give_back_all(old(self).pools(), old(self).newer_view()),
            final(self).bin_view() == old(self).bin_view(),
            final(self).older_view() == old(self).older_view(),
    {
        let ghost n = self.newer@.len();
        let ghost nv = self.newer@;
        proof {
            assert(nv.subrange(n as int, n as int) =~= Seq::<OwnedMem<V>>::empty());
            assert(nv.subrange(0, n as int) =~= nv);
        }
        while self.newer.len() > 0
            invariant
                self.newer@ == nv.subrange(0, self.newer@.len() as int),
                self.newer@.len() <= n,
                nv == old(self).newer_view(),
                n == nv.len(),
                self.pools() == give_back_all(old(self).pools(), nv.subrange(self.newer@.len() as int, n as int)),
                self.bin_view() == old(self).bin_view(),
                self.older_view() == old(self).older_view(),
                self.wf(),
                self.older_len() == old(self).older_len(),
                self.bins() == old(self).bins(),
                self.allocs() == old(self).allocs(),
                self.frees() + self.newer_len() <= usize::MAX,
                self.pools_len() + self.frees() + self.newer_len() == old(self).pools_len()
                    + old(self).frees() + old(self).newer_len(),
            decreases self.newer_len(),
        {
            let ghost j = self.newer@.len() as int;
            proof {
                assert(nv.subrange(j - 1, n as int).drop_first() =~= nv.subrange(j, n as int));
                assert(nv.subrange(j - 1, n as int)[0] == nv[j - 1]);
                assert(self.newer@[j - 1] == nv[j - 1]);
            }
            match self.newer.pop() {
                Some(OwnedMem::Child(val)) => self.free_child(val),
                Some(OwnedMem::Node(val)) => self.free_node(val),
                None => {},
            }
            proof {
                assert(self.newer@ =~= nv.subrange(0, j - 1));
            }
        }
    }

    /// Commits the staged allocations after the compare-and-swap of one step, whose outcome is
    /// `swapped`. On success the detached `older` allocations go, as one bin stamped with the
    /// global epoch, to the committed bins, and the published `newer` ones are released. On
    /// failure the `older` ones, still reachable, are released, and the `newer` ones, never
    /// published, go back to the pools. Either way nothing stays staged.
    pub fn swing(&mut self, epoch: &Arc<AtomicU64>, swapped: bool) -> (r: bool)
        requires
            old(self).wf(),
            old(self).allocs() < usize::MAX,
            old(self).frees() + old(self).newer_len() <= usize::MAX,
        ensures
            r == swapped,
            final(self).wf(),
            final(self).older_len() == 0,
            final(self).newer_len() == 0,
            swapped ==> {
                &&& final(self).bins().len() == old(self).bins().len() + 1
                &&& final(self).bins().drop_last() == old(self).bins()
                &&& final(self).bins().last().0.is_some()
                &&& final(self).bins().last().1 == old(self).older_len()
                &&& final(self).bin_view().drop_last() == old(self).bin_view()
                &&& final(self).bin_view().len() == old(self).bin_view().len() + 1
                &&& final(self).bin_view().last().stamp().is_some()
                &&& final(self).bin_view().last().items() == old(self).older_view()
                &&& final(self).pools() == if old(self).reclaim_pool_len() > 0 {
                    PoolsView { reclaim: (old(self).pools().reclaim - 1) as nat, ..old(self).pools() }
                } else {
                    old(self).pools()
                }
                &&& final(self).same_pools(old(self), false, false, false, false, true)
                &&& final(self).frees() == old(self).frees()
                &&& old(self).reclaim_pool_len() > 0 ==> final(self).reclaim_pool_len() + 1
                    == old(self).reclaim_pool_len() && final(self).allocs() == old(self).allocs()
                &&& old(self).reclaim_pool_len() == 0 ==> final(self).reclaim_pool_len() == 0
                    && final(self).allocs() == old(self).allocs() + 1
            },
            !swapped ==> {
                &&& final(self).bins() == old(self).bins()
                &&& final(self).allocs() == old(self).allocs()
                &&& final(self).pools_len() + final(self).frees() == old(self).pools_len()
                    + old(self).frees() + old(self).newer_len()
                &&& final(self).bin_view() == old(self).bin_view()
                &&& final(self).pools() == give_back_all(old(self).pools(), old(self).newer_view())
            },
    {
        if swapped {
            let mut r = self.alloc_reclaim();
            r.epoch = Some(epoch.load(Ordering::SeqCst));
            let ghost mid = *self;
            let ghost ov = self.older@;
            core::mem::swap(&mut r.items, &mut self.older);
            proof {
                assert(r.items@ == ov);
                assert(self.older@.len() == 0);
            }
            let ghost bins0 = self.bins();
            let ghost bv0 = self.bin_view();
            let ghost e = r.epoch;
            let ghost n = r.items@.len();
            self.reclaims.push(r);
            proof {
                assert(self.bins() =~= bins0.push((e, n)));
                assert(self.bins().drop_last() =~= bins0);
                assert(self.bin_view().drop_last() =~= bv0);
            }
            let ghost pools1 = self.pools();
            let ghost bv1 = self.bin_view();
            while self.newer.len() > 0
                invariant
                    self.wf(),
                    self.older_len() == 0,
                    self.bins() == old(self).bins().push((e, old(self).older_len())),
                    e.is_some(),
                    self.same_pools(old(self), false, false, false, false, true),
                    self.frees() == old(self).frees(),
                    self.reclaim_pool_len() == mid.reclaim_pool_len(),
                    self.allocs() == mid.allocs(),
                    self.pools() == pools1,
                    self.bin_view() == bv1,
                decreases self.newer_len(),
            {
                match self.newer.pop() {
                    Some(om) => om.leak(),
                    None => {},
                }
            }
            true
        } else {
            while self.older.len() > 0
                invariant
                    self.wf(),
                    self.newer_len() == old(self).newer_len(),
                    self.bins() == old(self).bins(),
                    self.same_pools(old(self), false, false, false, false, false),
                    self.allocs() == old(self).allocs(),
                    self.frees() == old(self).frees(),
                    self.pools() == old(self).pools(),
                    self.newer_view() == old(self).newer_view(),
                    self.bin_view() == old(self).bin_view(),
                decreases self.older_len(),
            {
                match self.older.pop() {
                    Some(om) => om.leak(),
                    None => {},
                }
            }
            self.return_newer();
            false
        }
    }

    /// Hands back every allocation of a bin taken out of `reclaims`, then the bin.
    fn drain_bin(&mut self, r: Box<Reclaim<V>>)
        requires
            old(self).wf(),
            old(self).frees() + r.len() + 1 <= usize::MAX,
        ensures
            final(self).wf(),
            final(self).same_stage(old(self)),
            final(self).allocs() == old(self).allocs(),
            final(self).pools_len() + final(self).frees() == old(self).pools_len() + old(self).frees()
                + r.len() + 1,
            final(self).frees() <= old(self).frees() + r.len() + 1,
            final(self).pools() == bin_back(give_back_all(old(self).pools(), r.items())),
    {
        let mut r = r;
        let ghost n = r.items@.len();
        let ghost nv = r.items@;
        proof {
            assert(nv.subrange(n as int, n as int) =~= Seq::<OwnedMem<V>>::empty());
            assert(nv.subrange(0, n as int) =~= nv);
        }
        while r.items.len() > 0
            invariant
                r.items@ == nv.subrange(0, r.items@.len() as int),
                n == nv.len(),
                self.pools() == give_back_all(old(self).pools(), nv.subrange(r.items@.len() as int, n as int)),
                self.wf(),
                self.same_stage(old(self)),
                self.allocs() == old(self).allocs(),
                r.items@.len() <= n,
                old(self).frees() + n + 1 <= usize::MAX,
                self.pools_len() + self.frees() + r.items@.len() == old(self).pools_len()
                    + old(self).frees() + n,
                self.frees() + r.items@.len() <= old(self).frees() + n,
            decreases r.items@.len(),
        {
            let ghost j = r.items@.len() as int;
            proof {
                assert(nv.subrange(j - 1, n as int).drop_first() =~= nv.subrange(j, n as int));
                assert(nv.subrange(j - 1, n as int)[0] == nv[j - 1]);
                assert(r.items@[j - 1] == nv[j - 1]);
            }
            match r.items.pop() {
                Some(OwnedMem::Child(val)) => self.free_child(val),
                Some(OwnedMem::Node(val)) => self.free_node(val),
                None => {},
            }
            proof {
                assert(r.items@ =~= nv.subrange(0, j - 1));
            }
        }
        r.epoch = None;
        self.free_reclaim(r);
    }

    /// Drains every committed bin stamped below `gc_epoch`: its allocations and the bin go back
    /// to the pools (or are freed past a pool's cap). The other bins stay, in their order.
    pub fn garbage_collect(&mut self, gc_epoch: u64)
        requires
            old(self).wf(),
            old(self).frees() + held_count(old(self).bins()) <= usize::MAX,
        ensures
            final(self).wf(),
            final(self).bins() == kept_bins(old(self).bins(), gc_epoch),
            final(self).older_len() == old(self).older_len(),
            final(self).newer_len() == old(self).newer_len(),
            final(self).allocs() == old(self).allocs(),
            final(self).pools_len() + final(self).frees() == old(self).pools_len() + old(self).frees()
                + drained_count(old(self).bins(), gc_epoch),
            final(self).pools() == gc_pools(old(self).pools(), old(self).bin_view(), gc_epoch),
            final(self).older_view() == old(self).older_view(),
            final(self).newer_view() == old(self).newer_view(),
    {
        let ghost b0 = self.bins();
        let ghost bv0 = self.bin_view();
        proof {
            assert(bv0.subrange(bv0.len() as int, bv0.len() as int) =~= Seq::<Box<Reclaim<V>>>::empty());
        }
        let n = self.reclaims.len();
        let mut i: usize = n;
        proof {
            assert(b0.subrange(0, n as int) =~= b0);
            assert(b0.subrange(n as int, n as int) =~= Seq::<(Option<u64>, nat)>::empty());
        }
        while i > 0
            invariant
                i <= n,
                n == b0.len(),
                b0 == old(self).bins(),
                self.wf(),
                self.older_len() == old(self).older_len(),
                self.newer_len() == old(self).newer_len(),
                self.allocs() == old(self).allocs(),
                self.bins() == b0.subrange(0, i as int) + kept_bins(b0.subrange(i as int, n as int), gc_epoch),
                self.pools_len() + self.frees() == old(self).pools_len() + old(self).frees()
                    + drained_count(b0.subrange(i as int, n as int), gc_epoch),
                self.frees() + held_count(b0.subrange(0, i as int)) <= old(self).frees() + held_count(b0),
                old(self).frees() + held_count(b0) <= usize::MAX,
                bv0 == old(self).bin_view(),
                bv0.len() == n,
                self.bin_view().len() >= i,
                forall|j: int| 0 <= j < i ==> #[trigger] self.bin_view()[j] == bv0[j],
                self.pools() == gc_pools(old(self).pools(), bv0.subrange(i as int, n as int), gc_epoch),
                self.older_view() == old(self).older_view(),
                self.newer_view() == old(self).newer_view(),
            decreases i,
        {
            proof {
                assert(self.reclaims@.len() == self.bins().len());
                assert(self.bins().len() >= i);
            }
            i = i - 1;
            let ghost tail = b0.subrange(i + 1, n as int);
            proof {
                assert(b0.subrange(i as int, n as int).drop_first() =~= tail);
                assert(b0.subrange(i as int, n as int)[0] == b0[i as int]);
                lemma_held_last(b0.subrange(0, i + 1));
                assert(b0.subrange(0, i + 1).drop_last() =~= b0.subrange(0, i as int));
                assert(self.bins()[i as int] == b0[i as int]);
                assert(bv0.subrange(i as int, n as int).drop_first() =~= bv0.subrange(i + 1, n as int));
                assert(bv0.subrange(i as int, n as int)[0] == bv0[i as int]);
                assert(self.bin_view()[i as int] == bv0[i as int]);
            }
            let stale = match self.reclaims[i].epoch {
                Some(e) => e < gc_epoch,
                None => false,
            };
            if stale {
                let ghost before = self.bins();
                let ghost bvb = self.bin_view();
                let r = self.reclaims.remove(i);
                proof {
                    assert forall|j: int| 0 <= j < i implies #[trigger] self.bin_view()[j] == bv0[j] by {
                        assert(self.bin_view()[j] == bvb[j]);
                    }
                }
                proof {
                    assert(self.bins() =~= before.remove(i as int));
                    assert(before.remove(i as int) =~= b0.subrange(0, i as int) + kept_bins(tail, gc_epoch));
                }
                self.drain_bin(r);
            } else {
                proof {
                    assert(b0.subrange(0, i + 1) =~= b0.subrange(0, i as int).push(b0[i as int]));
                    assert(seq![b0[i as int]].add(kept_bins(tail, gc_epoch)) =~= kept_bins(
                        b0.subrange(i as int, n as int),
                        gc_epoch,
                    ));
                    assert(b0.subrange(0, i + 1) + kept_bins(tail, gc_epoch) =~= b0.subrange(0, i as int)
                        + seq![b0[i as int]].add(kept_bins(tail, gc_epoch)));
                }
            }
        }
        proof {
            assert(b0.subrange(0, 0) + kept_bins(b0, gc_epoch) =~= kept_bins(b0, gc_epoch));
            assert(bv0.subrange(0, n as int) =~= bv0);
            assert(b0.subrange(0, n as int) =~= b0);
        }
    }

    /// Nothing is staged and no bin is left: what a thread's sidecar must show when the
    /// thread is done.
    pub fn is_settled(&self) -> (r: bool)
        ensures
            r == (self.older_len() == 0 && self.newer_len() == 0 && self.bins().len() == 0),
    {
        self.older.len() == 0 && self.newer.len() == 0 && self.reclaims.len() == 0
    }

    /// Every staging list and pool holds fewer than 512 entries.
    pub fn validate(&self) -> (r: bool)
        ensures
            r == (self.bins().len() < 512 && self.older_len() < 512 && self.newer_len() < 512
                && self.child_pool_len() < 512 && self.trie_pool_len() < 512 && self.list_pool_len()
                < 512 && self.tomb_pool_len() < 512 && self.reclaim_pool_len() < 512),
    {
        self.reclaims.len() < 512 && self.older.len() < 512 && self.newer.len() < 512
            && self.child_pool.len() < 512 && self.node_trie_pool.len() < 512
            && self.node_list_pool.len() < 512 && self.node_tomb_pool.len() < 512
            && self.reclaim_pool.len() < 512
    }
}

} // verus!
