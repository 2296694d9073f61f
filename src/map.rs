use vstd::prelude::*;

use crate::bitmap::{has_slot, lemma_popcount_zero};
use crate::list::Item;
use crate::trie::{
    get_node, key_hash, lemma_trie_empty, lemma_wf_trie_intro, lookup, lookup_opt, remove_node, set_node,
    wf_node, Child, Node,
};

verus! {

/// The value a map holds for `k`, if any.
pub open spec fn value_of<V>(m: Map<u32, V>, k: u32) -> Option<V> {
    if m.contains_key(k) {
        Some(m[k])
    } else {
        None
    }
}

/// An associative map from `u32` keys, held as a hash array mapped trie: each trie node
/// branches sixteen ways on one nibble of the key's hash.
pub struct TrieMap<V> {
    root: Node<V>,
    count: usize,
}

impl<V> View for TrieMap<V> {
    type V = Map<u32, V>;

    closed spec fn view(&self) -> Map<u32, V> {
        Map::new(|k: u32| lookup(self.root, 0, k).is_some(), |k: u32| lookup(self.root, 0, k).unwrap())
    }
}

impl<V: Copy> TrieMap<V> {
    /// The root is a well-formed trie node and `count` is the number of keys.
    pub closed spec fn wf(&self) -> bool {
        &&& self.root is Trie
        &&& wf_node(self.root, 0)
        &&& self@.dom().finite()
        &&& self.count == self@.dom().len()
    }

    /// The root is a trie node, never a tomb or a list, and every node below it is well
    /// formed: each trie node has one child per taken slot of its bitmap, each list two items
    /// or more with distinct keys.
    pub proof fn lemma_root_wf(&self)
        requires
            self.wf(),
        ensures
            self.root() is Trie,
            wf_node(self.root(), 0),
    {
    }

    pub closed spec fn root(&self) -> Node<V> {
        self.root
    }

    /// The root node, for inspection.
    pub fn as_root(&self) -> (r: &Node<V>)
        ensures
            *r == self.root(),
    {
        &self.root
    }

    /// Applies one operation; returns what it returns.
    pub fn apply(&mut self, op: Op<V>) -> (r: Option<V>)
        requires
            old(self).wf(),
            old(self)@.len() < usize::MAX,
        ensures
            final(self).wf(),
            final(self)@.dom().finite(),
            final(self)@ == apply_spec(old(self)@, op),
            r == value_of(old(self)@, op.key()),
    {
        match op {
            Op::Get(k) => self.get(k),
            Op::Put(k, v) => self.set(k, v),
            Op::Remove(k) => self.remove(k),
        }
    }

    proof fn lemma_view(&self, k: u32)
        ensures
            value_of(self@, k) == lookup(self.root, 0, k),
    {
    }

    /// An empty map.
    pub fn new() -> (r: Self)
        ensures
            r.wf(),
            r@ == Map::<u32, V>::empty(),
            r@.dom().finite(),
    {
        let childs: Vec<Child<V>> = Vec::new();
        proof {
            lemma_popcount_zero(16);
            assert forall|s: nat| s < 16 implies !has_slot(0, s) by {
                lemma_popcount_zero(s);
            }
            lemma_wf_trie_intro(0, childs, 0);
            lemma_trie_empty(0, childs, 0);
        }
        let r = TrieMap { root: Node::Trie { bmp: 0, childs }, count: 0 };
        proof {
            assert(r@ =~= Map::<u32, V>::empty());
        }
        r
    }

    /// The value of `k`.
    pub fn get(&self, k: u32) -> (r: Option<V>)
        requires
            self.wf(),
        ensures
            r == value_of(self@, k),
    {
        proof {
            self.lemma_view(k);
        }
        get_node(&self.root, 0, key_hash(k), k)
    }

    /// Number of keys.
    pub fn len(&self) -> (r: usize)
        requires
            self.wf(),
        ensures
            r == self@.len(),
    {
        self.count
    }

    /// Sets `k` to `v`; returns the value `k` had.
    pub fn set(&mut self, k: u32, v: V) -> (r: Option<V>)
        requires
            old(self).wf(),
            old(self)@.len() < usize::MAX,
        ensures
            final(self).wf(),
            final(self)@.dom().finite(),
            final(self)@ == old(self)@.insert(k, v),
            r == value_of(old(self)@, k),
    {
        let ghost m0 = self@;
        proof {
            self.lemma_view(k);
        }
        let mut root = Node::Tomb { item: Item { key: k, value: v } };
        core::mem::swap(&mut root, &mut self.root);
        let (nr, prev) = set_node(root, 0, key_hash(k), k, v);
        self.root = nr;
        proof {
            assert(self@ =~= m0.insert(k, v));
        }
        if prev.is_none() {
            proof {
                assert(!m0.contains_key(k));
                assert(self@.dom() =~= m0.dom().insert(k));
            }
            self.count = self.count + 1;
        } else {
            proof {
                assert(self@.dom() =~= m0.dom());
            }
        }
        prev
    }

    /// Removes `k`; returns the value it had.
    pub fn remove(&mut self, k: u32) -> (r: Option<V>)
        requires
            old(self).wf(),
        ensures
            final(self).wf(),
            final(self)@.dom().finite(),
            final(self)@ == old(self)@.remove(k),
            r == value_of(old(self)@, k),
    {
        let ghost m0 = self@;
        proof {
            self.lemma_view(k);
        }
        let mut root = Node::Trie { bmp: 0, childs: Vec::new() };
        core::mem::swap(&mut root, &mut self.root);
        let (nr, prev) = remove_node(root, 0, key_hash(k), k);
        match nr {
            Some(nr) => {
                self.root = nr;
            },
            None => {},
        }
        proof {
            assert forall|k2: u32| #[trigger] lookup(self.root, 0, k2) == lookup_opt(nr, 0, k2) by {}
            assert(self@ =~= m0.remove(k));
        }
        if prev.is_some() {
            proof {
                assert(self@.dom() =~= m0.dom().remove(k));
            }
            self.count = self.count - 1;
        } else {
            proof {
                assert(self@.dom() =~= m0.dom());
            }
        }
        prev
    }
}

/// One operation on a map.
#[derive(Clone, Copy, Debug, PartialEq)]
pub enum Op<V> {
    Get(u32),
    Put(u32, V),
    Remove(u32),
}

impl<V> Op<V> {
    pub open spec fn key(self) -> u32 {
        match self {
            Op::Get(k) => k,
            Op::Put(k, _) => k,
            Op::Remove(k) => k,
        }
    }

    /// The same operation on key `id * modul + key % modul`: the slice of keys that belongs to
    /// worker `id` when each worker owns `modul` keys.
    pub fn adjust_key(self, id: u32, modul: u32) -> (r: Self)
        requires
            modul > 0,
            id * modul + modul <= u32::MAX + 1,
        ensures
            r.key() == id * modul + self.key() % modul,
            self is Get ==> r is Get,
            self is Remove ==> r is Remove,
            self matches Op::Put(_, v) ==> r matches Op::Put(_, w) && w == v,
    {
        proof {
            assert(id * modul + self.key() % modul < id * modul + modul) by (nonlinear_arith)
                requires
                    modul > 0,
            ;
            assert(0 <= id * modul) by (nonlinear_arith);
        }
        match self {
            Op::Get(key) => Op::Get(id * modul + key % modul),
            Op::Put(key, value) => Op::Put(id * modul + key % modul, value),
            Op::Remove(key) => Op::Remove(id * modul + key % modul),
        }
    }
}

/// The map after one operation.
pub open spec fn apply_spec<V>(m: Map<u32, V>, op: Op<V>) -> Map<u32, V> {
    match op {
        Op::Get(_) => m,
        Op::Put(k, v) => m.insert(k, v),
        Op::Remove(k) => m.remove(k),
    }
}

/// The map after a sequence of operations, applied in order.
pub open spec fn replay<V>(m: Map<u32, V>, ops: Seq<Op<V>>) -> Map<u32, V>
    decreases ops.len(),
{
    if ops.len() == 0 {
        m
    } else {
        replay(apply_spec(m, ops[0]), ops.drop_first())
    }
}

/// Change of size that a sequence of operations makes: one more for each set of an absent key,
/// one less for each remove of a present key.
pub open spec fn size_delta<V>(m: Map<u32, V>, ops: Seq<Op<V>>) -> int
    decreases ops.len(),
{
    if ops.len() == 0 {
        0
    } else {
        let step = match ops[0] {
            Op::Put(k, _) => if m.contains_key(k) {
                0int
            } else {
                1int
            },
            Op::Remove(k) => if m.contains_key(k) {
                -1int
            } else {
                0int
            },
            Op::Get(_) => 0int,
        };
        step + size_delta(apply_spec(m, ops[0]), ops.drop_first())
    }
}

/// After any sequence of operations, the size is the starting size plus one for each set of an
/// absent key and minus one for each remove of a present key.
pub proof fn lemma_len_replay<V>(m: Map<u32, V>, ops: Seq<Op<V>>)
    requires
        m.dom().finite(),
    ensures
        replay(m, ops).dom().finite(),
        replay(m, ops).len() == m.len() + size_delta(m, ops),
    decreases ops.len(),
{
    if ops.len() > 0 {
        let m1 = apply_spec(m, ops[0]);
        match ops[0] {
            Op::Put(k, v) => {
                if m.contains_key(k) {
                    assert(m1.dom() =~= m.dom());
                } else {
                    assert(m1.dom() =~= m.dom().insert(k));
                }
            },
            Op::Remove(k) => {
                if m.contains_key(k) {
                    assert(m1.dom() =~= m.dom().remove(k));
                } else {
                    assert(m1.dom() =~= m.dom());
                }
            },
            Op::Get(_) => {},
        }
        lemma_len_replay(m1, ops.drop_first());
    }
}

/// A set key reads back as the value set.
pub proof fn lemma_set_get<V>(m: Map<u32, V>, k: u32, v: V)
    ensures
        value_of(m.insert(k, v), k) == Some(v),
{
}

/// Setting a key twice: the second set returns the first value, and the key reads the second.
pub proof fn lemma_set_set<V>(m: Map<u32, V>, k: u32, v1: V, v2: V)
    ensures
        value_of(m.insert(k, v1), k) == Some(v1),
        value_of(m.insert(k, v1).insert(k, v2), k) == Some(v2),
{
}

/// Set then remove: the remove returns the value set, and the key then reads as absent.
pub proof fn lemma_set_remove_get<V>(m: Map<u32, V>, k: u32, v: V)
    ensures
        value_of(m.insert(k, v), k) == Some(v),
        value_of(m.insert(k, v).remove(k), k).is_none(),
{
}

/// Removing an absent key returns nothing and leaves the map as it was.
pub proof fn lemma_remove_absent<V>(m: Map<u32, V>, k: u32)
    requires
        !m.contains_key(k),
    ensures
        value_of(m, k).is_none(),
        m.remove(k) == m,
{
    assert(m.remove(k) =~= m);
}

} // verus!
