use vstd::prelude::*;

use crate::bitmap::{
    has_slot, hamming_distance, lemma_has_slot_clear, lemma_has_slot_set, lemma_popcount_below_bound,
    lemma_popcount_below_mono, lemma_popcount_clear, lemma_popcount_set, lemma_popcount_taken,
    lemma_popcount_zero, lemma_slot_single, lemma_some_slot, popcount, popcount_below, Distance,
};
use crate::list::{
    get_from_list, keys_distinct, lemma_list_index, lemma_list_remove, lemma_list_update, list_lookup,
    remove_from_list, update_into_list, Item,
};

verus! {

/// A node of the trie.
pub enum Node<V> {
    /// Interior node: `bmp` marks the taken slots of the current nibble, `childs` holds one
    /// child per taken slot, by ascending slot.
    Trie { bmp: u16, childs: Vec<Child<V>> },
    /// Bucket of keys whose hashes agree on every nibble the trie consumes.
    List { items: Vec<Item<V>> },
    /// A subtree that has shrunk to a single item.
    Tomb { item: Item<V> },
}

/// The slot of a trie node that owns one subtree.
pub struct Child<V> {
    pub node: Box<Node<V>>,
}

/// Depth of the nodes that hold collision lists: trie nodes stand at depths 0 to 14 and
/// consume the first 15 nibbles of the hash.
pub const LIST_DEPTH: u64 = 15;

/// Multiplier of the key hash.
pub const HASH_MUL: u64 = 0x9E3779B97F4A7C15;

/// The 64-bit hash of a key.
pub open spec fn hash_of(k: u32) -> u64 {
    let x = (k as u64).wrapping_mul(HASH_MUL);
    x ^ (x >> 29u64)
}

/// Hashes a key to 64 bits (a multiplicative mix).
pub fn key_hash(k: u32) -> (r: u64)
    ensures
        r == hash_of(k),
{
    let x = (k as u64).wrapping_mul(HASH_MUL);
    x ^ (x >> 29u64)
}

/// Nibble `d` of a hash: the slot that a key takes in a trie node at depth `d`.
pub open spec fn nibble_of(h: u64, d: nat) -> nat {
    ((h >> ((4 * d) as u64)) & 15u64) as nat
}

pub open spec fn nibble(k: u32, d: nat) -> nat {
    nibble_of(hash_of(k), d)
}

/// The child of slot `s` of a trie node.
pub open spec fn slot_child<V>(bmp: u16, childs: Seq<Child<V>>, s: nat) -> Node<V> {
    *childs[popcount_below(bmp, s) as int].node
}

/// The value that the subtree `n`, standing at depth `d`, holds for key `k`: found by following
/// the key's nibbles down the trie nodes.
pub open spec fn lookup<V>(n: Node<V>, d: nat, k: u32) -> Option<V>
    decreases 16 - d,
{
    match n {
        Node::Trie { bmp, childs } => {
            let s = nibble(k, d);
            if d < 15 && has_slot(bmp, s) && popcount_below(bmp, s) < childs@.len() {
                lookup(slot_child(bmp, childs@, s), d + 1, k)
            } else {
                None
            }
        },
        Node::List { items } => list_lookup(items@, k),
        Node::Tomb { item } => if item.key == k {
            Some(item.value)
        } else {
            None
        },
    }
}

/// The subtree `n` standing at depth `d` is well formed: a trie node below the list depth with
/// one child per taken slot, each well formed and holding only keys of its slot; a list at the
/// list depth with two items or more and distinct keys; any tomb.
#[verifier::opaque]
pub open spec fn wf_node<V>(n: Node<V>, d: nat) -> bool
    decreases 16 - d,
{
    if d > 15 {
        false
    } else {
        match n {
            Node::Trie { bmp, childs } => {
                &&& d < 15
                &&& childs@.len() == popcount(bmp)
                &&& forall|s: nat|
                    #![trigger has_slot(bmp, s)]
                    s < 16 && has_slot(bmp, s) ==> wf_node(slot_child(bmp, childs@, s), d + 1)
                &&& forall|s: nat, k: u32|
                    #![trigger has_slot(bmp, s), lookup(slot_child(bmp, childs@, s), d + 1, k)]
                    s < 16 && has_slot(bmp, s) && lookup(slot_child(bmp, childs@, s), d + 1, k).is_some()
                        ==> nibble(k, d) == s
            },
            Node::List { items } => d == 15 && items@.len() >= 2 && keys_distinct(items@),
            Node::Tomb { .. } => true,
        }
    }
}

/// Builds a well-formed trie node from its parts.
pub proof fn lemma_wf_trie_intro<V>(bmp: u16, childs: Vec<Child<V>>, d: nat)
    requires
        d < 15,
        childs@.len() == popcount(bmp),
        forall|s: nat|
            #![trigger has_slot(bmp, s)]
            s < 16 && has_slot(bmp, s) ==> wf_node(slot_child(bmp, childs@, s), d + 1),
        forall|s: nat, k: u32|
            #![trigger has_slot(bmp, s), lookup(slot_child(bmp, childs@, s), d + 1, k)]
            s < 16 && has_slot(bmp, s) && lookup(slot_child(bmp, childs@, s), d + 1, k).is_some()
                ==> nibble(k, d) == s,
    ensures
        wf_node(Node::Trie { bmp, childs }, d),
{
    reveal(wf_node);
}

pub proof fn lemma_wf_leaf<V>(n: Node<V>, d: nat)
    requires
        d <= 15,
        n is Tomb || (n is List && d == 15 && n->items@.len() >= 2 && keys_distinct(n->items@)),
    ensures
        wf_node(n, d),
{
    reveal(wf_node);
}

pub proof fn lemma_wf_depth<V>(n: Node<V>, d: nat)
    requires
        wf_node(n, d),
    ensures
        d <= 15,
        n is Trie ==> d < 15,
        n is List ==> d == 15 && n->items@.len() >= 2 && keys_distinct(n->items@),
{
    reveal(wf_node);
}

/// The shape that a well-formed trie node has.
pub proof fn lemma_wf_trie<V>(bmp: u16, childs: Vec<Child<V>>, d: nat)
    requires
        wf_node(Node::Trie { bmp, childs }, d),
    ensures
        d < 15,
        childs@.len() == popcount(bmp),
{
    reveal(wf_node);
}

/// What a well-formed trie node says of the child of a taken slot.
pub proof fn lemma_wf_slot<V>(bmp: u16, childs: Vec<Child<V>>, d: nat, s: nat)
    requires
        wf_node(Node::Trie { bmp, childs }, d),
        s < 16,
        has_slot(bmp, s),
    ensures
        d < 15,
        childs@.len() == popcount(bmp),
        popcount_below(bmp, s) < childs@.len(),
        wf_node(slot_child(bmp, childs@, s), d + 1),
        forall|k: u32| #[trigger]
            lookup(slot_child(bmp, childs@, s), d + 1, k).is_some() ==> nibble(k, d) == s,
{
    reveal(wf_node);
    lemma_popcount_taken(bmp, s, 16);
    assert forall|k: u32| #[trigger]
        lookup(slot_child(bmp, childs@, s), d + 1, k).is_some() implies nibble(k, d) == s by {
        assert(has_slot(bmp, s));
    }
}

/// Nibble `d` of hash `h`.
pub fn hash_nibble(h: u64, d: u64) -> (r: u8)
    requires
        d < 16,
    ensures
        r as nat == nibble_of(h, d as nat),
        r < 16,
{
    let x = (h >> (4 * d)) & 15u64;
    assert(x < 16) by (bit_vector)
        requires
            x == (h >> (4 * d)) & 15u64,
    ;
    x as u8
}

/// Reads key `k` in the subtree `n` standing at depth `d`.
pub fn get_node<V: Copy>(n: &Node<V>, d: u64, h: u64, k: u32) -> (r: Option<V>)
    requires
        wf_node(*n, d as nat),
        h == hash_of(k),
    ensures
        r == lookup(*n, d as nat, k),
    decreases 16 - d,
{
    match n {
        Node::Trie { bmp, childs } => {
            proof {
                lemma_wf_trie(*bmp, *childs, d as nat);
            }
            let w = hash_nibble(h, d);
            match hamming_distance(w, *bmp) {
                Distance::Insert(_) => None,
                Distance::Found(pos) => {
                    proof {
                        assert(has_slot(*bmp, w as nat));
                        lemma_wf_slot(*bmp, *childs, d as nat, w as nat);
                        lemma_popcount_below_bound(*bmp, w as nat);
                        assert(pos == popcount_below(*bmp, w as nat));
                        assert(nibble(k, d as nat) == w as nat);
                    }
                    get_node(&childs[pos].node, d + 1, h, k)
                },
            }
        },
        Node::List { items } => get_from_list(k, items),
        Node::Tomb { item } => {
            if item.key == k {
                Some(item.value)
            } else {
                None
            }
        },
    }
}

/// Replacing the child of a taken slot `s` changes only what the keys of that slot find.
pub proof fn lemma_trie_replace<V>(
    bmp: u16,
    old_childs: Vec<Child<V>>,
    new_childs: Vec<Child<V>>,
    d: nat,
    s: nat,
    c: Node<V>,
)
    requires
        wf_node(Node::Trie { bmp, childs: old_childs }, d),
        s < 16,
        has_slot(bmp, s),
        new_childs@ == old_childs@.update(popcount_below(bmp, s) as int, Child { node: Box::new(c) }),
        wf_node(c, d + 1),
        forall|k: u32| #[trigger] lookup(c, d + 1, k).is_some() ==> nibble(k, d) == s,
    ensures
        wf_node(Node::Trie { bmp, childs: new_childs }, d),
        forall|k: u32|
            #[trigger] lookup(Node::Trie { bmp, childs: new_childs }, d, k) == if nibble(k, d) == s {
                lookup(c, d + 1, k)
            } else {
                lookup(Node::Trie { bmp, childs: old_childs }, d, k)
            },
{
    lemma_wf_trie(bmp, old_childs, d);
    lemma_wf_slot(bmp, old_childs, d, s);
    assert forall|t: nat| t < 16 && has_slot(bmp, t) && t != s implies slot_child(bmp, new_childs@, t)
        == slot_child(bmp, old_childs@, t) by {
        lemma_wf_slot(bmp, old_childs, d, t);
        if t < s {
            lemma_popcount_taken(bmp, t, s);
        } else {
            lemma_popcount_taken(bmp, s, t);
        }
    }
    assert forall|t: nat| #![trigger has_slot(bmp, t)]
        t < 16 && has_slot(bmp, t) implies wf_node(slot_child(bmp, new_childs@, t), d + 1) by {
        lemma_wf_slot(bmp, old_childs, d, t);
    }
    assert forall|t: nat, k: u32|
        #![trigger has_slot(bmp, t), lookup(slot_child(bmp, new_childs@, t), d + 1, k)]
        t < 16 && has_slot(bmp, t) && lookup(slot_child(bmp, new_childs@, t), d + 1, k).is_some()
            implies nibble(k, d) == t by {
        lemma_wf_slot(bmp, old_childs, d, t);
    }
    lemma_wf_trie_intro(bmp, new_childs, d);
    assert forall|k: u32| #[trigger] lookup(Node::Trie { bmp, childs: new_childs }, d, k) == if nibble(k, d) == s {
        lookup(c, d + 1, k)
    } else {
        lookup(Node::Trie { bmp, childs: old_childs }, d, k)
    } by {
        let t = nibble(k, d);
        lemma_nibble_bound(k, d);
        if has_slot(bmp, t) {
            lemma_wf_slot(bmp, old_childs, d, t);
        }
    }
}

/// Where slot `t` finds its child once the free slot `s` is taken.
pub proof fn lemma_insert_slot<V>(bmp: u16, old_childs: Seq<Child<V>>, new_childs: Seq<Child<V>>, s: nat, t: nat, c: Node<V>)
    requires
        s < 16,
        t < 16,
        !has_slot(bmp, s),
        old_childs.len() == popcount(bmp),
        new_childs == old_childs.insert(popcount_below(bmp, s) as int, Child { node: Box::new(c) }),
    ensures
        has_slot(bmp | (1u16 << (s as u16)), t) == (has_slot(bmp, t) || t == s),
        new_childs.len() == popcount(bmp | (1u16 << (s as u16))),
        has_slot(bmp | (1u16 << (s as u16)), t) ==> popcount_below(bmp | (1u16 << (s as u16)), t) < new_childs.len(),
        has_slot(bmp, t) ==> popcount_below(bmp, t) < old_childs.len(),
        t == s ==> slot_child(bmp | (1u16 << (s as u16)), new_childs, t) == c,
        t != s && has_slot(bmp, t) ==> slot_child(bmp | (1u16 << (s as u16)), new_childs, t)
            == slot_child(bmp, old_childs, t),
{
    let nb = bmp | (1u16 << (s as u16));
    lemma_has_slot_set(bmp, s, t);
    lemma_popcount_set(bmp, s, t);
    lemma_popcount_set(bmp, s, s);
    lemma_popcount_set(bmp, s, 16);
    lemma_popcount_below_bound(bmp, s);
    if has_slot(nb, t) {
        lemma_popcount_taken(nb, t, 16);
    }
    if has_slot(bmp, t) {
        lemma_popcount_taken(bmp, t, 16);
        if t < s {
            lemma_popcount_below_mono(bmp, t + 1, s);
        } else {
            lemma_popcount_below_mono(bmp, s, t);
        }
    }
}

/// Taking a free slot `s` with a new child changes only what the keys of that slot find.
#[verifier::rlimit(40)]
pub proof fn lemma_trie_insert<V>(
    bmp: u16,
    old_childs: Vec<Child<V>>,
    new_childs: Vec<Child<V>>,
    d: nat,
    s: nat,
    c: Node<V>,
)
    requires
        wf_node(Node::Trie { bmp, childs: old_childs }, d),
        s < 16,
        !has_slot(bmp, s),
        new_childs@ == old_childs@.insert(popcount_below(bmp, s) as int, Child { node: Box::new(c) }),
        wf_node(c, d + 1),
        forall|k: u32| #[trigger] lookup(c, d + 1, k).is_some() ==> nibble(k, d) == s,
    ensures
        wf_node(Node::Trie { bmp: bmp | (1u16 << (s as u16)), childs: new_childs }, d),
        forall|k: u32|
            #[trigger] lookup(Node::Trie { bmp: bmp | (1u16 << (s as u16)), childs: new_childs }, d, k)
                == if nibble(k, d) == s {
                lookup(c, d + 1, k)
            } else {
                lookup(Node::Trie { bmp, childs: old_childs }, d, k)
            },
{
    let nb = bmp | (1u16 << (s as u16));
    lemma_wf_trie(bmp, old_childs, d);
    lemma_insert_slot(bmp, old_childs@, new_childs@, s, 0, c);
    assert forall|t: nat| #![trigger has_slot(nb, t)]
        t < 16 && has_slot(nb, t) implies wf_node(slot_child(nb, new_childs@, t), d + 1) by {
        lemma_insert_slot(bmp, old_childs@, new_childs@, s, t, c);
        if t != s {
            lemma_wf_slot(bmp, old_childs, d, t);
        }
    }
    assert forall|t: nat, k: u32|
        #![trigger has_slot(nb, t), lookup(slot_child(nb, new_childs@, t), d + 1, k)]
        t < 16 && has_slot(nb, t) && lookup(slot_child(nb, new_childs@, t), d + 1, k).is_some()
            implies nibble(k, d) == t by {
        lemma_insert_slot(bmp, old_childs@, new_childs@, s, t, c);
        if t != s {
            lemma_wf_slot(bmp, old_childs, d, t);
        }
    }
    lemma_wf_trie_intro(nb, new_childs, d);
    assert forall|k: u32| #[trigger] lookup(Node::Trie { bmp: nb, childs: new_childs }, d, k) == if nibble(k, d) == s {
        lookup(c, d + 1, k)
    } else {
        lookup(Node::Trie { bmp, childs: old_childs }, d, k)
    } by {
        let t = nibble(k, d);
        lemma_nibble_bound(k, d);
        lemma_insert_slot(bmp, old_childs@, new_childs@, s, t, c);
    }
}

/// Where slot `t` finds its child once the taken slot `s` is freed.
pub proof fn lemma_delete_slot<V>(bmp: u16, old_childs: Seq<Child<V>>, new_childs: Seq<Child<V>>, s: nat, t: nat)
    requires
        s < 16,
        t < 16,
        has_slot(bmp, s),
        old_childs.len() == popcount(bmp),
        new_childs == old_childs.remove(popcount_below(bmp, s) as int),
    ensures
        has_slot(bmp & !(1u16 << (s as u16)), t) == (has_slot(bmp, t) && t != s),
        new_childs.len() == popcount(bmp & !(1u16 << (s as u16))),
        has_slot(bmp & !(1u16 << (s as u16)), t) ==> popcount_below(bmp & !(1u16 << (s as u16)), t) < new_childs.len(),
        has_slot(bmp, t) ==> popcount_below(bmp, t) < old_childs.len(),
        has_slot(bmp & !(1u16 << (s as u16)), t) ==> slot_child(bmp & !(1u16 << (s as u16)), new_childs, t)
            == slot_child(bmp, old_childs, t),
{
    let nb = bmp & !(1u16 << (s as u16));
    lemma_has_slot_clear(bmp, s, t);
    lemma_popcount_clear(bmp, s, t);
    lemma_popcount_clear(bmp, s, 16);
    lemma_popcount_taken(bmp, s, 16);
    if has_slot(nb, t) {
        lemma_popcount_taken(nb, t, 16);
    }
    if has_slot(bmp, t) {
        lemma_popcount_taken(bmp, t, 16);
        if t < s {
            lemma_popcount_taken(bmp, t, s);
        } else if t > s {
            lemma_popcount_taken(bmp, s, t);
        }
    }
}

/// Freeing a taken slot `s` leaves its keys without a value and changes nothing else.
#[verifier::rlimit(40)]
pub proof fn lemma_trie_delete<V>(
    bmp: u16,
    old_childs: Vec<Child<V>>,
    new_childs: Vec<Child<V>>,
    d: nat,
    s: nat,
)
    requires
        wf_node(Node::Trie { bmp, childs: old_childs }, d),
        s < 16,
        has_slot(bmp, s),
        new_childs@ == old_childs@.remove(popcount_below(bmp, s) as int),
    ensures
        wf_node(Node::Trie { bmp: bmp & !(1u16 << (s as u16)), childs: new_childs }, d),
        forall|k: u32|
            #[trigger] lookup(Node::Trie { bmp: bmp & !(1u16 << (s as u16)), childs: new_childs }, d, k)
                == if nibble(k, d) == s {
                None
            } else {
                lookup(Node::Trie { bmp, childs: old_childs }, d, k)
            },
{
    let nb = bmp & !(1u16 << (s as u16));
    lemma_wf_trie(bmp, old_childs, d);
    lemma_delete_slot(bmp, old_childs@, new_childs@, s, 0);
    assert forall|t: nat| #![trigger has_slot(nb, t)]
        t < 16 && has_slot(nb, t) implies wf_node(slot_child(nb, new_childs@, t), d + 1) by {
        lemma_delete_slot(bmp, old_childs@, new_childs@, s, t);
        lemma_wf_slot(bmp, old_childs, d, t);
    }
    assert forall|t: nat, k: u32|
        #![trigger has_slot(nb, t), lookup(slot_child(nb, new_childs@, t), d + 1, k)]
        t < 16 && has_slot(nb, t) && lookup(slot_child(nb, new_childs@, t), d + 1, k).is_some()
            implies nibble(k, d) == t by {
        lemma_delete_slot(bmp, old_childs@, new_childs@, s, t);
        lemma_wf_slot(bmp, old_childs, d, t);
    }
    lemma_wf_trie_intro(nb, new_childs, d);
    assert forall|k: u32| #[trigger] lookup(Node::Trie { bmp: nb, childs: new_childs }, d, k) == if nibble(k, d) == s {
        None
    } else {
        lookup(Node::Trie { bmp, childs: old_childs }, d, k)
    } by {
        let t = nibble(k, d);
        lemma_nibble_bound(k, d);
        lemma_delete_slot(bmp, old_childs@, new_childs@, s, t);
    }
}

/// The subtree at depth `d` that two items with distinct keys share reaches a list at the list
/// depth through trie nodes of one child each.
pub open spec fn chains_to_list<V>(n: Node<V>, d: nat, a: Item<V>, b: Item<V>) -> bool
    decreases 16 - d,
{
    if d >= 15 {
        n is List && n->items@ == seq![a, b]
    } else {
        match n {
            Node::Trie { bmp, childs } => childs@.len() == 1 && chains_to_list(*childs@[0].node, d + 1, a, b),
            _ => false,
        }
    }
}

/// The two keys take the same slot at every depth from `d` on.
pub open spec fn share_nibbles_from(ka: u32, kb: u32, d: nat) -> bool {
    forall|j: nat| d <= j < 15 ==> #[trigger] nibble(ka, j) == nibble(kb, j)
}

pub proof fn lemma_nibble_bound(k: u32, d: nat)
    ensures
        nibble(k, d) < 16,
{
    let h = hash_of(k);
    let sh = (4 * d) as u64;
    let x = (h >> sh) & 15u64;
    assert(x < 16) by (bit_vector)
        requires
            x == (h >> sh) & 15u64,
    ;
}

/// The list node holding `a` then `b`.
fn pair_list<V: Copy>(a: Item<V>, b: Item<V>) -> (r: Node<V>)
    requires
        a.key != b.key,
    ensures
        wf_node(r, 15),
        r is List && r->items@ == seq![a, b],
        forall|k: u32|
            #[trigger] lookup(r, 15, k) == if k == a.key {
                Some(a.value)
            } else if k == b.key {
                Some(b.value)
            } else {
                None
            },
{
    let mut items: Vec<Item<V>> = Vec::new();
    items.push(a);
    items.push(b);
    let r = Node::List { items };
    proof {
        assert(items@ =~= seq![a, b]);
        lemma_wf_leaf(r, 15);
        assert forall|k: u32| #[trigger] lookup(r, 15, k) == if k == a.key {
            Some(a.value)
        } else if k == b.key {
            Some(b.value)
        } else {
            None
        } by {
            lemma_list_index(items@, k);
            assert(items@[0] == a && items@[1] == b);
        }
    }
    r
}

/// The trie node at depth `d` whose only child, in slot `s`, is `c`.
fn single_trie<V>(d: u64, s: u8, c: Node<V>) -> (r: Node<V>)
    requires
        d < 15,
        s < 16,
        wf_node(c, (d + 1) as nat),
        forall|k: u32| #[trigger] lookup(c, (d + 1) as nat, k).is_some() ==> nibble(k, d as nat) == s,
    ensures
        wf_node(r, d as nat),
        r is Trie && r->childs@.len() == 1 && *r->childs@[0].node == c,
        forall|k: u32|
            #[trigger] lookup(r, d as nat, k) == if nibble(k, d as nat) == s as nat {
                lookup(c, (d + 1) as nat, k)
            } else {
                None
            },
{
    let ghost cc = c;
    let mut childs: Vec<Child<V>> = Vec::new();
    childs.push(Child { node: Box::new(c) });
    let bmp: u16 = 1u16 << s;
    proof {
        lemma_slot_single(s as nat, s as nat);
        assert forall|t: nat| t < 16 implies has_slot(bmp, t) == (t == s) by {
            lemma_slot_single(s as nat, t);
        }
        assert(slot_child(bmp, childs@, s as nat) == cc);
        lemma_wf_trie_intro(bmp, childs, d as nat);
    }
    let r = Node::Trie { bmp, childs };
    proof {
        assert forall|k: u32| #[trigger] lookup(r, d as nat, k) == if nibble(k, d as nat) == s as nat {
            lookup(cc, (d + 1) as nat, k)
        } else {
            None
        } by {
            lemma_nibble_bound(k, d as nat);
            lemma_slot_single(s as nat, nibble(k, d as nat));
        }
    }
    r
}

/// The trie node at depth `d` with tombs holding `a` and `b` in their distinct slots.
fn pair_trie<V: Copy>(d: u64, a: Item<V>, sa: u8, b: Item<V>, sb: u8) -> (r: Node<V>)
    requires
        d < 15,
        sa < 16,
        sb < 16,
        sa != sb,
        nibble(a.key, d as nat) == sa,
        nibble(b.key, d as nat) == sb,
    ensures
        wf_node(r, d as nat),
        forall|k: u32|
            #[trigger] lookup(r, d as nat, k) == if k == a.key {
                Some(a.value)
            } else if k == b.key {
                Some(b.value)
            } else {
                None
            },
{
    let ta = Node::Tomb { item: a };
    let tb = Node::Tomb { item: b };
    proof {
        lemma_wf_leaf(ta, (d + 1) as nat);
        lemma_wf_leaf(tb, (d + 1) as nat);
    }
    let mut childs: Vec<Child<V>> = Vec::new();
    if sa < sb {
        childs.push(Child { node: Box::new(ta) });
        childs.push(Child { node: Box::new(tb) });
    } else {
        childs.push(Child { node: Box::new(tb) });
        childs.push(Child { node: Box::new(ta) });
    }
    let one: u16 = 1u16 << sa;
    let bmp: u16 = one | (1u16 << sb);
    proof {
        assert forall|t: nat| t <= 16 implies {
            &&& t < 16 ==> has_slot(bmp, t) == (t == sa || t == sb)
            &&& popcount_below(bmp, t) == (if t > sa { 1nat } else { 0nat }) + (if t > sb { 1nat } else { 0nat })
        } by {
            lemma_slot_single(sa as nat, t);
            lemma_slot_single(sa as nat, sb as nat);
            lemma_popcount_set(one, sb as nat, t);
            if t < 16 {
                lemma_has_slot_set(one, sb as nat, t);
            }
        }
        assert(popcount_below(bmp, 16) == 2);
        assert(slot_child(bmp, childs@, sa as nat) == ta);
        assert(slot_child(bmp, childs@, sb as nat) == tb);
        lemma_wf_trie_intro(bmp, childs, d as nat);
    }
    let r = Node::Trie { bmp, childs };
    proof {
        assert forall|k: u32| #[trigger] lookup(r, d as nat, k) == if k == a.key {
            Some(a.value)
        } else if k == b.key {
            Some(b.value)
        } else {
            None
        } by {
            let t = nibble(k, d as nat);
            lemma_nibble_bound(k, d as nat);
            assert(has_slot(bmp, t) == (t == sa || t == sb));
            assert(popcount_below(bmp, t) == (if t > sa { 1nat } else { 0nat }) + (if t > sb { 1nat } else { 0nat }));
            assert(lookup(ta, (d + 1) as nat, k) == if a.key == k { Some(a.value) } else { None });
            assert(lookup(tb, (d + 1) as nat, k) == if b.key == k { Some(b.value) } else { None });
            assert(r == Node::Trie { bmp, childs });
            if t == sa as nat {
                assert(slot_child(bmp, childs@, t) == ta);
                assert(k == b.key ==> t == sb);
            } else if t == sb as nat {
                assert(slot_child(bmp, childs@, t) == tb);
                assert(k == a.key ==> t == sa);
            } else {
                assert(k != a.key && k != b.key);
            }
        }
    }
    r
}

/// The subtree that stands at depth `d` in place of a tomb holding `a` once `b` joins it: trie
/// nodes down to the first nibble on which the keys differ, or a list at the list depth.
pub fn expand<V: Copy>(d: u64, a: Item<V>, ha: u64, b: Item<V>, hb: u64) -> (r: Node<V>)
    requires
        d <= 15,
        a.key != b.key,
        ha == hash_of(a.key),
        hb == hash_of(b.key),
    ensures
        wf_node(r, d as nat),
        forall|k: u32|
            #[trigger] lookup(r, d as nat, k) == if k == a.key {
                Some(a.value)
            } else if k == b.key {
                Some(b.value)
            } else {
                None
            },
        share_nibbles_from(a.key, b.key, d as nat) ==> chains_to_list(r, d as nat, a, b),
    decreases 15 - d,
{
    if d >= LIST_DEPTH {
        pair_list(a, b)
    } else {
        let sa = hash_nibble(ha, d);
        let sb = hash_nibble(hb, d);
        if sa == sb {
            let c = expand(d + 1, a, ha, b, hb);
            let ghost cc = c;
            let r = single_trie(d, sa, c);
            proof {
                if share_nibbles_from(a.key, b.key, d as nat) {
                    assert(share_nibbles_from(a.key, b.key, (d + 1) as nat));
                }
                assert forall|k: u32| #[trigger] lookup(r, d as nat, k) == if k == a.key {
                    Some(a.value)
                } else if k == b.key {
                    Some(b.value)
                } else {
                    None
                } by {
                    assert(lookup(cc, (d + 1) as nat, k) == if k == a.key {
                        Some(a.value)
                    } else if k == b.key {
                        Some(b.value)
                    } else {
                        None
                    });
                }
            }
            r
        } else {
            let r = pair_trie(d, a, sa, b, sb);
            proof {
                assert(!share_nibbles_from(a.key, b.key, d as nat)) by {
                    assert(nibble(a.key, d as nat) != nibble(b.key, d as nat));
                }
            }
            r
        }
    }
}

/// Sets key `k` to `v` in the subtree `n` standing at depth `d`: the new subtree and the value
/// `k` had.
pub fn set_node<V: Copy>(n: Node<V>, d: u64, h: u64, k: u32, v: V) -> (r: (Node<V>, Option<V>))
    requires
        wf_node(n, d as nat),
        h == hash_of(k),
    ensures
        wf_node(r.0, d as nat),
        r.1 == lookup(n, d as nat, k),
        forall|k2: u32|
            #[trigger] lookup(r.0, d as nat, k2) == if k2 == k {
                Some(v)
            } else {
                lookup(n, d as nat, k2)
            },
        n is Trie ==> r.0 is Trie,
    decreases 16 - d,
{
    let ghost n0 = n;
    proof {
        lemma_wf_depth(n, d as nat);
    }
    match n {
        Node::Trie { bmp, childs } => {
            proof {
                lemma_wf_trie(bmp, childs, d as nat);
            }
            let mut childs = childs;
            let ghost old_childs = childs;
            let w = hash_nibble(h, d);
            match hamming_distance(w, bmp) {
                Distance::Insert(pos) => {
                    let t = Node::Tomb { item: Item { key: k, value: v } };
                    proof {
                        lemma_popcount_below_bound(bmp, w as nat);
                        lemma_wf_leaf(t, (d + 1) as nat);
                        assert(!has_slot(bmp, w as nat));
                        assert(pos == popcount_below(bmp, w as nat));
                    }
                    childs.insert(pos, Child { node: Box::new(t) });
                    let nb = bmp | (1u16 << w);
                    proof {
                        lemma_trie_insert(bmp, old_childs, childs, d as nat, w as nat, t);
                        assert forall|k2: u32| #[trigger] lookup(Node::Trie { bmp: nb, childs }, d as nat, k2)
                            == if k2 == k {
                            Some(v)
                        } else {
                            lookup(n0, d as nat, k2)
                        } by {
                            lemma_nibble_bound(k2, d as nat);
                        }
                    }
                    (Node::Trie { bmp: nb, childs }, None)
                },
                Distance::Found(pos) => {
                    proof {
                        assert(has_slot(bmp, w as nat));
                        lemma_wf_slot(bmp, childs, d as nat, w as nat);
                        lemma_popcount_below_bound(bmp, w as nat);
                        assert(pos == popcount_below(bmp, w as nat));
                    }
                    let c = childs.remove(pos);
                    let (nc, prev) = set_node(*c.node, d + 1, h, k, v);
                    childs.insert(pos, Child { node: Box::new(nc) });
                    proof {
                        assert(childs@ =~= old_childs@.update(pos as int, Child { node: Box::new(nc) }));
                        lemma_trie_replace(bmp, old_childs, childs, d as nat, w as nat, nc);
                        assert forall|k2: u32| #[trigger] lookup(Node::Trie { bmp, childs }, d as nat, k2)
                            == if k2 == k {
                            Some(v)
                        } else {
                            lookup(n0, d as nat, k2)
                        } by {
                            lemma_nibble_bound(k2, d as nat);
                        }
                    }
                    (Node::Trie { bmp, childs }, prev)
                },
            }
        },
        Node::List { items } => {
            let mut items = items;
            let ghost old_items = items@;
            let prev = update_into_list(k, &v, &mut items);
            proof {
                lemma_list_update(old_items, items@, k, v);
            }
            let r = Node::List { items };
            proof {
                lemma_wf_leaf(r, d as nat);
            }
            (r, prev)
        },
        Node::Tomb { item } => {
            if item.key == k {
                let r = Node::Tomb { item: Item { key: k, value: v } };
                proof {
                    lemma_wf_leaf(r, d as nat);
                }
                (r, Some(item.value))
            } else {
                let hi = key_hash(item.key);
                (expand(d, item, hi, Item { key: k, value: v }, h), None)
            }
        },
    }
}

/// What a subtree that may be gone holds for key `k`.
pub open spec fn lookup_opt<V>(n: Option<Node<V>>, d: nat, k: u32) -> Option<V> {
    match n {
        Some(n) => lookup(n, d, k),
        None => None,
    }
}

/// A trie node without children holds nothing.
pub proof fn lemma_trie_empty<V>(bmp: u16, childs: Vec<Child<V>>, d: nat)
    requires
        wf_node(Node::Trie { bmp, childs }, d),
        childs@.len() == 0,
    ensures
        forall|k: u32| #[trigger] lookup(Node::Trie { bmp, childs }, d, k).is_none(),
{
    lemma_wf_trie(bmp, childs, d);
    assert forall|k: u32| #[trigger] lookup(Node::Trie { bmp, childs }, d, k).is_none() by {
        let t = nibble(k, d);
        lemma_nibble_bound(k, d);
        if has_slot(bmp, t) {
            lemma_popcount_taken(bmp, t, 16);
        }
    }
}

/// A trie node whose only child is a tomb holds what the tomb holds.
pub proof fn lemma_trie_collapse<V>(bmp: u16, childs: Vec<Child<V>>, d: nat)
    requires
        wf_node(Node::Trie { bmp, childs }, d),
        childs@.len() == 1,
        *childs@[0].node is Tomb,
    ensures
        forall|k: u32| #[trigger] lookup(Node::Trie { bmp, childs }, d, k) == lookup(*childs@[0].node, d, k),
{
    lemma_wf_trie(bmp, childs, d);
    lemma_some_slot(bmp, 16);
    let s = choose|s: nat| s < 16 && has_slot(bmp, s);
    lemma_wf_slot(bmp, childs, d, s);
    let tomb = *childs@[0].node;
    assert forall|k: u32| #[trigger] lookup(Node::Trie { bmp, childs }, d, k) == lookup(tomb, d, k) by {
        let t = nibble(k, d);
        lemma_nibble_bound(k, d);
        if has_slot(bmp, t) && t != s {
            if t < s {
                lemma_popcount_taken(bmp, t, s);
            } else {
                lemma_popcount_taken(bmp, s, t);
            }
            lemma_popcount_taken(bmp, t, 16);
            lemma_popcount_taken(bmp, s, 16);
        }
        assert(lookup(tomb, d + 1, k) == lookup(tomb, d, k));
        if lookup(tomb, d, k).is_some() {
            assert(lookup(slot_child(bmp, childs@, s), d + 1, k).is_some());
        }
    }
}

/// After a removal below it, a trie node that is not the root gives way: to nothing when it
/// has no child left, to its tomb when that is its only child.
fn compact<V: Copy>(bmp: u16, childs: Vec<Child<V>>, d: u64) -> (r: Option<Node<V>>)
    requires
        wf_node(Node::Trie { bmp, childs }, d as nat),
    ensures
        r is Some ==> wf_node(r.unwrap(), d as nat),
        forall|k: u32| #[trigger] lookup_opt(r, d as nat, k) == lookup(Node::Trie { bmp, childs }, d as nat, k),
        d == 0 ==> r is Some && r.unwrap() is Trie,
{
    let ghost t0 = Node::Trie { bmp, childs };
    if d == 0 {
        return Some(Node::Trie { bmp, childs });
    }
    if childs.len() == 0 {
        proof {
            lemma_trie_empty(bmp, childs, d as nat);
        }
        return None;
    }
    if childs.len() == 1 {
        let only = match &*childs[0].node {
            Node::Tomb { item } => Some(*item),
            _ => None,
        };
        match only {
            Some(item) => {
                let r = Node::Tomb { item };
                proof {
                    lemma_wf_trie(bmp, childs, d as nat);
                    lemma_wf_leaf(r, d as nat);
                    lemma_trie_collapse(bmp, childs, d as nat);
                    assert(*childs@[0].node == r);
                }
                return Some(r);
            },
            None => {},
        }
    }
    Some(Node::Trie { bmp, childs })
}

/// Removes key `k` from the subtree `n` standing at depth `d`: the subtree left, if any, and the
/// value `k` had. Trie nodes below the root collapse on the way back.
pub fn remove_node<V: Copy>(n: Node<V>, d: u64, h: u64, k: u32) -> (r: (Option<Node<V>>, Option<V>))
    requires
        wf_node(n, d as nat),
        h == hash_of(k),
    ensures
        r.0 is Some ==> wf_node(r.0.unwrap(), d as nat),
        r.1 == lookup(n, d as nat, k),
        forall|k2: u32|
            #[trigger] lookup_opt(r.0, d as nat, k2) == if k2 == k {
                None
            } else {
                lookup(n, d as nat, k2)
            },
        d == 0 && n is Trie ==> r.0 is Some && r.0.unwrap() is Trie,
    decreases 16 - d,
{
    let ghost n0 = n;
    proof {
        lemma_wf_depth(n, d as nat);
    }
    match n {
        Node::Trie { bmp, childs } => {
            proof {
                lemma_wf_trie(bmp, childs, d as nat);
            }
            let mut childs = childs;
            let ghost old_childs = childs;
            let w = hash_nibble(h, d);
            match hamming_distance(w, bmp) {
                Distance::Insert(_) => {
                    proof {
                        assert(!has_slot(bmp, w as nat));
                    }
                    (Some(Node::Trie { bmp, childs }), None)
                },
                Distance::Found(pos) => {
                    proof {
                        assert(has_slot(bmp, w as nat));
                        lemma_wf_slot(bmp, childs, d as nat, w as nat);
                        lemma_popcount_below_bound(bmp, w as nat);
                        assert(pos == popcount_below(bmp, w as nat));
                    }
                    let c = childs.remove(pos);
                    let ghost oc = *c.node;
                    let (nc_opt, prev) = remove_node(*c.node, d + 1, h, k);
                    let ghost res = nc_opt;
                    match nc_opt {
                        Some(nc) => {
                            childs.insert(pos, Child { node: Box::new(nc) });
                            proof {
                                assert forall|k2: u32| #[trigger] lookup(nc, (d + 1) as nat, k2).is_some()
                                    implies nibble(k2, d as nat) == w by {
                                    assert(lookup_opt(res, (d + 1) as nat, k2) == lookup(nc, (d + 1) as nat, k2));
                                    if k2 != k {
                                        assert(lookup(oc, (d + 1) as nat, k2).is_some());
                                    }
                                }
                                assert(childs@ =~= old_childs@.update(pos as int, Child { node: Box::new(nc) }));
                                lemma_trie_replace(bmp, old_childs, childs, d as nat, w as nat, nc);
                                assert forall|k2: u32| #[trigger] lookup(Node::Trie { bmp, childs }, d as nat, k2)
                                    == if k2 == k {
                                    None
                                } else {
                                    lookup(n0, d as nat, k2)
                                } by {
                                    lemma_nibble_bound(k2, d as nat);
                                    assert(lookup_opt(res, (d + 1) as nat, k2) == lookup(nc, (d + 1) as nat, k2));
                                }
                            }
                            (compact(bmp, childs, d), prev)
                        },
                        None => {
                            let nb = bmp & !(1u16 << w);
                            proof {
                                lemma_trie_delete(bmp, old_childs, childs, d as nat, w as nat);
                                assert forall|k2: u32| #[trigger] lookup(Node::Trie { bmp: nb, childs }, d as nat, k2)
                                    == if k2 == k {
                                    None
                                } else {
                                    lookup(n0, d as nat, k2)
                                } by {
                                    lemma_nibble_bound(k2, d as nat);
                                    assert(lookup_opt(res, (d + 1) as nat, k2) == None::<V>);
                                }
                            }
                            (compact(nb, childs, d), prev)
                        },
                    }
                },
            }
        },
        Node::List { items } => {
            match remove_from_list(k, &items) {
                None => (Some(Node::List { items }), None),
                Some((rest, v)) => {
                    proof {
                        lemma_list_remove(items@, k);
                    }
                    if rest.len() == 1 {
                        let r = Node::Tomb { item: rest[0] };
                        proof {
                            lemma_wf_leaf(r, d as nat);
                            assert forall|k2: u32| #[trigger] lookup(r, d as nat, k2) == list_lookup(rest@, k2) by {
                                lemma_list_index(rest@, k2);
                            }
                        }
                        (Some(r), Some(v))
                    } else {
                        let r = Node::List { items: rest };
                        proof {
                            lemma_wf_leaf(r, d as nat);
                        }
                        (Some(r), Some(v))
                    }
                },
            }
        },
        Node::Tomb { item } => {
            if item.key == k {
                (None, Some(item.value))
            } else {
                (Some(Node::Tomb { item }), None)
            }
        },
    }
}

} // verus!
