use vstd::prelude::*;

verus! {

/// A key and its value, as held in the leaves of the trie.
#[derive(Clone, Copy, Debug, PartialEq)]
pub struct Item<V> {
    pub key: u32,
    pub value: V,
}

/// Position of the first item of `items` that holds key `k`, or -1.
pub open spec fn list_index<V>(items: Seq<Item<V>>, k: u32) -> int
    decreases items.len(),
{
    if items.len() == 0 {
        -1
    } else if items[0].key == k {
        0
    } else {
        let r = list_index(items.drop_first(), k);
        if r < 0 {
            -1
        } else {
            r + 1
        }
    }
}

/// Value of the first item of `items` that holds key `k`.
pub open spec fn list_lookup<V>(items: Seq<Item<V>>, k: u32) -> Option<V> {
    let i = list_index(items, k);
    if i >= 0 {
        Some(items[i].value)
    } else {
        None
    }
}

/// No two items of the list hold the same key.
pub open spec fn keys_distinct<V>(items: Seq<Item<V>>) -> bool {
    forall|i: int, j: int|
        0 <= i < items.len() && 0 <= j < items.len() && i != j ==> items[i].key != items[j].key
}

/// `list_index` is the first position that holds the key.
pub proof fn lemma_list_index<V>(items: Seq<Item<V>>, k: u32)
    ensures
        -1 <= list_index(items, k) < items.len(),
        list_index(items, k) < 0 <==> forall|j: int| 0 <= j < items.len() ==> items[j].key != k,
        list_index(items, k) >= 0 ==> items[list_index(items, k)].key == k,
        forall|j: int| 0 <= j < list_index(items, k) ==> items[j].key != k,
    decreases items.len(),
{
    if items.len() > 0 && items[0].key != k {
        let rest = items.drop_first();
        lemma_list_index(rest, k);
        assert forall|j: int| 1 <= j < items.len() implies items[j] == rest[j - 1] by {}
        if list_index(rest, k) < 0 {
            assert forall|j: int| 0 <= j < items.len() implies items[j].key != k by {
                if j > 0 {
                    assert(items[j] == rest[j - 1]);
                }
            }
        }
    }
}

/// Any position that holds the key is at or after `list_index`; with distinct keys it is that one.
pub proof fn lemma_list_index_at<V>(items: Seq<Item<V>>, k: u32, i: int)
    requires
        0 <= i < items.len(),
        items[i].key == k,
        keys_distinct(items),
    ensures
        list_index(items, k) == i,
{
    lemma_list_index(items, k);
}

/// Looks `k` up in a collision list, by a linear scan.
pub fn get_from_list<V: Copy>(k: u32, items: &Vec<Item<V>>) -> (r: Option<V>)
    ensures
        r == list_lookup(items@, k),
{
    proof {
        lemma_list_index(items@, k);
    }
    let mut i: usize = 0;
    while i < items.len()
        invariant
            i <= items@.len(),
            forall|j: int| 0 <= j < i ==> items@[j].key != k,
            -1 <= list_index(items@, k) < items@.len(),
            list_index(items@, k) < 0 <==> forall|j: int|
                0 <= j < items@.len() ==> items@[j].key != k,
            list_index(items@, k) >= 0 ==> items@[list_index(items@, k)].key == k,
            forall|j: int| 0 <= j < list_index(items@, k) ==> items@[j].key != k,
        decreases items.len() - i,
    {
        if items[i].key == k {
            return Some(items[i].value);
        }
        i = i + 1;
    }
    None
}

/// Sets `k` to `v` in a collision list: the first item that holds `k` is overwritten and its
/// old value returned; without one, a new item is appended and `None` returned.
pub fn update_into_list<V: Copy>(k: u32, v: &V, items: &mut Vec<Item<V>>) -> (r: Option<V>)
    ensures
        list_index(old(items)@, k) >= 0 ==> {
            &&& final(items)@ == old(items)@.update(
                list_index(old(items)@, k),
                Item { key: k, value: *v },
            )
            &&& r == Some(old(items)@[list_index(old(items)@, k)].value)
        },
        list_index(old(items)@, k) < 0 ==> {
            &&& final(items)@ == old(items)@.push(Item { key: k, value: *v })
            &&& r.is_none()
        },
{
    proof {
        lemma_list_index(items@, k);
    }
    let mut i: usize = 0;
    while i < items.len()
        invariant
            items@ == old(items)@,
            i <= items@.len(),
            forall|j: int| 0 <= j < i ==> items@[j].key != k,
            -1 <= list_index(items@, k) < items@.len(),
            list_index(items@, k) < 0 <==> forall|j: int|
                0 <= j < items@.len() ==> items@[j].key != k,
            list_index(items@, k) >= 0 ==> items@[list_index(items@, k)].key == k,
            forall|j: int| 0 <= j < list_index(items@, k) ==> items@[j].key != k,
        decreases items.len() - i,
    {
        if items[i].key == k {
            let prev = items[i].value;
            items.set(i, Item { key: k, value: *v });
            return Some(prev);
        }
        i = i + 1;
    }
    items.push(Item { key: k, value: *v });
    None
}

/// Removes `k` from a collision list without touching it: the remaining items, in their order,
/// and the removed value; `None` where no item holds `k`.
pub fn remove_from_list<V: Copy>(k: u32, items: &Vec<Item<V>>) -> (r: Option<(Vec<Item<V>>, V)>)
    ensures
        list_index(items@, k) >= 0 ==> r.is_some() && r.unwrap().0@ == items@.remove(
            list_index(items@, k),
        ) && r.unwrap().1 == items@[list_index(items@, k)].value,
        list_index(items@, k) < 0 ==> r.is_none(),
{
    proof {
        lemma_list_index(items@, k);
    }
    let mut rest: Vec<Item<V>> = Vec::new();
    let mut found: Option<V> = None;
    let mut i: usize = 0;
    while i < items.len()
        invariant
            i <= items@.len(),
            -1 <= list_index(items@, k) < items@.len(),
            list_index(items@, k) < 0 <==> forall|j: int|
                0 <= j < items@.len() ==> items@[j].key != k,
            list_index(items@, k) >= 0 ==> items@[list_index(items@, k)].key == k,
            forall|j: int| 0 <= j < list_index(items@, k) ==> items@[j].key != k,
            found.is_none() ==> forall|j: int| 0 <= j < i ==> items@[j].key != k,
            found.is_none() ==> rest@ == items@.subrange(0, i as int),
            found.is_some() ==> {
                &&& 0 <= list_index(items@, k) < i
                &&& found == Some(items@[list_index(items@, k)].value)
                &&& rest@ == items@.subrange(0, i as int).remove(list_index(items@, k))
            },
        decreases items.len() - i,
    {
        let it = items[i];
        if found.is_none() && it.key == k {
            found = Some(it.value);
            proof {
                assert(items@.subrange(0, i + 1).remove(i as int) =~= items@.subrange(0, i as int));
            }
        } else {
            rest.push(it);
            proof {
                if found.is_some() {
                    let p = list_index(items@, k);
                    assert(items@.subrange(0, i + 1).remove(p) =~= items@.subrange(
                        0,
                        i as int,
                    ).remove(p).push(it));
                } else {
                    assert(items@.subrange(0, i + 1) =~= items@.subrange(0, i as int).push(it));
                }
            }
        }
        i = i + 1;
    }
    match found {
        Some(v) => {
            proof {
                assert(items@.subrange(0, items@.len() as int) =~= items@);
            }
            Some((rest, v))
        },
        None => None,
    }
}

/// Setting a key in a list of distinct keys keeps them distinct and changes only that key.
pub proof fn lemma_list_update<V>(items: Seq<Item<V>>, new_items: Seq<Item<V>>, k: u32, v: V)
    requires
        keys_distinct(items),
        list_index(items, k) >= 0 ==> new_items == items.update(list_index(items, k), Item { key: k, value: v }),
        list_index(items, k) < 0 ==> new_items == items.push(Item { key: k, value: v }),
    ensures
        keys_distinct(new_items),
        new_items.len() >= items.len(),
        forall|k2: u32| #[trigger] list_lookup(new_items, k2) == if k2 == k {
            Some(v)
        } else {
            list_lookup(items, k2)
        },
{
    lemma_list_index(items, k);
    let p = if list_index(items, k) >= 0 { list_index(items, k) } else { items.len() as int };
    assert(new_items[p] == Item { key: k, value: v });
    assert forall|j: int| 0 <= j < new_items.len() && j != p implies new_items[j] == items[j] by {}
    assert(keys_distinct(new_items)) by {
        assert forall|i: int, j: int|
            0 <= i < new_items.len() && 0 <= j < new_items.len() && i != j implies new_items[i].key
            != new_items[j].key by {
            if i != p && j != p {
                assert(new_items[i] == items[i] && new_items[j] == items[j]);
            } else if i == p && j != p {
                assert(new_items[j] == items[j]);
            } else {
                assert(new_items[i] == items[i]);
            }
        }
    }
    assert forall|k2: u32| #[trigger] list_lookup(new_items, k2) == if k2 == k {
        Some(v)
    } else {
        list_lookup(items, k2)
    } by {
        lemma_list_index(items, k2);
        lemma_list_index(new_items, k2);
        if k2 == k {
            lemma_list_index_at(new_items, k2, p);
        } else if list_index(items, k2) >= 0 {
            let j = list_index(items, k2);
            assert(new_items[j] == items[j]);
            lemma_list_index_at(new_items, k2, j);
        } else if list_index(new_items, k2) >= 0 {
            let j = list_index(new_items, k2);
            assert(new_items[j] == items[j]);
        }
    }
}

/// Removing the item of `k` from a list of distinct keys keeps them distinct and changes only
/// that key.
pub proof fn lemma_list_remove<V>(items: Seq<Item<V>>, k: u32)
    requires
        keys_distinct(items),
        list_index(items, k) >= 0,
    ensures
        keys_distinct(items.remove(list_index(items, k))),
        items.remove(list_index(items, k)).len() + 1 == items.len(),
        forall|k2: u32| #[trigger] list_lookup(items.remove(list_index(items, k)), k2) == if k2 == k {
            None
        } else {
            list_lookup(items, k2)
        },
{
    let p = list_index(items, k);
    let rest = items.remove(p);
    lemma_list_index(items, k);
    assert forall|i: int| 0 <= i < rest.len() implies rest[i] == items[if i < p { i } else { i + 1 }] by {}
    assert forall|k2: u32| #[trigger] list_lookup(rest, k2) == if k2 == k {
        None
    } else {
        list_lookup(items, k2)
    } by {
        lemma_list_index(items, k2);
        lemma_list_index(rest, k2);
        let i = list_index(rest, k2);
        if i >= 0 {
            let j = if i < p { i } else { i + 1 };
            lemma_list_index_at(items, k2, j);
        } else if list_index(items, k2) >= 0 && k2 != k {
            let j = list_index(items, k2);
            let ir = if j < p { j } else { j - 1 };
            assert(rest[ir] == items[j]);
        }
    }
}

} // verus!
