use vstd::prelude::*;

verus! {

/// Where a slot stands in a trie node's child list.
#[derive(Clone, Copy, Debug, PartialEq, Eq)]
pub enum Distance {
    /// The slot is taken: index of its child.
    Found(usize),
    /// The slot is free: index at which its child would be inserted.
    Insert(usize),
}

/// Slot `s` of the bitmap is taken.
pub open spec fn has_slot(bmp: u16, s: nat) -> bool {
    s < 16 && (bmp >> (s as u16)) & 1 == 1
}

/// Number of taken slots below slot `s`.
pub open spec fn popcount_below(bmp: u16, s: nat) -> nat
    decreases s,
{
    if s == 0 {
        0
    } else {
        popcount_below(bmp, (s - 1) as nat) + if has_slot(bmp, (s - 1) as nat) {
            1nat
        } else {
            0nat
        }
    }
}

/// Number of taken slots.
pub open spec fn popcount(bmp: u16) -> nat {
    popcount_below(bmp, 16)
}

pub proof fn lemma_popcount_below_bound(bmp: u16, s: nat)
    ensures
        popcount_below(bmp, s) <= s,
        s <= 16 ==> popcount_below(bmp, s) <= popcount(bmp),
    decreases s,
{
    if s > 0 {
        lemma_popcount_below_bound(bmp, (s - 1) as nat);
    }
    if s < 16 {
        lemma_popcount_below_mono(bmp, s, 16);
    }
}

pub proof fn lemma_popcount_below_mono(bmp: u16, s: nat, t: nat)
    requires
        s <= t,
    ensures
        popcount_below(bmp, s) <= popcount_below(bmp, t),
    decreases t - s,
{
    if s < t {
        lemma_popcount_below_mono(bmp, s, (t - 1) as nat);
    }
}

/// What `hamming_distance` answers. A slot number past 15 reads the bitmap as repeating every
/// 16 slots: each full turn adds the bitmap's popcount to the offset.
pub open spec fn distance_of(w: u8, bmp: u16) -> Distance {
    let slot = (w % 16) as nat;
    let offset = (w / 16) as nat * popcount(bmp) + popcount_below(bmp, slot);
    if has_slot(bmp, slot) {
        Distance::Found(offset as usize)
    } else {
        Distance::Insert(offset as usize)
    }
}

/// Decodes slot `w` against the presence bitmap `bmp`: whether the slot is taken, and the
/// index of its child among the taken slots.
pub fn hamming_distance(w: u8, bmp: u16) -> (r: Distance)
    ensures
        r == distance_of(w, bmp),
        w < 16 && has_slot(bmp, w as nat) ==> r == Distance::Found(popcount_below(bmp, w as nat) as usize),
        w < 16 && !has_slot(bmp, w as nat) ==> r == Distance::Insert(popcount_below(bmp, w as nat) as usize),
{
    let slot: u16 = (w % 16) as u16;
    let mut total: usize = 0;
    let mut below: usize = 0;
    let mut j: u16 = 0;
    while j < 16
        invariant
            j <= 16,
            slot < 16,
            total == popcount_below(bmp, j as nat),
            below == popcount_below(bmp, if j < slot { j as nat } else { slot as nat }),
        decreases 16 - j,
    {
        proof {
            lemma_popcount_below_bound(bmp, j as nat);
        }
        if (bmp >> j) & 1 == 1 {
            total = total + 1;
            if j < slot {
                below = below + 1;
            }
        }
        j = j + 1;
    }
    proof {
        lemma_popcount_below_bound(bmp, slot as nat);
        lemma_popcount_below_bound(bmp, 16);
        assert((w / 16) as nat * total <= 15 * 16) by (nonlinear_arith)
            requires
                w / 16 <= 15,
                total <= 16,
        ;
    }
    let offset: usize = (w / 16) as usize * total + below;
    proof {
        if w < 16 {
            assert(w / 16 == 0);
            assert((w / 16) as usize * total == 0) by (nonlinear_arith)
                requires
                    w / 16 == 0,
            ;
            assert(slot == w);
        }
    }
    if (bmp >> slot) & 1 == 1 {
        Distance::Found(offset)
    } else {
        Distance::Insert(offset)
    }
}

pub proof fn lemma_has_slot_set(bmp: u16, s: nat, t: nat)
    requires
        s < 16,
        t < 16,
    ensures
        has_slot(bmp | (1u16 << (s as u16)), t) == (has_slot(bmp, t) || t == s),
{
    let su = s as u16;
    let tu = t as u16;
    assert(((bmp | (1u16 << su)) >> tu) & 1 == 1 <==> ((bmp >> tu) & 1 == 1 || tu == su))
        by (bit_vector)
        requires
            su < 16,
            tu < 16,
    ;
}

pub proof fn lemma_has_slot_clear(bmp: u16, s: nat, t: nat)
    requires
        s < 16,
        t < 16,
    ensures
        has_slot(bmp & !(1u16 << (s as u16)), t) == (has_slot(bmp, t) && t != s),
{
    let su = s as u16;
    let tu = t as u16;
    assert(((bmp & !(1u16 << su)) >> tu) & 1 == 1 <==> ((bmp >> tu) & 1 == 1 && tu != su))
        by (bit_vector)
        requires
            su < 16,
            tu < 16,
    ;
}

/// Taking slot `s` shifts by one the offsets of the slots above it.
pub proof fn lemma_popcount_set(bmp: u16, s: nat, t: nat)
    requires
        s < 16,
        t <= 16,
        !has_slot(bmp, s),
    ensures
        popcount_below(bmp | (1u16 << (s as u16)), t) == popcount_below(bmp, t) + if t > s {
            1nat
        } else {
            0nat
        },
    decreases t,
{
    if t > 0 {
        lemma_popcount_set(bmp, s, (t - 1) as nat);
        lemma_has_slot_set(bmp, s, (t - 1) as nat);
    }
}

/// Freeing slot `s` shifts back by one the offsets of the slots above it.
pub proof fn lemma_popcount_clear(bmp: u16, s: nat, t: nat)
    requires
        s < 16,
        t <= 16,
        has_slot(bmp, s),
    ensures
        popcount_below(bmp & !(1u16 << (s as u16)), t) + if t > s {
            1nat
        } else {
            0nat
        } == popcount_below(bmp, t),
    decreases t,
{
    if t > 0 {
        lemma_popcount_clear(bmp, s, (t - 1) as nat);
        lemma_has_slot_clear(bmp, s, (t - 1) as nat);
    }
}

/// A taken slot's offset is below those of the taken slots above it, and below the popcount.
pub proof fn lemma_popcount_taken(bmp: u16, s: nat, t: nat)
    requires
        s < t <= 16,
        has_slot(bmp, s),
    ensures
        popcount_below(bmp, s) < popcount_below(bmp, t),
    decreases t,
{
    if t > s + 1 {
        lemma_popcount_taken(bmp, s, (t - 1) as nat);
    }
}

pub proof fn lemma_popcount_zero(t: nat)
    ensures
        popcount_below(0, t) == 0,
        !has_slot(0, t),
    decreases t,
{
    assert(forall|tu: u16| tu < 16 ==> (0u16 >> tu) & 1 != 1) by (bit_vector);
    if t > 0 {
        lemma_popcount_zero((t - 1) as nat);
    }
}

/// A bitmap with the single slot `s` taken.
pub proof fn lemma_slot_single(s: nat, t: nat)
    requires
        s < 16,
        t <= 16,
    ensures
        t < 16 ==> has_slot(1u16 << (s as u16), t) == (t == s),
        popcount_below(1u16 << (s as u16), t) == if t > s {
            1nat
        } else {
            0nat
        },
        popcount(1u16 << (s as u16)) == 1,
{
    let su = s as u16;
    assert(0u16 | (1u16 << su) == 1u16 << su) by (bit_vector);
    lemma_popcount_zero(t);
    lemma_popcount_zero(s);
    lemma_popcount_set(0, s, t);
    lemma_popcount_set(0, s, 16);
    lemma_popcount_zero(16);
    if t < 16 {
        lemma_has_slot_set(0, s, t);
    }
}

pub proof fn lemma_some_slot(bmp: u16, t: nat)
    requires
        t <= 16,
        popcount_below(bmp, t) > 0,
    ensures
        exists|s: nat| s < t && has_slot(bmp, s),
    decreases t,
{
    if !has_slot(bmp, (t - 1) as nat) {
        lemma_some_slot(bmp, (t - 1) as nat);
    }
}

} // verus!
