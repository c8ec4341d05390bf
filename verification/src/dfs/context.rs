use vstd::prelude::*;

use crate::dfs::pow2;

verus! {

/// Position inside a depth-first walk of a complete binary tree laid out in
/// preorder: the node's array index and its distance to the leaf row.
#[derive(Clone, Copy, PartialEq, Eq, Structural, Debug)]
pub struct DfsContext {
    pub idx: u32,
    pub distance_to_leaf: u8,
}

proof fn lemma_pow2_pos(e: nat)
    ensures
        pow2(e) >= 1,
    decreases e,
{
    if e > 0 {
        lemma_pow2_pos((e - 1) as nat);
    }
}

pub(crate) proof fn lemma_pow2_mono(a: nat, b: nat)
    requires
        a <= b,
    ensures
        pow2(a) <= pow2(b),
    decreases b,
{
    if a < b {
        lemma_pow2_mono(a, (b - 1) as nat);
        lemma_pow2_pos((b - 1) as nat);
    }
}

pub(crate) proof fn lemma_pow2_31_value()
    ensures
        pow2(31) == 0x8000_0000,
{
    reveal_with_fuel(pow2, 32);
}

/// 2 to the power `e` as a 32-bit value.
pub(crate) fn pow2_u32(e: u8) -> (r: u32)
    requires
        e <= 31,
    ensures
        r == pow2(e as nat),
{
    let mut r: u32 = 1;
    let mut i: u8 = 0;
    while i < e
        invariant
            0 <= i <= e <= 31,
            r == pow2(i as nat),
        decreases e - i,
    {
        proof {
            lemma_pow2_mono((i + 1) as nat, 31);
            lemma_pow2_31_value();
        }
        r = r * 2;
        i = i + 1;
    }
    r
}

impl DfsContext {
    /// The root context of a tree of the given depth.
    pub fn new(depth: u8) -> (r: Self)
        ensures
            r == (DfsContext { idx: 0, distance_to_leaf: depth }),
    {
        Self { idx: 0, distance_to_leaf: depth }
    }

    /// The left child: the next index in preorder, one level closer to the
    /// leaves.
    pub fn left(self) -> (r: Self)
        requires
            self.distance_to_leaf >= 1,
            self.idx + 1 <= u32::MAX,
        ensures
            r.idx == self.idx + 1,
            r.distance_to_leaf == self.distance_to_leaf - 1,
    {
        Self { idx: self.idx + 1, distance_to_leaf: self.distance_to_leaf - 1 }
    }

    /// The leftmost leaf of the subtree: one step per remaining level.
    pub fn full_left(self) -> (r: Self)
        requires
            self.distance_to_leaf >= 1,
            self.idx + self.distance_to_leaf <= u32::MAX,
        ensures
            r.idx == self.idx + self.distance_to_leaf,
            r.distance_to_leaf == 0,
    {
        Self { idx: self.idx + self.distance_to_leaf as u32, distance_to_leaf: 0 }
    }

    /// The rightmost leaf of the subtree: the whole subtree minus one lies
    /// between, so the index grows by `2^(distance + 1) - 2`.
    pub fn full_right(self) -> (r: Self)
        requires
            1 <= self.distance_to_leaf <= 30,
            self.idx + pow2((self.distance_to_leaf + 1) as nat) - 2 <= u32::MAX,
        ensures
            r.idx == self.idx + pow2((self.distance_to_leaf + 1) as nat) - 2,
            r.distance_to_leaf == 0,
    {
        let step = pow2_u32(self.distance_to_leaf + 1);
        proof {
            lemma_pow2_mono(2, (self.distance_to_leaf + 1) as nat);
            reveal_with_fuel(pow2, 3);
        }
        Self { idx: self.idx + (step - 2), distance_to_leaf: 0 }
    }

    /// The right child: past the whole left subtree, one level closer to
    /// the leaves.
    pub fn right(self) -> (r: Self)
        requires
            1 <= self.distance_to_leaf <= 31,
            self.idx + pow2(self.distance_to_leaf as nat) <= u32::MAX,
        ensures
            r.idx == self.idx + pow2(self.distance_to_leaf as nat),
            r.distance_to_leaf == self.distance_to_leaf - 1,
    {
        let step = pow2_u32(self.distance_to_leaf);
        Self { idx: self.idx + step, distance_to_leaf: self.distance_to_leaf - 1 }
    }
}

} // verus!
