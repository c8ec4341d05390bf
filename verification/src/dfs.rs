use vstd::prelude::*;

pub mod context;

verus! {

/// 2 to the power `e`, for the small exponents tree arithmetic needs.
pub open spec fn pow2(e: nat) -> int
    decreases e,
{
    if e == 0 {
        1
    } else {
        2 * pow2((e - 1) as nat)
    }
}

/// Depth of a complete binary tree holding `leaf_node_count` leaves, for a
/// leaf count that is a power of two.
#[must_use]
pub fn depth_for_leaf_node_count(leaf_node_count: u32) -> (r: u8)
    requires
        crate::spec_is_pow2(leaf_node_count as int),
    ensures
        pow2(r as nat) == leaf_node_count,
        r <= 31,
{
    let mut n = leaf_node_count;
    let mut d: u8 = 0;
    while n > 1
        invariant
            crate::spec_is_pow2(n as int),
            d <= 31,
            pow2(d as nat) * n == leaf_node_count,
            n >= 1,
        decreases n,
    {
        proof {
            if d == 31 {
                lemma_pow2_31();
                assert(pow2(31) * n >= 0x1_0000_0000) by (nonlinear_arith)
                    requires
                        n >= 2,
                        pow2(31) == 0x8000_0000,
                ;
            }
            assert(pow2((d + 1) as nat) == 2 * pow2(d as nat));
            lemma_pow2_step(d as nat, n as int, leaf_node_count as int);
        }
        n = n / 2;
        d = d + 1;
    }
    proof {
        assert(pow2(d as nat) * 1 == pow2(d as nat));
    }
    d
}

proof fn lemma_pow2_31()
    ensures
        pow2(31) == 0x8000_0000,
{
    reveal_with_fuel(pow2, 32);
}

proof fn lemma_pow2_step(d: nat, n: int, total: int)
    by (nonlinear_arith)
    requires
        n >= 2,
        n % 2 == 0,
        pow2(d) * n == total,
        pow2((d + 1) as nat) == 2 * pow2(d),
    ensures
        pow2((d + 1) as nat) * (n / 2) == total,
{
}

} // verus!
