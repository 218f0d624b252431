//! The weights of the blur passes that soften a silhouette's edge.
use vstd::prelude::*;

verus! {

/// Binomial coefficient `n` choose `k`.
pub open spec fn binomial(n: nat, k: nat) -> nat
    decreases n,
{
    if k == 0 || k == n {
        1
    } else if k > n {
        0
    } else {
        binomial((n - 1) as nat, (k - 1) as nat) + binomial((n - 1) as nat, k)
    }
}

/// Row `n` of Pascal's triangle.
pub open spec fn pascal_row(n: nat) -> Seq<u32> {
    Seq::new(n + 1, |k: int| binomial(n, k as nat) as u32)
}

/// The blur weights for a number of passes: row `passes - 1` of Pascal's
/// triangle for 2 to 5 passes, and that of 3 passes for any other number.
pub fn pascal_pass(passes: usize) -> (weights: &'static [u32])
    ensures
        weights@ == if 2 <= passes <= 5 {
            pascal_row((passes - 1) as nat)
        } else {
            pascal_row(2)
        },
{
    let weights: &'static [u32] = match passes {
        2 => &[1, 1],
        3 => &[1, 2, 1],
        4 => &[1, 3, 3, 1],
        5 => &[1, 4, 6, 4, 1],
        _ => &[1, 2, 1],
    };
    proof {
        reveal_with_fuel(binomial, 5);
        assert(pascal_row(1) =~= seq![1u32, 1]);
        assert(pascal_row(2) =~= seq![1u32, 2, 1]);
        assert(pascal_row(3) =~= seq![1u32, 3, 3, 1]);
        assert(pascal_row(4) =~= seq![1u32, 4, 6, 4, 1]);
    }
    weights
}

} // verus!
