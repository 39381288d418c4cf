//! Arithmetic modulo the order of the Ristretto group.

use vstd::arithmetic::div_mod::{
    lemma_add_mod_noop, lemma_mod_bound, lemma_mod_twice, lemma_mul_mod_noop, lemma_small_mod,
    lemma_sub_mod_noop,
};
use vstd::prelude::*;

verus! {

/// The order of the Ristretto group: 2^252 + 27742317777372353535851937790883648493.
#[verifier::opaque]
pub open spec fn order() -> int {
    85070591730234615865843651857942052864int * 85070591730234615865843651857942052864int
        + 27742317777372353535851937790883648493int
}

/// The residue of `x` modulo the group order.
pub open spec fn red(x: int) -> int {
    x % order()
}

/// The group order exceeds every 64-bit integer.
pub proof fn lemma_order()
    ensures
        order() > 0x1_0000_0000_0000_0000int,
{
    reveal(order);
    assert(85070591730234615865843651857942052864int * 85070591730234615865843651857942052864int
        >= 85070591730234615865843651857942052864int * 1) by (nonlinear_arith);
}

/// A residue lies in `[0, order())`.
pub proof fn lemma_red_bounds(x: int)
    ensures
        0 <= red(x) < order(),
{
    lemma_order();
    lemma_mod_bound(x, order());
}

/// A value in range is its own residue.
pub proof fn lemma_red_small(x: int)
    requires
        0 <= x < order(),
    ensures
        red(x) == x,
{
    lemma_order();
    lemma_small_mod(x as nat, order() as nat);
}

/// A residue is its own residue.
pub proof fn lemma_red_twice(x: int)
    ensures
        red(red(x)) == red(x),
{
    lemma_order();
    lemma_mod_twice(x, order());
}

/// Residues may be taken before or after a sum.
pub proof fn lemma_red_add(x: int, y: int)
    ensures
        red(red(x) + red(y)) == red(x + y),
        red(red(x) + y) == red(x + y),
        red(x + red(y)) == red(x + y),
{
    lemma_order();
    lemma_add_mod_noop(x, y, order());
    lemma_add_mod_noop(red(x), y, order());
    lemma_add_mod_noop(x, red(y), order());
    lemma_red_twice(x);
    lemma_red_twice(y);
}

/// Residues may be taken before or after a difference.
pub proof fn lemma_red_sub(x: int, y: int)
    ensures
        red(red(x) - red(y)) == red(x - y),
        red(red(x) - y) == red(x - y),
        red(x - red(y)) == red(x - y),
{
    lemma_order();
    lemma_sub_mod_noop(x, y, order());
    lemma_sub_mod_noop(red(x), y, order());
    lemma_sub_mod_noop(x, red(y), order());
    lemma_red_twice(x);
    lemma_red_twice(y);
}

/// Residues may be taken before or after a product.
pub proof fn lemma_red_mul(x: int, y: int)
    ensures
        red(red(x) * red(y)) == red(x * y),
        red(red(x) * y) == red(x * y),
        red(x * red(y)) == red(x * y),
{
    lemma_order();
    lemma_mul_mod_noop(x, y, order());
    lemma_mul_mod_noop(red(x), y, order());
    lemma_mul_mod_noop(x, red(y), order());
    lemma_red_twice(x);
    lemma_red_twice(y);
}

/// Whether the product of both is one.
pub open spec fn is_inverse(x: int, inverse: int) -> bool {
    red(x * inverse) == 1
}

/// Whether there is an inverse.
pub open spec fn has_inverse(x: int) -> bool {
    exists|inverse: int| #[trigger] is_inverse(x, inverse)
}

/// A product with a factor that has an inverse is zero only if the other factor
/// is.
pub proof fn lemma_red_nonzero(x: int, y: int)
    requires
        red(x) != 0,
        has_inverse(y),
    ensures
        red(x * y) != 0,
{
    if red(x * y) == 0 {
        let inverse = choose|inverse: int| #[trigger] is_inverse(y, inverse);
        lemma_order();
        lemma_red_small(0);
        assert(y * 0 == 0);
        assert(x * y == y * x) by (nonlinear_arith);
        lemma_red_cancel(y, inverse, x, 0);
    }
}

/// A factor with an inverse cancels.
pub proof fn lemma_red_cancel(k: int, inverse: int, x: int, y: int)
    requires
        red(k * inverse) == 1,
        red(k * x) == red(k * y),
    ensures
        red(x) == red(y),
{
    lemma_red_mul(inverse, k * x);
    lemma_red_mul(inverse, k * y);
    lemma_red_mul(k * inverse, x);
    lemma_red_mul(k * inverse, y);
    assert(inverse * (k * x) == (k * inverse) * x) by (nonlinear_arith);
    assert(inverse * (k * y) == (k * inverse) * y) by (nonlinear_arith);
}

} // verus!
