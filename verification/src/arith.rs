//! Saturating arithmetic over `u64`.

use vstd::prelude::*;

verus! {

/// The value itself where it fits in a `u64`, else the largest `u64`.
pub open spec fn saturated(value: int) -> u64
    recommends
        0 <= value,
{
    if value > u64::MAX {
        u64::MAX
    } else {
        value as u64
    }
}

/// The product, or the largest `u64` where it does not fit.
pub(crate) fn saturating_product(left: u64, right: u64) -> (product: u64)
    ensures
        product == saturated(left * right),
{
    match left.checked_mul(right) {
        Some(product) => {
            assert(0 <= left * right) by (nonlinear_arith)
                requires
                    0 <= left,
                    0 <= right,
            ;
            product
        },
        None => u64::MAX,
    }
}

} // verus!
