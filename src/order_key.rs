use vstd::prelude::*;

verus! {

/// The sign bit of a single-precision bit pattern.
pub const SIGN_BIT: u32 = 0x8000_0000;

/// IEEE 754 `totalOrder` on single-precision bit patterns, as a strict order:
/// negative patterns come first, the larger magnitude the earlier; then the
/// non-negative ones, the larger magnitude the later.
pub open spec fn total_order_lt(a: u32, b: u32) -> bool {
    let neg_a = a >= SIGN_BIT;
    let neg_b = b >= SIGN_BIT;
    if neg_a && neg_b {
        a > b
    } else if neg_a != neg_b {
        neg_a
    } else {
        a < b
    }
}

/// The unsigned integer whose order is the total order of the bit pattern.
pub open spec fn spec_total_order_key(bits: u32) -> u32 {
    if bits >= SIGN_BIT {
        (u32::MAX - bits) as u32
    } else {
        (bits + SIGN_BIT) as u32
    }
}

/// Maps the bit pattern of a single-precision number to a key whose unsigned
/// order is IEEE 754 `totalOrder`: sorting by the key sorts the numbers.
pub fn total_order_key(bits: u32) -> (r: u32)
    ensures
        r == spec_total_order_key(bits),
        forall|other: u32| #[trigger] spec_total_order_key(other) < r <==> total_order_lt(other, bits),
        forall|other: u32| r < #[trigger] spec_total_order_key(other) <==> total_order_lt(bits, other),
        forall|other: u32| r == #[trigger] spec_total_order_key(other) <==> other == bits,
{
    if bits >= SIGN_BIT {
        u32::MAX - bits
    } else {
        bits + SIGN_BIT
    }
}

/// Comparing keys is comparing the patterns in total order.
pub proof fn lemma_key_orders_totally(a: u32, b: u32)
    ensures
        spec_total_order_key(a) < spec_total_order_key(b) <==> total_order_lt(a, b),
        spec_total_order_key(a) == spec_total_order_key(b) <==> a == b,
{
}

} // verus!
