//! Storage accounting: the price of the bytes a call took and what is given
//! back of a surplus or of released bytes.
use vstd::prelude::*;

verus! {

/// Price of the bytes that a call took: their number times the price of a
/// byte, capped at the largest amount; nothing where no byte was taken.
pub open spec fn required_cost(usage_before: u64, usage_after: u64, byte_cost: u128) -> int {
    if usage_after > usage_before {
        let c = (usage_after - usage_before) * byte_cost;
        if c > u128::MAX {
            u128::MAX as int
        } else {
            c
        }
    } else {
        0
    }
}

/// What is given back of a surplus: nothing where it is one unit or less.
pub open spec fn refund_of(surplus: int) -> int {
    if surplus > 1 {
        surplus
    } else {
        0
    }
}

/// Price of the storage taken between two readings of the usage counter.
pub fn storage_cost(usage_before: u64, usage_after: u64, byte_cost: u128) -> (r: u128)
    ensures
        r == required_cost(usage_before, usage_after, byte_cost),
{
    if usage_after > usage_before {
        let grown = (usage_after - usage_before) as u128;
        match grown.checked_mul(byte_cost) {
            Some(c) => c,
            None => u128::MAX,
        }
    } else {
        0
    }
}

/// What a removal gives back for the storage it released between two
/// readings of the usage counter.
pub fn release_refund(usage_before: u64, usage_after: u64, byte_cost: u128) -> (r: u128)
    ensures
        r == refund_of(required_cost(usage_after, usage_before, byte_cost)),
{
    let released = storage_cost(usage_after, usage_before, byte_cost);
    if released > 1 {
        released
    } else {
        0
    }
}

} // verus!
