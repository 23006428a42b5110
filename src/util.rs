use vstd::prelude::*;

verus! {

/// `value` held within [min, max].
pub fn clamp_i64(value: i64, min: i64, max: i64) -> (r: i64)
    requires
        min <= max,
    ensures
        r == if value < min {
            min
        } else if value > max {
            max
        } else {
            value
        },
{
    if value < min {
        min
    } else if value > max {
        max
    } else {
        value
    }
}

/// `value` held within [min, max], as a count.
pub fn clamp_usize(value: i64, min: usize, max: usize) -> (r: usize)
    requires
        min <= max <= i64::MAX,
    ensures
        r as int == if value < min {
            min as int
        } else if value > max {
            max as int
        } else {
            value as int
        },
{
    if value < min as i64 {
        min
    } else if value > max as i64 {
        max
    } else {
        value as usize
    }
}

} // verus!
