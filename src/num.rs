//! A number wrapped in a struct, and the sum of two of them.

use vstd::prelude::*;

verus! {

/// A wrapped `i32`.
#[derive(Debug)]
pub struct SomeNum {
    pub val: i32,
}

impl SomeNum {
    /// Wraps `val`.
    pub fn new(val: i32) -> (r: SomeNum)
        ensures
            r.val == val,
    {
        SomeNum { val }
    }

    /// The sum of `self` and `num`.
    pub fn add(&self, num: SomeNum) -> (r: SomeNum)
        requires
            i32::MIN <= self.val + num.val <= i32::MAX,
        ensures
            r.val == self.val + num.val,
    {
        SomeNum { val: self.val + num.val }
    }
}

/// The sum of two wrapped numbers.
pub fn add_some_nums(num_1: SomeNum, num_2: SomeNum) -> (r: SomeNum)
    requires
        i32::MIN <= num_1.val + num_2.val <= i32::MAX,
    ensures
        r.val == num_1.val + num_2.val,
{
    num_1.add(num_2)
}

} // verus!
