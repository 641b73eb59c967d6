pub mod crypto;

use vstd::prelude::*;

verus! {

/// Integers that can tell whether they are even.
pub trait IsEven: Sized {
    /// Whether the number is a multiple of two.
    spec fn even(self) -> bool;

    fn is_even(self) -> (r: bool)
        ensures
            r == self.even(),
    ;
}

impl IsEven for i32 {
    open spec fn even(self) -> bool {
        self % 2 == 0
    }

    fn is_even(self) -> (r: bool) {
        self % 2 == 0
    }
}

impl IsEven for usize {
    open spec fn even(self) -> bool {
        self % 2 == 0
    }

    fn is_even(self) -> (r: bool) {
        self % 2 == 0
    }
}

/// Whether `num` is even, for any integer type that can tell.
pub fn is_even<T: IsEven>(num: T) -> (r: bool)
    ensures
        r == num.even(),
{
    num.is_even()
}

} // verus!
