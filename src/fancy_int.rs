use crate::text::{decimal, decimal_text};
use vstd::prelude::*;

verus! {

/// An integer in a box of its own.
pub struct FancyInt {
    internal: i32,
}

impl FancyInt {
    /// The integer held.
    pub closed spec fn value(&self) -> i32 {
        self.internal
    }

    pub fn new(i: i32) -> (r: FancyInt)
        ensures
            r.value() == i,
    {
        FancyInt { internal: i }
    }

    pub fn get(&self) -> (r: i32)
        ensures
            r == self.value(),
    {
        self.internal
    }

    pub fn set(&mut self, new: i32)
        ensures
            final(self).value() == new,
    {
        self.internal = new;
    }

    /// The integer in decimal.
    pub fn to_string(&self) -> (r: String)
        ensures
            r@ == decimal(self.value() as int),
    {
        decimal_text(self.internal)
    }
}

} // verus!
