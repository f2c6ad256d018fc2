//! The order in which a heap ranks its values.

use vstd::prelude::*;

verus! {

/// How values are compared: the element that comes first is at the top.
///
/// `Ascending` gives a minimum heap on the values, `Descending` the reversed
/// comparison (the largest value is at the top).
#[derive(Clone, Copy, Debug)]
pub enum KeyOrder {
    Ascending,
    Descending,
}

impl KeyOrder {
    /// `a` strictly comes before `b`: the comparison of `a` with `b` is `Less`.
    pub open spec fn precedes(self, a: u64, b: u64) -> bool {
        match self {
            KeyOrder::Ascending => a < b,
            KeyOrder::Descending => a > b,
        }
    }

    /// Whether `a` strictly comes before `b`.
    pub fn is_less(&self, a: u64, b: u64) -> (r: bool)
        ensures
            r == self.precedes(a, b),
            self is Ascending ==> (r <==> a < b),
            self is Descending ==> (r <==> a > b),
    {
        match self {
            KeyOrder::Ascending => a < b,
            KeyOrder::Descending => a > b,
        }
    }
}

} // verus!
