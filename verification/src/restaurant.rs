//! A small menu model: breakfasts with a chosen toast and a fixed
//! seasonal fruit, appetizers, and a tiny adding helper.

use vstd::prelude::*;
use vstd::string::StringExecFns;

verus! {

/// Adds two numbers.
pub fn add(left: usize, right: usize) -> (r: usize)
    requires
        left + right <= usize::MAX,
    ensures
        r == left + right,
{
    left + right
}

/// A breakfast order: the customer picks the toast, the kitchen picks
/// the seasonal fruit.
pub struct Breakfast {
    pub toast: String,
    seasonal_fruit: String,
}

/// The toast the breakfast was ordered with.
pub closed spec fn toast_of(b: Breakfast) -> Seq<char> {
    b.toast@
}

/// The fruit that comes with the breakfast.
pub closed spec fn fruit_of(b: Breakfast) -> Seq<char> {
    b.seasonal_fruit@
}

impl Breakfast {
    /// A summer breakfast with the requested toast; the seasonal fruit
    /// is peaches.
    pub fn summer(toast: &str) -> (b: Breakfast)
        ensures
            toast_of(b) == toast@,
            fruit_of(b) == "peaches"@,
    {
        Breakfast { toast: String::from_str(toast), seasonal_fruit: String::from_str("peaches") }
    }
}

/// An appetizer choice.
pub enum Appetizer {
    Soup,
    Salad,
}

} // verus!
