//! Small arithmetic and greeting helpers, and a guarded guess value.

use vstd::prelude::*;
use vstd::string::StringExecFns;

verus! {

/// Adds two numbers.
pub fn add(left: usize, right: usize) -> (r: usize)
    requires
        left + right <= usize::MAX,
    ensures
        r == left + right,
{
    left + right
}

/// Adds two to a number.
pub fn add_two(a: i32) -> (r: i32)
    requires
        a + 2 <= i32::MAX,
    ensures
        r == a + 2,
{
    a + 2
}

/// Builds the greeting for `name`.
pub fn greeting(name: &str) -> (r: String)
    ensures
        r@ == "Hello "@ + name@ + "!"@,
{
    let mut s = String::from_str("Hello ");
    s.append(name);
    s.append("!");
    s
}

/// A guess, guaranteed to lie between 1 and 100 inclusive.
pub struct Guess {
    value: i32,
}

/// The value a guess holds.
pub closed spec fn guess_value(g: Guess) -> int {
    g.value as int
}

impl Guess {
    /// Wraps a guess value, which must lie between 1 and 100
    /// inclusive.
    pub fn new(value: i32) -> (g: Guess)
        requires
            1 <= value <= 100,
        ensures
            guess_value(g) == value,
    {
        Guess { value }
    }
}

} // verus!
