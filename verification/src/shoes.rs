//! Filtering an inventory of shoes by size.

use vstd::prelude::*;

use crate::tree::lemma_filter_push;

verus! {

/// A shoe: its size and its style.
#[derive(Debug, PartialEq)]
pub struct Shoe {
    pub size: u32,
    pub style: String,
}

/// Selects the shoes of exactly the given size.
pub open spec fn size_pred(size: u32) -> spec_fn(Shoe) -> bool {
    |s: Shoe| s.size == size
}

/// The shoes of the requested size, in their original order.
pub fn shoes_in_size(shoes: Vec<Shoe>, shoe_size: u32) -> (r: Vec<Shoe>)
    ensures
        r@ == shoes@.filter(size_pred(shoe_size)),
{
    let ghost all = shoes@;
    let mut rest = shoes;
    let mut r: Vec<Shoe> = Vec::new();
    let ghost mut i: int = 0;
    while rest.len() > 0
        invariant
            0 <= i <= all.len(),
            rest@ == all.skip(i),
            r@ == all.take(i).filter(size_pred(shoe_size)),
        decreases rest.len(),
    {
        let s = rest.remove(0);
        let keep = s.size == shoe_size;
        proof {
            assert(all.skip(i).skip(1) =~= all.skip(i + 1));
            assert(all.take(i + 1) =~= all.take(i).push(all[i]));
            lemma_filter_push(all.take(i), size_pred(shoe_size), all[i]);
        }
        if keep {
            r.push(s);
        }
        proof {
            i = i + 1;
        }
    }
    proof {
        assert(all.take(all.len() as int) =~= all);
    }
    r
}

} // verus!
