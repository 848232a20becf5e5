//! Small byte-buffer helpers shared across the crate.

use vstd::prelude::*;

verus! {

/// Copy `text[a..b]` into a fresh vector.
pub(crate) fn copy_range(text: &[u8], a: usize, b: usize) -> (r: Vec<u8>)
    requires
        a <= b <= text@.len(),
    ensures
        r@ == text@.subrange(a as int, b as int),
{
    let mut r: Vec<u8> = Vec::new();
    let mut i: usize = a;
    while i < b
        invariant
            a <= i <= b <= text@.len(),
            r@ == text@.subrange(a as int, i as int),
        decreases b - i,
    {
        r.push(text[i]);
        proof {
            assert(text@.subrange(a as int, i as int) + seq![text@[i as int]]
                =~= text@.subrange(a as int, i + 1));
        }
        i += 1;
    }
    r
}

} // verus!
