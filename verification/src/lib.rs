use vstd::prelude::*;

pub mod config;
pub mod lines;
pub mod props;
pub mod refresh;
pub mod scan;

verus! {

/// Reports whether an updated document diverges from the original,
/// byte for byte; the check workflow treats divergence as failure.
pub fn check_divergence(original: &Vec<u8>, updated: &Vec<u8>) -> (b: bool)
    ensures
        b == (original@ != updated@),
{
    let n = original.len();
    if n != updated.len() {
        return true;
    }
    let mut i: usize = 0;
    while i < n
        invariant
            n == original@.len(),
            n == updated@.len(),
            0 <= i <= n,
            forall|j: int| 0 <= j < i ==> original@[j] == updated@[j],
        decreases n - i,
    {
        if original[i] != updated[i] {
            return true;
        }
        i = i + 1;
    }
    proof {
        assert(original@ =~= updated@);
    }
    false
}

} // verus!
