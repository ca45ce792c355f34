//! Small helpers shared by the data structures.

use vstd::prelude::*;

verus! {

/// A hint that `cond` is expected to hold; it returns `cond` unchanged.
pub fn likely(cond: bool) -> (r: bool)
    ensures
        r == cond,
{
    if cond {
        true
    } else {
        cold_path();
        false
    }
}

/// Marks the branch that is not expected to run.
#[inline(never)]
fn cold_path() {
}

/// Whether two byte slices hold the same bytes.
pub fn bytes_equal(a: &[u8], b: &[u8]) -> (r: bool)
    ensures
        r == (a@ == b@),
{
    if a.len() != b.len() {
        return false;
    }
    let mut i: usize = 0;
    while i < a.len()
        invariant
            i <= a@.len(),
            a@.len() == b@.len(),
            forall|j: int| 0 <= j < i ==> a@[j] == b@[j],
        decreases a@.len() - i,
    {
        if a[i] != b[i] {
            return false;
        }
        i += 1;
    }
    assert(a@ =~= b@);
    true
}

} // verus!
