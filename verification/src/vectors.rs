//! Copies of vectors of plain values.

use vstd::prelude::*;

verus! {

/// A copy of `v`.
pub(crate) fn copy_of<T: Copy>(v: &Vec<T>) -> (copy: Vec<T>)
    ensures
        copy@ == v@,
{
    let mut copy: Vec<T> = Vec::with_capacity(v.len());
    let mut i: usize = 0;
    while i < v.len()
        invariant
            i <= v.len(),
            copy@ == v@.take(i as int),
        decreases v.len() - i,
    {
        copy.push(v[i]);
        assert(copy@ =~= v@.take(i + 1));
        i += 1;
    }
    assert(copy@ =~= v@);
    copy
}

} // verus!
