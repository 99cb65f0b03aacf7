//! Copying and joining byte vectors.

use vstd::prelude::*;

verus! {

/// Appends the bytes of a slice to a vector.
pub fn concat_bytes(head: Vec<u8>, tail: &[u8]) -> (out: Vec<u8>)
    ensures
        out@ == head@ + tail@,
{
    let mut out = head;
    let ghost start = out@;
    let mut i: usize = 0;
    while i < tail.len()
        invariant
            i <= tail.len(),
            out@ == start + tail@.subrange(0, i as int),
        decreases tail.len() - i,
    {
        out.push(tail[i]);
        assert(out@ =~= start + tail@.subrange(0, i + 1));
        i += 1;
    }
    assert(tail@.subrange(0, tail@.len() as int) =~= tail@);
    out
}

/// A copy of a vector.
pub fn copy_vector(u: &Vec<u8>) -> (r: Vec<u8>)
    ensures
        r@ == u@,
{
    let mut r: Vec<u8> = Vec::new();
    let mut i: usize = 0;
    while i < u.len()
        invariant
            i <= u.len(),
            r@ == u@.subrange(0, i as int),
        decreases u.len() - i,
    {
        r.push(u[i]);
        assert(r@ =~= u@.subrange(0, i + 1));
        i += 1;
    }
    assert(u@.subrange(0, u@.len() as int) =~= u@);
    r
}

} // verus!
