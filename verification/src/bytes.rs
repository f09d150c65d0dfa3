//! Small executable helpers over byte vectors.

use vstd::prelude::*;

verus! {

/// Copies the bytes of `l` from `start` on.
pub(crate) fn tail_from(l: &Vec<u8>, start: usize) -> (r: Vec<u8>)
    requires
        start <= l@.len(),
    ensures
        r@ == l@.skip(start as int),
{
    let mut r: Vec<u8> = Vec::new();
    let mut i: usize = start;
    while i < l.len()
        invariant
            start <= i <= l@.len(),
            r@ == l@.subrange(start as int, i as int),
        decreases l@.len() - i,
    {
        r.push(l[i]);
        i += 1;
        assert(l@.subrange(start as int, i as int) =~= l@.subrange(start as int, i - 1).push(
            l@[i - 1],
        ));
    }
    assert(l@.subrange(start as int, l@.len() as int) =~= l@.skip(start as int));
    r
}

/// Copies a byte vector.
pub(crate) fn copy_bytes(l: &Vec<u8>) -> (r: Vec<u8>)
    ensures
        r@ == l@,
{
    let r = tail_from(l, 0);
    assert(l@.skip(0) =~= l@);
    r
}

/// Appends the bytes of `more` onto `acc`.
pub(crate) fn extend_bytes(acc: &mut Vec<u8>, more: &Vec<u8>)
    ensures
        final(acc)@ == old(acc)@ + more@,
{
    let ghost orig = acc@;
    let mut i: usize = 0;
    while i < more.len()
        invariant
            i <= more@.len(),
            acc@ == orig + more@.subrange(0, i as int),
        decreases more@.len() - i,
    {
        acc.push(more[i]);
        i += 1;
        assert(orig + more@.subrange(0, i as int) =~= (orig + more@.subrange(0, i - 1)).push(
            more@[i - 1],
        ));
    }
    assert(orig + more@.subrange(0, more@.len() as int) =~= orig + more@);
}

/// Whether two byte vectors hold the same bytes.
pub(crate) fn bytes_eq(a: &Vec<u8>, b: &Vec<u8>) -> (r: bool)
    ensures
        r == (a@ == b@),
{
    if a.len() != b.len() {
        return false;
    }
    let mut i: usize = 0;
    while i < a.len()
        invariant
            a@.len() == b@.len(),
            i <= a@.len(),
            forall|j: int| 0 <= j < i ==> a@[j] == b@[j],
        decreases a@.len() - i,
    {
        if a[i] != b[i] {
            return false;
        }
        i += 1;
    }
    assert(a@ =~= b@);
    true
}

} // verus!
