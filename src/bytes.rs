//! Small helpers on byte buffers.
use vstd::prelude::*;

verus! {

/// Appends all of `src` to `out`.
pub fn append_bytes(out: &mut Vec<u8>, src: &[u8])
    ensures
        final(out)@ == old(out)@ + src@,
{
    let mut i: usize = 0;
    while i < src.len()
        invariant
            i <= src@.len(),
            out@ == old(out)@ + src@.subrange(0, i as int),
        decreases src@.len() - i,
    {
        out.push(src[i]);
        assert(out@ =~= old(out)@ + src@.subrange(0, i + 1));
        i = i + 1;
    }
    assert(src@.subrange(0, src@.len() as int) =~= src@);
}

/// A copy of `src[start..end]`.
pub fn copy_range(src: &[u8], start: usize, end: usize) -> (r: Vec<u8>)
    requires
        start <= end <= src@.len(),
    ensures
        r@ == src@.subrange(start as int, end as int),
{
    let mut out: Vec<u8> = Vec::new();
    let mut i: usize = start;
    while i < end
        invariant
            start <= i <= end <= src@.len(),
            out@ == src@.subrange(start as int, i as int),
        decreases end - i,
    {
        out.push(src[i]);
        assert(out@ =~= src@.subrange(start as int, i + 1));
        i = i + 1;
    }
    out
}

/// `data[pos..]` starts with `expected`.
pub fn has_prefix_at(data: &[u8], pos: usize, expected: &[u8]) -> (r: bool)
    requires
        pos <= data@.len(),
    ensures
        r == (pos + expected@.len() <= data@.len() && data@.subrange(
            pos as int,
            pos + expected@.len(),
        ) == expected@),
{
    if data.len() - pos < expected.len() {
        return false;
    }
    let dl = data.len();
    let mut i: usize = 0;
    while i < expected.len()
        invariant
            dl == data@.len(),
            pos + expected@.len() <= data@.len(),
            i <= expected@.len(),
            forall|j: int| 0 <= j < i ==> data@[pos + j] == expected@[j],
        decreases expected@.len() - i,
    {
        if data[pos + i] != expected[i] {
            assert(data@.subrange(pos as int, pos + expected@.len())[i as int] != expected@[i as int]);
            return false;
        }
        i = i + 1;
    }
    assert(data@.subrange(pos as int, pos + expected@.len()) =~= expected@);
    true
}

} // verus!
