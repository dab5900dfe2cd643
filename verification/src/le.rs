//! Little-endian encoding of 32-bit integers.

use vstd::prelude::*;

verus! {

/// The four little-endian bytes of `x`.
pub open spec fn le_bytes(x: u32) -> Seq<u8> {
    seq![
        (x % 256) as u8,
        ((x / 256) % 256) as u8,
        ((x / 65536) % 256) as u8,
        (x / 16777216) as u8,
    ]
}

/// The little-endian bytes of every integer, in order.
pub open spec fn le_u32s(s: Seq<u32>) -> Seq<u8>
    decreases s.len(),
{
    if s.len() == 0 {
        Seq::empty()
    } else {
        le_u32s(s.drop_last()) + le_bytes(s.last())
    }
}

/// Appends the little-endian bytes of `x` (`u32::to_le_bytes`).
pub fn push_u32_le(out: &mut Vec<u8>, x: u32)
    ensures
        final(out)@ == old(out)@ + le_bytes(x),
{
    out.push((x % 256) as u8);
    out.push(((x / 256) % 256) as u8);
    out.push(((x / 65536) % 256) as u8);
    out.push((x / 16777216) as u8);
    assert(final(out)@ =~= old(out)@ + le_bytes(x));
}

/// Appends the little-endian bytes of every integer of `v`.
pub fn extend_u32s_le(out: &mut Vec<u8>, v: &[u32])
    ensures
        final(out)@ == old(out)@ + le_u32s(v@),
{
    let ghost start = out@;
    let mut i: usize = 0;
    assert(v@.take(0) =~= Seq::<u32>::empty());
    while i < v.len()
        invariant
            i <= v@.len(),
            out@ == start + le_u32s(v@.take(i as int)),
        decreases v.len() - i,
    {
        push_u32_le(out, v[i]);
        assert(v@.take(i + 1).drop_last() =~= v@.take(i as int));
        assert(out@ =~= start + le_u32s(v@.take(i + 1)));
        i += 1;
    }
    assert(v@.take(v@.len() as int) =~= v@);
}

} // verus!
