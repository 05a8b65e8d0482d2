//! Writing big-endian words into a growable byte buffer.
use vstd::prelude::*;

verus! {

/// The two bytes of a 16-bit word in network byte order.
pub open spec fn be16(n: u16) -> Seq<u8> {
    seq![(n / 256) as u8, (n % 256) as u8]
}

fn pair(num: u16) -> (r: (u8, u8))
    ensures
        r.0 as int == num / 256,
        r.1 as int == num % 256,
{
    let hi = (num / 256) as u8;
    let lo = (num % 256) as u8;
    (hi, lo)
}

/// Appends `num` to `buf`, high byte first.
pub fn push_u16(buf: &mut Vec<u8>, num: u16)
    ensures
        final(buf)@ == old(buf)@ + be16(num),
{
    let (a, b) = pair(num);
    buf.push(a);
    buf.push(b);
    assert(final(buf)@ =~= old(buf)@ + be16(num));
}

} // verus!
