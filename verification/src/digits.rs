//! Decimal formatting of small integers into byte buffers.
//!
//! The render buffer and the external-tool argument strings both embed
//! decimal numbers; this module proves that the bytes pushed are exactly the
//! usual base-ten digits, most significant first, with no leading zeros.

use vstd::prelude::*;

verus! {

/// The decimal digit bytes of `n` (for `n >= 0`), most significant first.
pub open spec fn dec_of(n: int) -> Seq<u8>
    decreases n,
{
    if n < 10 {
        seq![(0x30 + n) as u8]
    } else {
        dec_of(n / 10).push((0x30 + n % 10) as u8)
    }
}

/// Appends the decimal digits of `n` to `buf`.
pub fn push_decimal(buf: &mut Vec<u8>, n: u16)
    ensures
        final(buf)@ == old(buf)@ + dec_of(n as int),
    decreases n,
{
    if n >= 10 {
        push_decimal(buf, n / 10);
    }
    buf.push(0x30 + (n % 10) as u8);
    proof {
        if n < 10 {
            assert(old(buf)@ + dec_of(n as int) =~= old(buf)@.push((0x30 + n as int % 10) as u8));
        } else {
            assert(old(buf)@ + dec_of(n as int)
                =~= (old(buf)@ + dec_of(n as int / 10)).push((0x30 + n as int % 10) as u8));
        }
    }
}

} // verus!
