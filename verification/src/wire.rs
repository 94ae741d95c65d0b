//! Big-endian 32-bit integers, as the peer wire protocol writes them.
use vstd::prelude::*;

verus! {

/// The 32-bit big-endian integer in the four bytes of `s` from `i` on.
pub open spec fn be_u32(s: Seq<u8>, i: int) -> u32 {
    (s[i] as int * 16777216 + s[i + 1] as int * 65536 + s[i + 2] as int * 256 + s[i + 3] as int) as u32
}

/// The four big-endian bytes of `x`.
pub open spec fn be_bytes(x: u32) -> Seq<u8> {
    seq![
        (x / 16777216) as u8,
        ((x / 65536) % 256) as u8,
        ((x / 256) % 256) as u8,
        (x % 256) as u8,
    ]
}

/// Reading back four bytes written for `x` gives `x`, wherever they stand.
pub proof fn lemma_be_roundtrip(x: u32, pre: Seq<u8>, post: Seq<u8>)
    ensures
        be_u32(pre + be_bytes(x) + post, pre.len() as int) == x,
        be_bytes(x).len() == 4,
{
    let s = pre + be_bytes(x) + post;
    let k = pre.len() as int;
    assert(s[k] == be_bytes(x)[0]);
    assert(s[k + 1] == be_bytes(x)[1]);
    assert(s[k + 2] == be_bytes(x)[2]);
    assert(s[k + 3] == be_bytes(x)[3]);
    let a = x / 16777216;
    let b = (x / 65536) % 256;
    let c = (x / 256) % 256;
    let d = x % 256;
    assert(a < 256 && b < 256 && c < 256 && d < 256);
    assert(a * 16777216 + b * 65536 + c * 256 + d == x) by (nonlinear_arith)
        requires
            a == x / 16777216,
            b == (x / 65536) % 256,
            c == (x / 256) % 256,
            d == x % 256,
            x <= 0xffff_ffff,
    ;
}

/// The 32-bit big-endian integer in `s[i..i + 4]`.
pub fn read_be_u32(s: &[u8], i: usize) -> (r: u32)
    requires
        i + 4 <= s@.len(),
    ensures
        r == be_u32(s@, i as int),
{
    let a = s[i] as u32;
    let b = s[i + 1] as u32;
    let c = s[i + 2] as u32;
    let d = s[i + 3] as u32;
    a * 16777216 + b * 65536 + c * 256 + d
}

/// Appends the four big-endian bytes of `x`.
pub fn push_be_u32(out: &mut Vec<u8>, x: u32)
    ensures
        final(out)@ == old(out)@ + be_bytes(x),
{
    out.push((x / 16777216) as u8);
    out.push(((x / 65536) % 256) as u8);
    out.push(((x / 256) % 256) as u8);
    out.push((x % 256) as u8);
    assert(final(out)@ =~= old(out)@ + be_bytes(x));
}

} // verus!
