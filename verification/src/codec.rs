//! Little-endian 32-bit length fields used by the on-disk formats.
//!
//! Both the WAL and the SSTable format frame variable-length byte strings
//! with a 4-byte little-endian length. `u32_le` is the mathematical encoder,
//! `le_u32` the mathematical reader; the executable functions are proved
//! against them, which is what makes the round-trip lemmas possible.

use vstd::prelude::*;
use vstd::arithmetic::div_mod::lemma_fundamental_div_mod_converse;

verus! {

/// The four little-endian bytes of a 32-bit value.
pub open spec fn u32_le(n: u32) -> Seq<u8> {
    seq![
        (n % 256) as u8,
        ((n / 256) % 256) as u8,
        ((n / 65536) % 256) as u8,
        ((n / 16777216) % 256) as u8,
    ]
}

/// The value read from four little-endian bytes.
pub open spec fn le_u32(s: Seq<u8>) -> int
    recommends
        s.len() == 4,
{
    s[0] + s[1] * 256 + s[2] * 65536 + s[3] * 16777216
}

/// Reading back the four bytes of `n` yields `n`.
pub proof fn lemma_u32_le_round(n: u32)
    ensures
        le_u32(u32_le(n)) == n,
        u32_le(n).len() == 4,
{
    assert(n == (n % 256) + ((n / 256) % 256) * 256 + ((n / 65536) % 256) * 65536 + ((n
        / 16777216) % 256) * 16777216) by (bit_vector);
    assert(u32_le(n)[0] == (n % 256) as u8);
    assert(u32_le(n)[1] == ((n / 256) % 256) as u8);
    assert(u32_le(n)[2] == ((n / 65536) % 256) as u8);
    assert(u32_le(n)[3] == ((n / 16777216) % 256) as u8);
}

/// The read value of any four bytes is a 32-bit value.
pub proof fn lemma_le_u32_bounds(s: Seq<u8>)
    requires
        s.len() == 4,
    ensures
        0 <= le_u32(s) <= u32::MAX,
{
    assert(s[0] <= 255 && s[1] <= 255 && s[2] <= 255 && s[3] <= 255);
}

/// The encoding is canonical: re-encoding the value read from four bytes
/// reproduces exactly those bytes.
pub proof fn lemma_le_u32_round(s: Seq<u8>)
    requires
        s.len() == 4,
    ensures
        0 <= le_u32(s) <= u32::MAX,
        u32_le(le_u32(s) as u32) == s,
{
    lemma_le_u32_bounds(s);
    let x0 = s[0] as int;
    let x1 = s[1] as int;
    let x2 = s[2] as int;
    let x3 = s[3] as int;
    let x = le_u32(s);
    assert(x == x0 + x1 * 256 + x2 * 65536 + x3 * 16777216);
    lemma_fundamental_div_mod_converse(x, 256, x1 + 256 * x2 + 65536 * x3, x0);
    lemma_fundamental_div_mod_converse(x, 65536, x2 + 256 * x3, x0 + 256 * x1);
    lemma_fundamental_div_mod_converse(x, 16777216, x3, x0 + 256 * x1 + 65536 * x2);
    lemma_fundamental_div_mod_converse(x1 + 256 * x2 + 65536 * x3, 256, x2 + 256 * x3, x1);
    lemma_fundamental_div_mod_converse(x2 + 256 * x3, 256, x3, x2);
    lemma_fundamental_div_mod_converse(x3, 256, 0, x3);
    let n = x as u32;
    assert(u32_le(n)[0] == s[0]);
    assert(u32_le(n)[1] == s[1]);
    assert(u32_le(n)[2] == s[2]);
    assert(u32_le(n)[3] == s[3]);
    assert(u32_le(n) =~= s);
}

/// Appends the four little-endian bytes of `n` to `out`.
pub fn write_u32_le(out: &mut Vec<u8>, n: u32)
    ensures
        final(out)@ == old(out)@ + u32_le(n),
{
    let ghost s0 = old(out)@;
    out.push((n % 256) as u8);
    out.push(((n / 256) % 256) as u8);
    out.push(((n / 65536) % 256) as u8);
    out.push(((n / 16777216) % 256) as u8);
    proof {
        assert(out@ =~= s0 + u32_le(n));
    }
}

/// Reads the 32-bit value stored little-endian at `pos`.
pub fn read_u32_le(buf: &Vec<u8>, pos: usize) -> (r: u32)
    requires
        pos + 4 <= buf@.len(),
    ensures
        r == le_u32(buf@.subrange(pos as int, pos as int + 4)),
{
    let len: usize = buf.len();
    assert(pos + 4 <= len);
    let b0 = buf[pos] as u32;
    let b1 = buf[pos + 1] as u32;
    let b2 = buf[pos + 2] as u32;
    let b3 = buf[pos + 3] as u32;
    let r = b0 + b1 * 256 + b2 * 65536 + b3 * 16777216;
    proof {
        let s = buf@.subrange(pos as int, pos as int + 4);
        assert(s[0] == buf@[pos as int]);
        assert(s[1] == buf@[pos as int + 1]);
        assert(s[2] == buf@[pos as int + 2]);
        assert(s[3] == buf@[pos as int + 3]);
    }
    r
}

/// Copies `buf[start..end]` into a fresh vector.
pub fn copy_range(buf: &Vec<u8>, start: usize, end: usize) -> (r: Vec<u8>)
    requires
        start <= end <= buf@.len(),
    ensures
        r@ == buf@.subrange(start as int, end as int),
{
    let s = vstd::slice::slice_subrange(buf.as_slice(), start, end);
    vstd::slice::slice_to_vec(s)
}

} // verus!
