//! LSB-first bit reader over a byte slice.
use vstd::prelude::*;

use crate::Error;
use vstd::arithmetic::power2::pow2;

verus! {

/// The bit at stream position `i`: bits are numbered LSB-first within each
/// byte; positions past the end of the input read as zero.
pub open spec fn bit_at(src: Seq<u8>, i: int) -> u16 {
    if 0 <= i < 8 * src.len() {
        ((src[i / 8] >> ((i % 8) as u8)) & 1u8) as u16
    } else {
        0
    }
}

/// The number formed by the `n` bits starting at `pos`, the first bit read
/// being the least significant.
pub open spec fn bits_value(src: Seq<u8>, pos: int, n: nat) -> nat
    decreases n,
{
    if n == 0 {
        0
    } else {
        (bits_value(src, pos, (n - 1) as nat) + bit_at(src, pos + n - 1) * pow2((n - 1) as nat)) as nat
    }
}

/// The number formed by the `n` bits starting at `pos`, the first bit read
/// being the most significant (the order in which Huffman codes are packed).
pub open spec fn msb_value(src: Seq<u8>, pos: int, n: nat) -> nat
    decreases n,
{
    if n == 0 {
        0
    } else {
        (2 * msb_value(src, pos, (n - 1) as nat) + bit_at(src, pos + n - 1)) as nat
    }
}

/// `v` holds, in its low `n` bits, the `n` stream bits starting at `pos`.
pub open spec fn holds_bits(v: u16, src: Seq<u8>, pos: int, n: nat) -> bool {
    forall|k: u16| k < n ==> #[trigger] ((v >> k) & 1) == bit_at(src, pos + k)
}

proof fn lemma_add_bit(v: u16, b: u16, i: u16)
    requires
        i < 15,
        b <= 1,
        v < (1u16 << i),
    ensures
        (v | (b << i)) == v + b * (1u16 << i),
        (v | (b << i)) < (1u16 << (i + 1) as u16),
        ((v | (b << i)) >> i) & 1 == b,
        forall|k: u16| k < i ==> #[trigger] (((v | (b << i)) >> k) & 1) == (v >> k) & 1,
{
    assert((v | (b << i)) == v + b * (1u16 << i)) by (bit_vector)
        requires
            i < 15,
            b <= 1,
            v < (1u16 << i),
    ;
    assert((v | (b << i)) < (1u16 << (i + 1) as u16)) by (bit_vector)
        requires
            i < 15,
            b <= 1,
            v < (1u16 << i),
    ;
    assert(((v | (b << i)) >> i) & 1 == b) by (bit_vector)
        requires
            i < 15,
            b <= 1,
            v < (1u16 << i),
    ;
    assert forall|k: u16| k < i implies #[trigger] (((v | (b << i)) >> k) & 1) == (v >> k) & 1 by {
        assert((((v | (b << i)) >> k) & 1) == (v >> k) & 1) by (bit_vector)
            requires
                k < i,
                i < 15,
                b <= 1,
        ;
    }
}

/// A one shifted left by `i` is `2^i`.
pub proof fn lemma_shl_pow2(i: u16)
    requires
        i < 16,
    ensures
        (1u16 << i) as nat == pow2(i as nat),
{
    vstd::bits::lemma_u16_pow2_no_overflow(i as nat);
    vstd::bits::lemma_u16_shl_is_mul(1, i);
}

/// The next `count` bits at `bp`, without advancing; bits past the end of
/// the input read as zero. Symbol decoding looks up a fixed number of bits
/// this way even where the code it finds is shorter.
pub fn peek_padded(bp: usize, src: &[u8], count: u8) -> (v: u16)
    requires
        1 <= count <= 15,
        bp + 16 <= usize::MAX,
    ensures
        v == bits_value(src@, bp as int, count as nat),
        holds_bits(v, src@, bp as int, count as nat),
        v < pow2(count as nat),
{
    proof {
        assert((1u16 << 0u16) == 1) by (bit_vector);
    }
    let mut v: u16 = 0;
    let mut i: u16 = 0;
    while i < count as u16
        invariant
            i <= count,
            1 <= count <= 15,
            bp + 16 <= usize::MAX,
            v < (1u16 << i),
            v == bits_value(src@, bp as int, i as nat),
            holds_bits(v, src@, bp as int, i as nat),
        decreases count - i,
    {
        let p: usize = bp + i as usize;
        let byte_index: usize = p >> 3;
        let shift: usize = p & 7;
        proof {
            assert(p & 7 < 8) by (bit_vector);
        }
        let b: u16 = if byte_index < src.len() {
            ((src[byte_index] >> (shift as u8)) & 1u8) as u16
        } else {
            0
        };
        proof {
            assert(p >> 3 == p / 8) by (bit_vector);
            assert(p & 7 == p % 8) by (bit_vector);
            assert(b == bit_at(src@, p as int));
            assert(forall|x: u8, s: u8| #[trigger] ((x >> s) & 1u8) <= 1) by (bit_vector);
            lemma_add_bit(v, b, i);
            lemma_shl_pow2(i);
            assert(bits_value(src@, bp as int, (i + 1) as nat) == bits_value(src@, bp as int, i as nat) + b * pow2(i as nat));
        }
        v = v | (b << i);
        i = i + 1;
    }
    proof {
        lemma_shl_pow2(count as u16);
    }
    v
}

/// The next `count` bits at `*bp`, without advancing. Fails with
/// `Underflow` when fewer than `count` bits are left.
pub fn show_bits(bp: &usize, src: &[u8], count: u8) -> (r: Result<u16, Error>)
    requires
        1 <= count <= 15,
        *bp + 32 <= usize::MAX,
    ensures
        (r is Err) <==> *bp + count > 8 * src@.len(),
        r is Err ==> r == Err::<u16, Error>(Error::Underflow),
        r matches Ok(v) ==> v == bits_value(src@, *bp as int, count as nat) && holds_bits(
            v,
            src@,
            *bp as int,
            count as nat,
        ) && v < pow2(count as nat),
{
    if (*bp + count as usize + 7) / 8 > src.len() {
        return Err(Error::Underflow);
    }
    Ok(peek_padded(*bp, src, count))
}

/// Reads the next `count` bits and advances past them. Fails with
/// `Underflow` when fewer than `count` bits are left.
pub fn read_bits(src: &[u8], sptr: &mut usize, count: u8) -> (r: Result<u16, Error>)
    requires
        count <= 15,
        *old(sptr) + 32 <= usize::MAX,
    ensures
        (r is Ok) <==> *old(sptr) + count <= 8 * src@.len(),
        r is Err ==> r == Err::<u16, Error>(Error::Underflow) && *final(sptr) == *old(sptr),
        r matches Ok(v) ==> v == bits_value(src@, *old(sptr) as int, count as nat) && v < pow2(
            count as nat,
        ) && *final(sptr) == *old(sptr) + count,
{
    if count == 0 {
        if (*sptr + 7) / 8 > src.len() {
            return Err(Error::Underflow);
        }
        proof {
            vstd::arithmetic::power2::lemma_pow2_pos(0);
        }
        return Ok(0);
    }
    let res = show_bits(sptr, src, count)?;
    *sptr += count as usize;
    Ok(res)
}

} // verus!
