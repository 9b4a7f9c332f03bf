//! DEFLATE (RFC 1951) decompression.
use vstd::prelude::*;

use crate::bits::{bits_value, read_bits};
pub use crate::Error;
use crate::huffman::{
    decode, is_trivial_tree, kraft_units, lemma_kraft_present, lengths_ok, make_lookup_table, read_symbol,
    table_complete, table_sound, VarLenCode,
};
use vstd::arithmetic::power2::pow2;

verus! {

/// Base match length of each length symbol `257 + i`.
pub open spec fn length_base() -> Seq<u16> {
    seq![3u16, 4, 5, 6, 7, 8, 9, 10, 11, 13, 15, 17, 19, 23, 27, 31, 35, 43, 51, 59, 67, 83, 99, 115, 131, 163, 195, 227, 258]
}

/// Extra bits that follow each length symbol `257 + i`.
pub open spec fn length_extra() -> Seq<u8> {
    seq![0u8, 0, 0, 0, 0, 0, 0, 0, 1, 1, 1, 1, 2, 2, 2, 2, 3, 3, 3, 3, 4, 4, 4, 4, 5, 5, 5, 5, 0]
}

/// Base distance of each distance symbol.
pub open spec fn distance_base() -> Seq<u16> {
    seq![1u16, 2, 3, 4, 5, 7, 9, 13, 17, 25, 33, 49, 65, 97, 129, 193, 257, 385, 513, 769, 1025, 1537, 2049, 3073, 4097, 6145, 8193, 12289, 16385, 24577]
}

/// Extra bits that follow each distance symbol.
pub open spec fn distance_extra() -> Seq<u8> {
    seq![0u8, 0, 0, 0, 1, 1, 2, 2, 3, 3, 4, 4, 5, 5, 6, 6, 7, 7, 8, 8, 9, 9, 10, 10, 11, 11, 12, 12, 13, 13]
}

/// Order in which the code lengths of the code-length alphabet are stored.
pub open spec fn code_length_order() -> Seq<u8> {
    seq![16u8, 17, 18, 0, 8, 7, 9, 6, 10, 5, 11, 4, 12, 3, 13, 2, 14, 1, 15]
}

fn length_info(i: usize) -> (r: (u8, u16))
    requires
        i < 29,
    ensures
        r.0 == length_extra()[i as int],
        r.1 == length_base()[i as int],
{
    let extra: [u8; 29] = [0, 0, 0, 0, 0, 0, 0, 0, 1, 1, 1, 1, 2, 2, 2, 2, 3, 3, 3, 3, 4, 4, 4, 4, 5, 5, 5, 5, 0];
    let base: [u16; 29] = [3, 4, 5, 6, 7, 8, 9, 10, 11, 13, 15, 17, 19, 23, 27, 31, 35, 43, 51, 59, 67, 83, 99, 115, 131, 163, 195, 227, 258];
    proof {
        assert(extra@ =~= length_extra());
        assert(base@ =~= length_base());
    }
    (extra[i], base[i])
}

fn distance_info(i: usize) -> (r: (u8, u16))
    requires
        i < 30,
    ensures
        r.0 == distance_extra()[i as int],
        r.1 == distance_base()[i as int],
{
    let extra: [u8; 30] = [0, 0, 0, 0, 1, 1, 2, 2, 3, 3, 4, 4, 5, 5, 6, 6, 7, 7, 8, 8, 9, 9, 10, 10, 11, 11, 12, 12, 13, 13];
    let base: [u16; 30] = [1, 2, 3, 4, 5, 7, 9, 13, 17, 25, 33, 49, 65, 97, 129, 193, 257, 385, 513, 769, 1025, 1537, 2049, 3073, 4097, 6145, 8193, 12289, 16385, 24577];
    proof {
        assert(extra@ =~= distance_extra());
        assert(base@ =~= distance_base());
    }
    (extra[i], base[i])
}

/// `n` bits at `pos`; `Underflow` when the input does not hold them.
pub open spec fn take_bits(src: Seq<u8>, pos: int, n: nat) -> Result<nat, Error> {
    if pos + n <= 8 * src.len() {
        Ok(bits_value(src, pos, n))
    } else {
        Err(Error::Underflow)
    }
}

/// `out` followed by `n` bytes copied from `dist` bytes back: each new byte
/// repeats the byte `dist` places before it, so a run longer than `dist`
/// repeats the last `dist` bytes.
pub open spec fn copied_match(out: Seq<u8>, dist: nat, n: nat) -> Seq<u8> {
    out + Seq::new(n, |k: int| out[out.len() - dist + k % (dist as int)])
}

/// `r` is what a byte-by-byte forward copy of `n` bytes from `dist` back
/// makes of `out`: each byte written reads the byte `dist` before it, which
/// may itself have just been written.
pub open spec fn forward_copied(r: Seq<u8>, out: Seq<u8>, dist: nat, n: nat) -> bool {
    &&& r.len() == out.len() + n
    &&& forall|i: int| 0 <= i < out.len() ==> #[trigger] r[i] == out[i]
    &&& forall|i: int| out.len() <= i < r.len() ==> #[trigger] r[i] == r[i - dist]
}

/// The literal/length code lengths of a fixed-Huffman block.
pub open spec fn fixed_literal_lengths() -> Seq<u8> {
    Seq::new(
        288,
        |i: int|
            if i < 144 {
                8u8
            } else if i < 256 {
                9u8
            } else if i < 280 {
                7u8
            } else {
                8u8
            },
    )
}

/// The distance code lengths of a fixed-Huffman block.
pub open spec fn fixed_distance_lengths() -> Seq<u8> {
    Seq::new(32, |i: int| 5u8)
}

/// A tree that the decoder accepts: complete, or one of the two harmless
/// incomplete trees.
pub open spec fn tree_ok(lens: Seq<u8>) -> bool {
    kraft_units(lens) == 0x8000 || is_trivial_tree(lens)
}

#[verifier::opaque]
/// The symbols of one Huffman-coded block from `pos` on, appended to `out`,
/// with `cap` bytes of room: the position after the end-of-block symbol and
/// the output, or the error that stops the block.
pub open spec fn huffman_block(
    ll: Seq<u8>,
    d: Seq<u8>,
    src: Seq<u8>,
    pos: int,
    out: Seq<u8>,
    cap: nat,
) -> Result<(int, Seq<u8>), Error>
    decreases 8 * src.len() - pos,
{
    if !(0 <= pos <= 8 * src.len()) {
        Err(Error::Underflow)
    } else {
        match decode(ll, src, pos) {
            Err(e) => Err(e),
            Ok((s, at1)) => {
                if at1 <= pos {
                    Err(Error::InvalidData)
                } else if s < 256 {
                    if out.len() < cap {
                        huffman_block(ll, d, src, at1, out.push(s as u8), cap)
                    } else {
                        Err(Error::InvalidLength)
                    }
                } else if s == 256 {
                    Ok((at1, out))
                } else if s <= 285 {
                    let li = s - 257;
                    match take_bits(src, at1, length_extra()[li] as nat) {
                        Err(e) => Err(e),
                        Ok(le) => {
                            let length = length_base()[li] + le;
                            let at2 = at1 + length_extra()[li];
                            match decode(d, src, at2) {
                                Err(e) => Err(e),
                                Ok((ds, at3)) => {
                                    if ds >= 30 {
                                        Err(Error::InvalidDistance)
                                    } else {
                                        match take_bits(src, at3, distance_extra()[ds] as nat) {
                                            Err(e) => Err(e),
                                            Ok(de) => {
                                                let dist = distance_base()[ds] + de;
                                                let at4 = at3 + distance_extra()[ds];
                                                if dist > out.len() {
                                                    Err(Error::InvalidDistance)
                                                } else if out.len() + length > cap {
                                                    Err(Error::InvalidLength)
                                                } else if at4 <= pos {
                                                    Err(Error::InvalidData)
                                                } else {
                                                    huffman_block(
                                                        ll,
                                                        d,
                                                        src,
                                                        at4,
                                                        copied_match(out, dist as nat, length as nat),
                                                        cap,
                                                    )
                                                }
                                            },
                                        }
                                    }
                                },
                            }
                        },
                    }
                } else {
                    Err(Error::InvalidSymbol)
                }
            },
        }
    }
}

proof fn lemma_block_literal(
    ll: Seq<u8>,
    d: Seq<u8>,
    src: Seq<u8>,
    pos: int,
    out: Seq<u8>,
    cap: nat,
    s: int,
    at1: int,
)
    requires
        0 <= pos <= 8 * src.len(),
        decode(ll, src, pos) == Ok::<(int, int), Error>((s, at1)),
        pos < at1,
        s < 256,
        out.len() < cap,
    ensures
        huffman_block(ll, d, src, pos, out, cap) == huffman_block(ll, d, src, at1, out.push(s as u8), cap),
{
    reveal(huffman_block);
}

proof fn lemma_block_end(ll: Seq<u8>, d: Seq<u8>, src: Seq<u8>, pos: int, out: Seq<u8>, cap: nat, at1: int)
    requires
        0 <= pos <= 8 * src.len(),
        decode(ll, src, pos) == Ok::<(int, int), Error>((256int, at1)),
        pos < at1,
    ensures
        huffman_block(ll, d, src, pos, out, cap) == Ok::<(int, Seq<u8>), Error>((at1, out)),
{
    reveal(huffman_block);
}

proof fn lemma_block_match(
    ll: Seq<u8>,
    d: Seq<u8>,
    src: Seq<u8>,
    pos: int,
    out: Seq<u8>,
    cap: nat,
    s: int,
    at1: int,
    le: nat,
    ds: int,
    at3: int,
    de: nat,
)
    requires
        0 <= pos <= 8 * src.len(),
        decode(ll, src, pos) == Ok::<(int, int), Error>((s, at1)),
        pos < at1,
        257 <= s <= 285,
        take_bits(src, at1, length_extra()[s - 257] as nat) == Ok::<nat, Error>(le),
        decode(d, src, at1 + length_extra()[s - 257]) == Ok::<(int, int), Error>((ds, at3)),
        0 <= ds < 30,
        take_bits(src, at3, distance_extra()[ds] as nat) == Ok::<nat, Error>(de),
        at1 + length_extra()[s - 257] <= at3,
        distance_base()[ds] + de <= out.len(),
        out.len() + length_base()[s - 257] + le <= cap,
    ensures
        huffman_block(ll, d, src, pos, out, cap) == huffman_block(
            ll,
            d,
            src,
            at3 + distance_extra()[ds],
            copied_match(
                out,
                (distance_base()[ds] + de) as nat,
                (length_base()[s - 257] + le) as nat,
            ),
            cap,
        ),
{
    reveal(huffman_block);
}

/// A stored block whose header starts at the next byte boundary from `pos`:
/// the position after it and `out` with its bytes appended.
pub open spec fn stored_block(src: Seq<u8>, pos: int, out: Seq<u8>, cap: nat) -> Result<(int, Seq<u8>), Error> {
    let b = (pos + 7) / 8;
    if b + 4 > src.len() {
        Err(Error::Underflow)
    } else {
        let len = src[b] + 256 * src[b + 1];
        let nlen = src[b + 2] + 256 * src[b + 3];
        if len + nlen != 0xFFFF {
            Err(Error::InvalidBlockLength)
        } else if b + 4 + len > src.len() {
            Err(Error::Underflow)
        } else if out.len() + len > cap {
            Err(Error::InvalidLength)
        } else {
            Ok((8 * (b + 4 + len), out + src.subrange(b + 4, b + 4 + len)))
        }
    }
}

/// Copies a match of `length` bytes from `distance` bytes back to `start`,
/// as the block decoder does: byte by byte forward, so that a match longer
/// than its distance repeats the bytes it has just written. The bytes from
/// `start + length` on are left as they were.
pub fn copy_match(dst: &mut [u8], start: usize, distance: usize, length: usize)
    requires
        0 < distance <= start,
        start + length <= old(dst)@.len(),
    ensures
        final(dst)@.len() == old(dst)@.len(),
        final(dst)@.take((start + length) as int) == copied_match(
            old(dst)@.take(start as int),
            distance as nat,
            length as nat,
        ),
        forall|i: int| start + length <= i < old(dst)@.len() ==> #[trigger] final(dst)@[i] == old(dst)@[i],
        forall|k: int|
            0 <= k < length ==> #[trigger] final(dst)@[start + k] == final(dst)@[start + k - distance],
        distance == 1 ==> forall|k: int|
            0 <= k < length ==> #[trigger] final(dst)@[start + k] == old(dst)@[start - 1],
{
    let ghost out = dst@.take(start as int);
    let ghost d0 = dst@;
    let mut k: usize = 0;
    let mut j: usize = 0;
    while k < length
        invariant
            0 < distance <= start,
            start + length <= dst@.len(),
            dst@.len() == d0.len(),
            out == d0.take(start as int),
            k <= length,
            j < distance,
            j == k % distance,
            forall|i: int| 0 <= i < start ==> #[trigger] dst@[i] == d0[i],
            forall|i: int| start + k <= i < d0.len() ==> #[trigger] dst@[i] == d0[i],
            forall|i: int|
                start <= i < start + k ==> #[trigger] dst@[i] == d0[start - distance + (i - start)
                    % (distance as int)],
        decreases length - k,
    {
        let b = dst[start - distance + j];
        dst[start + k] = b;
        proof {
            let q = (k / distance) as int;
            let dd = distance as int;
            vstd::arithmetic::div_mod::lemma_fundamental_div_mod(k as int, dd);
            assert(k == q * dd + j) by (nonlinear_arith)
                requires
                    k == dd * q + j,
            ;
            if j + 1 == distance {
                assert(k + 1 == (q + 1) * dd + 0) by (nonlinear_arith)
                    requires
                        k == q * dd + j,
                        j + 1 == dd,
                ;
                vstd::arithmetic::div_mod::lemma_fundamental_div_mod_converse((k + 1) as int, dd, q + 1, 0);
            } else {
                vstd::arithmetic::div_mod::lemma_fundamental_div_mod_converse(
                    (k + 1) as int,
                    dd,
                    q,
                    (j + 1) as int,
                );
            }
        }
        j = if j + 1 == distance {
            0
        } else {
            j + 1
        };
        k = k + 1;
    }
    proof {
        assert(dst@.take((start + length) as int) =~= copied_match(out, distance as nat, length as nat));
        lemma_copy_match_forward(out, distance as nat, length as nat, out);
        let c = copied_match(out, distance as nat, length as nat);
        assert forall|k: int| 0 <= k < length implies #[trigger] dst@[start + k] == dst@[start + k - distance] by {
            assert(dst@[start + k] == c[start + k]);
            assert(dst@[start + k - distance] == c[start + k - distance]);
        }
        if distance == 1 {
            lemma_distance_one_run(out, length as nat);
            assert forall|k: int| 0 <= k < length implies #[trigger] dst@[start + k] == d0[start - 1] by {
                assert(dst@[start + k] == c[start + k]);
                assert(c =~= out + Seq::new(length as nat, |i: int| out.last()));
            }
        }
    }
}

/// A match copy is the byte-by-byte forward copy, and nothing else is: the
/// periodic result satisfies the forward recurrence, and any sequence that
/// satisfies it equals the periodic result.
pub proof fn lemma_copy_match_forward(out: Seq<u8>, dist: nat, n: nat, r: Seq<u8>)
    requires
        0 < dist <= out.len(),
    ensures
        forward_copied(copied_match(out, dist, n), out, dist, n),
        forward_copied(r, out, dist, n) ==> r == copied_match(out, dist, n),
{
    let c = copied_match(out, dist, n);
    let m = out.len() as int;
    let d = dist as int;
    assert forall|i: int| m <= i < c.len() implies #[trigger] c[i] == c[i - d] by {
        let k = i - m;
        if k < d {
            vstd::arithmetic::div_mod::lemma_small_mod(k as nat, dist);
        } else {
            vstd::arithmetic::div_mod::lemma_mod_sub_multiples_vanish(k, d);
        }
    }
    if forward_copied(r, out, dist, n) {
        assert forall|i: int| 0 <= i < r.len() implies #[trigger] r[i] == c[i] by {
            lemma_forward_copy_agree(out, dist, n, r, c, i);
        }
        assert(r =~= c);
    }
}

proof fn lemma_forward_copy_agree(out: Seq<u8>, dist: nat, n: nat, r: Seq<u8>, c: Seq<u8>, i: int)
    requires
        0 < dist <= out.len(),
        forward_copied(r, out, dist, n),
        forward_copied(c, out, dist, n),
        0 <= i < r.len(),
    ensures
        r[i] == c[i],
    decreases i,
{
    if i >= out.len() {
        lemma_forward_copy_agree(out, dist, n, r, c, i - dist);
    }
}

/// A match at distance one repeats the last byte.
pub proof fn lemma_distance_one_run(out: Seq<u8>, n: nat)
    requires
        out.len() > 0,
    ensures
        copied_match(out, 1, n) == out + Seq::new(n, |k: int| out.last()),
{
    assert forall|k: int| 0 <= k < n implies #[trigger] (k % 1) == 0 by {
        assert(k % 1 == 0) by (nonlinear_arith);
    }
    assert(copied_match(out, 1, n) =~= out + Seq::new(n, |k: int| out.last()));
}

/// Copies a stored block to the output.
fn inflate_no_compression(dst: &mut [u8], dptr: &mut usize, src: &[u8], sptr: &mut usize) -> (r: Result<(), Error>)
    requires
        *old(dptr) <= old(dst)@.len(),
        *old(sptr) <= 8 * src@.len(),
        8 * src@.len() + 64 <= usize::MAX,
    ensures
        final(dst)@.len() == old(dst)@.len(),
        *final(dptr) <= final(dst)@.len(),
        *final(dptr) >= *old(dptr),
        *final(sptr) <= 8 * src@.len(),
        *final(sptr) >= *old(sptr),
        r is Ok ==> stored_block(src@, *old(sptr) as int, old(dst)@.take(*old(dptr) as int), old(dst)@.len())
            == Ok::<(int, Seq<u8>), Error>((*final(sptr) as int, final(dst)@.take(*final(dptr) as int))),
        r matches Err(e) ==> stored_block(
            src@,
            *old(sptr) as int,
            old(dst)@.take(*old(dptr) as int),
            old(dst)@.len(),
        ) == Err::<(int, Seq<u8>), Error>(e) && final(dst)@ == old(dst)@ && *final(dptr) == *old(dptr)
            && *final(sptr) == *old(sptr),
        forall|i: int| *final(dptr) <= i < old(dst)@.len() ==> #[trigger] final(dst)@[i] == old(dst)@[i],
{
    let bytepos = (*sptr + 7) / 8;
    if bytepos + 4 > src.len() {
        return Err(Error::Underflow);
    }
    let len = src[bytepos] as usize + 256 * (src[bytepos + 1] as usize);
    let nlen = src[bytepos + 2] as usize + 256 * (src[bytepos + 3] as usize);
    if len + nlen != 0xFFFF {
        return Err(Error::InvalidBlockLength);
    }
    if bytepos + 4 + len > src.len() {
        return Err(Error::Underflow);
    }
    if len > dst.len() - *dptr {
        return Err(Error::InvalidLength);
    }
    let start = *dptr;
    let ghost d0 = dst@;
    let mut k: usize = 0;
    while k < len
        invariant
            k <= len,
            start + len <= dst@.len(),
            bytepos + 4 + len <= src@.len(),
            start + len <= usize::MAX,
            bytepos + 4 + len <= usize::MAX,
            dst@.len() == d0.len(),
            forall|i: int| 0 <= i < start ==> #[trigger] dst@[i] == d0[i],
            forall|i: int| start + k <= i < d0.len() ==> #[trigger] dst@[i] == d0[i],
            forall|i: int| start <= i < start + k ==> #[trigger] dst@[i] == src@[bytepos + 4 + (i - start)],
        decreases len - k,
    {
        dst[start + k] = src[bytepos + 4 + k];
        k = k + 1;
    }
    *dptr = start + len;
    *sptr = (bytepos + 4 + len) * 8;
    proof {
        assert(dst@.take((start + len) as int) =~= d0.take(start as int) + src@.subrange(
            bytepos + 4,
            bytepos + 4 + len,
        ));
    }
    Ok(())
}

/// Decodes the symbols of one Huffman-coded block up to its end-of-block
/// symbol.
#[verifier::rlimit(60)]
fn inflate_huffman_block(
    dst: &mut [u8],
    dptr: &mut usize,
    src: &[u8],
    sptr: &mut usize,
    lut_ll: &Vec<VarLenCode>,
    lut_d: &Vec<VarLenCode>,
    Ghost(ll): Ghost<Seq<u8>>,
    Ghost(d): Ghost<Seq<u8>>,
) -> (r: Result<(), Error>)
    requires
        table_sound(lut_ll@, ll),
        table_sound(lut_d@, d),
        table_complete(lut_ll@, ll),
        table_complete(lut_d@, d),
        lengths_ok(ll),
        lengths_ok(d),
        ll.len() <= 0x10000,
        d.len() <= 0x10000,
        kraft_units(ll) <= 0x8000,
        kraft_units(d) <= 0x8000,
        *old(dptr) <= old(dst)@.len(),
        *old(sptr) <= 8 * src@.len(),
        8 * src@.len() + 64 <= usize::MAX,
    ensures
        final(dst)@.len() == old(dst)@.len(),
        *final(dptr) <= final(dst)@.len(),
        *final(dptr) >= *old(dptr),
        *final(sptr) <= 8 * src@.len(),
        *final(sptr) >= *old(sptr),
        r is Ok ==> huffman_block(
            ll,
            d,
            src@,
            *old(sptr) as int,
            old(dst)@.take(*old(dptr) as int),
            old(dst)@.len(),
        ) == Ok::<(int, Seq<u8>), Error>((*final(sptr) as int, final(dst)@.take(*final(dptr) as int))),
        r matches Err(e) ==> huffman_block(
            ll,
            d,
            src@,
            *old(sptr) as int,
            old(dst)@.take(*old(dptr) as int),
            old(dst)@.len(),
        ) == Err::<(int, Seq<u8>), Error>(e),
        r is Ok ==> forall|i: int|
            *final(dptr) <= i < old(dst)@.len() ==> #[trigger] final(dst)@[i] == old(dst)@[i],
{
    let ghost cap = dst@.len();
    let ghost target = huffman_block(ll, d, src@, *sptr as int, dst@.take(*dptr as int), cap);
    loop
        invariant
            table_sound(lut_ll@, ll),
            table_sound(lut_d@, d),
            table_complete(lut_ll@, ll),
            table_complete(lut_d@, d),
            lengths_ok(ll),
            lengths_ok(d),
            ll.len() <= 0x10000,
            d.len() <= 0x10000,
            kraft_units(ll) <= 0x8000,
            kraft_units(d) <= 0x8000,
            dst@.len() == cap,
            cap == old(dst)@.len(),
            *dptr <= cap,
            *dptr >= *old(dptr),
            *sptr <= 8 * src@.len(),
            *sptr >= *old(sptr),
            8 * src@.len() + 64 <= usize::MAX,
            huffman_block(ll, d, src@, *sptr as int, dst@.take(*dptr as int), cap) == target,
            target == huffman_block(
                ll,
                d,
                src@,
                *old(sptr) as int,
                old(dst)@.take(*old(dptr) as int),
                cap,
            ),
            forall|i: int| *dptr <= i < cap ==> #[trigger] dst@[i] == old(dst)@[i],
        decreases 8 * src@.len() - *sptr,
    {
        let pos = *sptr;
        let ghost out = dst@.take(*dptr as int);
        let ghost before = dst@;
        let sym = match read_symbol(src, sptr, lut_ll, Ghost(ll)) {
            Ok(v) => v,
            Err(e) => {
                proof {
                    assert(huffman_block(ll, d, src@, pos as int, out, cap) == Err::<(int, Seq<u8>), Error>(e)) by {
                        reveal(huffman_block);
                    }
                }
                return Err(e);
            },
        };
        let at1 = *sptr;
        if sym < 256 {
            if *dptr >= dst.len() {
                proof {
                    assert(huffman_block(ll, d, src@, pos as int, out, cap) == Err::<(int, Seq<u8>), Error>(Error::InvalidLength)) by {
                        reveal(huffman_block);
                    }
                }
                return Err(Error::InvalidLength);
            }
            dst[*dptr] = sym as u8;
            *dptr = *dptr + 1;
            proof {
                assert(dst@.take(*dptr as int) =~= out.push(sym as u8));
                lemma_block_literal(ll, d, src@, pos as int, out, cap, sym as int, at1 as int);
            }
        } else if sym == 256 {
            proof {
                lemma_block_end(ll, d, src@, pos as int, out, cap, at1 as int);
            }
            return Ok(());
        } else if sym <= 285 {
            let (extra, base) = length_info((sym - 257) as usize);
            let e = match read_bits(src, sptr, extra) {
                Ok(v) => v,
                Err(err) => {
                proof {
                    assert(huffman_block(ll, d, src@, pos as int, out, cap) == Err::<(int, Seq<u8>), Error>(err)) by {
                        reveal(huffman_block);
                    }
                }
                    return Err(err);
                },
            };
            let length = base as usize + e as usize;
            let at2 = *sptr;
            let dsym = match read_symbol(src, sptr, lut_d, Ghost(d)) {
                Ok(v) => v,
                Err(err) => {
                proof {
                    assert(huffman_block(ll, d, src@, pos as int, out, cap) == Err::<(int, Seq<u8>), Error>(err)) by {
                        reveal(huffman_block);
                    }
                }
                    return Err(err);
                },
            };
            if dsym >= 30 {
                proof {
                    assert(huffman_block(ll, d, src@, pos as int, out, cap) == Err::<(int, Seq<u8>), Error>(Error::InvalidDistance)) by {
                        reveal(huffman_block);
                    }
                }
                return Err(Error::InvalidDistance);
            }
            let (dextra, dbase) = distance_info(dsym as usize);
            let at3 = *sptr;
            let e2 = match read_bits(src, sptr, dextra) {
                Ok(v) => v,
                Err(err) => {
                proof {
                    assert(huffman_block(ll, d, src@, pos as int, out, cap) == Err::<(int, Seq<u8>), Error>(err)) by {
                        reveal(huffman_block);
                    }
                }
                    return Err(err);
                },
            };
            let distance = dbase as usize + e2 as usize;
            if distance > *dptr {
                proof {
                    assert(huffman_block(ll, d, src@, pos as int, out, cap) == Err::<(int, Seq<u8>), Error>(Error::InvalidDistance)) by {
                        reveal(huffman_block);
                    }
                }
                return Err(Error::InvalidDistance);
            }
            if length > dst.len() - *dptr {
                proof {
                    assert(huffman_block(ll, d, src@, pos as int, out, cap) == Err::<(int, Seq<u8>), Error>(Error::InvalidLength)) by {
                        reveal(huffman_block);
                    }
                }
                return Err(Error::InvalidLength);
            }
            let start = *dptr;
            copy_match(dst, start, distance, length);
            *dptr = start + length;
            proof {
                lemma_block_match(
                    ll,
                    d,
                    src@,
                    pos as int,
                    out,
                    cap,
                    sym as int,
                    at1 as int,
                    e as nat,
                    dsym as int,
                    at3 as int,
                    e2 as nat,
                );
            }
        } else {
                proof {
                    assert(huffman_block(ll, d, src@, pos as int, out, cap) == Err::<(int, Seq<u8>), Error>(Error::InvalidSymbol)) by {
                        reveal(huffman_block);
                    }
                }
            return Err(Error::InvalidSymbol);
        }
    }
}

/// Code lengths of the code-length alphabet: the first `k` three-bit fields
/// at `pos`, stored in `code_length_order`; the others are zero.
pub open spec fn code_length_lengths(src: Seq<u8>, pos: int, k: nat) -> Seq<u8>
    decreases k,
{
    if k == 0 {
        Seq::new(19, |i: int| 0u8)
    } else {
        code_length_lengths(src, pos, (k - 1) as nat).update(
            code_length_order()[k - 1] as int,
            bits_value(src, pos + 3 * (k - 1), 3) as u8,
        )
    }
}

/// One instruction of the code-length alphabet at `pos`: the position after
/// it and the lengths read so far with its lengths appended.
pub open spec fn length_instruction(cl: Seq<u8>, src: Seq<u8>, pos: int, total: nat, acc: Seq<u8>) -> Result<(int, Seq<u8>), Error> {
    match decode(cl, src, pos) {
        Err(e) => Err(e),
        Ok((sym, at1)) => {
            if sym < 16 {
                Ok((at1, acc.push(sym as u8)))
            } else if sym == 16 {
                if acc.len() == 0 {
                    Err(Error::InvalidData)
                } else {
                    match take_bits(src, at1, 2) {
                        Err(e) => Err(e),
                        Ok(r) => {
                            if acc.len() + 3 + r > total {
                                Err(Error::InvalidData)
                            } else {
                                Ok((at1 + 2, acc + Seq::new(3 + r, |i: int| acc.last())))
                            }
                        },
                    }
                }
            } else if sym == 17 || sym == 18 {
                let nbits: nat = if sym == 17 { 3 } else { 7 };
                let base: nat = if sym == 17 { 3 } else { 11 };
                match take_bits(src, at1, nbits) {
                    Err(e) => Err(e),
                    Ok(r) => {
                        if acc.len() + base + r > total {
                            Err(Error::InvalidData)
                        } else {
                            Ok((at1 + nbits, acc + Seq::new(base + r, |i: int| 0u8)))
                        }
                    },
                }
            } else {
                Err(Error::InvalidData)
            }
        },
    }
}

/// The code lengths of the two main trees, `total` of them, decoded with the
/// code-length tree `cl` from `pos` on after `acc`.
#[verifier::opaque]
pub open spec fn code_lengths(cl: Seq<u8>, src: Seq<u8>, pos: int, total: nat, acc: Seq<u8>) -> Result<(Seq<u8>, int), Error>
    decreases 8 * src.len() - pos,
{
    if !(0 <= pos <= 8 * src.len()) {
        Err(Error::Underflow)
    } else if acc.len() >= total {
        Ok((acc, pos))
    } else {
        match length_instruction(cl, src, pos, total, acc) {
            Err(e) => Err(e),
            Ok((at1, acc1)) => {
                if at1 <= pos {
                    Err(Error::InvalidData)
                } else {
                    code_lengths(cl, src, at1, total, acc1)
                }
            },
        }
    }
}

/// Why the code lengths `lens` make no tree that the decoder accepts.
pub open spec fn tree_error(lens: Seq<u8>) -> Error {
    if kraft_units(lens) > 0x8000 {
        Error::OverSubscribedTree
    } else {
        Error::UnderSubscribedTree
    }
}

/// The header of a dynamic-Huffman block at `pos`: the code lengths of its
/// literal/length and distance trees and the position after the header.
pub open spec fn dynamic_header(src: Seq<u8>, pos: int) -> Result<(Seq<u8>, Seq<u8>, int), Error> {
    if pos + 14 > 8 * src.len() {
        Err(Error::Underflow)
    } else {
        let hlit = bits_value(src, pos, 5) + 257;
        let hdist = bits_value(src, pos + 5, 5) + 1;
        let hclen = bits_value(src, pos + 10, 4) + 4;
        let p = pos + 14;
        if hlit > 286 || hdist > 30 {
            Err(Error::InvalidCodeLength)
        } else if p + 3 * hclen > 8 * src.len() {
            Err(Error::Underflow)
        } else {
            let cl = code_length_lengths(src, p, hclen);
            if !tree_ok(cl) {
                Err(tree_error(cl))
            } else {
                match code_lengths(cl, src, p + 3 * hclen, (hlit + hdist) as nat, Seq::empty()) {
                    Err(e) => Err(e),
                    Ok((all, at2)) => {
                        let ll = all.take(hlit as int);
                        let d = all.skip(hlit as int);
                        if all[256] == 0 {
                            Err(Error::InvalidData)
                        } else if !tree_ok(ll) {
                            Err(tree_error(ll))
                        } else if !tree_ok(d) {
                            Err(tree_error(d))
                        } else {
                            Ok((ll, d, at2))
                        }
                    },
                }
            }
        }
    }
}

proof fn lemma_code_lengths_step(
    cl: Seq<u8>,
    src: Seq<u8>,
    pos: int,
    total: nat,
    acc: Seq<u8>,
    at1: int,
    acc1: Seq<u8>,
)
    requires
        0 <= pos <= 8 * src.len(),
        acc.len() < total,
        length_instruction(cl, src, pos, total, acc) == Ok::<(int, Seq<u8>), Error>((at1, acc1)),
        pos < at1,
    ensures
        code_lengths(cl, src, pos, total, acc) == code_lengths(cl, src, at1, total, acc1),
{
    reveal(code_lengths);
}

proof fn lemma_code_lengths_done(cl: Seq<u8>, src: Seq<u8>, pos: int, total: nat, acc: Seq<u8>)
    requires
        0 <= pos <= 8 * src.len(),
        acc.len() >= total,
    ensures
        code_lengths(cl, src, pos, total, acc) == Ok::<(Seq<u8>, int), Error>((acc, pos)),
{
    reveal(code_lengths);
}

/// The two lookup tables of a Huffman-coded block with the code lengths they
/// were built from.
pub struct Trees {
    pub lit: Vec<VarLenCode>,
    pub dist: Vec<VarLenCode>,
    pub lit_lens: Ghost<Seq<u8>>,
    pub dist_lens: Ghost<Seq<u8>>,
}

impl Trees {
    pub open spec fn wf(&self) -> bool {
        &&& table_sound(self.lit@, self.lit_lens@)
        &&& table_sound(self.dist@, self.dist_lens@)
        &&& table_complete(self.lit@, self.lit_lens@)
        &&& table_complete(self.dist@, self.dist_lens@)
        &&& lengths_ok(self.lit_lens@)
        &&& lengths_ok(self.dist_lens@)
        &&& self.lit_lens@.len() <= 0x10000
        &&& self.dist_lens@.len() <= 0x10000
        &&& tree_ok(self.lit_lens@)
        &&& tree_ok(self.dist_lens@)
        &&& kraft_units(self.lit_lens@) <= 0x8000
        &&& kraft_units(self.dist_lens@) <= 0x8000
    }
}

fn build_table(lengths: &[u8]) -> (r: Result<Vec<VarLenCode>, Error>)
    requires
        lengths_ok(lengths@),
        lengths@.len() <= 0x10000,
    ensures
        r matches Ok(t) ==> table_sound(t@, lengths@) && table_complete(t@, lengths@) && tree_ok(
            lengths@,
        ) && kraft_units(lengths@) <= 0x8000,
        r matches Err(e) ==> !tree_ok(lengths@) && e == tree_error(lengths@),
        tree_ok(lengths@) ==> r is Ok,
{
    let r = make_lookup_table(lengths);
    proof {
        if r is Ok {
            assert(r != Err::<Vec<VarLenCode>, Error>(Error::OverSubscribedTree));
            assert(r != Err::<Vec<VarLenCode>, Error>(Error::UnderSubscribedTree));
        }
        if tree_ok(lengths@) {
            lemma_kraft_present(lengths@);
            assert(r != Err::<Vec<VarLenCode>, Error>(Error::OverSubscribedTree));
            assert(r != Err::<Vec<VarLenCode>, Error>(Error::UnderSubscribedTree));
        }
    }
    r
}

proof fn lemma_kraft_run(prefix: Seq<u8>, x: u8, k: nat)
    requires
        0 < x <= 15,
    ensures
        kraft_units(prefix + Seq::new(k, |i: int| x)) == kraft_units(prefix) + k * pow2((15 - x) as nat),
    decreases k,
{
    let t = prefix + Seq::new(k, |i: int| x);
    if k == 0 {
        assert(t =~= prefix);
    } else {
        lemma_kraft_run(prefix, x, (k - 1) as nat);
        assert(t.drop_last() =~= prefix + Seq::new((k - 1) as nat, |i: int| x));
        assert((k - 1) * pow2((15 - x) as nat) + pow2((15 - x) as nat) == k * pow2((15 - x) as nat))
            by (nonlinear_arith);
    }
}

/// The fixed code lengths form complete trees.
proof fn lemma_fixed_trees_complete()
    ensures
        kraft_units(fixed_literal_lengths()) == 0x8000,
        kraft_units(fixed_distance_lengths()) == 0x8000,
{
    vstd::arithmetic::power2::lemma2_to64();
    let e = Seq::<u8>::empty();
    let a = e + Seq::new(144, |i: int| 8u8);
    let b = a + Seq::new(112, |i: int| 9u8);
    let c = b + Seq::new(24, |i: int| 7u8);
    let f = c + Seq::new(8, |i: int| 8u8);
    lemma_kraft_run(e, 8, 144);
    lemma_kraft_run(a, 9, 112);
    lemma_kraft_run(b, 7, 24);
    lemma_kraft_run(c, 8, 8);
    assert(kraft_units(e) == 0);
    assert(f =~= fixed_literal_lengths());
    lemma_kraft_run(e, 5, 32);
    assert(e + Seq::new(32, |i: int| 5u8) =~= fixed_distance_lengths());
}

/// Builds the lookup tables of a fixed-Huffman block.
fn generate_fixed_luts() -> (r: Result<Trees, Error>)
    ensures
        r is Ok,
        r matches Ok(t) ==> t.wf() && t.lit_lens@ == fixed_literal_lengths() && t.dist_lens@
            == fixed_distance_lengths(),
{
    let mut len_ll: Vec<u8> = Vec::new();
    while len_ll.len() < 288
        invariant
            len_ll@.len() <= 288,
            forall|i: int| 0 <= i < len_ll@.len() ==> #[trigger] len_ll@[i] == fixed_literal_lengths()[i],
        decreases 288 - len_ll@.len(),
    {
        let i = len_ll.len();
        let l: u8 = if i < 144 {
            8
        } else if i < 256 {
            9
        } else if i < 280 {
            7
        } else {
            8
        };
        len_ll.push(l);
    }
    let mut len_d: Vec<u8> = Vec::new();
    while len_d.len() < 32
        invariant
            len_d@.len() <= 32,
            forall|i: int| 0 <= i < len_d@.len() ==> #[trigger] len_d@[i] == 5,
        decreases 32 - len_d@.len(),
    {
        len_d.push(5);
    }
    proof {
        assert(len_ll@ =~= fixed_literal_lengths());
        assert(len_d@ =~= fixed_distance_lengths());
        lemma_fixed_trees_complete();
        assert(forall|i: int| 0 <= i < len_ll@.len() ==> #[trigger] len_ll@[i] <= 9);
        assert(forall|i: int| 0 <= i < len_d@.len() ==> #[trigger] len_d@[i] <= 9);
    }
    let lit = build_table(len_ll.as_slice())?;
    let dist = build_table(len_d.as_slice())?;
    Ok(Trees { lit, dist, lit_lens: Ghost(len_ll@), dist_lens: Ghost(len_d@) })
}

/// Reads the header of a dynamic-Huffman block and builds its two tables.
#[verifier::rlimit(80)]
fn read_encoded_luts(src: &[u8], sptr: &mut usize) -> (r: Result<Trees, Error>)
    requires
        *old(sptr) <= 8 * src@.len(),
        8 * src@.len() + 64 <= usize::MAX,
    ensures
        *final(sptr) <= 8 * src@.len(),
        *final(sptr) >= *old(sptr),
        r matches Ok(t) ==> t.wf() && dynamic_header(src@, *old(sptr) as int) == Ok::<
            (Seq<u8>, Seq<u8>, int),
            Error,
        >((t.lit_lens@, t.dist_lens@, *final(sptr) as int)),
        r matches Err(e) ==> dynamic_header(src@, *old(sptr) as int) == Err::<(Seq<u8>, Seq<u8>, int), Error>(e),
{
    let pos = *sptr;
    let hlit = match read_bits(src, sptr, 5) {
        Ok(v) => v as usize + 257,
        Err(e) => {
            return Err(e);
        },
    };
    let hdist = match read_bits(src, sptr, 5) {
        Ok(v) => v as usize + 1,
        Err(e) => {
            return Err(e);
        },
    };
    let hclen = match read_bits(src, sptr, 4) {
        Ok(v) => v as usize + 4,
        Err(e) => {
            return Err(e);
        },
    };
    if hlit > 286 || hdist > 30 {
        return Err(Error::InvalidCodeLength);
    }
    let order: [u8; 19] = [16, 17, 18, 0, 8, 7, 9, 6, 10, 5, 11, 4, 12, 3, 13, 2, 14, 1, 15];
    proof {
        assert(order@ =~= code_length_order());
        vstd::arithmetic::power2::lemma2_to64();
    }
    let mut len_cl: Vec<u8> = Vec::new();
    while len_cl.len() < 19
        invariant
            len_cl@.len() <= 19,
            forall|i: int| 0 <= i < len_cl@.len() ==> #[trigger] len_cl@[i] == 0,
        decreases 19 - len_cl@.len(),
    {
        len_cl.push(0);
    }
    proof {
        assert(len_cl@ =~= code_length_lengths(src@, (pos + 14) as int, 0));
    }
    let p = *sptr;
    let mut k: usize = 0;
    while k < hclen
        invariant
            k <= hclen,
            hclen <= 19,
            pos == *old(sptr),
            p == pos + 14,
            hlit == bits_value(src@, pos as int, 5) + 257,
            hdist == bits_value(src@, pos + 5, 5) + 1,
            hclen == bits_value(src@, pos + 10, 4) + 4,
            hlit <= 286,
            hdist <= 30,
            *sptr == p + 3 * k,
            *sptr <= 8 * src@.len(),
            8 * src@.len() + 64 <= usize::MAX,
            order@ == code_length_order(),
            len_cl@ == code_length_lengths(src@, p as int, k as nat),
            len_cl@.len() == 19,
            forall|i: int| 0 <= i < 19 ==> #[trigger] len_cl@[i] <= 7,
        decreases hclen - k,
    {
        let v = match read_bits(src, sptr, 3) {
            Ok(v) => v,
            Err(e) => {
                proof {
                    assert(p + 3 * hclen > 8 * src@.len());
                }
                return Err(e);
            },
        };
        proof {
            vstd::arithmetic::power2::lemma2_to64();
            assert(code_length_order()[k as int] < 19);
        }
        len_cl.set(order[k] as usize, v as u8);
        k = k + 1;
    }
    let ghost cl = len_cl@;
    let lut_cl = build_table(len_cl.as_slice())?;
    let total = hlit + hdist;
    let ghost p0 = *sptr as int;
    let mut bitlen: Vec<u8> = Vec::new();
    proof {
        assert(bitlen@ =~= Seq::<u8>::empty());
        assert(p0 == p + 3 * hclen);
        assert(cl == code_length_lengths(src@, p as int, hclen as nat));
    }
    while bitlen.len() < total
        invariant
            dynamic_header(src@, *old(sptr) as int) == match code_lengths(
                cl,
                src@,
                p0,
                total as nat,
                Seq::empty(),
            ) {
                Err(e) => Err::<(Seq<u8>, Seq<u8>, int), Error>(e),
                Ok((all, at2)) => {
                    let ll = all.take(hlit as int);
                    let d = all.skip(hlit as int);
                    if all[256] == 0 {
                        Err::<(Seq<u8>, Seq<u8>, int), Error>(Error::InvalidData)
                    } else if !tree_ok(ll) {
                        Err::<(Seq<u8>, Seq<u8>, int), Error>(tree_error(ll))
                    } else if !tree_ok(d) {
                        Err::<(Seq<u8>, Seq<u8>, int), Error>(tree_error(d))
                    } else {
                        Ok((ll, d, at2))
                    }
                },
            },
            table_sound(lut_cl@, cl),
            table_complete(lut_cl@, cl),
            lengths_ok(cl),
            cl.len() == 19,
            kraft_units(cl) <= 0x8000,
            total == hlit + hdist,
            total <= 316,
            bitlen@.len() <= total,
            forall|i: int| 0 <= i < bitlen@.len() ==> #[trigger] bitlen@[i] <= 15,
            *sptr <= 8 * src@.len(),
            *sptr >= p0,
            p0 >= *old(sptr),
            0 <= p0 <= 8 * src@.len(),
            8 * src@.len() + 64 <= usize::MAX,
            code_lengths(cl, src@, *sptr as int, total as nat, bitlen@) == code_lengths(
                cl,
                src@,
                p0,
                total as nat,
                Seq::empty(),
            ),
        decreases 8 * src@.len() - *sptr,
    {
        let pos1 = *sptr;
        let ghost acc = bitlen@;
        let sym = match read_symbol(src, sptr, &lut_cl, Ghost(cl)) {
            Ok(v) => v,
            Err(e) => {
                proof {
                    assert(code_lengths(cl, src@, pos1 as int, total as nat, acc) == Err::<(Seq<u8>, int), Error>(e)) by {
                        reveal(code_lengths);
                    }
                }
                return Err(e);
            },
        };
        if sym < 16 {
            bitlen.push(sym as u8);
        } else if sym == 16 {
            if bitlen.len() == 0 {
                proof {
                    assert(code_lengths(cl, src@, pos1 as int, total as nat, acc) == Err::<(Seq<u8>, int), Error>(Error::InvalidData)) by {
                        reveal(code_lengths);
                    }
                }
                return Err(Error::InvalidData);
            }
            let at1 = *sptr;
            let r = match read_bits(src, sptr, 2) {
                Ok(v) => 3 + v as usize,
                Err(e) => {
                    proof {
                        assert(code_lengths(cl, src@, pos1 as int, total as nat, acc) == Err::<(Seq<u8>, int), Error>(e)) by {
                            reveal(code_lengths);
                        }
                    }
                    return Err(e);
                },
            };
            if bitlen.len() + r > total {
                proof {
                    assert(code_lengths(cl, src@, pos1 as int, total as nat, acc) == Err::<(Seq<u8>, int), Error>(Error::InvalidData)) by {
                        reveal(code_lengths);
                    }
                }
                return Err(Error::InvalidData);
            }
            let v = bitlen[bitlen.len() - 1];
            let mut j: usize = 0;
            while j < r
                invariant
                    j <= r,
                    bitlen@ == acc + Seq::new(j as nat, |i: int| acc.last()),
                    acc.len() > 0,
                    v == acc.last(),
                    acc.len() + r <= total,
                    total <= 316,
                decreases r - j,
            {
                bitlen.push(v);
                j = j + 1;
                proof {
                    assert(bitlen@ =~= acc + Seq::new(j as nat, |i: int| acc.last()));
                }
            }
            proof {
                assert(take_bits(src@, at1 as int, 2) == Ok::<nat, Error>((r - 3) as nat));
            }
        } else if sym == 17 || sym == 18 {
            let at1 = *sptr;
            let nbits: u8 = if sym == 17 {
                3
            } else {
                7
            };
            let base: usize = if sym == 17 {
                3
            } else {
                11
            };
            let r = match read_bits(src, sptr, nbits) {
                Ok(v) => base + v as usize,
                Err(e) => {
                    proof {
                        assert(code_lengths(cl, src@, pos1 as int, total as nat, acc) == Err::<(Seq<u8>, int), Error>(e)) by {
                            reveal(code_lengths);
                        }
                    }
                    return Err(e);
                },
            };
            if bitlen.len() + r > total {
                proof {
                    assert(code_lengths(cl, src@, pos1 as int, total as nat, acc) == Err::<(Seq<u8>, int), Error>(Error::InvalidData)) by {
                        reveal(code_lengths);
                    }
                }
                return Err(Error::InvalidData);
            }
            let mut j: usize = 0;
            while j < r
                invariant
                    j <= r,
                    bitlen@ == acc + Seq::new(j as nat, |i: int| 0u8),
                    acc.len() + r <= total,
                    total <= 316,
                decreases r - j,
            {
                bitlen.push(0);
                j = j + 1;
                proof {
                    assert(bitlen@ =~= acc + Seq::new(j as nat, |i: int| 0u8));
                }
            }
            proof {
                assert(take_bits(src@, at1 as int, nbits as nat) == Ok::<nat, Error>((r - base) as nat));
            }
        } else {
            proof {
                assert(code_lengths(cl, src@, pos1 as int, total as nat, acc) == Err::<(Seq<u8>, int), Error>(Error::InvalidData)) by {
                    reveal(code_lengths);
                }
            }
            return Err(Error::InvalidData);
        }
        proof {
            assert(length_instruction(cl, src@, pos1 as int, total as nat, acc) == Ok::<(int, Seq<u8>), Error>(
                (*sptr as int, bitlen@),
            ));
            lemma_code_lengths_step(cl, src@, pos1 as int, total as nat, acc, *sptr as int, bitlen@);
            assert forall|i: int| 0 <= i < bitlen@.len() implies #[trigger] bitlen@[i] <= 15 by {
                if i >= acc.len() && sym == 16 {
                    assert(bitlen@[i] == acc.last());
                }
            }
        }
    }
    proof {
        lemma_code_lengths_done(cl, src@, *sptr as int, total as nat, bitlen@);
    }
    if bitlen[256] == 0 {
        return Err(Error::InvalidData);
    }
    let lit_part = &bitlen.as_slice()[0..hlit];
    let dist_part = &bitlen.as_slice()[hlit..total];
    proof {
        assert(lit_part@ =~= bitlen@.take(hlit as int));
        assert(dist_part@ =~= bitlen@.skip(hlit as int));
        assert(lengths_ok(lit_part@));
        assert(lengths_ok(dist_part@));
    }
    let lit = build_table(lit_part)?;
    let dist = build_table(dist_part)?;
    Ok(Trees { lit, dist, lit_lens: Ghost(lit_part@), dist_lens: Ghost(dist_part@) })
}

/// One block at `pos`, whose three header bits have been read: the position
/// after it and `out` with its output appended.
pub open spec fn block(src: Seq<u8>, pos: int, out: Seq<u8>, cap: nat) -> Result<(int, Seq<u8>), Error> {
    let kind = bits_value(src, pos + 1, 2);
    let p = pos + 3;
    if kind == 0 {
        stored_block(src, p, out, cap)
    } else if kind == 1 {
        huffman_block(fixed_literal_lengths(), fixed_distance_lengths(), src, p, out, cap)
    } else if kind == 2 {
        match dynamic_header(src, p) {
            Err(e) => Err(e),
            Ok((ll, d, at2)) => huffman_block(ll, d, src, at2, out, cap),
        }
    } else {
        Err(Error::InvalidBlockType)
    }
}

/// The blocks from `pos` on, up to and including the one marked final,
/// appended to `out`.
#[verifier::opaque]
pub open spec fn inflate_blocks(src: Seq<u8>, pos: int, out: Seq<u8>, cap: nat) -> Result<Seq<u8>, Error>
    decreases 8 * src.len() - pos,
{
    if !(0 <= pos && pos + 3 <= 8 * src.len()) {
        Err(Error::Underflow)
    } else {
        match block(src, pos, out, cap) {
            Err(e) => Err(e),
            Ok((at2, out2)) => {
                if at2 <= pos || at2 > 8 * src.len() {
                    Err(Error::InvalidData)
                } else if bits_value(src, pos, 1) == 1 {
                    Ok(out2)
                } else {
                    inflate_blocks(src, at2, out2, cap)
                }
            },
        }
    }
}

/// What the DEFLATE stream `src` decompresses to with `cap` bytes of room,
/// or the error that stops it.
pub open spec fn inflated(src: Seq<u8>, cap: nat) -> Result<Seq<u8>, Error> {
    inflate_blocks(src, 0, Seq::empty(), cap)
}

proof fn lemma_blocks_step(src: Seq<u8>, pos: int, out: Seq<u8>, cap: nat, at2: int, out2: Seq<u8>)
    requires
        0 <= pos,
        pos + 3 <= 8 * src.len(),
        block(src, pos, out, cap) == Ok::<(int, Seq<u8>), Error>((at2, out2)),
        pos < at2 <= 8 * src.len(),
    ensures
        inflate_blocks(src, pos, out, cap) == if bits_value(src, pos, 1) == 1 {
            Ok::<Seq<u8>, Error>(out2)
        } else {
            inflate_blocks(src, at2, out2, cap)
        },
{
    reveal(inflate_blocks);
}

/// Decompresses the DEFLATE stream `src` into `dst` and returns the number
/// of bytes written; bits after the final block are ignored. The result is
/// exactly what the stream decompresses to with `dst.len()` bytes of room,
/// or the error that stops it. Bytes of `dst` after the output are left as
/// they were.
#[verifier::rlimit(80)]
pub fn inflate(dst: &mut [u8], src: &[u8]) -> (r: Result<usize, Error>)
    requires
        8 * src@.len() + 64 <= usize::MAX,
    ensures
        final(dst)@.len() == old(dst)@.len(),
        r matches Ok(n) ==> n <= final(dst)@.len() && inflated(src@, old(dst)@.len()) == Ok::<
            Seq<u8>,
            Error,
        >(final(dst)@.take(n as int)),
        r matches Err(e) ==> inflated(src@, old(dst)@.len()) == Err::<Seq<u8>, Error>(e),
        r matches Ok(n) ==> forall|i: int|
            n <= i < old(dst)@.len() ==> #[trigger] final(dst)@[i] == old(dst)@[i],
{
    let ghost cap = dst@.len();
    let mut sptr: usize = 0;
    let mut dptr: usize = 0;
    proof {
        assert(dst@.take(0) =~= Seq::<u8>::empty());
    }
    loop
        invariant
            dst@.len() == cap,
            cap == old(dst)@.len(),
            dptr <= cap,
            sptr <= 8 * src@.len(),
            8 * src@.len() + 64 <= usize::MAX,
            inflate_blocks(src@, sptr as int, dst@.take(dptr as int), cap) == inflated(src@, cap),
            forall|i: int| dptr <= i < cap ==> #[trigger] dst@[i] == old(dst)@[i],
        decreases 8 * src@.len() - sptr,
    {
        let pos = sptr;
        let ghost out = dst@.take(dptr as int);
        let ghost before = dst@;
        let b_final = match read_bits(src, &mut sptr, 1) {
            Ok(v) => v,
            Err(e) => {
                proof {
                    assert(inflate_blocks(src@, pos as int, out, cap) == Err::<Seq<u8>, Error>(e)) by {
                        reveal(inflate_blocks);
                    }
                }
                return Err(e);
            },
        };
        let b_type = match read_bits(src, &mut sptr, 2) {
            Ok(v) => v,
            Err(e) => {
                proof {
                    assert(inflate_blocks(src@, pos as int, out, cap) == Err::<Seq<u8>, Error>(e)) by {
                        reveal(inflate_blocks);
                    }
                }
                return Err(e);
            },
        };
        proof {
            vstd::arithmetic::power2::lemma2_to64();
        }
        if b_type == 0 {
            match inflate_no_compression(dst, &mut dptr, src, &mut sptr) {
                Ok(()) => {},
                Err(e) => {
                    proof {
                        assert(inflate_blocks(src@, pos as int, out, cap) == Err::<Seq<u8>, Error>(e)) by {
                            reveal(inflate_blocks);
                        }
                    }
                    return Err(e);
                },
            }
        } else if b_type == 1 {
            let trees = match generate_fixed_luts() {
                Ok(t) => t,
                Err(e) => {
                    return Err(e);
                },
            };
            match inflate_huffman_block(
                dst,
                &mut dptr,
                src,
                &mut sptr,
                &trees.lit,
                &trees.dist,
                Ghost(trees.lit_lens@),
                Ghost(trees.dist_lens@),
            ) {
                Ok(()) => {},
                Err(e) => {
                    proof {
                        assert(inflate_blocks(src@, pos as int, out, cap) == Err::<Seq<u8>, Error>(e)) by {
                            reveal(inflate_blocks);
                        }
                    }
                    return Err(e);
                },
            }
        } else if b_type == 2 {
            let trees = match read_encoded_luts(src, &mut sptr) {
                Ok(t) => t,
                Err(e) => {
                    proof {
                        assert(inflate_blocks(src@, pos as int, out, cap) == Err::<Seq<u8>, Error>(e)) by {
                            reveal(inflate_blocks);
                        }
                    }
                    return Err(e);
                },
            };
            match inflate_huffman_block(
                dst,
                &mut dptr,
                src,
                &mut sptr,
                &trees.lit,
                &trees.dist,
                Ghost(trees.lit_lens@),
                Ghost(trees.dist_lens@),
            ) {
                Ok(()) => {},
                Err(e) => {
                    proof {
                        assert(inflate_blocks(src@, pos as int, out, cap) == Err::<Seq<u8>, Error>(e)) by {
                            reveal(inflate_blocks);
                        }
                    }
                    return Err(e);
                },
            }
        } else {
            proof {
                assert(inflate_blocks(src@, pos as int, out, cap) == Err::<Seq<u8>, Error>(Error::InvalidBlockType)) by {
                    reveal(inflate_blocks);
                }
            }
            return Err(Error::InvalidBlockType);
        }
        proof {
            assert(block(src@, pos as int, out, cap) == Ok::<(int, Seq<u8>), Error>(
                (sptr as int, dst@.take(dptr as int)),
            ));
            lemma_blocks_step(src@, pos as int, out, cap, sptr as int, dst@.take(dptr as int));
        }
        if b_final != 0 {
            return Ok(dptr);
        }
    }
}

} // verus!
