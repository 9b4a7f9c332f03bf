//! Canonical Huffman codes and the two-level lookup table that decodes them.
use vstd::prelude::*;

use crate::bits::{bit_at, holds_bits, msb_value, peek_padded};
use crate::Error;
use vstd::arithmetic::power2::pow2;

verus! {

/// Longest code length this decoder handles.
pub const MAX_CODE_LENGTH: usize = 15;

/// Number of symbols in `lens` whose code length is `l`.
pub open spec fn count_len(lens: Seq<u8>, l: nat) -> nat
    decreases lens.len(),
{
    if lens.len() == 0 {
        0
    } else {
        count_len(lens.drop_last(), l) + if lens.last() == l {
            1nat
        } else {
            0nat
        }
    }
}

/// The first canonical code of length `l` (codes read MSB-first).
pub open spec fn next_code(lens: Seq<u8>, l: nat) -> nat
    decreases l,
{
    if l <= 1 {
        0
    } else {
        2 * (next_code(lens, (l - 1) as nat) + count_len(lens, (l - 1) as nat))
    }
}

/// The canonical code of symbol `s`: codes of one length are handed out in
/// increasing symbol order, starting from `next_code` of that length.
pub open spec fn canonical_code(lens: Seq<u8>, s: int) -> nat {
    next_code(lens, lens[s] as nat) + count_len(lens.take(s), lens[s] as nat)
}

/// Kraft sum of the code lengths, in units of 2^-15: a symbol of length `l`
/// weighs 2^(15 - l); absent symbols weigh nothing.
pub open spec fn kraft_units(lens: Seq<u8>) -> nat
    decreases lens.len(),
{
    if lens.len() == 0 {
        0
    } else {
        kraft_units(lens.drop_last()) + if 0 < lens.last() <= 15 {
            pow2((15 - lens.last()) as nat)
        } else {
            0
        }
    }
}

/// Codes still free after all lengths up to `l` have been assigned.
pub open spec fn available(lens: Seq<u8>, l: nat) -> int
    decreases l,
{
    if l == 0 {
        1
    } else {
        2 * available(lens, (l - 1) as nat) - count_len(lens, l)
    }
}

pub open spec fn lengths_ok(lens: Seq<u8>) -> bool {
    forall|i: int| 0 <= i < lens.len() ==> #[trigger] lens[i] <= 15
}

/// Number of symbols present (with a nonzero code length).
pub open spec fn present_count(lens: Seq<u8>) -> nat
    decreases lens.len(),
{
    if lens.len() == 0 {
        0
    } else {
        present_count(lens.drop_last()) + if lens.last() > 0 {
            1nat
        } else {
            0nat
        }
    }
}

/// The two degenerate trees that are accepted although incomplete: no
/// symbol at all, or exactly one.
pub open spec fn is_trivial_tree(lens: Seq<u8>) -> bool {
    present_count(lens) <= 1
}

/// Present and absent symbols make up the whole vector.
proof fn lemma_present_count(lens: Seq<u8>)
    ensures
        present_count(lens) + count_len(lens, 0) == lens.len(),
    decreases lens.len(),
{
    if lens.len() > 0 {
        lemma_present_count(lens.drop_last());
    }
}

/// Each present symbol weighs at most one half in the Kraft sum.
pub proof fn lemma_kraft_present(lens: Seq<u8>)
    requires
        lengths_ok(lens),
    ensures
        kraft_units(lens) <= 0x4000 * present_count(lens),
    decreases lens.len(),
{
    if lens.len() > 0 {
        let init = lens.drop_last();
        assert(lengths_ok(init));
        lemma_kraft_present(init);
        let x = lens.last();
        vstd::arithmetic::power2::lemma2_to64();
        if 1 < x <= 15 {
            vstd::arithmetic::power2::lemma_pow2_strictly_increases((15 - x) as nat, 14);
        }
    }
}

/// `r`, read LSB-first over its low `n` bits, spells `c` read MSB-first.
pub open spec fn spells(r: u16, n: nat, c: nat) -> bool {
    &&& c < pow2(n)
    &&& forall|k: u16| k < n ==> #[trigger] ((r >> k) & 1) == ((c as u16) >> ((n - 1 - k) as u16)) & 1
}

/// `r` is the `n`-bit reversal of `x`.
pub open spec fn is_reversal(r: u16, x: u16, n: nat) -> bool {
    &&& r < pow2(n)
    &&& forall|k: u16| k < n ==> #[trigger] ((r >> k) & 1) == (x >> ((n - 1 - k) as u16)) & 1
}

/// Symbol `s` holds its canonical code, bit-reversed, in `codes[s]`.
pub open spec fn code_ok(lens: Seq<u8>, codes: Seq<u16>, s: int) -> bool {
    &&& canonical_code(lens, s) < pow2(lens[s] as nat)
    &&& is_reversal(codes[s], canonical_code(lens, s) as u16, lens[s] as nat)
}

/// Reverses the low `count` bits of `x`.
pub fn reverse_bits(x: u16, count: usize) -> (r: u16)
    requires
        1 <= count <= 15,
    ensures
        is_reversal(r, x, count as nat),
{
    let x1 = ((x & 0x5555) << 1) | ((x >> 1) & 0x5555);
    let x2 = ((x1 & 0x3333) << 2) | ((x1 >> 2) & 0x3333);
    let x3 = ((x2 & 0x0f0f) << 4) | ((x2 >> 4) & 0x0f0f);
    let x4 = ((x3 & 0x00ff) << 8) | ((x3 >> 8) & 0x00ff);
    let n = count as u16;
    let sh: u16 = 16 - n;
    let r = x4 >> sh;
    proof {
        assert(r < (1u16 << n)) by (bit_vector)
            requires
                1 <= n <= 15,
                sh == 16 - n,
                r == x4 >> sh,
        ;
        crate::bits::lemma_shl_pow2(n);
        assert forall|k: u16| k < n implies #[trigger] ((r >> k) & 1) == (x >> ((n - 1 - k) as u16))
            & 1 by {
            assert(((r >> k) & 1) == (x >> ((n - 1 - k) as u16)) & 1) by (bit_vector)
                requires
                    1 <= n <= 15,
                    k < n,
                    x1 == ((x & 0x5555) << 1) | ((x >> 1) & 0x5555),
                    x2 == ((x1 & 0x3333) << 2) | ((x1 >> 2) & 0x3333),
                    x3 == ((x2 & 0x0f0f) << 4) | ((x2 >> 4) & 0x0f0f),
                    x4 == ((x3 & 0x00ff) << 8) | ((x3 >> 8) & 0x00ff),
                    sh == 16 - n,
                r == x4 >> sh,
            ;
        }
    }
    r
}

proof fn lemma_bits_ext(a: u16, b: u16)
    requires
        forall|k: u16| k < 16 ==> #[trigger] ((a >> k) & 1) == (b >> k) & 1,
    ensures
        a == b,
{
    assert(((a >> 0u16) & 1) == (b >> 0u16) & 1);
    assert(((a >> 1u16) & 1) == (b >> 1u16) & 1);
    assert(((a >> 2u16) & 1) == (b >> 2u16) & 1);
    assert(((a >> 3u16) & 1) == (b >> 3u16) & 1);
    assert(((a >> 4u16) & 1) == (b >> 4u16) & 1);
    assert(((a >> 5u16) & 1) == (b >> 5u16) & 1);
    assert(((a >> 6u16) & 1) == (b >> 6u16) & 1);
    assert(((a >> 7u16) & 1) == (b >> 7u16) & 1);
    assert(((a >> 8u16) & 1) == (b >> 8u16) & 1);
    assert(((a >> 9u16) & 1) == (b >> 9u16) & 1);
    assert(((a >> 10u16) & 1) == (b >> 10u16) & 1);
    assert(((a >> 11u16) & 1) == (b >> 11u16) & 1);
    assert(((a >> 12u16) & 1) == (b >> 12u16) & 1);
    assert(((a >> 13u16) & 1) == (b >> 13u16) & 1);
    assert(((a >> 14u16) & 1) == (b >> 14u16) & 1);
    assert(((a >> 15u16) & 1) == (b >> 15u16) & 1);
    assert(a == b) by (bit_vector)
        requires
            ((a >> 0u16) & 1) == (b >> 0u16) & 1,
            ((a >> 1u16) & 1) == (b >> 1u16) & 1,
            ((a >> 2u16) & 1) == (b >> 2u16) & 1,
            ((a >> 3u16) & 1) == (b >> 3u16) & 1,
            ((a >> 4u16) & 1) == (b >> 4u16) & 1,
            ((a >> 5u16) & 1) == (b >> 5u16) & 1,
            ((a >> 6u16) & 1) == (b >> 6u16) & 1,
            ((a >> 7u16) & 1) == (b >> 7u16) & 1,
            ((a >> 8u16) & 1) == (b >> 8u16) & 1,
            ((a >> 9u16) & 1) == (b >> 9u16) & 1,
            ((a >> 10u16) & 1) == (b >> 10u16) & 1,
            ((a >> 11u16) & 1) == (b >> 11u16) & 1,
            ((a >> 12u16) & 1) == (b >> 12u16) & 1,
            ((a >> 13u16) & 1) == (b >> 13u16) & 1,
            ((a >> 14u16) & 1) == (b >> 14u16) & 1,
            ((a >> 15u16) & 1) == (b >> 15u16) & 1,
    ;
}

/// Reversing the low `n` bits twice gives back any `x < 2^n`: if `y` is the
/// reversal of `x` and `z` the reversal of `y`, then `z == x`.
pub proof fn lemma_reverse_involutive(x: u16, y: u16, z: u16, n: u16)
    requires
        0 < n <= 15,
        x < pow2(n as nat),
        is_reversal(y, x, n as nat),
        is_reversal(z, y, n as nat),
    ensures
        z == x,
{
    crate::bits::lemma_shl_pow2(n);
    assert forall|k: u16| k < 16 implies #[trigger] ((z >> k) & 1) == (x >> k) & 1 by {
        if k < n {
            let j = (n - 1 - k) as u16;
            assert(((z >> k) & 1) == (y >> j) & 1);
            assert(((y >> j) & 1) == (x >> ((n - 1 - j) as u16)) & 1);
        } else {
            assert(((z >> k) & 1) == 0 && ((x >> k) & 1) == 0) by (bit_vector)
                requires
                    n <= k,
                    k < 16,
                    z < (1u16 << n),
                    x < (1u16 << n),
            ;
        }
    }
    lemma_bits_ext(z, x);
}

proof fn lemma_count_push(lens: Seq<u8>, x: u8, l: nat)
    ensures
        count_len(lens.push(x), l) == count_len(lens, l) + if x == l {
            1nat
        } else {
            0nat
        },
{
    assert(lens.push(x).drop_last() =~= lens);
}

proof fn lemma_count_take_step(lens: Seq<u8>, i: int, l: nat)
    requires
        0 <= i < lens.len(),
    ensures
        count_len(lens.take(i + 1), l) == count_len(lens.take(i), l) + if lens[i] == l {
            1nat
        } else {
            0nat
        },
{
    assert(lens.take(i + 1) =~= lens.take(i).push(lens[i]));
    lemma_count_push(lens.take(i), lens[i], l);
}

proof fn lemma_count_take_mono(lens: Seq<u8>, i: int, j: int, l: nat)
    requires
        0 <= i <= j <= lens.len(),
    ensures
        count_len(lens.take(i), l) <= count_len(lens.take(j), l),
    decreases j - i,
{
    if i < j {
        lemma_count_take_step(lens, j - 1, l);
        lemma_count_take_mono(lens, i, j - 1, l);
    }
}

proof fn lemma_available_push(lens: Seq<u8>, x: u8, l: nat)
    ensures
        available(lens.push(x), l) == available(lens, l) - if 1 <= x <= l {
            pow2((l - x) as nat) as int
        } else {
            0
        },
    decreases l,
{
    lemma_count_push(lens, x, l);
    if l > 0 {
        lemma_available_push(lens, x, (l - 1) as nat);
        if 1 <= x <= l - 1 {
            vstd::arithmetic::power2::lemma_pow2_unfold((l - x) as nat);
        } else if x == l {
            vstd::arithmetic::power2::lemma_pow2(0);
            vstd::arithmetic::power2::lemma2_to64();
        }
    }
}

proof fn lemma_available_empty(l: nat)
    ensures
        available(Seq::<u8>::empty(), l) == pow2(l),
    decreases l,
{
    if l > 0 {
        lemma_available_empty((l - 1) as nat);
        vstd::arithmetic::power2::lemma_pow2_unfold(l);
    } else {
        vstd::arithmetic::power2::lemma2_to64();
    }
}

/// The subscription counter after all fifteen lengths is 2^15 minus the
/// Kraft sum in units of 2^-15.
pub proof fn lemma_available_kraft(lens: Seq<u8>)
    requires
        lengths_ok(lens),
    ensures
        available(lens, 15) == 0x8000 - kraft_units(lens),
    decreases lens.len(),
{
    if lens.len() == 0 {
        assert(lens =~= Seq::<u8>::empty());
        lemma_available_empty(15);
        vstd::arithmetic::power2::lemma2_to64();
    } else {
        let init = lens.drop_last();
        assert(lengths_ok(init));
        lemma_available_kraft(init);
        assert(init.push(lens.last()) =~= lens);
        lemma_available_push(init, lens.last(), 15);
    }
}

/// Codes of length `l` occupy `next_code .. next_code + count`; what is left
/// of the `2^l` patterns is `available`.
proof fn lemma_code_space(lens: Seq<u8>, l: nat)
    requires
        1 <= l,
    ensures
        next_code(lens, l) + count_len(lens, l) + available(lens, l) == pow2(l),
    decreases l,
{
    if l == 1 {
        vstd::arithmetic::power2::lemma2_to64();
        assert(available(lens, 0) == 1);
    } else {
        lemma_code_space(lens, (l - 1) as nat);
        vstd::arithmetic::power2::lemma_pow2_unfold(l);
    }
}

proof fn lemma_available_negative_stays(lens: Seq<u8>, l: nat, m: nat)
    requires
        l <= m,
        available(lens, l) < 0,
    ensures
        available(lens, m) < 0,
    decreases m - l,
{
    if l < m {
        lemma_available_negative_stays(lens, l, (m - 1) as nat);
    }
}

/// Number of symbols of each code length.
fn count_lengths(lengths: &[u8]) -> (counts: Vec<usize>)
    requires
        lengths_ok(lengths@),
    ensures
        counts@.len() == 16,
        forall|l: int| 0 <= l < 16 ==> #[trigger] counts@[l] == count_len(lengths@, l as nat),
{
    let ghost lens = lengths@;
    // histogram of the code lengths
    let mut counts: Vec<usize> = Vec::new();
    while counts.len() < 16
        invariant
            counts@.len() <= 16,
            forall|l: int| 0 <= l < counts@.len() ==> counts@[l] == 0,
        decreases 16 - counts@.len(),
    {
        counts.push(0);
    }
    let mut i: usize = 0;
    while i < lengths.len()
        invariant
            i <= lengths@.len(),
            lens == lengths@,
            lengths_ok(lens),
            counts@.len() == 16,
            forall|l: int| 0 <= l < 16 ==> #[trigger] counts@[l] == count_len(lens.take(i as int), l as nat),
            forall|l: int| 0 <= l < 16 ==> #[trigger] counts@[l] <= i,
        decreases lengths@.len() - i,
    {
        let len = lengths[i] as usize;
        proof {
            assert(lens[i as int] <= 15);
            assert forall|l: int| 0 <= l < 16 implies #[trigger] count_len(lens.take(i + 1), l as nat)
                == count_len(lens.take(i as int), l as nat) + if lens[i as int] == l {
                1nat
            } else {
                0nat
            } by {
                lemma_count_take_step(lens, i as int, l as nat);
            }
        }
        counts.set(len, counts[len] + 1);
        i = i + 1;
    }
    proof {
        assert(lens.take(lens.len() as int) =~= lens);
    }
    counts
}

/// Hands out the canonical codes, bit-reversed, in symbol order; absent
/// symbols keep their entry.
fn assign_codes(codes: &mut Vec<u16>, lengths: &[u8], counts: &Vec<usize>)
    requires
        old(codes)@.len() == lengths@.len(),
        lengths_ok(lengths@),
        counts@.len() == 16,
        forall|l: int| 0 <= l < 16 ==> #[trigger] counts@[l] == count_len(lengths@, l as nat),
        forall|k: nat| 1 <= k <= 15 ==> available(lengths@, k) >= 0,
    ensures
        final(codes)@.len() == old(codes)@.len(),
        forall|s: int|
            0 <= s < lengths@.len() && lengths@[s] > 0 ==> #[trigger] code_ok(lengths@, final(codes)@, s),
        forall|s: int|
            0 <= s < lengths@.len() && lengths@[s] == 0 ==> #[trigger] final(codes)@[s] == old(codes)@[s],
{
    let ghost lens = lengths@;
    // first code of each length
    let mut next: Vec<u16> = Vec::new();
    next.push(0);
    next.push(0);
    let mut l: usize = 2;
    while l <= MAX_CODE_LENGTH
        invariant
            2 <= l <= 16,
            next@.len() == l,
            lens == lengths@,
            counts@.len() == 16,
            forall|k: int| 0 <= k < 16 ==> #[trigger] counts@[k] == count_len(lens, k as nat),
            forall|k: nat| 1 <= k <= 15 ==> available(lens, k) >= 0,
            forall|k: int| 1 <= k < l ==> #[trigger] next@[k] == next_code(lens, k as nat),
        decreases 16 - l,
    {
        proof {
            lemma_code_space(lens, (l - 1) as nat);
            lemma_code_space(lens, l as nat);
            vstd::bits::lemma_u16_pow2_no_overflow(l as nat);
        }
        let v = 2 * (next[l - 1] as usize + counts[l - 1]);
        next.push(v as u16);
        l = l + 1;
    }
    // hand out the codes in symbol order
    let ghost old_codes = codes@;
    let mut i: usize = 0;
    while i < lengths.len()
        invariant
            i <= lengths@.len(),
            lens == lengths@,
            lengths_ok(lens),
            codes@.len() == lens.len(),
            old_codes.len() == lens.len(),
            next@.len() == 16,
            forall|k: nat| 1 <= k <= 15 ==> available(lens, k) >= 0,
            forall|k: int|
                1 <= k <= 15 ==> #[trigger] next@[k] == next_code(lens, k as nat) + count_len(
                    lens.take(i as int),
                    k as nat,
                ),
            forall|s: int| 0 <= s < i && lens[s] > 0 ==> #[trigger] code_ok(lens, codes@, s),
            forall|s: int|
                0 <= s < lens.len() && (i <= s || lens[s] == 0) ==> #[trigger] codes@[s]
                    == old_codes[s],
        decreases lengths@.len() - i,
    {
        let len = lengths[i] as usize;
        proof {
            assert(lens[i as int] <= 15);
            assert forall|k: int| 1 <= k <= 15 implies #[trigger] count_len(lens.take(i + 1), k as nat)
                == count_len(lens.take(i as int), k as nat) + if lens[i as int] == k {
                1nat
            } else {
                0nat
            } by {
                lemma_count_take_step(lens, i as int, k as nat);
            }
        }
        if len != 0 {
            proof {
                lemma_code_space(lens, len as nat);
                lemma_count_take_mono(lens, i + 1, lens.len() as int, len as nat);
                assert(lens.take(lens.len() as int) =~= lens);
                vstd::bits::lemma_u16_pow2_no_overflow(len as nat);
            }
            let c = next[len];
            proof {
                assert(next@[len as int] == next_code(lens, len as nat) + count_len(
                    lens.take(i as int),
                    len as nat,
                ));
                assert(c as nat == canonical_code(lens, i as int));
                assert(canonical_code(lens, i as int) < pow2(len as nat));
            }
            let rc = reverse_bits(c, len);
            let ghost prev = codes@;
            codes.set(i, rc);
            next.set(len, c + 1);
            proof {
                assert forall|s: int| 0 <= s < i + 1 && lens[s] > 0 implies #[trigger] code_ok(
                    lens,
                    codes@,
                    s,
                ) by {
                    if s < i {
                        assert(code_ok(lens, prev, s));
                        assert(codes@[s] == prev[s]);
                    }
                }
            }
        }
        i = i + 1;
    }
}

/// Checks the subscription of the code lengths and, for a complete tree,
/// assigns each present symbol its canonical code, bit-reversed so that it
/// can be compared with the LSB-first stream. Returns `Ok(true)` for a
/// complete tree and `Ok(false)`, with `codes` untouched, for the two
/// accepted incomplete ones.
pub fn generate_codes(codes: &mut Vec<u16>, lengths: &[u8]) -> (r: Result<bool, Error>)
    requires
        old(codes)@.len() == lengths@.len(),
        lengths_ok(lengths@),
    ensures
        (r == Err::<bool, Error>(Error::OverSubscribedTree)) <==> kraft_units(lengths@) > 0x8000,
        (r == Err::<bool, Error>(Error::UnderSubscribedTree)) <==> (kraft_units(lengths@) < 0x8000
            && !is_trivial_tree(lengths@)),
        (r == Ok::<bool, Error>(true)) <==> kraft_units(lengths@) == 0x8000,
        (r == Ok::<bool, Error>(false)) <==> is_trivial_tree(lengths@),
        final(codes)@.len() == old(codes)@.len(),
        r is Err ==> final(codes)@ == old(codes)@,
        r == Ok::<bool, Error>(false) ==> final(codes)@ == old(codes)@,
        r == Ok::<bool, Error>(true) ==> forall|s: int|
            0 <= s < lengths@.len() && lengths@[s] > 0 ==> #[trigger] code_ok(
                lengths@,
                final(codes)@,
                s,
            ),
        r is Ok ==> forall|s: int|
            0 <= s < lengths@.len() && lengths@[s] == 0 ==> #[trigger] final(codes)@[s] == old(
                codes,
            )@[s],
{
    let ghost lens = lengths@;
    proof {
        lemma_available_kraft(lens);
    }
    let counts = count_lengths(lengths);
    // subscription check
    let mut avail: usize = 1;
    let mut l: usize = 1;
    proof {
        vstd::arithmetic::power2::lemma2_to64();
    }
    while l <= MAX_CODE_LENGTH
        invariant
            1 <= l <= 16,
            lens == lengths@,
            counts@.len() == 16,
            forall|k: int| 0 <= k < 16 ==> #[trigger] counts@[k] == count_len(lens, k as nat),
            avail == available(lens, (l - 1) as nat),
            avail <= pow2((l - 1) as nat),
            kraft_units(lens) == 0x8000 - available(lens, 15),
            lengths_ok(lens),
        decreases 16 - l,
    {
        proof {
            vstd::arithmetic::power2::lemma_pow2_unfold(l as nat);
            vstd::bits::lemma_u16_pow2_no_overflow(l as nat);
        }
        if counts[l] > 2 * avail {
            proof {
                lemma_available_negative_stays(lens, l as nat, 15);
                lemma_kraft_present(lens);
            }
            return Err(Error::OverSubscribedTree);
        }
        avail = 2 * avail - counts[l];
        l = l + 1;
    }
    proof {
        lemma_present_count(lens);
        lemma_kraft_present(lens);
    }
    let n = lengths.len();
    if avail != 0 && n >= 2 && counts[0] <= n - 2 {
        return Err(Error::UnderSubscribedTree);
    }
    let proper = avail == 0;
    proof {
        assert forall|k: nat| 1 <= k <= 15 implies available(lens, k) >= 0 by {
            if available(lens, k) < 0 {
                lemma_available_negative_stays(lens, k, 15);
            }
        }
    }
    if proper {
        assign_codes(codes, lengths, &counts);
    }
    Ok(proper)
}

/// The canonical code of symbol `s` starts at `pos`, bits past the end of
/// the input read as zero.
pub open spec fn code_at(lens: Seq<u8>, src: Seq<u8>, pos: int, s: int) -> bool {
    &&& 0 <= s < lens.len()
    &&& lens[s] > 0
    &&& msb_value(src, pos, lens[s] as nat) == canonical_code(lens, s)
}

/// What decoding one symbol of the tree `lens` at `pos` gives: the symbol
/// whose code is there and the position after it; `Underflow` when that code
/// runs past the end of the input; `InvalidSymbol` when no code is there.
pub open spec fn decode(lens: Seq<u8>, src: Seq<u8>, pos: int) -> Result<(int, int), Error> {
    if exists|s: int| code_at(lens, src, pos, s) {
        let s = choose|s: int| code_at(lens, src, pos, s);
        if pos + lens[s] <= 8 * src.len() {
            Ok((s, pos + lens[s]))
        } else {
            Err(Error::Underflow)
        }
    } else {
        Err(Error::InvalidSymbol)
    }
}

/// If the low `n` bits of `w` are the stream bits at `pos` and they spell
/// `c`, the stream reads `c` there.
pub proof fn lemma_msb_from_spells(src: Seq<u8>, pos: int, w: u16, n: nat, c: nat)
    requires
        n <= 15,
        holds_bits(w, src, pos, n),
        spells(w, n, c),
    ensures
        msb_value(src, pos, n) == c,
    decreases n,
{
    vstd::arithmetic::power2::lemma2_to64();
    if n > 0 {
        vstd::arithmetic::power2::lemma_pow2_unfold(n);
        if n < 15 {
            vstd::arithmetic::power2::lemma_pow2_strictly_increases(n, 15);
        }
        let cu = c as u16;
        let h = c / 2;
        let hu = h as u16;
        assert(hu == cu / 2);
        assert forall|k: u16| k < (n - 1) as nat implies #[trigger] ((w >> k) & 1) == ((h as u16) >> (
        (n - 2 - k) as u16)) & 1 by {
            let j = (n - 2 - k) as u16;
            assert(((w >> k) & 1) == (cu >> ((n - 1 - k) as u16)) & 1);
            assert((cu >> ((j + 1) as u16)) & 1 == (hu >> j) & 1) by (bit_vector)
                requires
                    hu == cu / 2,
                    j < 15,
            ;
        }
        assert(holds_bits(w, src, pos, (n - 1) as nat));
        lemma_msb_from_spells(src, pos, w, (n - 1) as nat, h);
        let top = (n - 1) as u16;
        assert(((w >> top) & 1) == (cu >> 0u16) & 1);
        assert(bit_at(src, pos + top) == (w >> top) & 1);
        assert((cu >> 0u16) & 1 == cu % 2) by (bit_vector);
    }
}

/// Two numbers below `2^n` that agree modulo `2^n` agree bit by bit there.
proof fn lemma_low_bits_agree(q: u16, c: u16, n: u16)
    requires
        n <= 15,
        q as nat % pow2(n as nat) == c as nat,
    ensures
        forall|k: u16| k < n ==> #[trigger] ((q >> k) & 1) == (c >> k) & 1,
{
    crate::bits::lemma_shl_pow2(n);
    let m = 1u16 << n;
    assert(q % m == c);
    assert forall|k: u16| k < n implies #[trigger] ((q >> k) & 1) == (c >> k) & 1 by {
        assert(((q >> k) & 1) == (c >> k) & 1) by (bit_vector)
            requires
                n <= 15,
                m == 1u16 << n,
                q % m == c,
                k < n,
        ;
    }
}

/// A stream position whose low `n` bits equal the reversed code of a symbol
/// spells that symbol's canonical code.
proof fn lemma_spells_from_code(q: u16, rc: u16, c: u16, n: u16)
    requires
        1 <= n <= 15,
        (c as nat) < pow2(n as nat),
        is_reversal(rc, c, n as nat),
        q as nat % pow2(n as nat) == rc as nat,
    ensures
        spells(q, n as nat, c as nat),
{
    lemma_low_bits_agree(q, rc, n);
    assert forall|k: u16| k < n implies #[trigger] ((q >> k) & 1) == (((c as nat) as u16) >> ((n - 1
        - k) as u16)) & 1 by {
        assert(((q >> k) & 1) == (rc >> k) & 1);
    }
}

/// One entry of a lookup table: a symbol and its code length, or, in the
/// first level, the start and depth of a second-level table.
#[derive(Clone, Copy)]
pub struct VarLenCode {
    pub code: u16,
    pub len: u8,
}

/// Bits that index the first level of a lookup table.
pub const TABLE_BITS: u8 = 9;

/// Entries of the first level.
pub const TABLE_SIZE: usize = 512;

/// Second-level entries needed by the first `p` first-level indices, given
/// the deepest code under each.
pub open spec fn pool_upto(maxlens: Seq<u8>, p: int) -> nat
    decreases p,
{
    if p <= 0 {
        0
    } else {
        pool_upto(maxlens, p - 1) + if maxlens[p - 1] > 9 {
            pow2((maxlens[p - 1] - 9) as nat)
        } else {
            0
        }
    }
}

/// The depth of the second-level table behind each first-level entry, zero
/// where there is none.
pub open spec fn link_depths(t: Seq<VarLenCode>) -> Seq<u8> {
    Seq::new(512, |j: int| if 10 <= t[j].len <= 15 { t[j].len } else { 0u8 })
}

proof fn lemma_pool_upto_bounds(maxlens: Seq<u8>, p: int, q: int)
    requires
        0 <= p <= q <= maxlens.len(),
        forall|j: int| 0 <= j < maxlens.len() ==> #[trigger] maxlens[j] <= 15,
    ensures
        pool_upto(maxlens, p) <= pool_upto(maxlens, q),
        pool_upto(maxlens, q) <= 64 * q,
    decreases q,
{
    if q > 0 {
        if p < q {
            lemma_pool_upto_bounds(maxlens, p, q - 1);
        } else {
            lemma_pool_upto_bounds(maxlens, p - 1, q - 1);
        }
        if maxlens[q - 1] > 9 {
            vstd::arithmetic::power2::lemma2_to64();
            if maxlens[q - 1] < 15 {
                vstd::arithmetic::power2::lemma_pow2_strictly_increases((maxlens[q - 1] - 9) as nat, 6);
            }
        }
    }
}

/// Length that marks an entry that no code reaches.
pub const INVALID_LEN: u8 = 16;

/// Second-level entry `r` under first-level index `j` (whose entry is `e`)
/// names a symbol whose code agrees with the bits that lead there.
pub open spec fn secondary_ok(t: Seq<VarLenCode>, lens: Seq<u8>, j: int, e: VarLenCode, r: int) -> bool {
    let f = t[e.code + r];
    10 <= f.len <= 15 ==> {
        &&& f.len <= e.len
        &&& f.code < lens.len()
        &&& lens[f.code as int] == f.len
        &&& spells((j + r * 512) as u16, f.len as nat, canonical_code(lens, f.code as int))
    }
}

/// First-level entry `j`: a terminal entry names a symbol whose code agrees
/// with the low bits of `j`; a link names a second-level table inside the pool
/// whose entries are all sound.
pub open spec fn primary_ok(t: Seq<VarLenCode>, lens: Seq<u8>, j: int) -> bool {
    let e = t[j];
    &&& 1 <= e.len <= 9 ==> {
        &&& e.code < lens.len()
        &&& lens[e.code as int] == e.len
        &&& spells(j as u16, e.len as nat, canonical_code(lens, e.code as int))
    }
    &&& 10 <= e.len <= 15 ==> {
        &&& 512 <= e.code
        &&& e.code + pow2((e.len - 9) as nat) <= t.len()
        &&& forall|r: int| 0 <= r < pow2((e.len - 9) as nat) ==> #[trigger] secondary_ok(t, lens, j, e, r)
    }
}

/// Every entry that a lookup can reach decodes a symbol correctly.
#[verifier::opaque]
pub open spec fn table_sound(t: Seq<VarLenCode>, lens: Seq<u8>) -> bool {
    &&& TABLE_SIZE <= t.len()
    &&& forall|j: int| 0 <= j < 512 ==> #[trigger] primary_ok(t, lens, j)
}

/// The low nine bits of `j` are the leading bits of the code of `s`.
pub open spec fn leads(lens: Seq<u8>, j: u16, s: int) -> bool {
    &&& 0 <= s < lens.len()
    &&& 9 < lens[s] <= 15
    &&& forall|k: u16|
        k < 9 ==> #[trigger] ((j >> k) & 1) == ((canonical_code(lens, s) as u16) >> ((lens[s] - 1 - k) as u16))
            & 1
}

/// Where the second-level entry for the word `w` lies.
pub open spec fn second_slot(t: Seq<VarLenCode>, w: u16) -> int {
    let e = t[(w % 512) as int];
    e.code + (w / 512) as int % (pow2((e.len - 9) as nat) as int)
}

/// Every code of the tree leads to its symbol: short codes fill the first
/// level, long ones a second-level table behind a link deep enough for them.
#[verifier::opaque]
pub open spec fn table_complete(t: Seq<VarLenCode>, lens: Seq<u8>) -> bool {
    &&& forall|j: u16, s: int|
        j < 512 && #[trigger] index_matches(lens, j, s) && lens[s] <= 9 ==> t[j as int] == VarLenCode {
            code: s as u16,
            len: lens[s],
        }
    &&& forall|j: u16, s: int|
        j < 512 && #[trigger] leads(lens, j, s) ==> 10 <= t[j as int].len <= 15 && lens[s] <= t[j as int].len
    &&& forall|w: u16, s: int|
        #[trigger] index_matches(lens, w, s) && lens[s] > 9 ==> t[second_slot(t, w)] == VarLenCode {
            code: s as u16,
            len: lens[s],
        }
}

/// Decodes one symbol at `*sptr` and advances past its code.
pub fn read_symbol(src: &[u8], sptr: &mut usize, lookup_table: &Vec<VarLenCode>, Ghost(lens): Ghost<Seq<u8>>) -> (r: Result<u16, Error>)
    requires
        table_sound(lookup_table@, lens),
        table_complete(lookup_table@, lens),
        lengths_ok(lens),
        lens.len() <= 0x10000,
        kraft_units(lens) <= 0x8000,
        *old(sptr) + 32 <= usize::MAX,
    ensures
        r matches Ok(v) ==> decode(lens, src@, *old(sptr) as int) == Ok::<(int, int), Error>(
            (v as int, *final(sptr) as int),
        ),
        r matches Err(e) ==> decode(lens, src@, *old(sptr) as int) == Err::<(int, int), Error>(e)
            && *final(sptr) == *old(sptr),
        decode(lens, src@, *old(sptr) as int) is Ok ==> r is Ok,
{
    proof {
        reveal(table_sound);
        reveal(table_complete);
    }
    let pos = *sptr;
    let ghost found = exists|s: int| code_at(lens, src@, pos as int, s);
    let ghost s0 = choose|s: int| code_at(lens, src@, pos as int, s);
    proof {
        if found {
            lemma_bits_of_msb(src@, pos as int, lens[s0] as nat, canonical_code(lens, s0));
        }
    }
    let idx = peek_padded(pos, src, TABLE_BITS);
    proof {
        vstd::arithmetic::power2::lemma2_to64();
    }
    let e = lookup_table[idx as usize];
    proof {
        assert(primary_ok(lookup_table@, lens, idx as int));
        if found {
            let l = lens[s0];
            assert(lens[s0] <= 15);
            if l <= 9 {
                assert(index_matches(lens, idx, s0));
            } else {
                assert forall|k: u16| k < 9 implies #[trigger] ((idx >> k) & 1) == ((canonical_code(lens, s0) as u16) >> ((lens[s0] - 1 - k) as u16)) & 1 by {
                    assert(bit_at(src@, pos + k) == ((canonical_code(lens, s0) as u16) >> ((lens[s0] - 1 - k) as u16)) & 1);
                }
                assert(leads(lens, idx, s0));
            }
        }
    }
    if 1 <= e.len && e.len <= TABLE_BITS {
        proof {
            assert(holds_bits(idx, src@, pos as int, e.len as nat));
            lemma_msb_from_spells(src@, pos as int, idx, e.len as nat, canonical_code(lens, e.code as int));
            assert(code_at(lens, src@, pos as int, e.code as int));
            lemma_symbol_unique(lens, src@, pos as int, e.code as int, s0);
        }
        if src.len() < (pos + e.len as usize + 7) / 8 {
            return Err(Error::Underflow);
        }
        *sptr = pos + e.len as usize;
        Ok(e.code)
    } else if 10 <= e.len && e.len <= 15 {
        let pos2: usize = pos + 9;
        let count: u8 = e.len - TABLE_BITS;
        let idx2 = peek_padded(pos2, src, count);
        let ghost w: u16 = (idx + idx2 * 512) as u16;
        proof {
            vstd::arithmetic::power2::lemma2_to64();
            if count < 6 {
                vstd::arithmetic::power2::lemma_pow2_strictly_increases(count as nat, 6);
            }
            assert(secondary_ok(lookup_table@, lens, idx as int, e, idx2 as int));
            let el = e.len as u16;
            assert(idx < 512);
            assert(idx2 < 64);
            assert forall|k: u16| k < el implies #[trigger] ((w >> k) & 1) == bit_at(src@, pos + k) by {
                if k < 9 {
                    assert(((w >> k) & 1) == (idx >> k) & 1) by (bit_vector)
                        requires
                            w == idx + idx2 * 512,
                            idx < 512,
                            idx2 < 64,
                            k < 9,
                    ;
                } else {
                    let k2 = (k - 9) as u16;
                    assert(((w >> k) & 1) == (idx2 >> k2) & 1) by (bit_vector)
                        requires
                            w == idx + idx2 * 512,
                            idx < 512,
                            idx2 < 64,
                            9 <= k < 16,
                            k2 == k - 9,
                    ;
                    assert(((idx2 >> k2) & 1) == bit_at(src@, pos2 + k2));
                }
            }
            assert(holds_bits(w, src@, pos as int, e.len as nat));
            if found {
                assert(index_matches(lens, w, s0));
                assert(w % 512 == idx && w / 512 == idx2) by (bit_vector)
                    requires
                        w == idx + idx2 * 512,
                        idx < 512,
                        idx2 < 64,
                ;
                vstd::arithmetic::div_mod::lemma_small_mod(idx2 as nat, pow2(count as nat));
                assert(second_slot(lookup_table@, w) == e.code + idx2);
            }
        }
        let f = lookup_table[e.code as usize + idx2 as usize];
        if f.len < 10 || f.len > 15 {
            return Err(Error::InvalidSymbol);
        }
        proof {
            assert(holds_bits(w, src@, pos as int, f.len as nat));
            lemma_msb_from_spells(src@, pos as int, w, f.len as nat, canonical_code(lens, f.code as int));
            assert(code_at(lens, src@, pos as int, f.code as int));
            lemma_symbol_unique(lens, src@, pos as int, f.code as int, s0);
        }
        if src.len() < (pos + f.len as usize + 7) / 8 {
            return Err(Error::Underflow);
        }
        *sptr = pos + f.len as usize;
        Ok(f.code)
    } else {
        Err(Error::InvalidSymbol)
    }
}

/// Writes `entry` at every `2^step`-th entry from `base + offset`, `num`
/// times.
fn fill_table(table: &mut Vec<VarLenCode>, base: usize, num: usize, offset: usize, step: u8, entry: VarLenCode)
    requires
        old(table)@.len() <= usize::MAX,
        1 <= step <= 15,
        offset < pow2(step as nat),
        base + num * pow2(step as nat) <= old(table)@.len(),
    ensures
        final(table)@.len() == old(table)@.len(),
        forall|q: int|
            0 <= q < old(table)@.len() ==> #[trigger] final(table)@[q] == if base <= q < base + num * pow2(
                step as nat,
            ) && (q - base) % (pow2(step as nat) as int) == offset {
                entry
            } else {
                old(table)@[q]
            },
{
    let ghost t0 = table@;
    let ghost stride = pow2(step as nat) as int;
    proof {
        vstd::bits::lemma_u16_pow2_no_overflow(step as nat);
        crate::bits::lemma_shl_pow2(step as u16);
    }
    let step_exec: usize = (1u16 << step as u16) as usize;
    let mut m: usize = 0;
    while m < num
        invariant
            table@.len() == t0.len(),
            t0.len() <= usize::MAX,
            stride == pow2(step as nat) as int,
            step_exec == stride,
            stride > 0,
            offset < stride,
            m <= num,
            base + num * stride <= t0.len(),
            forall|q: int|
                0 <= q < t0.len() ==> #[trigger] table@[q] == if base <= q < base + m * stride && (q
                    - base) % stride == offset {
                    entry
                } else {
                    t0[q]
                },
        decreases num - m,
    {
        proof {
            assert(m * stride + stride <= num * stride) by (nonlinear_arith)
                requires
                    m < num,
                    stride > 0,
            ;
        }
        let pos = base + m * step_exec + offset;
        let ghost prev = table@;
        table.set(pos, entry);
        proof {
            assert forall|q: int| 0 <= q < t0.len() implies #[trigger] table@[q] == if base <= q < base
                + (m + 1) * stride && (q - base) % stride == offset {
                entry
            } else {
                t0[q]
            } by {
                assert((m + 1) * stride == m * stride + stride) by (nonlinear_arith);
                if base + m * stride <= q < base + (m + 1) * stride {
                    let d = q - base - m * stride;
                    vstd::arithmetic::div_mod::lemma_fundamental_div_mod_converse(
                        q - base,
                        stride,
                        m as int,
                        d,
                    );
                    assert(q - base == m * stride + d);
                } else if q < base + m * stride {
                    assert(base + m * stride <= base + (m + 1) * stride) by (nonlinear_arith)
                        requires
                            stride > 0,
                    ;
                } else {
                    assert(base + m * stride + stride == base + (m + 1) * stride) by (nonlinear_arith);
                }
            }
        }
        m = m + 1;
    }
}

/// The bits that lead to second-level entry `r` under first-level index
/// `c & 511` agree with `c` in its low `l` bits.
proof fn lemma_secondary_index(c: u16, l: u16, r: u16, w: u16)
    requires
        w as int == (c & 511) as int + r as int * 512,
        10 <= l <= 15,
        (c as nat) < pow2(l as nat),
        r < 64,
        r as nat % pow2((l - 9) as nat) == (c >> 9u16) as nat,
    ensures
        w as nat % pow2(l as nat) == c as nat,
{
    crate::bits::lemma_shl_pow2(l);
    crate::bits::lemma_shl_pow2((l - 9) as u16);
    let ml = 1u16 << l;
    let ms = 1u16 << ((l - 9) as u16);
    assert(w % ml == c) by (bit_vector)
        requires
            10 <= l <= 15,
            c < ml,
            ml == 1u16 << l,
            ms == 1u16 << ((l - 9) as u16),
            r < 64,
            r % ms == c >> 9u16,
            w == (c & 511) + r * 512,
    ;
}

/// A word whose low bits hold the reversed code of `s` spells its code.
proof fn lemma_matches_from_code(lens: Seq<u8>, codes: Seq<u16>, s: int, w: u16)
    requires
        0 <= s < lens.len(),
        0 < lens[s] <= 15,
        code_ok(lens, codes, s),
        w as nat % pow2(lens[s] as nat) == codes[s] as nat,
    ensures
        index_matches(lens, w, s),
{
    let c = canonical_code(lens, s);
    vstd::arithmetic::power2::lemma2_to64();
    vstd::arithmetic::power2::lemma_pow2_strictly_increases(lens[s] as nat, 16);
    assert((c as u16) as nat == c);
    lemma_spells_from_code(w, codes[s], c as u16, lens[s] as u16);
}

/// A word that spells the code of `s` holds its reversed code in its low
/// bits.
proof fn lemma_code_from_matches(lens: Seq<u8>, codes: Seq<u16>, s: int, w: u16)
    requires
        index_matches(lens, w, s),
        code_ok(lens, codes, s),
    ensures
        w as nat % pow2(lens[s] as nat) == codes[s] as nat,
        codes[s] as nat % 512 == (codes[s] & 511) as nat,
{
    lemma_code_from_spells(w, codes[s], canonical_code(lens, s), lens[s] as u16);
    let c = codes[s];
    assert(c % 512 == c & 511) by (bit_vector);
}

/// Where a word that holds the reversed code `rc` of length `l` leads: to
/// first-level index `rc & 511`, and to a second-level slot that agrees with
/// `rc >> 9`.
proof fn lemma_slot_bits(w: u16, rc: u16, l: u16, e: u16)
    requires
        10 <= l <= e <= 15,
        w as nat % pow2(l as nat) == rc as nat,
    ensures
        w as nat % 512 == (rc & 511) as nat,
        (w as nat / 512) % pow2((e - 9) as nat) % pow2((l - 9) as nat) == (rc >> 9u16) as nat,
{
    crate::bits::lemma_shl_pow2(l);
    crate::bits::lemma_shl_pow2((e - 9) as u16);
    crate::bits::lemma_shl_pow2((l - 9) as u16);
    let ml = 1u16 << l;
    let me = 1u16 << ((e - 9) as u16);
    let ms = 1u16 << ((l - 9) as u16);
    assert(w % 512 == rc & 511 && ((w / 512) % me) % ms == rc >> 9u16) by (bit_vector)
        requires
            10 <= l <= e <= 15,
            ml == 1u16 << l,
            me == 1u16 << ((e - 9) as u16),
            ms == 1u16 << ((l - 9) as u16),
            w % ml == rc,
    ;
}

/// The first-level index of `w` and its second-level index in a table of
/// depth `e` give back the low `e` bits of `w`.
proof fn lemma_slot_word(w: u16, e: u16, r: u16, w2: u16)
    requires
        10 <= e <= 15,
        r as nat == (w as nat / 512) % pow2((e - 9) as nat),
        w2 as int == (w % 512) as int + r as int * 512,
    ensures
        forall|k: u16| k < e ==> #[trigger] ((w2 >> k) & 1) == (w >> k) & 1,
{
    crate::bits::lemma_shl_pow2((e - 9) as u16);
    let me = 1u16 << ((e - 9) as u16);
    assert(r == (w / 512) % me);
    assert forall|k: u16| k < e implies #[trigger] ((w2 >> k) & 1) == (w >> k) & 1 by {
        assert(((w2 >> k) & 1) == (w >> k) & 1) by (bit_vector)
            requires
                10 <= e <= 15,
                me == 1u16 << ((e - 9) as u16),
                r == (w / 512) % me,
                w2 == (w % 512) + r * 512,
                k < e,
        ;
    }
}

/// When index `j` needs a second-level table, its entry links to one of the
/// right depth that lies in the pool below `bound`.
pub open spec fn link_fits(t: Seq<VarLenCode>, maxlens: Seq<u8>, j: int, bound: int) -> bool {
    maxlens[j] > 9 ==> {
        &&& t[j].len == maxlens[j]
        &&& 512 <= t[j].code
        &&& t[j].code + pow2((maxlens[j] - 9) as nat) <= bound
    }
}

/// Builds the two-level lookup table for the code lengths `lengths`: the
/// first level and, behind it, as many second-level entries as the long
/// codes need. Fails exactly as `generate_codes` does.
pub fn make_lookup_table(lengths: &[u8]) -> (r: Result<Vec<VarLenCode>, Error>)
    requires
        lengths_ok(lengths@),
        lengths@.len() <= 0x10000,
    ensures
        r matches Ok(t) ==> table_sound(t@, lengths@) && table_complete(t@, lengths@),
        r matches Ok(t) ==> t@.len() == TABLE_SIZE + pool_upto(link_depths(t@), 512),
        r matches Ok(t) ==> forall|j: u16|
            j < 512 && 10 <= #[trigger] t@[j as int].len <= 15 ==> exists|s: int|
                leads(lengths@, j, s) && lengths@[s] == t@[j as int].len,
        (r == Err::<Vec<VarLenCode>, Error>(Error::OverSubscribedTree)) <==> kraft_units(lengths@)
            > 0x8000,
        (r == Err::<Vec<VarLenCode>, Error>(Error::UnderSubscribedTree)) <==> (kraft_units(lengths@)
            < 0x8000 && !is_trivial_tree(lengths@)),
        r is Err ==> r == Err::<Vec<VarLenCode>, Error>(Error::OverSubscribedTree) || r == Err::<
            Vec<VarLenCode>,
            Error,
        >(Error::UnderSubscribedTree),
{
    let ghost lens = lengths@;
    let n = lengths.len();
    let mut codes: Vec<u16> = Vec::new();
    while codes.len() < n
        invariant
            codes@.len() <= n,
        decreases n - codes@.len(),
    {
        codes.push(0);
    }
    let generated = generate_codes(&mut codes, lengths);
    let proper = match generated {
        Ok(b) => b,
        Err(e) => {
            return Err(e);
        },
    };
    proof {
        vstd::arithmetic::power2::lemma2_to64();
        assert(generated != Err::<bool, Error>(Error::OverSubscribedTree));
        assert(kraft_units(lens) <= 0x8000);
    }
    if !proper {
        // an incomplete tree gets its codes too, so that its symbols decode
        let counts = count_lengths(lengths);
        proof {
            lemma_available_kraft(lens);
            assert forall|k: nat| 1 <= k <= 15 implies available(lens, k) >= 0 by {
                if available(lens, k) < 0 {
                    lemma_available_negative_stays(lens, k, 15);
                }
            }
        }
        assign_codes(&mut codes, lengths, &counts);
    }
    // deepest code under each first-level index
    let mut maxlens: Vec<u8> = Vec::new();
    while maxlens.len() < TABLE_SIZE
        invariant
            maxlens@.len() <= TABLE_SIZE,
            forall|j: int| 0 <= j < maxlens@.len() ==> #[trigger] maxlens@[j] == 0,
        decreases TABLE_SIZE - maxlens@.len(),
    {
        maxlens.push(0);
    }
    let mut s: usize = 0;
    while s < n
        invariant
            s <= n,
            n == lens.len(),
            n <= 0x10000,
            lens == lengths@,
            lengths_ok(lens),
            codes@.len() == n,
            maxlens@.len() == TABLE_SIZE,
            forall|j: int| 0 <= j < 512 ==> #[trigger] maxlens@[j] == 0 || 10 <= maxlens@[j] <= 15,
            forall|s2: int|
                0 <= s2 < s && lens[s2] > 9 ==> maxlens@[(codes@[s2] & 511) as int] >= #[trigger] lens[s2],
            forall|j: int|
                0 <= j < 512 && #[trigger] maxlens@[j] > 0 ==> exists|s3: int|
                    0 <= s3 < n && lens[s3] > 9 && (codes@[s3] & 511) == j && lens[s3] == maxlens@[j],
        decreases n - s,
    {
        let l = lengths[s];
        if l > TABLE_BITS {
            let idx = (codes[s] & 511) as usize;
            proof {
                assert(forall|x: u16| #[trigger] (x & 511) < 512) by (bit_vector);
                assert(lens[s as int] <= 15);
            }
            if maxlens[idx] < l {
                maxlens.set(idx, l);
            }
        }
        s = s + 1;
    }
    // room for the first level and every second-level table
    let mut pool: usize = 0;
    let mut p: usize = 0;
    while p < TABLE_SIZE
        invariant
            p <= TABLE_SIZE,
            maxlens@.len() == TABLE_SIZE,
            forall|j: int| 0 <= j < 512 ==> #[trigger] maxlens@[j] == 0 || 10 <= maxlens@[j] <= 15,
            pool == pool_upto(maxlens@, p as int),
        decreases TABLE_SIZE - p,
    {
        proof {
            lemma_pool_upto_bounds(maxlens@, p as int, p as int);
        }
        let ml = maxlens[p];
        if ml > TABLE_BITS {
            proof {
                crate::bits::lemma_shl_pow2((ml - 9) as u16);
            }
            pool = pool + (1u16 << (ml - TABLE_BITS) as u16) as usize;
        }
        p = p + 1;
    }
    proof {
        lemma_pool_upto_bounds(maxlens@, 512, 512);
    }
    let total = TABLE_SIZE + pool;
    let mut table: Vec<VarLenCode> = Vec::new();
    while table.len() < total
        invariant
            table@.len() <= total,
            forall|j: int| 0 <= j < table@.len() ==> #[trigger] table@[j].len == INVALID_LEN,
        decreases total - table@.len(),
    {
        table.push(VarLenCode { code: 0, len: INVALID_LEN });
    }
    // first level: symbols of at most TABLE_BITS bits
    let mut s: usize = 0;
    while s < n
        invariant
            s <= n,
            n == lens.len(),
            n <= 0x10000,
            lens == lengths@,
            lengths_ok(lens),
            codes@.len() == n,
            forall|s2: int| 0 <= s2 < n && lens[s2] > 0 ==> #[trigger] code_ok(lens, codes@, s2),
            table@.len() == total,
            TABLE_SIZE <= total <= 512 + 64 * 512,
            forall|j: int|
                0 <= j < total ==> #[trigger] table@[j].len == INVALID_LEN || (j < 512 && 1
                    <= table@[j].len <= 9 && primary_ok(table@, lens, j)),
            kraft_units(lens) <= 0x8000,
            forall|j: u16, s2: int|
                j < 512 && 0 <= s2 < s && #[trigger] index_matches(lens, j, s2) && lens[s2] <= 9
                    ==> table@[j as int] == (VarLenCode { code: s2 as u16, len: lens[s2] }),
        decreases n - s,
    {
        let l = lengths[s];
        if 1 <= l && l <= TABLE_BITS {
            proof {
                vstd::arithmetic::power2::lemma2_to64();
                assert(code_ok(lens, codes@, s as int));
                vstd::arithmetic::power2::lemma_pow2_adds((9 - l) as nat, l as nat);
                crate::bits::lemma_shl_pow2((9 - l) as u16);
            }
            let num = (1u16 << (TABLE_BITS - l) as u16) as usize;
            let rc = codes[s];
            let ghost prev = table@;
            fill_table(&mut table, 0, num, rc as usize, l, VarLenCode { code: s as u16, len: l });
            proof {
                let canon = canonical_code(lens, s as int);
                assert forall|j: int| 0 <= j < total implies #[trigger] table@[j].len == INVALID_LEN
                    || (j < 512 && 1 <= table@[j].len <= 9 && primary_ok(table@, lens, j)) by {
                    if 0 <= j < num * pow2(l as nat) && j % (pow2(l as nat) as int) == rc {
                        assert(canon < 512);
                        assert((canon as u16) as nat == canon);
                        lemma_spells_from_code(j as u16, rc, canon as u16, l as u16);
                        assert(table@[j] == VarLenCode { code: s as u16, len: l });
                        assert((s as u16) as int == s);
                    } else {
                        assert(table@[j] == prev[j]);
                    }
                }
                assert forall|j: u16, s2: int|
                    j < 512 && 0 <= s2 < s + 1 && #[trigger] index_matches(lens, j, s2) && lens[s2] <= 9
                        implies table@[j as int] == (VarLenCode { code: s2 as u16, len: lens[s2] }) by {
                    assert(num * pow2(l as nat) == 512);
                    if s2 == s {
                        lemma_code_from_matches(lens, codes@, s2, j);
                    } else if (j as int) % (pow2(l as nat) as int) == rc {
                        lemma_matches_from_code(lens, codes@, s as int, j);
                        lemma_index_unique(lens, j, s as int, s2);
                    } else {
                        assert(table@[j as int] == prev[j as int]);
                    }
                }
            }
        }
        s = s + 1;
    }
    // links from the first level to second-level tables
    let ghost short = table@;
    let mut pointer: usize = TABLE_SIZE;
    let mut p: usize = 0;
    while p < TABLE_SIZE
        invariant
            p <= TABLE_SIZE,
            pointer == TABLE_SIZE + pool_upto(maxlens@, p as int),
            total == TABLE_SIZE + pool_upto(maxlens@, 512),
            total <= 512 + 64 * 512,
            n == lens.len(),
            n <= 0x10000,
            lengths_ok(lens),
            codes@.len() == n,
            forall|s2: int| 0 <= s2 < n && lens[s2] > 0 ==> #[trigger] code_ok(lens, codes@, s2),
            forall|j: int|
                0 <= j < 512 && #[trigger] maxlens@[j] > 0 ==> exists|s3: int|
                    0 <= s3 < n && lens[s3] > 9 && (codes@[s3] & 511) == j && lens[s3] == maxlens@[j],
            forall|j: u16, s2: int|
                j < 512 && #[trigger] index_matches(lens, j, s2) && lens[s2] <= 9 ==> table@[j as int]
                    == (VarLenCode { code: s2 as u16, len: lens[s2] }),
            kraft_units(lens) <= 0x8000,
            kraft_units(lens) == 0x8000 || is_trivial_tree(lens),
            lens == lengths@,
            table@.len() == total,
            TABLE_SIZE <= total <= 512 + 64 * 512,
            maxlens@.len() == TABLE_SIZE,
            forall|j: int| 0 <= j < 512 ==> #[trigger] maxlens@[j] == 0 || 10 <= maxlens@[j] <= 15,
            forall|j: int| 512 <= j < total ==> #[trigger] table@[j].len == INVALID_LEN,
            forall|j: int| 0 <= j < 512 ==> #[trigger] primary_ok(table@, lens, j),
            forall|j: int| p <= j < 512 ==> #[trigger] table@[j] == short[j],
            forall|j: int|
                0 <= j < 512 ==> (short[j].len == INVALID_LEN || 1 <= short[j].len <= 9)
                    && #[trigger] short[j] == short[j],
            forall|j: int| 0 <= j < p ==> #[trigger] link_fits(table@, maxlens@, j, pointer as int),
            forall|j: int|
                0 <= j < p && maxlens@[j] <= 9 ==> #[trigger] table@[j] == short[j],
            forall|j: int|
                0 <= j < 512 && 10 <= #[trigger] table@[j].len <= 15 ==> j < p && maxlens@[j] > 9,
            forall|j1: int, j2: int|
                0 <= j1 < j2 < p && maxlens@[j1] > 9 && maxlens@[j2] > 9 ==> #[trigger] table@[j1].code
                    + pow2((maxlens@[j1] - 9) as nat) <= #[trigger] table@[j2].code,
        decreases TABLE_SIZE - p,
    {
        let ml = maxlens[p];
        if ml > TABLE_BITS {
            proof {
                crate::bits::lemma_shl_pow2((ml - 9) as u16);
                vstd::arithmetic::power2::lemma_pow2_pos((ml - 9) as nat);
            }
            let size = (1u16 << (ml - TABLE_BITS) as u16) as usize;
            proof {
                lemma_pool_upto_bounds(maxlens@, p + 1, 512);
            }
            let ghost prev = table@;
            table.set(p, VarLenCode { code: pointer as u16, len: ml });
            proof {
                assert forall|j: u16, s2: int|
                    j < 512 && #[trigger] index_matches(lens, j, s2) && lens[s2] <= 9 implies table@[j as int]
                        == (VarLenCode { code: s2 as u16, len: lens[s2] }) by {
                    if j as int == p {
                        assert(maxlens@[p as int] > 0);
                        let s3 = choose|s3: int| 0 <= s3 < n && lens[s3] > 9 && (codes@[s3] & 511) == p;
                        let w = codes@[s3];
                        assert(code_ok(lens, codes@, s3));
                        vstd::arithmetic::div_mod::lemma_small_mod(w as nat, pow2(lens[s3] as nat));
                        lemma_matches_from_code(lens, codes@, s3, w);
                        let l2 = lens[s2] as u16;
                        assert forall|k: u16| k < l2 implies #[trigger] ((w >> k) & 1) == (((canonical_code(
                            lens,
                            s2,
                        ) as nat) as u16) >> ((l2 - 1 - k) as u16)) & 1 by {
                            assert(((w >> k) & 1) == (j >> k) & 1) by (bit_vector)
                                requires
                                    (w & 511) == j,
                                    k < l2,
                                    l2 <= 9,
                            ;
                        }
                        assert(index_matches(lens, w, s2));
                        lemma_index_unique(lens, w, s3, s2);
                    } else {
                        assert(table@[j as int] == prev[j as int]);
                    }
                }
            }
            proof {
                assert forall|j: int| 0 <= j < 512 implies #[trigger] primary_ok(table@, lens, j) by {
                    if j == p {
                        assert forall|r: int| 0 <= r < pow2((ml - 9) as nat) implies #[trigger] secondary_ok(
                            table@,
                            lens,
                            j,
                            table@[j],
                            r,
                        ) by {
                            assert(table@[pointer + r].len == INVALID_LEN);
                        }
                    } else {
                        assert(primary_ok(prev, lens, j));
                        assert(table@[j] == prev[j]);
                        if 10 <= prev[j].len <= 15 {
                            assert forall|r: int| 0 <= r < pow2((prev[j].len - 9) as nat) implies #[trigger] secondary_ok(
                                table@,
                                lens,
                                j,
                                table@[j],
                                r,
                            ) by {
                                assert(secondary_ok(prev, lens, j, prev[j], r));
                                assert(table@[prev[j].code + r] == prev[prev[j].code + r]);
                            }
                        }
                    }
                }
            }
            proof {
                assert forall|j: int| 0 <= j < p + 1 implies #[trigger] link_fits(
                    table@,
                    maxlens@,
                    j,
                    (pointer + size) as int,
                ) by {
                    if j < p {
                        assert(table@[j] == prev[j]);
                        assert(link_fits(prev, maxlens@, j, pointer as int));
                    } else {
                        assert(j == p);
                        assert(table@[j] == VarLenCode { code: pointer as u16, len: ml });
                        assert((pointer as u16) as int == pointer);
                    }
                }
                assert forall|j1: int, j2: int|
                    0 <= j1 < j2 < p + 1 && maxlens@[j1] > 9 && maxlens@[j2] > 9 implies #[trigger] table@[j1].code
                        + pow2((maxlens@[j1] - 9) as nat) <= #[trigger] table@[j2].code by {
                    assert(link_fits(prev, maxlens@, j1, pointer as int));
                    if j2 < p {
                        assert(link_fits(prev, maxlens@, j2, pointer as int));
                    }
                }
            }
            pointer = pointer + size;
        } else {
            proof {
                assert forall|j: int| 0 <= j < p + 1 implies #[trigger] link_fits(
                    table@,
                    maxlens@,
                    j,
                    pointer as int,
                ) by {
                    if j < p {
                        assert(link_fits(table@, maxlens@, j, pointer as int));
                    }
                }
            }
        }
        p = p + 1;
    }
    // second level: symbols longer than TABLE_BITS bits
    let ghost linked = table@;
    proof {
        assert forall|j: int| 0 <= j < 512 implies #[trigger] link_fits(
            linked,
            maxlens@,
            j,
            total as int,
        ) by {
            assert(link_fits(linked, maxlens@, j, pointer as int));
        }
        assert forall|w: u16, s2: int|
            #[trigger] index_matches(lens, w, s2) && lens[s2] > 9 implies 10 <= linked[(w % 512) as int].len
                <= 15 && lens[s2] <= linked[(w % 512) as int].len by {
            assert(code_ok(lens, codes@, s2));
            lemma_code_from_matches(lens, codes@, s2, w);
            lemma_slot_bits(w, codes@[s2], lens[s2] as u16, lens[s2] as u16);
            assert(link_fits(linked, maxlens@, (w % 512) as int, total as int));
        }
        assert forall|j: u16, s2: int|
            j < 512 && #[trigger] leads(lens, j, s2) implies 10 <= linked[j as int].len <= 15 && lens[s2]
                <= linked[j as int].len by {
            assert(code_ok(lens, codes@, s2));
            let c = codes@[s2];
            let l2 = lens[s2] as u16;
            assert forall|k: u16| k < 16 implies #[trigger] (((c & 511) >> k) & 1) == (j >> k) & 1 by {
                if k < 9 {
                    assert(((j >> k) & 1) == ((canonical_code(lens, s2) as u16) >> ((l2 - 1 - k) as u16)) & 1);
                    assert(((c >> k) & 1) == ((canonical_code(lens, s2) as u16) >> ((l2 - 1 - k) as u16)) & 1);
                    assert((((c & 511) >> k) & 1) == (c >> k) & 1) by (bit_vector)
                        requires
                            k < 9,
                    ;
                } else {
                    assert((((c & 511) >> k) & 1) == 0 && ((j >> k) & 1) == 0) by (bit_vector)
                        requires
                            9 <= k < 16,
                            j < 512,
                    ;
                }
            }
            lemma_bits_ext(c & 511, j);
            assert(link_fits(linked, maxlens@, j as int, total as int));
        }
    }
    let mut s: usize = 0;
    while s < n
        invariant
            s <= n,
            n == lens.len(),
            n <= 0x10000,
            lens == lengths@,
            lengths_ok(lens),
            codes@.len() == n,
            forall|s2: int| 0 <= s2 < n && lens[s2] > 0 ==> #[trigger] code_ok(lens, codes@, s2),
            maxlens@.len() == TABLE_SIZE,
            forall|j: int| 0 <= j < 512 ==> #[trigger] maxlens@[j] == 0 || 10 <= maxlens@[j] <= 15,
            forall|s2: int|
                0 <= s2 < n && lens[s2] > 9 ==> maxlens@[(codes@[s2] & 511) as int] >= #[trigger] lens[s2],
            table@.len() == total,
            TABLE_SIZE <= total <= 512 + 64 * 512,
            forall|j: int| 0 <= j < 512 ==> #[trigger] table@[j] == linked[j],
            forall|j: int| 0 <= j < 512 && 10 <= #[trigger] linked[j].len <= 15 ==> maxlens@[j] > 9,
            forall|j: int| 0 <= j < 512 ==> #[trigger] link_fits(linked, maxlens@, j, total as int),
            forall|j: int|
                0 <= j < 512 && #[trigger] maxlens@[j] > 0 ==> exists|s3: int|
                    0 <= s3 < n && lens[s3] > 9 && (codes@[s3] & 511) == j && lens[s3] == maxlens@[j],
            forall|j1: int, j2: int|
                0 <= j1 < j2 < 512 && maxlens@[j1] > 9 && maxlens@[j2] > 9 ==> #[trigger] linked[j1].code
                    + pow2((maxlens@[j1] - 9) as nat) <= #[trigger] linked[j2].code,
            forall|j: int| 0 <= j < 512 ==> #[trigger] primary_ok(table@, lens, j),
            kraft_units(lens) <= 0x8000,
            forall|j: u16, s2: int|
                j < 512 && #[trigger] index_matches(lens, j, s2) && lens[s2] <= 9 ==> linked[j as int]
                    == (VarLenCode { code: s2 as u16, len: lens[s2] }),
            forall|w: u16, s2: int|
                #[trigger] index_matches(lens, w, s2) && lens[s2] > 9 ==> 10 <= linked[(w % 512) as int].len
                    <= 15 && lens[s2] <= linked[(w % 512) as int].len,
            forall|j: u16, s2: int|
                j < 512 && #[trigger] leads(lens, j, s2) ==> 10 <= linked[j as int].len <= 15 && lens[s2]
                    <= linked[j as int].len,
            forall|w: u16, s2: int|
                0 <= s2 < s && lens[s2] > 9 && #[trigger] index_matches(lens, w, s2) ==> table@[second_slot(
                    linked,
                    w,
                )] == (VarLenCode { code: s2 as u16, len: lens[s2] }),
        decreases n - s,
    {
        let l = lengths[s];
        if l > TABLE_BITS {
            let rc = codes[s];
            let idx = (rc & 511) as usize;
            proof {
                assert((rc & 511) < 512) by (bit_vector);
                assert(code_ok(lens, codes@, s as int));
                assert(lens[s as int] <= 15);
            }
            let e = table[idx];
            proof {
                assert(maxlens@[idx as int] >= l);
                assert(link_fits(linked, maxlens@, idx as int, total as int));
                vstd::arithmetic::power2::lemma_pow2_adds((e.len - l) as nat, (l - 9) as nat);
                crate::bits::lemma_shl_pow2((e.len - l) as u16);
                crate::bits::lemma_shl_pow2((l - 9) as u16);
                crate::bits::lemma_shl_pow2(l as u16);
                vstd::arithmetic::power2::lemma2_to64();
                assert(rc < pow2(l as nat));
                assert((rc >> 9u16) < (1u16 << ((l - 9) as u16))) by (bit_vector)
                    requires
                        10 <= l <= 15,
                        rc < (1u16 << (l as u16)),
                ;
            }
            let num = (1u16 << (e.len - l) as u16) as usize;
            let ghost prev = table@;
            fill_table(
                &mut table,
                e.code as usize,
                num,
                (rc >> 9) as usize,
                l - TABLE_BITS,
                VarLenCode { code: s as u16, len: l },
            );
            proof {
                let canon = canonical_code(lens, s as int);
                let size = pow2((e.len - 9) as nat) as int;
                assert(num * pow2((l - 9) as nat) == size);
                assert forall|j: int| 0 <= j < 512 implies #[trigger] primary_ok(table@, lens, j) by {
                    assert(primary_ok(prev, lens, j));
                    assert(table@[j] == prev[j]);
                    let ej = table@[j];
                    if 10 <= ej.len <= 15 {
                        assert(maxlens@[j] > 9);
                        assert(link_fits(linked, maxlens@, j, total as int));
                        assert forall|r: int| 0 <= r < pow2((ej.len - 9) as nat) implies #[trigger] secondary_ok(
                            table@,
                            lens,
                            j,
                            ej,
                            r,
                        ) by {
                            assert(secondary_ok(prev, lens, j, ej, r));
                            let q = ej.code + r;
                            if j == idx {
                                if (q - e.code) % (pow2((l - 9) as nat) as int) == (rc >> 9u16) as int {
                                    assert(r < 64);
                                    assert((rc & 511) == idx);
                                    lemma_secondary_index(rc, l as u16, r as u16, (j + r * 512) as u16);
                                    lemma_spells_from_code(
                                        ((j + r * 512) as u16),
                                        rc,
                                        canon as u16,
                                        l as u16,
                                    );
                                }
                            } else if j < idx {
                                assert(linked[j].code + pow2((maxlens@[j] - 9) as nat) <= linked[idx as int].code);
                            } else {
                                assert(linked[idx as int].code + pow2((maxlens@[idx as int] - 9) as nat) <= linked[j].code);
                            }
                        }
                    }
                }
                assert forall|w: u16, s2: int|
                    0 <= s2 < s + 1 && lens[s2] > 9 && #[trigger] index_matches(lens, w, s2) implies table@[second_slot(
                        linked,
                        w,
                    )] == (VarLenCode { code: s2 as u16, len: lens[s2] }) by {
                    let pfx = (w % 512) as int;
                    let e2 = linked[pfx];
                    let r2 = ((w / 512) as int % (pow2((e2.len - 9) as nat) as int)) as u16;
                    let q2 = second_slot(linked, w);
                    assert(maxlens@[pfx] > 9);
                    assert(link_fits(linked, maxlens@, pfx, total as int));
                    vstd::arithmetic::power2::lemma_pow2_pos((e2.len - 9) as nat);
                    vstd::arithmetic::power2::lemma_pow2_strictly_increases((e2.len - 9) as nat, 7);
                    assert(r2 < 64);
                    assert(q2 == e2.code + r2);
                    if s2 == s {
                        lemma_code_from_matches(lens, codes@, s2, w);
                        lemma_slot_bits(w, rc, l as u16, e2.len as u16);
                        assert(pfx == idx);
                    } else if e.code <= q2 < e.code + size && (q2 - e.code) % (pow2((l - 9) as nat) as int)
                        == (rc >> 9u16) as int {
                        if pfx < idx {
                            assert(linked[pfx].code + pow2((maxlens@[pfx] - 9) as nat) <= linked[idx as int].code);
                        } else if pfx > idx {
                            assert(linked[idx as int].code + pow2((maxlens@[idx as int] - 9) as nat) <= linked[pfx].code);
                        }
                        assert(pfx == idx);
                        let w2: u16 = ((w % 512) as int + r2 as int * 512) as u16;
                        lemma_secondary_index(rc, l as u16, r2, w2);
                        lemma_matches_from_code(lens, codes@, s as int, w2);
                        lemma_slot_word(w, e2.len as u16, r2, w2);
                        assert(index_matches(lens, w2, s2));
                        lemma_index_unique(lens, w2, s as int, s2);
                    } else {
                        assert(table@[q2] == prev[q2]);
                    }
                }
            }
        }
        s = s + 1;
    }
    proof {
        reveal(table_sound);
        reveal(table_complete);
        assert forall|j: int| 0 <= j < 512 implies #[trigger] link_depths(table@)[j] == maxlens@[j] by {
            assert(table@[j] == linked[j]);
            assert(link_fits(linked, maxlens@, j, total as int));
        }
        assert(link_depths(table@) =~= maxlens@);
        assert forall|j: int| 0 <= j < 512 implies #[trigger] link_depths(table@)[j] == maxlens@[j] by {
            assert(table@[j] == linked[j]);
            assert(link_fits(linked, maxlens@, j, total as int));
        }
        assert(link_depths(table@) =~= maxlens@);
        assert forall|j: u16, s2: int|
            j < 512 && #[trigger] index_matches(lens, j, s2) && lens[s2] <= 9 implies table@[j as int]
                == (VarLenCode { code: s2 as u16, len: lens[s2] }) by {
            assert(table@[j as int] == linked[j as int]);
        }
        assert forall|j: u16, s2: int|
            j < 512 && #[trigger] leads(lens, j, s2) implies 10 <= table@[j as int].len <= 15 && lens[s2]
                <= table@[j as int].len by {
            assert(table@[j as int] == linked[j as int]);
        }
        assert forall|j: u16| j < 512 && 10 <= #[trigger] table@[j as int].len <= 15 implies exists|s2: int|
            leads(lens, j, s2) && lens[s2] == table@[j as int].len by {
            assert(table@[j as int] == linked[j as int]);
            assert(maxlens@[j as int] > 9);
            assert(link_fits(linked, maxlens@, j as int, total as int));
            let s3 = choose|s3: int|
                0 <= s3 < n && lens[s3] > 9 && (codes@[s3] & 511) == j && lens[s3] == maxlens@[j as int];
            assert(code_ok(lens, codes@, s3));
            let c = codes@[s3];
            let l3 = lens[s3] as u16;
            assert forall|k: u16| k < 9 implies #[trigger] ((j >> k) & 1) == ((canonical_code(lens, s3) as u16) >> ((lens[s3] - 1 - k) as u16)) & 1 by {
                assert(((c >> k) & 1) == ((canonical_code(lens, s3) as u16) >> ((l3 - 1 - k) as u16)) & 1);
                assert(((j >> k) & 1) == (c >> k) & 1) by (bit_vector)
                    requires
                        (c & 511) == j,
                        k < 9,
                ;
            }
            assert(leads(lens, j, s3));
        }
        assert forall|w: u16, s2: int|
            #[trigger] index_matches(lens, w, s2) && lens[s2] > 9 implies table@[second_slot(table@, w)]
                == (VarLenCode { code: s2 as u16, len: lens[s2] }) by {
            assert(table@[(w % 512) as int] == linked[(w % 512) as int]);
            assert(second_slot(table@, w) == second_slot(linked, w));
        }
    }
    Ok(table)
}

proof fn lemma_next_code_grows(lens: Seq<u8>, a: nat, b: nat)
    requires
        1 <= a < b,
    ensures
        next_code(lens, b) >= (next_code(lens, a) + count_len(lens, a)) * pow2((b - a) as nat),
    decreases b,
{
    vstd::arithmetic::power2::lemma_pow2_unfold((b - a) as nat);
    assert(next_code(lens, b) == 2 * (next_code(lens, (b - 1) as nat) + count_len(lens, (b - 1) as nat)));
    if b == a + 1 {
        vstd::arithmetic::power2::lemma2_to64();
        assert(pow2(1) == 2);
        let x = next_code(lens, a) + count_len(lens, a);
        assert(x * pow2(1) == x * 2);
        assert(next_code(lens, b) == 2 * x);
    } else {
        lemma_next_code_grows(lens, a, (b - 1) as nat);
        let x = next_code(lens, a) + count_len(lens, a);
        let p = pow2((b - 1 - a) as nat);
        assert(next_code(lens, (b - 1) as nat) >= x * p);
        assert(next_code(lens, b) >= 2 * (x * p));
        assert(x * pow2((b - a) as nat) == 2 * (x * p)) by (nonlinear_arith)
            requires
                pow2((b - a) as nat) == 2 * p,
        ;
    }
}

proof fn lemma_rank_below_count(lens: Seq<u8>, s: int)
    requires
        0 <= s < lens.len(),
    ensures
        count_len(lens.take(s), lens[s] as nat) < count_len(lens, lens[s] as nat),
{
    lemma_count_take_step(lens, s, lens[s] as nat);
    lemma_count_take_mono(lens, s + 1, lens.len() as int, lens[s] as nat);
    assert(lens.take(lens.len() as int) =~= lens);
}

/// Canonical codes form a prefix code: for two distinct present symbols,
/// the shorter code is never the leading part of the longer one.
pub proof fn lemma_canonical_prefix_free(lens: Seq<u8>, s: int, t: int)
    requires
        lengths_ok(lens),
        kraft_units(lens) <= 0x8000,
        0 <= s < lens.len(),
        0 <= t < lens.len(),
        s != t,
        0 < lens[s] <= lens[t],
    ensures
        canonical_code(lens, t) / pow2((lens[t] - lens[s]) as nat) != canonical_code(lens, s),
{
    let a = lens[s] as nat;
    let b = lens[t] as nat;
    lemma_rank_below_count(lens, s);
    lemma_rank_below_count(lens, t);
    vstd::arithmetic::power2::lemma2_to64();
    if a == b {
        assert(pow2((b - a) as nat) == 1);
        vstd::arithmetic::div_mod::lemma_div_basics(canonical_code(lens, t) as int);
        assert(canonical_code(lens, t) / pow2((b - a) as nat) == canonical_code(lens, t));
        if s < t {
            lemma_count_take_step(lens, s, a);
            lemma_count_take_mono(lens, s + 1, t, a);
            assert(count_len(lens.take(s), a) < count_len(lens.take(t), a));
        } else {
            lemma_count_take_step(lens, t, a);
            lemma_count_take_mono(lens, t + 1, s, a);
            assert(count_len(lens.take(t), a) < count_len(lens.take(s), a));
        }
    } else {
        lemma_next_code_grows(lens, a, b);
        let y = next_code(lens, a) + count_len(lens, a);
        let d = pow2((b - a) as nat);
        vstd::arithmetic::power2::lemma_pow2_pos((b - a) as nat);
        vstd::arithmetic::div_mod::lemma_div_is_ordered(
            (y * d) as int,
            canonical_code(lens, t) as int,
            d as int,
        );
        vstd::arithmetic::div_mod::lemma_div_multiples_vanish(y as int, d as int);
        assert(canonical_code(lens, t) >= next_code(lens, b));
        assert(canonical_code(lens, t) / d >= y);
        assert(canonical_code(lens, s) < y);
    }
}

proof fn lemma_bit_at_le1(src: Seq<u8>, i: int)
    ensures
        bit_at(src, i) <= 1,
{
    assert(forall|x: u8, k: u8| #[trigger] ((x >> k) & 1u8) <= 1) by (bit_vector);
}

/// The first `a` bits at `pos`, read MSB-first, are the leading part of the
/// first `b` bits.
pub proof fn lemma_msb_prefix(src: Seq<u8>, pos: int, a: nat, b: nat)
    requires
        a <= b,
    ensures
        msb_value(src, pos, a) == msb_value(src, pos, b) / pow2((b - a) as nat),
    decreases b,
{
    vstd::arithmetic::power2::lemma2_to64();
    if b > a {
        lemma_msb_prefix(src, pos, a, (b - 1) as nat);
        lemma_bit_at_le1(src, pos + b - 1);
        let m = msb_value(src, pos, (b - 1) as nat);
        let p = pow2((b - 1 - a) as nat);
        vstd::arithmetic::power2::lemma_pow2_unfold((b - a) as nat);
        vstd::arithmetic::power2::lemma_pow2_pos((b - 1 - a) as nat);
        vstd::arithmetic::div_mod::lemma_div_denominator(msb_value(src, pos, b) as int, 2, p as int);
        assert(msb_value(src, pos, b) == 2 * m + bit_at(src, pos + b - 1));
        assert(msb_value(src, pos, b) / 2 == m);
        assert(pow2((b - a) as nat) == 2 * p);
        assert(msb_value(src, pos, b) / pow2((b - a) as nat) == (msb_value(src, pos, b) / 2) / p);
        assert(msb_value(src, pos, a) == m / p);
    } else {
        assert(pow2(0) == 1);
        assert(msb_value(src, pos, b) / 1 == msb_value(src, pos, b));
    }
}

/// Symbols of a tree that is not over-subscribed are decoded unambiguously.
pub proof fn lemma_symbol_unique(lens: Seq<u8>, src: Seq<u8>, pos: int, s: int, t: int)
    requires
        lengths_ok(lens),
        kraft_units(lens) <= 0x8000,
        code_at(lens, src, pos, s),
        code_at(lens, src, pos, t),
    ensures
        s == t,
{
    if s != t {
        if lens[s] <= lens[t] {
            lemma_msb_prefix(src, pos, lens[s] as nat, lens[t] as nat);
            lemma_canonical_prefix_free(lens, s, t);
        } else {
            lemma_msb_prefix(src, pos, lens[t] as nat, lens[s] as nat);
            lemma_canonical_prefix_free(lens, t, s);
        }
    }
}

/// The stream at `pos` reads `c` MSB-first over `n` bits exactly when its
/// bits are those of `c`, highest first.
pub proof fn lemma_bits_of_msb(src: Seq<u8>, pos: int, n: nat, c: nat)
    requires
        n <= 15,
        msb_value(src, pos, n) == c,
    ensures
        c < pow2(n),
        forall|k: u16| k < n ==> #[trigger] bit_at(src, pos + k) == ((c as u16) >> ((n - 1 - k) as u16)) & 1,
    decreases n,
{
    vstd::arithmetic::power2::lemma2_to64();
    if n > 0 {
        let h = msb_value(src, pos, (n - 1) as nat);
        lemma_bits_of_msb(src, pos, (n - 1) as nat, h);
        lemma_bit_at_le1(src, pos + n - 1);
        vstd::arithmetic::power2::lemma_pow2_unfold(n);
        if n < 15 {
            vstd::arithmetic::power2::lemma_pow2_strictly_increases(n, 15);
        }
        let b = bit_at(src, pos + n - 1);
        let cu = c as u16;
        let hu = h as u16;
        assert(cu == 2 * hu + b);
        assert forall|k: u16| k < n implies #[trigger] bit_at(src, pos + k) == (cu >> ((n - 1 - k) as u16)) & 1 by {
            if k + 1 < n {
                let j = (n - 2 - k) as u16;
                assert(bit_at(src, pos + k) == (hu >> j) & 1);
                assert((cu >> ((j + 1) as u16)) & 1 == (hu >> j) & 1) by (bit_vector)
                    requires
                        cu == 2 * hu + b,
                        b <= 1,
                        hu < 0x4000,
                        j < 15,
                ;
            } else {
                assert((cu >> 0u16) & 1 == b) by (bit_vector)
                    requires
                        cu == 2 * hu + b,
                        b <= 1,
                        hu < 0x4000,
                ;
            }
        }
    }
}

/// The two bytes that hold `w`, low byte first.
pub open spec fn word_bytes(w: u16) -> Seq<u8> {
    seq![(w & 0xff) as u8, (w >> 8u16) as u8]
}

proof fn lemma_word_bytes(w: u16)
    ensures
        holds_bits(w, word_bytes(w), 0, 15),
{
    let src = word_bytes(w);
    assert forall|k: u16| k < 15 implies #[trigger] ((w >> k) & 1) == bit_at(src, 0 + k) by {
        if k < 8 {
            let lo = (w & 0xff) as u8;
            let kk = k as u8;
            assert(((lo >> kk) & 1u8) as u16 == (w >> k) & 1) by (bit_vector)
                requires
                    lo == (w & 0xff) as u8,
                    kk == k as u8,
                    k < 8,
            ;
        } else {
            let hi = (w >> 8u16) as u8;
            let kk = (k - 8) as u8;
            assert(((hi >> kk) & 1u8) as u16 == (w >> k) & 1) by (bit_vector)
                requires
                    hi == (w >> 8u16) as u8,
                    kk == (k - 8) as u8,
                    8 <= k < 16,
            ;
        }
    }
}

/// The symbol whose code the low bits of `w` spell.
pub open spec fn index_matches(lens: Seq<u8>, w: u16, s: int) -> bool {
    &&& 0 <= s < lens.len()
    &&& 0 < lens[s] <= 15
    &&& spells(w, lens[s] as nat, canonical_code(lens, s))
}

/// No two symbols of a tree that is not over-subscribed spell their codes in
/// the low bits of one word.
proof fn lemma_index_unique(lens: Seq<u8>, w: u16, s: int, t: int)
    requires
        lengths_ok(lens),
        kraft_units(lens) <= 0x8000,
        index_matches(lens, w, s),
        index_matches(lens, w, t),
    ensures
        s == t,
{
    let src = word_bytes(w);
    lemma_word_bytes(w);
    assert(holds_bits(w, src, 0, lens[s] as nat));
    assert(holds_bits(w, src, 0, lens[t] as nat));
    lemma_msb_from_spells(src, 0, w, lens[s] as nat, canonical_code(lens, s));
    lemma_msb_from_spells(src, 0, w, lens[t] as nat, canonical_code(lens, t));
    lemma_symbol_unique(lens, src, 0, s, t);
}

/// A word whose low `n` bits spell `c` holds there the reversed code `rc`.
proof fn lemma_code_from_spells(j: u16, rc: u16, c: nat, n: u16)
    requires
        1 <= n <= 15,
        c < pow2(n as nat),
        spells(j, n as nat, c),
        is_reversal(rc, c as u16, n as nat),
    ensures
        j as nat % pow2(n as nat) == rc as nat,
{
    crate::bits::lemma_shl_pow2(n);
    let m = 1u16 << n;
    let low = j % m;
    assert forall|k: u16| k < 16 implies #[trigger] ((low >> k) & 1) == (rc >> k) & 1 by {
        if k < n {
            assert(((j >> k) & 1) == ((c as u16) >> ((n - 1 - k) as u16)) & 1);
            assert(((low >> k) & 1) == (j >> k) & 1) by (bit_vector)
                requires
                    m == 1u16 << n,
                    low == j % m,
                    k < n,
                    n <= 15,
            ;
        } else {
            assert(((low >> k) & 1) == 0 && ((rc >> k) & 1) == 0) by (bit_vector)
                requires
                    m == 1u16 << n,
                    low == j % m,
                    rc < m,
                    n <= k < 16,
                    n <= 15,
            ;
        }
    }
    lemma_bits_ext(low, rc);
}

} // verus!
