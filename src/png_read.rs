//! PNG image reading: chunk walking, zlib framing and scanline unfiltering.
use vstd::prelude::*;

use crate::inflate::{inflate, inflated};

verus! {

/// Errors reported while reading a PNG image.
#[derive(Debug, PartialEq, Eq, Structural, Clone, Copy)]
pub enum Error {
    InvalidPng,
    InvalidSignature,
    InvalidFormat,
    InvalidColorFormat,
    InvalidPalette,
    InvalidFilterType,
    UnsupportedFormat,
    CompressionError,
    BufferError,
    BufferUnderrun,
    InvalidIDAT,
    MissingIHDR,
    MissingIEND,
}

impl From<crate::Error> for Error {
    fn from(e: crate::Error) -> (r: Error)
        ensures
            r == Error::CompressionError,
    {
        Error::CompressionError
    }
}

impl vstd::std_specs::convert::FromSpecImpl<crate::Error> for Error {
    open spec fn obeys_from_spec() -> bool {
        true
    }

    open spec fn from_spec(e: crate::Error) -> Error {
        Error::CompressionError
    }
}

/// The colour type of an image, as stored in its header.
#[derive(Debug, PartialEq, Eq, Structural, Clone, Copy)]
pub enum PNGColorType {
    Greyscale,
    TrueColor,
    IndexedColor,
    GreyscaleAplha,
    TrueColorAlpha,
}

impl PNGColorType {
    pub open spec fn spec_from_u8(value: u8) -> Option<PNGColorType> {
        if value == 0 {
            Some(PNGColorType::Greyscale)
        } else if value == 2 {
            Some(PNGColorType::TrueColor)
        } else if value == 3 {
            Some(PNGColorType::IndexedColor)
        } else if value == 4 {
            Some(PNGColorType::GreyscaleAplha)
        } else if value == 6 {
            Some(PNGColorType::TrueColorAlpha)
        } else {
            None
        }
    }

    /// The colour type with header code `value`.
    pub fn from_u8(value: u8) -> (r: Result<PNGColorType, Error>)
        ensures
            r matches Ok(c) ==> Self::spec_from_u8(value) == Some(c),
            r is Err ==> Self::spec_from_u8(value) is None && r == Err::<PNGColorType, Error>(
                Error::InvalidColorFormat,
            ),
    {
        match value {
            0 => Ok(PNGColorType::Greyscale),
            2 => Ok(PNGColorType::TrueColor),
            3 => Ok(PNGColorType::IndexedColor),
            4 => Ok(PNGColorType::GreyscaleAplha),
            6 => Ok(PNGColorType::TrueColorAlpha),
            _ => Err(Error::InvalidColorFormat),
        }
    }

    pub open spec fn spec_channels(&self) -> usize {
        match self {
            PNGColorType::Greyscale | PNGColorType::IndexedColor => 1,
            PNGColorType::TrueColor => 3,
            PNGColorType::GreyscaleAplha => 2,
            PNGColorType::TrueColorAlpha => 4,
        }
    }

    /// Samples per pixel.
    pub fn channels(&self) -> (r: usize)
        ensures
            r == self.spec_channels(),
    {
        match self {
            PNGColorType::Greyscale | PNGColorType::IndexedColor => 1,
            PNGColorType::TrueColor => 3,
            PNGColorType::GreyscaleAplha => 2,
            PNGColorType::TrueColorAlpha => 4,
        }
    }
}

/// The image header.
#[derive(Debug)]
pub struct PNGChunkIHDR {
    pub width: usize,
    pub height: usize,
    pub bit_depth: usize,
    pub color_type: PNGColorType,
    pub compression: u8,
    pub filter: u8,
    pub interlace: u8,
}

/// The filter applied to one scanline.
#[derive(Debug, PartialEq, Eq, Structural, Clone, Copy)]
pub enum PNGFilterType {
    NoFilter,
    Sub,
    Up,
    Average,
    Paeth,
}

impl PNGFilterType {
    pub open spec fn spec_from_u8(value: u8) -> Option<PNGFilterType> {
        if value == 0 {
            Some(PNGFilterType::NoFilter)
        } else if value == 1 {
            Some(PNGFilterType::Sub)
        } else if value == 2 {
            Some(PNGFilterType::Up)
        } else if value == 3 {
            Some(PNGFilterType::Average)
        } else if value == 4 {
            Some(PNGFilterType::Paeth)
        } else {
            None
        }
    }

    /// The filter with code `value`.
    pub fn from_u8(value: u8) -> (r: Result<PNGFilterType, Error>)
        ensures
            r matches Ok(f) ==> Self::spec_from_u8(value) == Some(f),
            r is Err ==> Self::spec_from_u8(value) is None && r == Err::<PNGFilterType, Error>(
                Error::InvalidFilterType,
            ),
    {
        match value {
            0 => Ok(PNGFilterType::NoFilter),
            1 => Ok(PNGFilterType::Sub),
            2 => Ok(PNGFilterType::Up),
            3 => Ok(PNGFilterType::Average),
            4 => Ok(PNGFilterType::Paeth),
            _ => Err(Error::InvalidFilterType),
        }
    }
}

pub open spec fn abs(x: int) -> int {
    if x < 0 {
        -x
    } else {
        x
    }
}

/// The Paeth predictor: of the left (`a`), upper (`b`) and upper-left (`c`)
/// neighbours, the one nearest to `a + b - c`, ties going to `a`, then `b`.
pub open spec fn paeth_predictor(a: u8, b: u8, c: u8) -> u8 {
    let p = a + b - c;
    let pa = abs(p - a);
    let pb = abs(p - b);
    let pc = abs(p - c);
    if pa <= pb && pa <= pc {
        a
    } else if pb <= pc {
        b
    } else {
        c
    }
}

/// The Paeth predictor of `a` (left), `b` (up) and `c` (upper left).
pub fn paeth(a: u8, b: u8, c: u8) -> (r: u8)
    ensures
        r == paeth_predictor(a, b, c),
{
    let pa = if b > c {
        (b - c) as u32
    } else {
        (c - b) as u32
    };
    let pb = if a > c {
        (a - c) as u32
    } else {
        (c - a) as u32
    };
    let s = a as u32 + b as u32;
    let c2 = 2 * c as u32;
    let pc = if s > c2 {
        s - c2
    } else {
        c2 - s
    };
    if pc < pa && pc < pb {
        c
    } else if pb < pa {
        b
    } else {
        a
    }
}

/// What a filter adds to a byte, given its left (`a`), upper (`b`) and
/// upper-left (`c`) reconstructed neighbours.
pub open spec fn predictor(ft: PNGFilterType, a: u8, b: u8, c: u8) -> u8 {
    match ft {
        PNGFilterType::NoFilter => 0,
        PNGFilterType::Sub => a,
        PNGFilterType::Up => b,
        PNGFilterType::Average => ((a + b) / 2) as u8,
        PNGFilterType::Paeth => paeth_predictor(a, b, c),
    }
}

fn predict(ft: PNGFilterType, a: u8, b: u8, c: u8) -> (r: u8)
    ensures
        r == predictor(ft, a, b, c),
{
    match ft {
        PNGFilterType::NoFilter => 0,
        PNGFilterType::Sub => a,
        PNGFilterType::Up => b,
        PNGFilterType::Average => ((a as u16 + b as u16) / 2) as u8,
        PNGFilterType::Paeth => paeth(a, b, c),
    }
}

/// The reconstruction of the filtered scanline `line` whose predecessor,
/// already reconstructed, is `prev` (zeros for the first line), with `n`
/// bytes per pixel.
pub open spec fn unfilter_line(ft: PNGFilterType, line: Seq<u8>, prev: Seq<u8>, n: nat) -> Seq<u8>
    decreases line.len(),
{
    if line.len() == 0 {
        Seq::empty()
    } else {
        let k = line.len() - 1;
        let r = unfilter_line(ft, line.drop_last(), prev, n);
        let a: u8 = if k >= n {
            r[k - n]
        } else {
            0
        };
        let c: u8 = if k >= n {
            prev[k - n]
        } else {
            0
        };
        r.push(((line[k] + predictor(ft, a, prev[k], c)) % 256) as u8)
    }
}

proof fn lemma_unfilter_line_len(ft: PNGFilterType, line: Seq<u8>, prev: Seq<u8>, n: nat)
    ensures
        unfilter_line(ft, line, prev, n).len() == line.len(),
    decreases line.len(),
{
    if line.len() > 0 {
        lemma_unfilter_line_len(ft, line.drop_last(), prev, n);
    }
}

/// Reconstructs in place the scanline whose `cx` bytes start at `start` in
/// `data`; `prev` is the reconstructed line above it, all zeros for the first
/// line of the image.
fn unfilter_scanline(data: &mut Vec<u8>, start: usize, prev: &[u8], ft: PNGFilterType, n: usize, cx: usize)
    requires
        start + cx <= old(data)@.len(),
        prev@.len() == cx,
        n >= 1,
    ensures
        final(data)@ == old(data)@.take(start as int) + unfilter_line(
            ft,
            old(data)@.subrange(start as int, start + cx),
            prev@,
            n as nat,
        ) + old(data)@.skip(start + cx),
{
    let ghost d0 = data@;
    let ghost line = d0.subrange(start as int, start + cx);
    let len = data.len();
    assert(start + cx <= len);
    let mut i: usize = 0;
    while i < cx
        invariant
            i <= cx,
            n >= 1,
            start + cx <= d0.len(),
            data@.len() == d0.len(),
            start + cx <= usize::MAX,
            prev@.len() == cx,
            line == d0.subrange(start as int, start + cx),
            data@ == d0.take(start as int) + unfilter_line(ft, line.take(i as int), prev@, n as nat) + d0.skip(
                start + i,
            ),
        decreases cx - i,
    {
        proof {
            lemma_unfilter_line_len(ft, line.take(i as int), prev@, n as nat);
        }
        let a: u8 = if i >= n {
            data[start + i - n]
        } else {
            0
        };
        let c: u8 = if i >= n {
            prev[i - n]
        } else {
            0
        };
        let p = predict(ft, a, prev[i], c);
        let v = data[start + i];
        let ghost before = data@;
        data.set(start + i, v.wrapping_add(p));
        proof {
            let r = unfilter_line(ft, line.take(i as int), prev@, n as nat);
            assert(line.take(i + 1).drop_last() =~= line.take(i as int));
            assert(v == line[i as int]);
            if i >= n {
                assert(a == r[i - n]);
            }
            assert(v.wrapping_add(p) == ((line[i as int] + p) % 256) as u8);
            assert(data@ =~= d0.take(start as int) + unfilter_line(ft, line.take(i + 1), prev@, n as nat)
                + d0.skip(start + i + 1));
        }
        i = i + 1;
    }
    proof {
        assert(line.take(cx as int) =~= line);
        assert(d0.skip(start + cx) =~= d0.skip(start + cx));
    }
}

/// Reconstructs the first scanline of an image, which has zeros above it.
fn unfilter_scanline_0(data: &mut Vec<u8>, start: usize, ft: PNGFilterType, n: usize, cx: usize)
    requires
        start + cx <= old(data)@.len(),
        n >= 1,
    ensures
        final(data)@ == old(data)@.take(start as int) + unfilter_line(
            ft,
            old(data)@.subrange(start as int, start + cx),
            Seq::new(cx as nat, |i: int| 0u8),
            n as nat,
        ) + old(data)@.skip(start + cx),
{
    let mut zeros: Vec<u8> = Vec::new();
    while zeros.len() < cx
        invariant
            zeros@.len() <= cx,
            forall|i: int| 0 <= i < zeros@.len() ==> #[trigger] zeros@[i] == 0,
        decreases cx - zeros@.len(),
    {
        zeros.push(0);
    }
    proof {
        assert(zeros@ =~= Seq::new(cx as nat, |i: int| 0u8));
    }
    unfilter_scanline(data, start, zeros.as_slice(), ft, n, cx);
}

/// Reconstructs the scanline at `start` from the reconstructed line
/// `line_bytes` bytes before it.
fn unfilter_scanline_n(data: &mut Vec<u8>, start: usize, line_bytes: usize, ft: PNGFilterType, n: usize, cx: usize)
    requires
        line_bytes <= start,
        start + cx <= old(data)@.len(),
        cx <= line_bytes,
        n >= 1,
    ensures
        final(data)@ == old(data)@.take(start as int) + unfilter_line(
            ft,
            old(data)@.subrange(start as int, start + cx),
            old(data)@.subrange(start - line_bytes, start - line_bytes + cx),
            n as nat,
        ) + old(data)@.skip(start + cx),
{
    let prev = vstd::slice::slice_to_vec(&data.as_slice()[start - line_bytes..start - line_bytes + cx]);
    unfilter_scanline(data, start, prev.as_slice(), ft, n, cx);
}

/// The image data after the first `k` of its scanlines, `bpl` bytes each
/// (a filter byte, then the filtered bytes), have been reconstructed; `None`
/// when one of them names no filter.
pub open spec fn unfilter_rows(data: Seq<u8>, bpl: nat, n: nat, k: nat) -> Option<Seq<u8>>
    decreases k,
{
    if k == 0 {
        Some(data)
    } else {
        match unfilter_rows(data, bpl, n, (k - 1) as nat) {
            None => None,
            Some(d) => {
                let start = (k - 1) * bpl;
                match PNGFilterType::spec_from_u8(data[start]) {
                    None => None,
                    Some(ft) => {
                        let line = d.subrange(start + 1, start + bpl);
                        let prev = if k == 1 {
                            Seq::new((bpl - 1) as nat, |i: int| 0u8)
                        } else {
                            d.subrange(start - bpl + 1, start)
                        };
                        Some(d.take(start + 1) + unfilter_line(ft, line, prev, n) + d.skip(start + bpl))
                    },
                }
            },
        }
    }
}

/// Reconstructs the `cy` scanlines of `data`, `line_bytes` bytes each.
fn unfilter(data: &mut Vec<u8>, line_bytes: usize, cy: usize, n: usize) -> (r: Result<(), Error>)
    requires
        old(data)@.len() == cy * line_bytes,
        line_bytes >= 1,
        n >= 1,
    ensures
        (r is Ok) <==> unfilter_rows(old(data)@, line_bytes as nat, n as nat, cy as nat) is Some,
        r is Ok ==> unfilter_rows(old(data)@, line_bytes as nat, n as nat, cy as nat) == Some(final(data)@),
        r is Err ==> r == Err::<(), Error>(Error::InvalidFilterType),
{
    let ghost d0 = data@;
    let total = data.len();
    let mut row: usize = 0;
    let mut start: usize = 0;
    while row < cy
        invariant
            total == d0.len(),
            d0 == old(data)@,
            row <= cy,
            start == row * line_bytes,
            d0.len() == cy * line_bytes,
            line_bytes >= 1,
            n >= 1,
            data@.len() == d0.len(),
            unfilter_rows(d0, line_bytes as nat, n as nat, row as nat) == Some(data@),
            forall|i: int| start <= i < d0.len() ==> #[trigger] data@[i] == d0[i],
        decreases cy - row,
    {
        proof {
            assert(start + line_bytes <= cy * line_bytes) by (nonlinear_arith)
                requires
                    start == row * line_bytes,
                    row < cy,
            ;
            assert((row + 1) * line_bytes == start + line_bytes) by (nonlinear_arith)
                requires
                    start == row * line_bytes,
            ;
            assert(row >= 1 ==> start >= line_bytes) by (nonlinear_arith)
                requires
                    start == row * line_bytes,
            ;
        }
        let ghost before = data@;
        let ft = match PNGFilterType::from_u8(data[start]) {
            Ok(f) => f,
            Err(e) => {
                proof {
                    assert(data@[start as int] == d0[start as int]);
                    assert(((row + 1) - 1) * line_bytes == start);
                    assert(unfilter_rows(d0, line_bytes as nat, n as nat, (row + 1) as nat) is None);
                    lemma_unfilter_rows_none(d0, line_bytes as nat, n as nat, (row + 1) as nat, cy as nat);
                }
                return Err(e);
            },
        };
        if row == 0 {
            unfilter_scanline_0(data, start + 1, ft, n, line_bytes - 1);
        } else {
            unfilter_scanline_n(data, start + 1, line_bytes, ft, n, line_bytes - 1);
        }
        proof {
            assert(d0[start as int] == before[start as int]);
            if row == 0 {
                assert(Seq::new((line_bytes - 1) as nat, |i: int| 0u8) =~= Seq::new(
                    (line_bytes - 1) as nat,
                    |i: int| 0u8,
                ));
            }
            lemma_unfilter_line_len(
                ft,
                before.subrange(start + 1, start + line_bytes),
                if row == 0 {
                    Seq::new((line_bytes - 1) as nat, |i: int| 0u8)
                } else {
                    before.subrange(start - line_bytes + 1, start as int)
                },
                n as nat,
            );
        }
        row = row + 1;
        start = start + line_bytes;
    }
    Ok(())
}

proof fn lemma_unfilter_rows_none(data: Seq<u8>, bpl: nat, n: nat, k: nat, m: nat)
    requires
        k <= m,
        unfilter_rows(data, bpl, n, k) is None,
    ensures
        unfilter_rows(data, bpl, n, m) is None,
    decreases m - k,
{
    if k < m {
        lemma_unfilter_rows_none(data, bpl, n, k, (m - 1) as nat);
    }
}

/// A big-endian 32-bit number at `i`.
pub open spec fn be32(s: Seq<u8>, i: int) -> nat {
    (s[i] * 0x1000000 + s[i + 1] * 0x10000 + s[i + 2] * 0x100 + s[i + 3]) as nat
}

fn read_be32(s: &[u8], i: usize) -> (r: u32)
    requires
        i + 4 <= s@.len(),
    ensures
        r == be32(s@, i as int),
{
    (s[i] as u32) * 0x1000000 + (s[i + 1] as u32) * 0x10000 + (s[i + 2] as u32) * 0x100 + (s[i + 3] as u32)
}

pub const IHDR: u32 = 0x49484452;

pub const IDAT: u32 = 0x49444154;

pub const IEND: u32 = 0x49454E44;

pub const PLTE: u32 = 0x504C5445;

/// Bytes of the header chunk's data.
pub const IHDR_LEN: usize = 13;

/// Where the chunk after the header chunk starts.
pub const FIRST_CHUNK: usize = 33;

pub open spec fn png_signature() -> Seq<u8> {
    seq![137u8, 80, 78, 71, 13, 10, 26, 10]
}

/// The header of a PNG file: signature, then an `IHDR` chunk that describes
/// an image this reader supports.
pub open spec fn parse_header(png: Seq<u8>) -> Result<PNGChunkIHDR, Error> {
    if png.len() < 8 || png.take(8) != png_signature() {
        Err(Error::InvalidSignature)
    } else if png.len() < 16 {
        Err(Error::BufferUnderrun)
    } else if be32(png, 12) != IHDR {
        Err(Error::MissingIHDR)
    } else if be32(png, 8) != IHDR_LEN || png.len() < FIRST_CHUNK {
        Err(Error::BufferUnderrun)
    } else {
        match PNGColorType::spec_from_u8(png[25]) {
            None => Err(Error::InvalidColorFormat),
            Some(ct) => {
                let h = PNGChunkIHDR {
                    width: be32(png, 16) as usize,
                    height: be32(png, 20) as usize,
                    bit_depth: png[24] as usize,
                    color_type: ct,
                    compression: png[26],
                    filter: png[27],
                    interlace: png[28],
                };
                if h.width == 0 || h.height == 0 || h.bit_depth == 0 || h.compression != 0 || h.filter
                    != 0 || h.interlace > 1 {
                    Err(Error::InvalidFormat)
                } else if h.interlace != 0 || h.bit_depth > 8 {
                    Err(Error::UnsupportedFormat)
                } else {
                    Ok(h)
                }
            },
        }
    }
}

/// The palette entries stored in the `len` bytes at `d`.
pub open spec fn palette(png: Seq<u8>, d: int, len: nat) -> Seq<u32> {
    Seq::new(
        len / 3,
        |k: int| (png[d + 3 * k + 2] * 0x10000 + png[d + 3 * k + 1] * 0x100 + png[d + 3 * k]) as u32,
    )
}

/// The chunks from `pos` on up to `IEND`: the image data of the `IDAT`
/// chunks, in order, after `idat`, and the palette after `plte`.
#[verifier::opaque]
pub open spec fn walk_chunks(png: Seq<u8>, pos: int, idat: Seq<u8>, plte: Seq<u32>) -> Result<(Seq<u8>, Seq<u32>), Error>
    decreases png.len() - pos,
{
    if pos >= png.len() || pos < 0 {
        Err(Error::MissingIEND)
    } else if pos + 8 > png.len() {
        Err(Error::BufferUnderrun)
    } else {
        let len = be32(png, pos);
        let kind = be32(png, pos + 4);
        let d = pos + 8;
        if kind == IEND {
            Ok((idat, plte))
        } else if d + len + 4 > png.len() {
            Err(Error::BufferUnderrun)
        } else if kind == PLTE && (len % 3 != 0 || len > 768) {
            Err(Error::InvalidPalette)
        } else {
            let idat2 = if kind == IDAT {
                idat + png.subrange(d, d + len)
            } else {
                idat
            };
            let plte2 = if kind == PLTE {
                plte + palette(png, d, len)
            } else {
                plte
            };
            walk_chunks(png, d + len + 4, idat2, plte2)
        }
    }
}

/// Bytes per scanline, filter byte included, or `None` when that does not
/// fit in `usize`.
pub open spec fn line_bytes(h: PNGChunkIHDR) -> Option<usize> {
    let bpp = h.color_type.spec_channels() * h.bit_depth;
    if bpp > usize::MAX || h.width * bpp > usize::MAX {
        None
    } else {
        let bits = h.width * bpp;
        Some((bits / 8 + if bits % 8 != 0 { 1int } else { 0int } + 1) as usize)
    }
}

/// The image that the concatenated `IDAT` data `idat` holds: a zlib stream
/// (two header bytes, then DEFLATE data) of filtered scanlines.
/// `CompressionError` stands for every error of the decompressor, and for
/// data too long for its bit positions.
pub open spec fn decoded_image(idat: Seq<u8>, h: PNGChunkIHDR) -> Result<Seq<u8>, Error> {
    if idat.len() < 2 {
        Err(Error::InvalidIDAT)
    } else {
        let b0 = idat[0];
        let b1 = idat[1];
        if (b0 * 256 + b1) % 31 != 0 || b0 % 16 != 8 || b0 / 16 > 7 || (b1 / 32) % 2 != 0 {
            Err(Error::InvalidIDAT)
        } else {
            match line_bytes(h) {
                None => Err(Error::InvalidPng),
                Some(bpl) => {
                    if h.height * bpl > usize::MAX {
                        Err(Error::InvalidPng)
                    } else {
                        let size = (h.height * bpl) as nat;
                        if idat.len() > usize::MAX / 16 {
                            Err(Error::CompressionError)
                        } else {
                            match inflated(idat.skip(2), size) {
                                Err(_) => Err(Error::CompressionError),
                                Ok(raw) => {
                                    if raw.len() != size {
                                        Err(Error::InvalidPng)
                                    } else {
                                        match unfilter_rows(
                                            raw,
                                            bpl as nat,
                                            h.color_type.spec_channels() as nat,
                                            h.height as nat,
                                        ) {
                                            None => Err(Error::InvalidFilterType),
                                            Some(d) => Ok(d),
                                        }
                                    }
                                },
                            }
                        }
                    }
                },
            }
        }
    }
}

/// The image a PNG file holds: its header, its palette and its
/// reconstructed scanlines (each still led by its filter byte).
pub open spec fn png_contents(png: Seq<u8>) -> Result<(PNGChunkIHDR, Seq<u32>, Seq<u8>), Error> {
    match parse_header(png) {
        Err(e) => Err(e),
        Ok(h) => match walk_chunks(png, FIRST_CHUNK as int, Seq::empty(), Seq::empty()) {
            Err(e) => Err(e),
            Ok((idat, plte)) => match decoded_image(idat, h) {
                Err(e) => Err(e),
                Ok(d) => Ok((h, plte, d)),
            },
        },
    }
}

/// Checks the zlib framing of the image data, decompresses it and
/// reconstructs the scanlines; the result is exactly `decoded_image`.
fn decode_idat(idat: Vec<u8>, plte: Vec<u32>, ihdr: PNGChunkIHDR) -> (r: Result<
    (PNGChunkIHDR, Vec<u32>, Vec<u8>),
    Error,
>)
    ensures
        r matches Ok((h, p, d)) ==> h == ihdr && p@ == plte@ && decoded_image(idat@, ihdr) == Ok::<
            Seq<u8>,
            Error,
        >(d@),
        r matches Err(e) ==> decoded_image(idat@, ihdr) == Err::<
            Seq<u8>,
            Error,
        >(e),
{
    if idat.len() < 2 {
        return Err(Error::InvalidIDAT);
    }
    let b0 = idat[0];
    let b1 = idat[1];
    let check = ((b0 as usize) * 256 + (b1 as usize)) % 31;
    let cm = b0 % 16;
    let cinfo = b0 / 16;
    let fdict = (b1 / 32) % 2;
    if check != 0 || cm != 8 || cinfo > 7 || fdict != 0 {
        return Err(Error::InvalidIDAT);
    }
    let channels = ihdr.color_type.channels();
    let bpp = match channels.checked_mul(ihdr.bit_depth) {
        Some(v) => v,
        None => {
            return Err(Error::InvalidPng);
        },
    };
    let bits = match ihdr.width.checked_mul(bpp) {
        Some(v) => v,
        None => {
            return Err(Error::InvalidPng);
        },
    };
    let bpl = bits / 8 + if bits % 8 != 0 {
        1
    } else {
        0
    } + 1;
    let size = match ihdr.height.checked_mul(bpl) {
        Some(v) => v,
        None => {
            return Err(Error::InvalidPng);
        },
    };
    if idat.len() > usize::MAX / 16 {
        return Err(Error::CompressionError);
    }
    let mut data: Vec<u8> = vec![0u8; size];
    let payload = &idat.as_slice()[2..idat.len()];
    proof {
        assert(payload@ =~= idat@.skip(2));
    }
    let n = match inflate(data.as_mut_slice(), payload) {
        Ok(n) => n,
        Err(_) => {
            return Err(Error::CompressionError);
        },
    };
    if n != size {
        return Err(Error::InvalidPng);
    }
    proof {
        assert(data@.take(n as int) =~= data@);
    }
    unfilter(&mut data, bpl, ihdr.height, channels)?;
    Ok((ihdr, plte, data))
}

/// Reads a PNG image: its header, its palette and its reconstructed
/// scanlines, each still led by its filter byte. Chunk checksums are not
/// checked. The result is exactly `png_contents`; `CompressionError` stands
/// for every error of the decompressor.
pub fn png_read(png: &[u8]) -> (r: Result<(PNGChunkIHDR, Vec<u32>, Vec<u8>), Error>)
    ensures
        r matches Ok((h, p, d)) ==> png_contents(png@) == Ok::<
            (PNGChunkIHDR, Seq<u32>, Seq<u8>),
            Error,
        >((h, p@, d@)),
        r matches Err(e) ==> png_contents(png@) == Err::<
            (PNGChunkIHDR, Seq<u32>, Seq<u8>),
            Error,
        >(e),
{
    let signature: [u8; 8] = [137, 80, 78, 71, 13, 10, 26, 10];
    proof {
        assert(signature@ =~= png_signature());
    }
    if png.len() < 8 {
        return Err(Error::InvalidSignature);
    }
    let mut k: usize = 0;
    while k < 8
        invariant
            k <= 8,
            png@.len() >= 8,
            signature@ == png_signature(),
            forall|i: int| 0 <= i < k ==> #[trigger] png@[i] == signature@[i],
        decreases 8 - k,
    {
        if png[k] != signature[k] {
            proof {
                assert(png@.take(8)[k as int] != png_signature()[k as int]);
            }
            return Err(Error::InvalidSignature);
        }
        k = k + 1;
    }
    proof {
        assert(png@.take(8) =~= png_signature());
    }
    if png.len() < 16 {
        return Err(Error::BufferUnderrun);
    }
    if read_be32(png, 12) != IHDR {
        return Err(Error::MissingIHDR);
    }
    if read_be32(png, 8) as usize != IHDR_LEN || png.len() < FIRST_CHUNK {
        return Err(Error::BufferUnderrun);
    }
    let color_type = PNGColorType::from_u8(png[25])?;
    let ihdr = PNGChunkIHDR {
        width: read_be32(png, 16) as usize,
        height: read_be32(png, 20) as usize,
        bit_depth: png[24] as usize,
        color_type,
        compression: png[26],
        filter: png[27],
        interlace: png[28],
    };
    if ihdr.width == 0 || ihdr.height == 0 || ihdr.bit_depth == 0 || ihdr.compression != 0
        || ihdr.filter != 0 || ihdr.interlace > 1 {
        return Err(Error::InvalidFormat);
    }
    if ihdr.interlace != 0 || ihdr.bit_depth > 8 {
        return Err(Error::UnsupportedFormat);
    }
    let ghost header = ihdr;
    assert(parse_header(png@) == Ok::<PNGChunkIHDR, Error>(header));
    let mut idat: Vec<u8> = Vec::new();
    let mut plte: Vec<u32> = Vec::new();
    let mut pos: usize = FIRST_CHUNK;
    let ghost whole = walk_chunks(png@, FIRST_CHUNK as int, Seq::empty(), Seq::empty());
    proof {
        assert(idat@ =~= Seq::<u8>::empty());
        assert(plte@ =~= Seq::<u32>::empty());
    }
    loop
        invariant
            pos <= png@.len(),
            ihdr == header,
            parse_header(png@) == Ok::<PNGChunkIHDR, Error>(header),
            whole == walk_chunks(png@, FIRST_CHUNK as int, Seq::empty(), Seq::empty()),
            walk_chunks(png@, pos as int, idat@, plte@) == whole,
        decreases png@.len() - pos,
    {
        proof {
            reveal(walk_chunks);
        }
        if pos >= png.len() {
            return Err(Error::MissingIEND);
        }
        if png.len() - pos < 8 {
            return Err(Error::BufferUnderrun);
        }
        let len = read_be32(png, pos) as usize;
        let kind = read_be32(png, pos + 4);
        let d = pos + 8;
        if kind == IEND {
            return decode_idat(idat, plte, ihdr);
        }
        if len > png.len() - d || png.len() - d - len < 4 {
            return Err(Error::BufferUnderrun);
        }
        let ghost idat0 = idat@;
        let ghost plte0 = plte@;
        if kind == IDAT {
            let mut i: usize = 0;
            while i < len
                invariant
                    i <= len,
                    d + len <= png@.len(),
                    d + len <= usize::MAX,
                    idat@ == idat0 + png@.subrange(d as int, d + i),
                decreases len - i,
            {
                idat.push(png[d + i]);
                i = i + 1;
                proof {
                    assert(idat@ =~= idat0 + png@.subrange(d as int, d + i));
                }
            }
        } else if kind == PLTE {
            if len % 3 != 0 || len > 768 {
                return Err(Error::InvalidPalette);
            }
            let mut i: usize = 0;
            while i < len / 3
                invariant
                    i <= len / 3,
                    len % 3 == 0,
                    d + len <= png@.len(),
                    d + len <= usize::MAX,
                    plte@ == plte0 + palette(png@, d as int, (3 * i) as nat),
                decreases len / 3 - i,
            {
                let b = png[d + 3 * i] as u32;
                let g = png[d + 3 * i + 1] as u32;
                let r = png[d + 3 * i + 2] as u32;
                plte.push(r * 0x10000 + g * 0x100 + b);
                i = i + 1;
                proof {
                    assert(plte@ =~= plte0 + palette(png@, d as int, (3 * i) as nat));
                }
            }
            proof {
                assert(3 * (len / 3) == len);
            }
        }
        pos = d + len + 4;
    }
}

} // verus!
