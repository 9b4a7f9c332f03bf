use miniz::png_read::{paeth, png_read, Error, PNGColorType};


// Test images in the layout of the PngSuite files of the same names: 32x32
// pixels, greyscale at 1 and 4 bits and truecolour at 8 bits, the data split
// over two IDAT chunks and an ancillary chunk before them.
const BASN0G01_PNG: [u8; 109] = [
    0x89, 0x50, 0x4e, 0x47, 0x0d, 0x0a, 0x1a, 0x0a, 0x00, 0x00, 0x00, 0x0d, 0x49, 0x48, 0x44, 0x52,
    0x00, 0x00, 0x00, 0x20, 0x00, 0x00, 0x00, 0x20, 0x01, 0x00, 0x00, 0x00, 0x00, 0x5b, 0x01, 0x47,
    0x59, 0x00, 0x00, 0x00, 0x04, 0x67, 0x41, 0x4d, 0x41, 0x00, 0x01, 0x86, 0xa0, 0x31, 0xe8, 0x96,
    0x5f, 0x00, 0x00, 0x00, 0x0c, 0x49, 0x44, 0x41, 0x54, 0x78, 0xda, 0x63, 0xf8, 0xf0, 0xf0, 0xd2,
    0x61, 0x06, 0x34, 0x82, 0x5f, 0x06, 0x2d, 0x16, 0xbd, 0x00, 0x00, 0x00, 0x0c, 0x49, 0x44, 0x41,
    0x54, 0x4e, 0xd7, 0x06, 0x9d, 0x18, 0x20, 0x75, 0x00, 0xaf, 0xdb, 0x3f, 0xc1, 0x98, 0x2b, 0x2e,
    0x1f, 0x00, 0x00, 0x00, 0x00, 0x49, 0x45, 0x4e, 0x44, 0xae, 0x42, 0x60, 0x82,
];
const BASN2C08_PNG: [u8; 208] = [
    0x89, 0x50, 0x4e, 0x47, 0x0d, 0x0a, 0x1a, 0x0a, 0x00, 0x00, 0x00, 0x0d, 0x49, 0x48, 0x44, 0x52,
    0x00, 0x00, 0x00, 0x20, 0x00, 0x00, 0x00, 0x20, 0x08, 0x02, 0x00, 0x00, 0x00, 0xfc, 0x18, 0xed,
    0xa3, 0x00, 0x00, 0x00, 0x04, 0x67, 0x41, 0x4d, 0x41, 0x00, 0x01, 0x86, 0xa0, 0x31, 0xe8, 0x96,
    0x5f, 0x00, 0x00, 0x00, 0x3d, 0x49, 0x44, 0x41, 0x54, 0x78, 0xda, 0xb5, 0xcd, 0x11, 0x17, 0xc2,
    0x50, 0x18, 0x00, 0xd0, 0xef, 0xd9, 0xc3, 0x30, 0x0c, 0x87, 0xc3, 0x70, 0x38, 0x0c, 0xc3, 0x70,
    0x38, 0x1c, 0x0e, 0x87, 0xc3, 0xe1, 0x70, 0x18, 0x86, 0x61, 0x38, 0x0c, 0xc3, 0x70, 0x38, 0xab,
    0x5f, 0x71, 0xcf, 0xb9, 0x7e, 0x53, 0xc4, 0x2f, 0xc7, 0xee, 0xa4, 0xc8, 0x3a, 0x38, 0xe8, 0xe0,
    0xa8, 0x83, 0x93, 0x0e, 0x0a, 0x1d, 0xab, 0xb6, 0x27, 0x87, 0x00, 0x00, 0x00, 0x3e, 0x49, 0x44,
    0x41, 0x54, 0x94, 0x3a, 0x38, 0xeb, 0xa0, 0xd2, 0x41, 0xad, 0x83, 0x8b, 0x0e, 0xae, 0x3a, 0xb8,
    0xe9, 0xa0, 0xd1, 0x41, 0xab, 0x83, 0x4e, 0x07, 0xbd, 0x0e, 0x06, 0x1d, 0x8c, 0x3a, 0x98, 0x74,
    0x30, 0xeb, 0x60, 0xd1, 0xc1, 0x5d, 0x07, 0x0f, 0x1d, 0x3c, 0x75, 0xf0, 0xd2, 0xc1, 0xaa, 0x83,
    0xb7, 0x0e, 0x3e, 0x3a, 0xf8, 0xea, 0x60, 0xd3, 0xc1, 0x6e, 0x83, 0x3f, 0x35, 0x62, 0x0f, 0xbd,
    0xab, 0x88, 0xb9, 0xd4, 0x00, 0x00, 0x00, 0x00, 0x49, 0x45, 0x4e, 0x44, 0xae, 0x42, 0x60, 0x82,
];
const F99N0G04_PNG: [u8; 262] = [
    0x89, 0x50, 0x4e, 0x47, 0x0d, 0x0a, 0x1a, 0x0a, 0x00, 0x00, 0x00, 0x0d, 0x49, 0x48, 0x44, 0x52,
    0x00, 0x00, 0x00, 0x20, 0x00, 0x00, 0x00, 0x20, 0x04, 0x00, 0x00, 0x00, 0x00, 0x93, 0xe1, 0xc8,
    0x29, 0x00, 0x00, 0x00, 0x04, 0x67, 0x41, 0x4d, 0x41, 0x00, 0x01, 0x86, 0xa0, 0x31, 0xe8, 0x96,
    0x5f, 0x00, 0x00, 0x00, 0x58, 0x49, 0x44, 0x41, 0x54, 0x78, 0xda, 0x6d, 0x91, 0xb1, 0x15, 0xc2,
    0x30, 0x0c, 0x44, 0x25, 0xdb, 0x15, 0x9d, 0x5d, 0xa6, 0x94, 0x57, 0x60, 0x85, 0x94, 0xb4, 0x5e,
    0x21, 0x25, 0xad, 0x57, 0x60, 0x85, 0xac, 0x90, 0x15, 0xb2, 0x02, 0x2b, 0xb0, 0x42, 0x32, 0x02,
    0x58, 0x71, 0x40, 0xd2, 0x43, 0x45, 0x7e, 0xe1, 0x7b, 0xf7, 0xee, 0x2e, 0x80, 0x79, 0x9c, 0x1e,
    0xcb, 0x73, 0xfb, 0x32, 0x11, 0x5f, 0x07, 0x25, 0x17, 0xcd, 0xf9, 0x3c, 0xb4, 0xbb, 0xcc, 0x43,
    0x67, 0xe8, 0x0f, 0x74, 0x12, 0x4a, 0x9d, 0xd7, 0xd7, 0x9e, 0xae, 0x27, 0x71, 0x52, 0x96, 0x44,
    0x6c, 0x15, 0x6a, 0x1d, 0x5a, 0x00, 0x00, 0x00, 0x59, 0x49, 0x44, 0x41, 0x54, 0x8a, 0x5d, 0xdf,
    0xe8, 0x6f, 0x1f, 0xab, 0x74, 0x38, 0x32, 0x83, 0x11, 0x44, 0x90, 0x21, 0x1b, 0x71, 0x95, 0x8e,
    0xd4, 0x4d, 0x55, 0xd2, 0xfa, 0x0b, 0xc9, 0x08, 0x22, 0x24, 0x7f, 0x41, 0x84, 0x64, 0x22, 0x92,
    0xee, 0xef, 0x64, 0x86, 0x46, 0x2f, 0x42, 0x32, 0x83, 0x11, 0x44, 0x30, 0x8b, 0x66, 0x2c, 0xff,
    0xea, 0xab, 0xa4, 0xa3, 0x5a, 0xf4, 0xa8, 0xaf, 0xc2, 0x82, 0x5e, 0xb4, 0x54, 0x5c, 0x48, 0xf7,
    0x77, 0x66, 0xb0, 0xe8, 0xef, 0x6a, 0xd1, 0x66, 0xaa, 0x05, 0x11, 0x36, 0xf3, 0xfb, 0x71, 0x37,
    0xf5, 0xdf, 0x92, 0x78, 0x61, 0x97, 0x3a, 0x58, 0xf9, 0x1f, 0x00, 0x00, 0x00, 0x00, 0x49, 0x45,
    0x4e, 0x44, 0xae, 0x42, 0x60, 0x82,
];

/// The reconstructed image: each row led by its filter byte.
fn image(rows: &[Vec<u8>], filters: &[u8]) -> Vec<u8> {
    let mut out = Vec::new();
    for (row, f) in rows.iter().zip(filters.iter()) {
        out.push(*f);
        out.extend_from_slice(row);
    }
    out
}

fn basn0g01_rows() -> Vec<Vec<u8>> {
    (0..32)
        .map(|y: u32| {
            (0..4u32)
                .map(|x| (if (y / 4) % 2 == 0 { 0xF0u8 } else { 0x0F }) ^ (x as u8 * 0x11))
                .collect()
        })
        .collect()
}

fn basn2c08_rows() -> Vec<Vec<u8>> {
    (0..32u32)
        .map(|y| {
            let mut row = Vec::new();
            for x in 0..32u32 {
                row.push((x * 8) as u8);
                row.push((y * 8) as u8);
                row.push((255 - x * 8) as u8);
            }
            row
        })
        .collect()
}

fn f99n0g04_rows() -> Vec<Vec<u8>> {
    (0..32u32)
        .map(|y| {
            (0..16u32)
                .map(|x| ((((x * 2 + y) & 15) << 4) | ((x * 2 + 1 + y) & 15)) as u8)
                .collect()
        })
        .collect()
}

#[test]
fn test_paeth() {
    assert_eq!(paeth(10, 20, 30), 10);
    assert_eq!(paeth(20, 10, 30), 10);
    assert_eq!(paeth(30, 10, 20), 20);
    assert_eq!(paeth(30, 20, 10), 30);
    assert_eq!(paeth(10, 20, 50), 10);
    assert_eq!(paeth(210, 220, 250), 210);
    assert_eq!(paeth(210, 220, 0), 220);
}

#[test]
fn test_basn0g01() {
    let (png, plte, data) = png_read(&BASN0G01_PNG).unwrap();
    assert_eq!(png.width, 32, "width");
    assert_eq!(plte.len(), 0, "palette");
    assert_eq!(data, image(&basn0g01_rows(), &[0; 32]), "data")
}

#[test]
fn test_basn2c08() {
    let (png, plte, data) = png_read(&BASN2C08_PNG).unwrap();
    assert_eq!(png.width, 32, "width");
    assert_eq!(plte.len(), 0, "palette");
    assert_eq!(data, image(&basn2c08_rows(), &[1; 32]), "data");
}

#[test]
fn test_f99n0g04() {
    let (png, plte, data) = png_read(&F99N0G04_PNG).unwrap();
    assert_eq!(png.width, 32, "width");
    assert_eq!(plte.len(), 0, "palette");
    let filters: Vec<u8> = (0..32u8).map(|y| y % 5).collect();
    assert_eq!(data, image(&f99n0g04_rows(), &filters), "data");
}

#[test]
fn header_fields_are_read() {
    let (png, _, _) = png_read(&BASN2C08_PNG).unwrap();
    assert_eq!(png.height, 32);
    assert_eq!(png.bit_depth, 8);
    assert_eq!(png.color_type, PNGColorType::TrueColor);
    assert_eq!(png.color_type.channels(), 3);
    assert_eq!(png.interlace, 0);
}

#[test]
fn bad_signature_is_rejected() {
    assert_eq!(png_read(&[0x89, 0x50]).err(), Some(Error::InvalidSignature));
    let mut bad = BASN0G01_PNG.to_vec();
    bad[1] = b'Q';
    assert_eq!(png_read(&bad).err(), Some(Error::InvalidSignature));
}

#[test]
fn missing_header_chunk_is_rejected() {
    let mut bad = BASN0G01_PNG.to_vec();
    bad[12] = b'X';
    assert_eq!(png_read(&bad).err(), Some(Error::MissingIHDR));
    assert_eq!(png_read(&BASN0G01_PNG[..12]).err(), Some(Error::BufferUnderrun));
}

#[test]
fn missing_end_chunk_is_rejected() {
    let len = BASN0G01_PNG.len();
    assert_eq!(png_read(&BASN0G01_PNG[..len - 12]).err(), Some(Error::MissingIEND));
}

#[test]
fn unsupported_and_invalid_headers() {
    let mut bad = BASN0G01_PNG.to_vec();
    bad[25] = 5;
    assert_eq!(png_read(&bad).err(), Some(Error::InvalidColorFormat));
    let mut bad = BASN0G01_PNG.to_vec();
    bad[28] = 1;
    assert_eq!(png_read(&bad).err(), Some(Error::UnsupportedFormat));
    let mut bad = BASN0G01_PNG.to_vec();
    bad[26] = 1;
    assert_eq!(png_read(&bad).err(), Some(Error::InvalidFormat));
}

#[test]
fn bad_zlib_header_is_rejected() {
    // first IDAT chunk data starts after signature, IHDR (25 bytes) and gAMA (16 bytes)
    let mut bad = BASN0G01_PNG.to_vec();
    bad[8 + 25 + 16 + 8] = 0x79;
    assert_eq!(png_read(&bad).err(), Some(Error::InvalidIDAT));
}

fn chunk(kind: &[u8; 4], data: &[u8]) -> Vec<u8> {
    let mut c = (data.len() as u32).to_be_bytes().to_vec();
    c.extend_from_slice(kind);
    c.extend_from_slice(data);
    c.extend_from_slice(&[0, 0, 0, 0]);
    c
}

/// A PNG file whose image data is `raw` in one stored DEFLATE block.
fn stored_png(width: u32, height: u32, depth: u8, color: u8, extra: &[Vec<u8>], raw: &[u8]) -> Vec<u8> {
    let mut png = vec![0x89, b'P', b'N', b'G', 0x0d, 0x0a, 0x1a, 0x0a];
    let mut ihdr = width.to_be_bytes().to_vec();
    ihdr.extend_from_slice(&height.to_be_bytes());
    ihdr.extend_from_slice(&[depth, color, 0, 0, 0]);
    png.extend(chunk(b"IHDR", &ihdr));
    for c in extra {
        png.extend_from_slice(c);
    }
    let mut z = vec![0x78, 0x01, 0x01];
    z.extend_from_slice(&(raw.len() as u16).to_le_bytes());
    z.extend_from_slice(&(!(raw.len() as u16)).to_le_bytes());
    z.extend_from_slice(raw);
    z.extend_from_slice(&[0, 0, 0, 0]);
    png.extend(chunk(b"IDAT", &z));
    png.extend(chunk(b"IEND", &[]));
    png
}

#[test]
fn filters_are_undone() {
    // 3x2 greyscale: Average on the first row (no row above), Paeth below it
    let raw = [3, 10, 5, 5, 4, 1, 1, 1];
    let (_, _, data) = png_read(&stored_png(3, 2, 8, 0, &[], &raw)).unwrap();
    assert_eq!(data, vec![3, 10, 10, 10, 4, 11, 12, 13]);
}

#[test]
fn unknown_filter_is_rejected() {
    let raw = [5, 1, 2, 3];
    assert_eq!(
        png_read(&stored_png(3, 1, 8, 0, &[], &raw)).err(),
        Some(Error::InvalidFilterType)
    );
}

#[test]
fn palette_is_read() {
    let plte = chunk(b"PLTE", &[1, 2, 3, 0x10, 0x20, 0x30]);
    let (h, plte, data) = png_read(&stored_png(2, 1, 8, 3, &[plte], &[0, 0, 1])).unwrap();
    assert_eq!(h.color_type, PNGColorType::IndexedColor);
    assert_eq!(plte, vec![0x030201, 0x302010]);
    assert_eq!(data, vec![0, 0, 1]);
}

#[test]
fn bad_palette_is_rejected() {
    let plte = chunk(b"PLTE", &[1, 2, 3, 4]);
    assert_eq!(
        png_read(&stored_png(2, 1, 8, 3, &[plte], &[0, 0, 1])).err(),
        Some(Error::InvalidPalette)
    );
}

#[test]
fn short_image_data_is_rejected() {
    // two rows announced, one stored
    assert_eq!(
        png_read(&stored_png(2, 2, 8, 0, &[], &[0, 7, 7])).err(),
        Some(Error::InvalidPng)
    );
}
