use miniz::zip_read::{zip_open, zip_read, Error};

// Test archives in the layout of the libzip regression files of the same
// names: comments on the entries and on the archive, deflated entries, a
// folder entry, and a file name in UTF-8.
const COMMENTS_ZIP: [u8; 483] = [
    0x50, 0x4b, 0x03, 0x04, 0x14, 0x00, 0x00, 0x00, 0x00, 0x00, 0x00, 0x00, 0x21, 0x00, 0x8f, 0x72,
    0x33, 0x1f, 0x12, 0x00, 0x00, 0x00, 0x12, 0x00, 0x00, 0x00, 0x05, 0x00, 0x00, 0x00, 0x66, 0x69,
    0x6c, 0x65, 0x31, 0x54, 0x68, 0x69, 0x73, 0x20, 0x69, 0x73, 0x20, 0x66, 0x69, 0x6c, 0x65, 0x20,
    0x6f, 0x6e, 0x65, 0x2e, 0x0a, 0x50, 0x4b, 0x03, 0x04, 0x14, 0x00, 0x00, 0x00, 0x00, 0x00, 0x00,
    0x00, 0x21, 0x00, 0x7c, 0x26, 0x2d, 0x90, 0x1b, 0x00, 0x00, 0x00, 0x1b, 0x00, 0x00, 0x00, 0x05,
    0x00, 0x00, 0x00, 0x66, 0x69, 0x6c, 0x65, 0x32, 0x46, 0x69, 0x6c, 0x65, 0x20, 0x74, 0x77, 0x6f,
    0x20, 0x68, 0x6f, 0x6c, 0x64, 0x73, 0x20, 0x6f, 0x74, 0x68, 0x65, 0x72, 0x20, 0x74, 0x65, 0x78,
    0x74, 0x2e, 0x0a, 0x50, 0x4b, 0x03, 0x04, 0x14, 0x00, 0x00, 0x00, 0x00, 0x00, 0x00, 0x00, 0x21,
    0x00, 0xbf, 0xa4, 0x73, 0x21, 0x1e, 0x00, 0x00, 0x00, 0x1e, 0x00, 0x00, 0x00, 0x05, 0x00, 0x00,
    0x00, 0x66, 0x69, 0x6c, 0x65, 0x33, 0x74, 0x68, 0x69, 0x72, 0x64, 0x0a, 0x74, 0x68, 0x69, 0x72,
    0x64, 0x0a, 0x74, 0x68, 0x69, 0x72, 0x64, 0x0a, 0x74, 0x68, 0x69, 0x72, 0x64, 0x0a, 0x74, 0x68,
    0x69, 0x72, 0x64, 0x0a, 0x50, 0x4b, 0x03, 0x04, 0x14, 0x00, 0x00, 0x00, 0x00, 0x00, 0x00, 0x00,
    0x21, 0x00, 0x00, 0x00, 0x00, 0x00, 0x00, 0x00, 0x00, 0x00, 0x00, 0x00, 0x00, 0x00, 0x05, 0x00,
    0x00, 0x00, 0x66, 0x69, 0x6c, 0x65, 0x34, 0x50, 0x4b, 0x01, 0x02, 0x14, 0x03, 0x14, 0x00, 0x00,
    0x00, 0x00, 0x00, 0x00, 0x00, 0x21, 0x00, 0x8f, 0x72, 0x33, 0x1f, 0x12, 0x00, 0x00, 0x00, 0x12,
    0x00, 0x00, 0x00, 0x05, 0x00, 0x00, 0x00, 0x0d, 0x00, 0x00, 0x00, 0x00, 0x00, 0x00, 0x00, 0x80,
    0x01, 0x00, 0x00, 0x00, 0x00, 0x66, 0x69, 0x6c, 0x65, 0x31, 0x66, 0x69, 0x72, 0x73, 0x74, 0x20,
    0x63, 0x6f, 0x6d, 0x6d, 0x65, 0x6e, 0x74, 0x50, 0x4b, 0x01, 0x02, 0x14, 0x03, 0x14, 0x00, 0x00,
    0x00, 0x00, 0x00, 0x00, 0x00, 0x21, 0x00, 0x7c, 0x26, 0x2d, 0x90, 0x1b, 0x00, 0x00, 0x00, 0x1b,
    0x00, 0x00, 0x00, 0x05, 0x00, 0x00, 0x00, 0x06, 0x00, 0x00, 0x00, 0x00, 0x00, 0x00, 0x00, 0x80,
    0x01, 0x35, 0x00, 0x00, 0x00, 0x66, 0x69, 0x6c, 0x65, 0x32, 0x73, 0x65, 0x63, 0x6f, 0x6e, 0x64,
    0x50, 0x4b, 0x01, 0x02, 0x14, 0x03, 0x14, 0x00, 0x00, 0x00, 0x00, 0x00, 0x00, 0x00, 0x21, 0x00,
    0xbf, 0xa4, 0x73, 0x21, 0x1e, 0x00, 0x00, 0x00, 0x1e, 0x00, 0x00, 0x00, 0x05, 0x00, 0x00, 0x00,
    0x00, 0x00, 0x00, 0x00, 0x00, 0x00, 0x00, 0x00, 0x80, 0x01, 0x73, 0x00, 0x00, 0x00, 0x66, 0x69,
    0x6c, 0x65, 0x33, 0x50, 0x4b, 0x01, 0x02, 0x14, 0x03, 0x14, 0x00, 0x00, 0x00, 0x00, 0x00, 0x00,
    0x00, 0x21, 0x00, 0x00, 0x00, 0x00, 0x00, 0x00, 0x00, 0x00, 0x00, 0x00, 0x00, 0x00, 0x00, 0x05,
    0x00, 0x00, 0x00, 0x08, 0x00, 0x00, 0x00, 0x00, 0x00, 0x00, 0x00, 0x80, 0x01, 0xb4, 0x00, 0x00,
    0x00, 0x66, 0x69, 0x6c, 0x65, 0x34, 0x6c, 0x61, 0x73, 0x74, 0x20, 0x6f, 0x6e, 0x65, 0x50, 0x4b,
    0x05, 0x06, 0x00, 0x00, 0x00, 0x00, 0x04, 0x00, 0x04, 0x00, 0xe7, 0x00, 0x00, 0x00, 0xd7, 0x00,
    0x00, 0x00, 0x0f, 0x00, 0x61, 0x72, 0x63, 0x68, 0x69, 0x76, 0x65, 0x20, 0x63, 0x6f, 0x6d, 0x6d,
    0x65, 0x6e, 0x74,
];
const DEFLATED_ZIP: [u8; 504] = [
    0x50, 0x4b, 0x03, 0x04, 0x14, 0x00, 0x00, 0x00, 0x08, 0x00, 0x00, 0x00, 0x21, 0x00, 0x70, 0xa0,
    0x12, 0x29, 0x1e, 0x00, 0x00, 0x00, 0xcb, 0x00, 0x00, 0x00, 0x05, 0x00, 0x00, 0x00, 0x66, 0x69,
    0x72, 0x73, 0x74, 0x4b, 0xcb, 0x2c, 0x2a, 0x2e, 0x51, 0x48, 0xcb, 0xcc, 0x49, 0xd5, 0x51, 0x48,
    0x49, 0x4d, 0xcb, 0x49, 0x2c, 0x49, 0x4d, 0xb1, 0x52, 0x48, 0x4c, 0x4a, 0x1e, 0x72, 0x88, 0x0b,
    0x00, 0x50, 0x4b, 0x03, 0x04, 0x14, 0x00, 0x00, 0x00, 0x08, 0x00, 0x00, 0x00, 0x21, 0x00, 0x2a,
    0xdf, 0xc0, 0xb0, 0x16, 0x01, 0x00, 0x00, 0x00, 0x03, 0x00, 0x00, 0x06, 0x00, 0x00, 0x00, 0x73,
    0x65, 0x63, 0x6f, 0x6e, 0x64, 0x63, 0x60, 0x64, 0x62, 0x66, 0x61, 0x65, 0x63, 0xe7, 0xe0, 0xe4,
    0xe2, 0xe6, 0xe1, 0xe5, 0xe3, 0x17, 0x10, 0x14, 0x12, 0x16, 0x11, 0x15, 0x13, 0x97, 0x90, 0x94,
    0x92, 0x96, 0x91, 0x95, 0x93, 0x57, 0x50, 0x54, 0x52, 0x56, 0x51, 0x55, 0x53, 0xd7, 0xd0, 0xd4,
    0xd2, 0xd6, 0xd1, 0xd5, 0xd3, 0x37, 0x30, 0x34, 0x32, 0x36, 0x31, 0x35, 0x33, 0xb7, 0xb0, 0xb4,
    0xb2, 0xb6, 0xb1, 0xb5, 0xb3, 0x77, 0x70, 0x74, 0x72, 0x76, 0x71, 0x75, 0x73, 0xf7, 0xf0, 0xf4,
    0xf2, 0xf6, 0xf1, 0xf5, 0xf3, 0x0f, 0x08, 0x0c, 0x0a, 0x0e, 0x09, 0x0d, 0x0b, 0x8f, 0x88, 0x8c,
    0x8a, 0x8e, 0x89, 0x8d, 0x8b, 0x4f, 0x48, 0x4c, 0x4a, 0x4e, 0x49, 0x4d, 0x4b, 0xcf, 0xc8, 0xcc,
    0xca, 0xce, 0xc9, 0xcd, 0xcb, 0x2f, 0x28, 0x2c, 0x2a, 0x2e, 0x29, 0x2d, 0x2b, 0xaf, 0xa8, 0xac,
    0xaa, 0xae, 0xa9, 0xad, 0xab, 0x6f, 0x68, 0x6c, 0x6a, 0x6e, 0x69, 0x6d, 0x6b, 0xef, 0xe8, 0xec,
    0xea, 0xee, 0xe9, 0xed, 0xeb, 0x9f, 0x30, 0x71, 0xd2, 0xe4, 0x29, 0x53, 0xa7, 0x4d, 0x9f, 0x31,
    0x73, 0xd6, 0xec, 0x39, 0x73, 0xe7, 0xcd, 0x5f, 0xb0, 0x70, 0xd1, 0xe2, 0x25, 0x4b, 0x97, 0x2d,
    0x5f, 0xb1, 0x72, 0xd5, 0xea, 0x35, 0x6b, 0xd7, 0xad, 0xdf, 0xb0, 0x71, 0xd3, 0xe6, 0x2d, 0x5b,
    0xb7, 0x6d, 0xdf, 0xb1, 0x73, 0xd7, 0xee, 0x3d, 0x7b, 0xf7, 0xed, 0x3f, 0x70, 0xf0, 0xd0, 0xe1,
    0x23, 0x47, 0x8f, 0x1d, 0x3f, 0x71, 0xf2, 0xd4, 0xe9, 0x33, 0x67, 0xcf, 0x9d, 0xbf, 0x70, 0xf1,
    0xd2, 0xe5, 0x2b, 0x57, 0xaf, 0x5d, 0xbf, 0x71, 0xf3, 0xd6, 0xed, 0x3b, 0x77, 0xef, 0xdd, 0x7f,
    0xf0, 0xf0, 0xd1, 0xe3, 0x27, 0x4f, 0x9f, 0x3d, 0x7f, 0xf1, 0xf2, 0xd5, 0xeb, 0x37, 0x6f, 0xdf,
    0xbd, 0xff, 0xf0, 0xf1, 0xd3, 0xe7, 0x2f, 0x5f, 0xbf, 0x7d, 0xff, 0xf1, 0xf3, 0xd7, 0xef, 0x3f,
    0x7f, 0xff, 0xfd, 0x67, 0x18, 0xf5, 0xff, 0x88, 0xf6, 0x3f, 0x00, 0x50, 0x4b, 0x01, 0x02, 0x14,
    0x03, 0x14, 0x00, 0x00, 0x00, 0x08, 0x00, 0x00, 0x00, 0x21, 0x00, 0x70, 0xa0, 0x12, 0x29, 0x1e,
    0x00, 0x00, 0x00, 0xcb, 0x00, 0x00, 0x00, 0x05, 0x00, 0x00, 0x00, 0x00, 0x00, 0x00, 0x00, 0x00,
    0x00, 0x00, 0x00, 0x80, 0x01, 0x00, 0x00, 0x00, 0x00, 0x66, 0x69, 0x72, 0x73, 0x74, 0x50, 0x4b,
    0x01, 0x02, 0x14, 0x03, 0x14, 0x00, 0x00, 0x00, 0x08, 0x00, 0x00, 0x00, 0x21, 0x00, 0x2a, 0xdf,
    0xc0, 0xb0, 0x16, 0x01, 0x00, 0x00, 0x00, 0x03, 0x00, 0x00, 0x06, 0x00, 0x00, 0x00, 0x00, 0x00,
    0x00, 0x00, 0x00, 0x00, 0x00, 0x00, 0x80, 0x01, 0x41, 0x00, 0x00, 0x00, 0x73, 0x65, 0x63, 0x6f,
    0x6e, 0x64, 0x50, 0x4b, 0x05, 0x06, 0x00, 0x00, 0x00, 0x00, 0x02, 0x00, 0x02, 0x00, 0x67, 0x00,
    0x00, 0x00, 0x7b, 0x01, 0x00, 0x00, 0x00, 0x00,
];
const FOLDER_ZIP: [u8; 314] = [
    0x50, 0x4b, 0x03, 0x04, 0x14, 0x00, 0x00, 0x00, 0x08, 0x00, 0x00, 0x00, 0x21, 0x00, 0xc6, 0x35,
    0xb9, 0x3b, 0x07, 0x00, 0x00, 0x00, 0x05, 0x00, 0x00, 0x00, 0x04, 0x00, 0x00, 0x00, 0x74, 0x65,
    0x73, 0x74, 0x2b, 0x49, 0x2d, 0x2e, 0xe1, 0x02, 0x00, 0x50, 0x4b, 0x03, 0x04, 0x14, 0x00, 0x00,
    0x00, 0x00, 0x00, 0x00, 0x00, 0x21, 0x00, 0x00, 0x00, 0x00, 0x00, 0x00, 0x00, 0x00, 0x00, 0x00,
    0x00, 0x00, 0x00, 0x08, 0x00, 0x00, 0x00, 0x74, 0x65, 0x73, 0x74, 0x64, 0x69, 0x72, 0x2f, 0x50,
    0x4b, 0x03, 0x04, 0x14, 0x00, 0x00, 0x00, 0x08, 0x00, 0x00, 0x00, 0x21, 0x00, 0xc6, 0x35, 0xb9,
    0x3b, 0x07, 0x00, 0x00, 0x00, 0x05, 0x00, 0x00, 0x00, 0x0d, 0x00, 0x00, 0x00, 0x74, 0x65, 0x73,
    0x74, 0x64, 0x69, 0x72, 0x2f, 0x74, 0x65, 0x73, 0x74, 0x32, 0x2b, 0x49, 0x2d, 0x2e, 0xe1, 0x02,
    0x00, 0x50, 0x4b, 0x01, 0x02, 0x14, 0x03, 0x14, 0x00, 0x00, 0x00, 0x08, 0x00, 0x00, 0x00, 0x21,
    0x00, 0xc6, 0x35, 0xb9, 0x3b, 0x07, 0x00, 0x00, 0x00, 0x05, 0x00, 0x00, 0x00, 0x04, 0x00, 0x00,
    0x00, 0x00, 0x00, 0x00, 0x00, 0x00, 0x00, 0x00, 0x00, 0x80, 0x01, 0x00, 0x00, 0x00, 0x00, 0x74,
    0x65, 0x73, 0x74, 0x50, 0x4b, 0x01, 0x02, 0x14, 0x03, 0x14, 0x00, 0x00, 0x00, 0x00, 0x00, 0x00,
    0x00, 0x21, 0x00, 0x00, 0x00, 0x00, 0x00, 0x00, 0x00, 0x00, 0x00, 0x00, 0x00, 0x00, 0x00, 0x08,
    0x00, 0x00, 0x00, 0x00, 0x00, 0x00, 0x00, 0x00, 0x00, 0x00, 0x00, 0x80, 0x01, 0x29, 0x00, 0x00,
    0x00, 0x74, 0x65, 0x73, 0x74, 0x64, 0x69, 0x72, 0x2f, 0x50, 0x4b, 0x01, 0x02, 0x14, 0x03, 0x14,
    0x00, 0x00, 0x00, 0x08, 0x00, 0x00, 0x00, 0x21, 0x00, 0xc6, 0x35, 0xb9, 0x3b, 0x07, 0x00, 0x00,
    0x00, 0x05, 0x00, 0x00, 0x00, 0x0d, 0x00, 0x00, 0x00, 0x00, 0x00, 0x00, 0x00, 0x00, 0x00, 0x00,
    0x00, 0x80, 0x01, 0x4f, 0x00, 0x00, 0x00, 0x74, 0x65, 0x73, 0x74, 0x64, 0x69, 0x72, 0x2f, 0x74,
    0x65, 0x73, 0x74, 0x32, 0x50, 0x4b, 0x05, 0x06, 0x00, 0x00, 0x00, 0x00, 0x03, 0x00, 0x03, 0x00,
    0xa3, 0x00, 0x00, 0x00, 0x81, 0x00, 0x00, 0x00, 0x00, 0x00,
];
const UTF8_ZIP: [u8; 132] = [
    0x50, 0x4b, 0x03, 0x04, 0x14, 0x00, 0x00, 0x08, 0x08, 0x00, 0x00, 0x00, 0x21, 0x00, 0x6d, 0xaf,
    0x49, 0x5b, 0x0a, 0x00, 0x00, 0x00, 0x08, 0x00, 0x00, 0x00, 0x0c, 0x00, 0x00, 0x00, 0xc3, 0xa4,
    0xc3, 0xb6, 0xc3, 0xbc, 0xc3, 0x9f, 0x2e, 0x74, 0x78, 0x74, 0x2b, 0xcd, 0xcd, 0x49, 0x2c, 0x2d,
    0x29, 0xe6, 0x02, 0x00, 0x50, 0x4b, 0x01, 0x02, 0x14, 0x03, 0x14, 0x00, 0x00, 0x08, 0x08, 0x00,
    0x00, 0x00, 0x21, 0x00, 0x6d, 0xaf, 0x49, 0x5b, 0x0a, 0x00, 0x00, 0x00, 0x08, 0x00, 0x00, 0x00,
    0x0c, 0x00, 0x00, 0x00, 0x00, 0x00, 0x00, 0x00, 0x00, 0x00, 0x00, 0x00, 0x80, 0x01, 0x00, 0x00,
    0x00, 0x00, 0xc3, 0xa4, 0xc3, 0xb6, 0xc3, 0xbc, 0xc3, 0x9f, 0x2e, 0x74, 0x78, 0x74, 0x50, 0x4b,
    0x05, 0x06, 0x00, 0x00, 0x00, 0x00, 0x01, 0x00, 0x01, 0x00, 0x3a, 0x00, 0x00, 0x00, 0x34, 0x00,
    0x00, 0x00, 0x00, 0x00,
];

const FILE1: &[u8] = b"This is file one.\n";
const FILE2: &[u8] = b"File two holds other text.\n";
const FILE4: &[u8] = b"";
const TEST: &[u8] = b"test\n";
const UTF8_NAME: &str = "\u{e4}\u{f6}\u{fc}\u{df}.txt";

fn third_contents() -> Vec<u8> {
    b"third\n".repeat(5)
}

fn first() -> Vec<u8> {
    let mut v = b"first file, deflated: ".to_vec();
    v.extend_from_slice(&b"abcabcabc".repeat(20));
    v.push(b'\n');
    v
}

fn second() -> Vec<u8> {
    (0..768u32).map(|i| (i % 256) as u8).collect()
}

/// An archive with one stored file whose name is `name` and whose
/// compression method is `method`.
fn one_file_zip(name: &[u8], method: u16, contents: &[u8]) -> Vec<u8> {
    let mut z = Vec::new();
    z.extend_from_slice(&[0x50, 0x4b, 0x03, 0x04, 20, 0, 0, 0]);
    z.extend_from_slice(&method.to_le_bytes());
    z.extend_from_slice(&[0; 8]);
    z.extend_from_slice(&(contents.len() as u32).to_le_bytes());
    z.extend_from_slice(&(contents.len() as u32).to_le_bytes());
    z.extend_from_slice(&(name.len() as u16).to_le_bytes());
    z.extend_from_slice(&[0, 0]);
    z.extend_from_slice(name);
    z.extend_from_slice(contents);
    let cd_offset = z.len();
    z.extend_from_slice(&[0x50, 0x4b, 0x01, 0x02, 20, 0, 20, 0, 0, 0]);
    z.extend_from_slice(&method.to_le_bytes());
    z.extend_from_slice(&[0; 8]);
    z.extend_from_slice(&(contents.len() as u32).to_le_bytes());
    z.extend_from_slice(&(contents.len() as u32).to_le_bytes());
    z.extend_from_slice(&(name.len() as u16).to_le_bytes());
    z.extend_from_slice(&[0; 12]);
    z.extend_from_slice(&0u32.to_le_bytes());
    z.extend_from_slice(name);
    let cd_size = z.len() - cd_offset;
    z.extend_from_slice(&[0x50, 0x4b, 0x05, 0x06, 0, 0, 0, 0, 1, 0, 1, 0]);
    z.extend_from_slice(&(cd_size as u32).to_le_bytes());
    z.extend_from_slice(&(cd_offset as u32).to_le_bytes());
    z.extend_from_slice(&[0, 0]);
    z
}

#[test]
fn test_comments_zip() {
    let zip = zip_open(&COMMENTS_ZIP).unwrap();
    assert_eq!(zip.len(), 4);
    let file1 = zip_read(&COMMENTS_ZIP, &zip, "file1").unwrap();
    let file2 = zip_read(&COMMENTS_ZIP, &zip, "file2").unwrap();
    let file3 = zip_read(&COMMENTS_ZIP, &zip, "file3").unwrap();
    let file4 = zip_read(&COMMENTS_ZIP, &zip, "file4").unwrap();
    assert_eq!(&file1[..], FILE1);
    assert_eq!(&file2[..], FILE2);
    assert_eq!(&file3, &third_contents());
    assert_eq!(&file4[..], FILE4);
}

#[test]
fn test_deflated_zip() {
    let zip = zip_open(&DEFLATED_ZIP).unwrap();
    assert_eq!(zip.len(), 2);
    let first_file = zip_read(&DEFLATED_ZIP, &zip, "first").unwrap();
    let second_file = zip_read(&DEFLATED_ZIP, &zip, "second").unwrap();
    assert_eq!(&first_file, &first());
    assert_eq!(&second_file, &second());
}

#[test]
fn test_folder_zip() {
    let zip = zip_open(&FOLDER_ZIP).unwrap();
    assert_eq!(zip.len(), 3);
    let test = zip_read(&FOLDER_ZIP, &zip, "test").unwrap();
    let test2 = zip_read(&FOLDER_ZIP, &zip, "testdir/test2").unwrap();
    assert_eq!(&test[..], TEST);
    assert_eq!(&test2[..], TEST);
}

#[test]
fn test_utf8_zip() {
    let zip = zip_open(&UTF8_ZIP).unwrap();
    assert_eq!(zip.len(), 1);
    assert_eq!(zip[0].name, UTF8_NAME);
}

#[test]
fn listing_keeps_directory_order_and_offsets() {
    let zip = zip_open(&FOLDER_ZIP).unwrap();
    let names: Vec<&str> = zip.iter().map(|f| f.name.as_str()).collect();
    assert_eq!(names, vec!["test", "testdir/", "testdir/test2"]);
    assert_eq!(zip[0].offset, 0);
    assert!(zip[1].offset > zip[0].offset);
}

#[test]
fn unknown_name_is_not_found() {
    let zip = zip_open(&FOLDER_ZIP).unwrap();
    assert_eq!(zip_read(&FOLDER_ZIP, &zip, "nothing"), Err(Error::FileNotFound));
}

#[test]
fn archive_without_directory_is_rejected() {
    assert_eq!(zip_open(&[0u8; 40]).err(), Some(Error::NoCentralDirectory));
    assert_eq!(zip_open(&[]).err(), Some(Error::NoCentralDirectory));
}

#[test]
fn invalid_name_bytes_are_replaced() {
    let z = one_file_zip(&[b'a', 0xff, b'b'], 0, b"x");
    let zip = zip_open(&z).unwrap();
    assert_eq!(zip[0].name, "a\u{fffd}b");
    assert_eq!(zip_read(&z, &zip, "a\u{fffd}b").unwrap(), b"x".to_vec());
}

#[test]
fn unknown_compression_method_is_rejected() {
    let z = one_file_zip(b"f", 12, b"data");
    let zip = zip_open(&z).unwrap();
    assert_eq!(zip_read(&z, &zip, "f"), Err(Error::InvalidCompressionMethod));
}

#[test]
fn bad_local_header_signature_is_rejected() {
    let mut z = one_file_zip(b"f", 0, b"data");
    let zip = zip_open(&z).unwrap();
    z[2] = 9;
    assert_eq!(zip_read(&z, &zip, "f"), Err(Error::InvalidSignature));
}

#[test]
fn bad_deflate_data_is_a_compression_error() {
    let z = one_file_zip(b"f", 8, &[0x06]);
    let zip = zip_open(&z).unwrap();
    assert_eq!(zip_read(&z, &zip, "f"), Err(Error::CompressionError));
}
