//! ZIP archive reading: the central directory and the stored or deflated
//! files it lists.
use vstd::prelude::*;

use crate::inflate::{inflate, inflated};

verus! {

/// Errors reported while reading a ZIP archive.
#[derive(Debug, PartialEq, Eq, Structural, Clone, Copy)]
pub enum Error {
    InvalidZip,
    NoCentralDirectory,
    InvalidSignature,
    InvalidCompressionMethod,
    FileNotFound,
    CompressionError,
    BufferError,
}

impl From<crate::Error> for Error {
    fn from(e: crate::Error) -> (r: Error)
        ensures
            r == Error::CompressionError,
    {
        Error::CompressionError
    }
}

impl vstd::std_specs::convert::FromSpecImpl<crate::Error> for Error {
    open spec fn obeys_from_spec() -> bool {
        true
    }

    open spec fn from_spec(e: crate::Error) -> Error {
        Error::CompressionError
    }
}

/// A file listed in the central directory: its name and the offset of its
/// local header.
#[derive(Debug)]
pub struct File {
    pub name: String,
    pub offset: usize,
}

/// The text that `String::from_utf8_lossy` makes of a byte string.
pub uninterp spec fn lossy_utf8(b: Seq<u8>) -> Seq<char>;

/// Relies on `String::from_utf8_lossy`: the bytes decoded as UTF-8, each
/// invalid sequence replaced by U+FFFD; the text depends on the bytes alone.
#[verifier::external_body]
fn utf8_lossy(b: &[u8]) -> (r: String)
    ensures
        r@ == lossy_utf8(b@),
{
    String::from_utf8_lossy(b).into_owned()
}

/// A little-endian 16-bit number at `i`.
pub open spec fn le16(s: Seq<u8>, i: int) -> nat {
    (s[i] + 0x100 * s[i + 1]) as nat
}

/// A little-endian 32-bit number at `i`.
pub open spec fn le32(s: Seq<u8>, i: int) -> nat {
    (s[i] + 0x100 * s[i + 1] + 0x10000 * s[i + 2] + 0x1000000 * s[i + 3]) as nat
}

fn read_le16(s: &[u8], i: usize) -> (r: u16)
    requires
        i + 2 <= s@.len(),
    ensures
        r == le16(s@, i as int),
{
    s[i] as u16 + 0x100 * (s[i + 1] as u16)
}

fn read_le32(s: &[u8], i: usize) -> (r: u32)
    requires
        i + 4 <= s@.len(),
    ensures
        r == le32(s@, i as int),
{
    s[i] as u32 + 0x100 * (s[i + 1] as u32) + 0x10000 * (s[i + 2] as u32) + 0x1000000 * (
    s[i + 3] as u32)
}

/// The four signature bytes `P K a b` stand at `i`.
pub open spec fn signature_at(s: Seq<u8>, i: int, a: u8, b: u8) -> bool {
    &&& 0 <= i
    &&& i + 4 <= s.len()
    &&& s[i] == 0x50
    &&& s[i + 1] == 0x4b
    &&& s[i + 2] == a
    &&& s[i + 3] == b
}

fn has_signature(s: &[u8], i: usize, a: u8, b: u8) -> (r: bool)
    requires
        i + 4 <= s@.len(),
    ensures
        r == signature_at(s@, i as int, a, b),
{
    s[i] == 0x50 && s[i + 1] == 0x4b && s[i + 2] == a && s[i + 3] == b
}

/// Size of the end-of-central-directory record without its comment.
pub const EOCD_SIZE: usize = 22;

/// Longest archive comment.
pub const MAX_COMMENT_LEN: usize = 0xFFFF;

/// The lowest position at which the end-of-central-directory record is
/// looked for.
pub open spec fn eocd_lowest(len: nat) -> int {
    if len >= EOCD_SIZE + MAX_COMMENT_LEN {
        len - EOCD_SIZE - MAX_COMMENT_LEN
    } else {
        0
    }
}

/// The last end-of-central-directory record at or below `i`.
pub open spec fn last_eocd(data: Seq<u8>, i: int) -> Option<int>
    decreases i + 1,
{
    if i < eocd_lowest(data.len()) || i < 0 {
        None
    } else if signature_at(data, i, 5, 6) {
        Some(i)
    } else {
        last_eocd(data, i - 1)
    }
}

/// The central directory's size, offset and number of entries, read from
/// the last end-of-central-directory record.
pub open spec fn eocd_fields(data: Seq<u8>) -> Result<(usize, usize, u16), Error> {
    match last_eocd(data, data.len() - EOCD_SIZE) {
        None => Err(Error::NoCentralDirectory),
        Some(i) => Ok((le32(data, i + 12) as usize, le32(data, i + 16) as usize, le16(data, i + 10) as u16)),
    }
}

/// Finds the end-of-central-directory record by scanning backward from the
/// end of the archive.
fn read_eocd(data: &[u8]) -> (r: Result<(usize, usize, u16), Error>)
    ensures
        r == eocd_fields(data@),
{
    if data.len() < EOCD_SIZE {
        return Err(Error::NoCentralDirectory);
    }
    let start: usize = if data.len() >= EOCD_SIZE + MAX_COMMENT_LEN {
        data.len() - EOCD_SIZE - MAX_COMMENT_LEN
    } else {
        0
    };
    let len = data.len();
    let mut i: usize = len - EOCD_SIZE + 1;
    while i > start
        invariant
            len == data@.len(),
            start == eocd_lowest(data@.len()),
            start <= i <= data@.len() - EOCD_SIZE + 1,
            data@.len() >= EOCD_SIZE,
            last_eocd(data@, data@.len() - EOCD_SIZE) == last_eocd(data@, i - 1),
        decreases i,
    {
        i = i - 1;
        if has_signature(data, i, 5, 6) {
            let cd_size = read_le32(data, i + 12) as usize;
            let cd_offset = read_le32(data, i + 16) as usize;
            let total_entries = read_le16(data, i + 10);
            return Ok((cd_size, cd_offset, total_entries));
        }
    }
    Err(Error::NoCentralDirectory)
}

/// What a caller learns of a listed file: its name and offset.
pub open spec fn file_view(f: File) -> (Seq<char>, usize) {
    (f.name@, f.offset)
}

/// The `k` central-directory entries from `ofs` on, after those in `acc`.
pub open spec fn cd_entries(cd: Seq<u8>, ofs: int, k: nat, acc: Seq<(Seq<char>, usize)>) -> Result<
    Seq<(Seq<char>, usize)>,
    Error,
>
    decreases k,
{
    if k == 0 {
        Ok(acc)
    } else if ofs + 46 > cd.len() {
        Err(Error::BufferError)
    } else if !signature_at(cd, ofs, 1, 2) {
        Err(Error::InvalidSignature)
    } else {
        let name_len = le16(cd, ofs + 28);
        let next = ofs + 46 + name_len + le16(cd, ofs + 30) + le16(cd, ofs + 32);
        if next > cd.len() {
            Err(Error::BufferError)
        } else {
            let entry = (lossy_utf8(cd.subrange(ofs + 46, ofs + 46 + name_len)), le32(cd, ofs + 42) as usize);
            cd_entries(cd, next, (k - 1) as nat, acc.push(entry))
        }
    }
}

/// Reads `total_entries` entries of the central directory `data`.
fn read_cd(data: &[u8], total_entries: u16) -> (r: Result<Vec<File>, Error>)
    ensures
        r matches Ok(files) ==> cd_entries(data@, 0, total_entries as nat, Seq::empty()) == Ok::<
            Seq<(Seq<char>, usize)>,
            Error,
        >(files@.map_values(|f: File| file_view(f))),
        r matches Err(e) ==> cd_entries(data@, 0, total_entries as nat, Seq::empty()) == Err::<
            Seq<(Seq<char>, usize)>,
            Error,
        >(e),
{
    let mut entries: Vec<File> = Vec::new();
    let mut ofs: usize = 0;
    let mut k: u16 = 0;
    proof {
        assert(entries@.map_values(|f: File| file_view(f)) =~= Seq::<(Seq<char>, usize)>::empty());
    }
    while k < total_entries
        invariant
            k <= total_entries,
            cd_entries(data@, ofs as int, (total_entries - k) as nat, entries@.map_values(|f: File| file_view(f)))
                == cd_entries(data@, 0, total_entries as nat, Seq::empty()),
        decreases total_entries - k,
    {
        if ofs > data.len() || data.len() - ofs < 46 {
            return Err(Error::BufferError);
        }
        if !has_signature(data, ofs, 1, 2) {
            return Err(Error::InvalidSignature);
        }
        let name_len = read_le16(data, ofs + 28) as usize;
        let extra_len = read_le16(data, ofs + 30) as usize;
        let comment_len = read_le16(data, ofs + 32) as usize;
        let offset = read_le32(data, ofs + 42) as usize;
        if data.len() - ofs - 46 < name_len + extra_len + comment_len {
            return Err(Error::BufferError);
        }
        let name = utf8_lossy(&data[ofs + 46..ofs + 46 + name_len]);
        let ghost before = entries@;
        entries.push(File { name, offset });
        proof {
            assert(entries@.map_values(|f: File| file_view(f)) =~= before.map_values(|f: File| file_view(f)).push(
                (lossy_utf8(data@.subrange(ofs + 46, ofs + 46 + name_len)), offset),
            ));
        }
        ofs = ofs + 46 + name_len + extra_len + comment_len;
        k = k + 1;
    }
    Ok(entries)
}

/// The files listed in the central directory of the archive `data`.
pub open spec fn listed_files(data: Seq<u8>) -> Result<Seq<(Seq<char>, usize)>, Error> {
    match eocd_fields(data) {
        Err(e) => Err(e),
        Ok((cd_size, cd_offset, total)) => {
            if cd_offset + cd_size > data.len() {
                Err(Error::BufferError)
            } else {
                cd_entries(data.subrange(cd_offset as int, cd_offset + cd_size), 0, total as nat, Seq::empty())
            }
        },
    }
}

/// Lists the files of the archive `data`, in central-directory order.
pub fn zip_open(data: &[u8]) -> (r: Result<Vec<File>, Error>)
    ensures
        r matches Ok(files) ==> listed_files(data@) == Ok::<Seq<(Seq<char>, usize)>, Error>(
            files@.map_values(|f: File| file_view(f)),
        ),
        r matches Err(e) ==> listed_files(data@) == Err::<Seq<(Seq<char>, usize)>, Error>(e),
{
    let (cd_size, cd_offset, total_entries) = read_eocd(data)?;
    if cd_offset > data.len() || data.len() - cd_offset < cd_size {
        return Err(Error::BufferError);
    }
    read_cd(&data[cd_offset..cd_offset + cd_size], total_entries)
}

/// The contents of the file whose local header is at `ofs`: stored bytes as
/// they are, deflated bytes decompressed into exactly the size the header
/// gives.
pub open spec fn extracted(data: Seq<u8>, ofs: int) -> Result<Seq<u8>, Error> {
    if ofs + 30 > data.len() {
        Err(Error::BufferError)
    } else if !signature_at(data, ofs, 3, 4) {
        Err(Error::InvalidSignature)
    } else {
        let method = le16(data, ofs + 8);
        let compressed_size = le32(data, ofs + 18);
        let uncompressed_size = le32(data, ofs + 22);
        let start = ofs + 30 + le16(data, ofs + 26) + le16(data, ofs + 28);
        if start + compressed_size > data.len() {
            Err(Error::BufferError)
        } else {
            let compressed = data.subrange(start, start + compressed_size);
            if method == 0 {
                Ok(compressed)
            } else if method == 8 {
                if compressed.len() > usize::MAX / 16 {
                    Err(Error::CompressionError)
                } else {
                    match inflated(compressed, uncompressed_size) {
                        Err(_) => Err(Error::CompressionError),
                        Ok(out) => {
                            if out.len() != uncompressed_size {
                                Err(Error::InvalidZip)
                            } else {
                                Ok(out)
                            }
                        },
                    }
                }
            } else {
                Err(Error::InvalidCompressionMethod)
            }
        }
    }
}

/// Reads the file whose local header is at `file.offset`.
fn extract_file(data: &[u8], file: &File) -> (r: Result<Vec<u8>, Error>)
    ensures
        r matches Ok(v) ==> extracted(data@, file.offset as int) == Ok::<Seq<u8>, Error>(v@),
        r matches Err(e) ==> extracted(data@, file.offset as int)
            == Err::<Seq<u8>, Error>(e),
{
    let ofs = file.offset;
    if ofs > data.len() || data.len() - ofs < 30 {
        return Err(Error::BufferError);
    }
    if !has_signature(data, ofs, 3, 4) {
        return Err(Error::InvalidSignature);
    }
    let compression_method = read_le16(data, ofs + 8);
    let compressed_size = read_le32(data, ofs + 18) as usize;
    let uncompressed_size = read_le32(data, ofs + 22) as usize;
    let name_len = read_le16(data, ofs + 26) as usize;
    let extra_len = read_le16(data, ofs + 28) as usize;
    if data.len() - ofs - 30 < name_len + extra_len {
        return Err(Error::BufferError);
    }
    let start = ofs + 30 + name_len + extra_len;
    if data.len() - start < compressed_size {
        return Err(Error::BufferError);
    }
    let compressed = &data[start..start + compressed_size];
    if compression_method == 0 {
        Ok(vstd::slice::slice_to_vec(compressed))
    } else if compression_method == 8 {
        if compressed.len() > usize::MAX / 16 {
            return Err(Error::CompressionError);
        }
        let mut uncompressed: Vec<u8> = vec![0u8; uncompressed_size];
        let n = match inflate(uncompressed.as_mut_slice(), compressed) {
            Ok(n) => n,
            Err(_) => {
                return Err(Error::CompressionError);
            },
        };
        if n != uncompressed_size {
            return Err(Error::InvalidZip);
        }
        proof {
            assert(uncompressed@.take(n as int) =~= uncompressed@);
        }
        Ok(uncompressed)
    } else {
        Err(Error::InvalidCompressionMethod)
    }
}

/// The first file of `files` named `name`, from index `i` on.
pub open spec fn find_file(files: Seq<File>, name: Seq<char>, i: int) -> Option<int>
    decreases files.len() - i,
{
    if i < 0 || i >= files.len() {
        None
    } else if files[i].name@ == name {
        Some(i)
    } else {
        find_file(files, name, i + 1)
    }
}

/// Reads the contents of the first listed file named `name`.
/// The result is exactly `extracted` for that file; `CompressionError`
/// stands for every error of the decompressor.
pub fn zip_read(data: &[u8], files: &[File], name: &str) -> (r: Result<Vec<u8>, Error>)
    ensures
        find_file(files@, name@, 0) is None ==> r == Err::<Vec<u8>, Error>(Error::FileNotFound),
        find_file(files@, name@, 0) matches Some(i) ==> {
            &&& r matches Ok(v) ==> extracted(data@, files@[i].offset as int) == Ok::<Seq<u8>, Error>(v@)
            &&& r matches Err(e) ==> extracted(
                data@,
                files@[i].offset as int,
            ) == Err::<Seq<u8>, Error>(e)
        },
{
    let target: String = name.to_owned();
    let mut i: usize = 0;
    while i < files.len()
        invariant
            i <= files@.len(),
            target@ == name@,
            find_file(files@, name@, i as int) == find_file(files@, name@, 0),
        decreases files@.len() - i,
    {
        if files[i].name == target {
            return extract_file(data, &files[i]);
        }
        i = i + 1;
    }
    Err(Error::FileNotFound)
}

} // verus!
