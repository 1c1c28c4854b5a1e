//! The ZIP container parser: locates the end-of-central-directory
//! record, walks the central directory, pairs every entry with its
//! local file header, and slices out each member's compressed bytes.
//!
//! All multi-byte fields are little-endian.  The contracts pin every
//! parsed field to the bytes it came from, and say exactly on which
//! buffers parsing fails and with which error.

use vstd::prelude::*;

use crate::bits::bytes_lsb_bits;
use crate::deflate::spec_inflate;
use crate::ZipError;

verus! {

/// The compression method named by a member's header.
#[derive(Debug, Clone, Copy, PartialEq, Eq, Structural)]
pub enum CompressionMethod {
    NoCompression,
    Shrunk,
    ReducedWithCompressionFactorOfOne,
    ReducedWithCompressionFactorOfTwo,
    ReducedWithCompressionFactorOfThree,
    ReducedWithCompressionFactorOfFour,
    Imploded,
    Tokenizing,
    Deflated,
    Deflate64,
    IbmTerse,
    ReservedByPkWareOne,
    Bzip2,
    ReservedByPkWareTwo,
    Lzma,
    ReservedByPkWareThree,
    IbmCmpSc,
    ReservedByPkWareFour,
    IbmTerseNew,
    IbmLz77,
    Deprecated,
    Zstd,
    Mp3,
    Xz,
    Jpeg,
    WavPack,
    Ppmd,
    Aex,
}

/// The compression method a method identifier names, if any.
pub open spec fn spec_method(id: u16) -> Option<CompressionMethod> {
    if id == 0 {
        Some(CompressionMethod::NoCompression)
    } else if id == 1 {
        Some(CompressionMethod::Shrunk)
    } else if id == 2 {
        Some(CompressionMethod::ReducedWithCompressionFactorOfOne)
    } else if id == 3 {
        Some(CompressionMethod::ReducedWithCompressionFactorOfTwo)
    } else if id == 4 {
        Some(CompressionMethod::ReducedWithCompressionFactorOfThree)
    } else if id == 5 {
        Some(CompressionMethod::ReducedWithCompressionFactorOfFour)
    } else if id == 6 {
        Some(CompressionMethod::Imploded)
    } else if id == 7 {
        Some(CompressionMethod::Tokenizing)
    } else if id == 8 {
        Some(CompressionMethod::Deflated)
    } else if id == 9 {
        Some(CompressionMethod::Deflate64)
    } else if id == 10 {
        Some(CompressionMethod::IbmTerse)
    } else if id == 11 {
        Some(CompressionMethod::ReservedByPkWareOne)
    } else if id == 12 {
        Some(CompressionMethod::Bzip2)
    } else if id == 13 {
        Some(CompressionMethod::ReservedByPkWareTwo)
    } else if id == 14 {
        Some(CompressionMethod::Lzma)
    } else if id == 15 {
        Some(CompressionMethod::ReservedByPkWareThree)
    } else if id == 16 {
        Some(CompressionMethod::IbmCmpSc)
    } else if id == 17 {
        Some(CompressionMethod::ReservedByPkWareFour)
    } else if id == 18 {
        Some(CompressionMethod::IbmTerseNew)
    } else if id == 19 {
        Some(CompressionMethod::IbmLz77)
    } else if id == 20 {
        Some(CompressionMethod::Deprecated)
    } else if id == 93 {
        Some(CompressionMethod::Zstd)
    } else if id == 94 {
        Some(CompressionMethod::Mp3)
    } else if id == 95 {
        Some(CompressionMethod::Xz)
    } else if id == 96 {
        Some(CompressionMethod::Jpeg)
    } else if id == 97 {
        Some(CompressionMethod::WavPack)
    } else if id == 98 {
        Some(CompressionMethod::Ppmd)
    } else if id == 99 {
        Some(CompressionMethod::Aex)
    } else {
        None
    }
}

/// Maps a method identifier to its compression method; an identifier
/// this library does not know is an unsupported method.
pub fn get_compression_method(method_identifier: u16) -> (r: Result<CompressionMethod, ZipError>)
    ensures
        r == match spec_method(method_identifier) {
            Some(m) => Ok::<CompressionMethod, ZipError>(m),
            None => Err::<CompressionMethod, ZipError>(ZipError::UnsupportedCompressionMethod),
        },
{
    match method_identifier {
        0 => Ok(CompressionMethod::NoCompression),
        1 => Ok(CompressionMethod::Shrunk),
        2 => Ok(CompressionMethod::ReducedWithCompressionFactorOfOne),
        3 => Ok(CompressionMethod::ReducedWithCompressionFactorOfTwo),
        4 => Ok(CompressionMethod::ReducedWithCompressionFactorOfThree),
        5 => Ok(CompressionMethod::ReducedWithCompressionFactorOfFour),
        6 => Ok(CompressionMethod::Imploded),
        7 => Ok(CompressionMethod::Tokenizing),
        8 => Ok(CompressionMethod::Deflated),
        9 => Ok(CompressionMethod::Deflate64),
        10 => Ok(CompressionMethod::IbmTerse),
        11 => Ok(CompressionMethod::ReservedByPkWareOne),
        12 => Ok(CompressionMethod::Bzip2),
        13 => Ok(CompressionMethod::ReservedByPkWareTwo),
        14 => Ok(CompressionMethod::Lzma),
        15 => Ok(CompressionMethod::ReservedByPkWareThree),
        16 => Ok(CompressionMethod::IbmCmpSc),
        17 => Ok(CompressionMethod::ReservedByPkWareFour),
        18 => Ok(CompressionMethod::IbmTerseNew),
        19 => Ok(CompressionMethod::IbmLz77),
        20 => Ok(CompressionMethod::Deprecated),
        93 => Ok(CompressionMethod::Zstd),
        94 => Ok(CompressionMethod::Mp3),
        95 => Ok(CompressionMethod::Xz),
        96 => Ok(CompressionMethod::Jpeg),
        97 => Ok(CompressionMethod::WavPack),
        98 => Ok(CompressionMethod::Ppmd),
        99 => Ok(CompressionMethod::Aex),
        _ => Err(ZipError::UnsupportedCompressionMethod),
    }
}

/// The little-endian 16-bit value at position `p`.
pub open spec fn u16_at(s: Seq<u8>, p: int) -> nat {
    (s[p] + 256 * s[p + 1]) as nat
}

/// The little-endian 32-bit value at position `p`.
pub open spec fn u32_at(s: Seq<u8>, p: int) -> nat {
    (s[p] + 256 * s[p + 1] + 0x10000 * s[p + 2] + 0x1000000 * s[p + 3]) as nat
}

/// Whether the local-file-header signature `50 4B 03 04` sits at `p`.
pub open spec fn is_lfh_sig(s: Seq<u8>, p: int) -> bool {
    &&& p + 4 <= s.len()
    &&& s[p] == 0x50
    &&& s[p + 1] == 0x4b
    &&& s[p + 2] == 0x03
    &&& s[p + 3] == 0x04
}

/// Whether the central-directory-header signature `50 4B 01 02` sits
/// at `p`.
pub open spec fn is_cdh_sig(s: Seq<u8>, p: int) -> bool {
    &&& p + 4 <= s.len()
    &&& s[p] == 0x50
    &&& s[p + 1] == 0x4b
    &&& s[p + 2] == 0x01
    &&& s[p + 3] == 0x02
}

/// Whether the end-of-central-directory signature `50 4B 05 06` sits
/// at `p`.
pub open spec fn is_eocd_sig(s: Seq<u8>, p: int) -> bool {
    &&& p + 4 <= s.len()
    &&& s[p] == 0x50
    &&& s[p + 1] == 0x4b
    &&& s[p + 2] == 0x05
    &&& s[p + 3] == 0x06
}

/// The first position at or after `i` carrying the end-of-central-
/// directory signature.
pub open spec fn find_eocd(s: Seq<u8>, i: int) -> Option<int>
    decreases s.len() - i,
{
    if i + 4 > s.len() {
        None
    } else if is_eocd_sig(s, i) {
        Some(i)
    } else {
        find_eocd(s, i + 1)
    }
}

/// A parsed local file header.
#[derive(Debug, Clone)]
pub struct LocalFileHeader {
    pub start_position: u64,
    pub version_needed_to_extract: u16,
    pub general_purpose_bit_flag: u16,
    pub compression_method: u16,
    pub last_mod_file_time: u16,
    pub last_mod_file_date: u16,
    pub crc_32: u32,
    pub compressed_size: u32,
    pub uncompressed_size: u32,
    pub file_name_length: u16,
    pub extra_field_length: u16,
    pub file_name: Vec<u8>,
    pub extra_field: Vec<u8>,
    pub end_position: u64,
}

/// A parsed central directory header.
#[derive(Debug, Clone)]
pub struct CentralDirectoryHeader {
    pub start_position: u64,
    pub version_maker: u16,
    pub version_needed_to_extract: u16,
    pub general_purpose_bit_flag: u16,
    pub compression_method: u16,
    pub last_mod_file_time: u16,
    pub last_mod_file_date: u16,
    pub crc_32: u32,
    pub compressed_size: u32,
    pub uncompressed_size: u32,
    pub file_name_length: u16,
    pub extra_field_length: u16,
    pub file_comment_length: u16,
    pub disk_number_start: u16,
    pub internal_file_attributes: u16,
    pub external_file_attributes: u32,
    pub relative_offset_of_local_header: u32,
    pub file_name: Vec<u8>,
    pub extra_field: Vec<u8>,
    pub file_comment: Vec<u8>,
    pub end_position: u64,
}

/// The parsed end-of-central-directory record.
#[derive(Debug)]
pub struct EndOfCentralDirectoryRecord {
    pub number_of_this_disk: u16,
    pub number_of_disk_with_start_of_central_directory: u16,
    pub total_number_of_entries_in_central_directory_on_current_disk: u16,
    pub total_number_of_entries_in_central_directory: u16,
    pub size_of_central_directory: u32,
    pub offset_of_start_of_central_directory_with_respect_to_starting_disk_number: u32,
    pub zip_file_comment_length: u16,
    pub zip_file_comment: Vec<u8>,
}

/// The end-of-central-directory record parsed from the bytes following
/// the signature at `p`.
pub open spec fn eocd_ok(s: Seq<u8>, p: int, e: EndOfCentralDirectoryRecord) -> bool {
    &&& e.number_of_this_disk == u16_at(s, p + 4)
    &&& e.number_of_disk_with_start_of_central_directory == u16_at(s, p + 6)
    &&& e.total_number_of_entries_in_central_directory_on_current_disk == u16_at(s, p + 8)
    &&& e.total_number_of_entries_in_central_directory == u16_at(s, p + 10)
    &&& e.size_of_central_directory == u32_at(s, p + 12)
    &&& e.offset_of_start_of_central_directory_with_respect_to_starting_disk_number == u32_at(
        s,
        p + 16,
    )
    &&& e.zip_file_comment_length == u16_at(s, p + 20)
    &&& e.zip_file_comment@ == s.subrange(p + 22, p + 22 + u16_at(s, p + 20))
}

/// Where the central directory header starting at `pos` ends: 46 fixed
/// bytes plus the name, extra and comment fields.
pub open spec fn cdh_end(s: Seq<u8>, pos: int) -> int {
    pos + 46 + u16_at(s, pos + 28) + u16_at(s, pos + 30) + u16_at(s, pos + 32)
}

/// What is wrong with the central directory header at `pos`, if
/// anything: a missing or foreign signature, or a header that runs past
/// the buffer.
pub open spec fn cd_entry_err(s: Seq<u8>, pos: int) -> Option<ZipError> {
    if pos + 4 > s.len() {
        Some(ZipError::Truncated)
    } else if !is_cdh_sig(s, pos) {
        Some(ZipError::CorruptHeader)
    } else if pos + 46 > s.len() {
        Some(ZipError::Truncated)
    } else if cdh_end(s, pos) > s.len() {
        Some(ZipError::Truncated)
    } else {
        None
    }
}

/// The central directory header at `pos`, field by field.
pub open spec fn cdh_ok(s: Seq<u8>, pos: int, h: CentralDirectoryHeader) -> bool {
    &&& h.start_position == pos
    &&& h.version_maker == u16_at(s, pos + 4)
    &&& h.version_needed_to_extract == u16_at(s, pos + 6)
    &&& h.general_purpose_bit_flag == u16_at(s, pos + 8)
    &&& h.compression_method == u16_at(s, pos + 10)
    &&& h.last_mod_file_time == u16_at(s, pos + 12)
    &&& h.last_mod_file_date == u16_at(s, pos + 14)
    &&& h.crc_32 == u32_at(s, pos + 16)
    &&& h.compressed_size == u32_at(s, pos + 20)
    &&& h.uncompressed_size == u32_at(s, pos + 24)
    &&& h.file_name_length == u16_at(s, pos + 28)
    &&& h.extra_field_length == u16_at(s, pos + 30)
    &&& h.file_comment_length == u16_at(s, pos + 32)
    &&& h.disk_number_start == u16_at(s, pos + 34)
    &&& h.internal_file_attributes == u16_at(s, pos + 36)
    &&& h.external_file_attributes == u32_at(s, pos + 38)
    &&& h.relative_offset_of_local_header == u32_at(s, pos + 42)
    &&& h.file_name@ == s.subrange(pos + 46, pos + 46 + u16_at(s, pos + 28))
    &&& h.extra_field@ == s.subrange(
        pos + 46 + u16_at(s, pos + 28),
        pos + 46 + u16_at(s, pos + 28) + u16_at(s, pos + 30),
    )
    &&& h.file_comment@ == s.subrange(
        pos + 46 + u16_at(s, pos + 28) + u16_at(s, pos + 30),
        cdh_end(s, pos),
    )
    &&& h.end_position == cdh_end(s, pos)
}

/// The start positions of `count` consecutive central directory
/// headers from `pos`, or the first error met walking them.
pub open spec fn parse_cd(s: Seq<u8>, pos: int, count: nat) -> Result<Seq<int>, ZipError>
    decreases count,
{
    if count == 0 {
        Ok(Seq::empty())
    } else {
        match cd_entry_err(s, pos) {
            Some(e) => Err(e),
            None => match parse_cd(s, cdh_end(s, pos), (count - 1) as nat) {
                Err(e) => Err(e),
                Ok(rest) => Ok(seq![pos] + rest),
            },
        }
    }
}

/// Where the local file header starting at `off` ends: 30 fixed bytes
/// plus the name and extra fields.
pub open spec fn lfh_end(s: Seq<u8>, off: int) -> int {
    off + 30 + u16_at(s, off + 26) + u16_at(s, off + 28)
}

/// What is wrong with the local file header at `off`, if anything.
pub open spec fn lfh_entry_err(s: Seq<u8>, off: int) -> Option<ZipError> {
    if off + 4 > s.len() {
        Some(ZipError::Truncated)
    } else if !is_lfh_sig(s, off) {
        Some(ZipError::CorruptHeader)
    } else if off + 30 > s.len() {
        Some(ZipError::Truncated)
    } else if lfh_end(s, off) > s.len() {
        Some(ZipError::Truncated)
    } else {
        None
    }
}

/// The local file header at `off`, field by field.
pub open spec fn lfh_ok(s: Seq<u8>, off: int, h: LocalFileHeader) -> bool {
    &&& h.start_position == off
    &&& h.version_needed_to_extract == u16_at(s, off + 4)
    &&& h.general_purpose_bit_flag == u16_at(s, off + 6)
    &&& h.compression_method == u16_at(s, off + 8)
    &&& h.last_mod_file_time == u16_at(s, off + 10)
    &&& h.last_mod_file_date == u16_at(s, off + 12)
    &&& h.crc_32 == u32_at(s, off + 14)
    &&& h.compressed_size == u32_at(s, off + 18)
    &&& h.uncompressed_size == u32_at(s, off + 22)
    &&& h.file_name_length == u16_at(s, off + 26)
    &&& h.extra_field_length == u16_at(s, off + 28)
    &&& h.file_name@ == s.subrange(off + 30, off + 30 + u16_at(s, off + 26))
    &&& h.extra_field@ == s.subrange(off + 30 + u16_at(s, off + 26), lfh_end(s, off))
    &&& h.end_position == lfh_end(s, off)
}

/// The first error met while visiting, for each central directory
/// header position in `ps` from index `i` on, the local file header it
/// points to.
pub open spec fn lfh_scan(s: Seq<u8>, ps: Seq<int>, i: int) -> Option<ZipError>
    decreases ps.len() - i,
{
    if i < 0 || i >= ps.len() {
        None
    } else {
        match lfh_entry_err(s, u32_at(s, ps[i] + 42) as int) {
            Some(e) => Some(e),
            None => lfh_scan(s, ps, i + 1),
        }
    }
}

/// What is wrong with a whole buffer as a ZIP archive, if anything,
/// in the order parsing discovers it.
pub open spec fn zip_parse_err(s: Seq<u8>) -> Option<ZipError> {
    if !is_lfh_sig(s, 0) {
        Some(ZipError::NotAZipFile)
    } else {
        match find_eocd(s, 0) {
            None => Some(ZipError::MissingEocd),
            Some(p) => {
                if p + 22 > s.len() {
                    Some(ZipError::Truncated)
                } else if p + 22 + u16_at(s, p + 20) > s.len() {
                    Some(ZipError::Truncated)
                } else {
                    match parse_cd(s, u32_at(s, p + 16) as int, u16_at(s, p + 10)) {
                        Err(e) => Some(e),
                        Ok(ps) => lfh_scan(s, ps, 0),
                    }
                }
            },
        }
    }
}

/// A parsed archive: the raw buffer plus its structural metadata.
#[derive(Debug)]
pub struct PkZip {
    pub local_file_headers: Vec<LocalFileHeader>,
    pub central_directory_headers: Vec<CentralDirectoryHeader>,
    pub end_of_central_directory_record: EndOfCentralDirectoryRecord,
    pub file_bytes: Vec<u8>,
}

/// A well-parsed archive: every header is exactly what the buffer
/// holds, the central directory headers chain from the recorded
/// offset, and each local file header sits where its directory entry
/// points.
pub open spec fn zip_ok(s: Seq<u8>, z: PkZip) -> bool {
    let p = find_eocd(s, 0).unwrap();
    let n = u16_at(s, p + 10);
    &&& z.file_bytes@ == s
    &&& find_eocd(s, 0) is Some
    &&& eocd_ok(s, p, z.end_of_central_directory_record)
    &&& z.central_directory_headers@.len() == n
    &&& z.local_file_headers@.len() == n
    &&& (n > 0 ==> z.central_directory_headers@[0].start_position == u32_at(s, p + 16))
    &&& forall|i: int|
        0 <= i < n - 1 ==> (#[trigger] z.central_directory_headers@[i + 1]).start_position
            == z.central_directory_headers@[i].end_position
    &&& forall|i: int|
        0 <= i < n ==> cdh_ok(
            s,
            (#[trigger] z.central_directory_headers@[i]).start_position as int,
            z.central_directory_headers@[i],
        )
    &&& forall|i: int|
        0 <= i < n ==> lfh_ok(
            s,
            z.central_directory_headers@[i].relative_offset_of_local_header as int,
            (#[trigger] z.local_file_headers@[i]),
        )
}

fn get_u16(file: &[u8], pos: usize) -> (r: u16)
    requires
        pos + 2 <= file@.len(),
    ensures
        r == u16_at(file@, pos as int),
{
    file[pos] as u16 + 256 * (file[pos + 1] as u16)
}

fn get_u32(file: &[u8], pos: usize) -> (r: u32)
    requires
        pos + 4 <= file@.len(),
    ensures
        r == u32_at(file@, pos as int),
{
    file[pos] as u32 + 256 * (file[pos + 1] as u32) + 0x10000 * (file[pos + 2] as u32) + 0x1000000
        * (file[pos + 3] as u32)
}

fn get_range(file: &[u8], start: usize, len: usize) -> (r: Vec<u8>)
    requires
        start + len <= file@.len(),
    ensures
        r@ == file@.subrange(start as int, start as int + len as int),
{
    let flen = file.len();
    let mut r: Vec<u8> = Vec::new();
    for i in 0..len
        invariant
            start + len <= flen == file@.len(),
            r@ =~= file@.subrange(start as int, start as int + i as int),
    {
        r.push(file[start + i]);
        proof {
            assert(r@ =~= file@.subrange(start as int, start as int + i + 1));
        }
    }
    r
}

fn parse_cdh_at(file: &[u8], pos: usize) -> (r: Result<CentralDirectoryHeader, ZipError>)
    ensures
        r is Ok <==> cd_entry_err(file@, pos as int) is None,
        r is Err ==> r == Err::<CentralDirectoryHeader, ZipError>(
            cd_entry_err(file@, pos as int).unwrap(),
        ),
        r is Ok ==> cdh_ok(file@, pos as int, r.unwrap()) && r.unwrap().end_position == cdh_end(
            file@,
            pos as int,
        ) && cdh_end(file@, pos as int) <= file@.len(),
{
    let len = file.len();
    if pos > len || len - pos < 4 {
        return Err(ZipError::Truncated);
    }
    if !(file[pos] == 0x50 && file[pos + 1] == 0x4b && file[pos + 2] == 0x01 && file[pos + 3]
        == 0x02) {
        return Err(ZipError::CorruptHeader);
    }
    if len - pos < 46 {
        return Err(ZipError::Truncated);
    }
    let file_name_length = get_u16(file, pos + 28);
    let extra_field_length = get_u16(file, pos + 30);
    let file_comment_length = get_u16(file, pos + 32);
    let variable = file_name_length as usize + extra_field_length as usize
        + file_comment_length as usize;
    if len - (pos + 46) < variable {
        return Err(ZipError::Truncated);
    }
    let name_start = pos + 46;
    let extra_start = name_start + file_name_length as usize;
    let comment_start = extra_start + extra_field_length as usize;
    let header = CentralDirectoryHeader {
        start_position: pos as u64,
        version_maker: get_u16(file, pos + 4),
        version_needed_to_extract: get_u16(file, pos + 6),
        general_purpose_bit_flag: get_u16(file, pos + 8),
        compression_method: get_u16(file, pos + 10),
        last_mod_file_time: get_u16(file, pos + 12),
        last_mod_file_date: get_u16(file, pos + 14),
        crc_32: get_u32(file, pos + 16),
        compressed_size: get_u32(file, pos + 20),
        uncompressed_size: get_u32(file, pos + 24),
        file_name_length,
        extra_field_length,
        file_comment_length,
        disk_number_start: get_u16(file, pos + 34),
        internal_file_attributes: get_u16(file, pos + 36),
        external_file_attributes: get_u32(file, pos + 38),
        relative_offset_of_local_header: get_u32(file, pos + 42),
        file_name: get_range(file, name_start, file_name_length as usize),
        extra_field: get_range(file, extra_start, extra_field_length as usize),
        file_comment: get_range(file, comment_start, file_comment_length as usize),
        end_position: (comment_start + file_comment_length as usize) as u64,
    };
    Ok(header)
}

fn parse_lfh_at(file: &[u8], off: usize) -> (r: Result<LocalFileHeader, ZipError>)
    ensures
        r is Ok <==> lfh_entry_err(file@, off as int) is None,
        r is Err ==> r == Err::<LocalFileHeader, ZipError>(
            lfh_entry_err(file@, off as int).unwrap(),
        ),
        r is Ok ==> lfh_ok(file@, off as int, r.unwrap()),
{
    let len = file.len();
    if off > len || len - off < 4 {
        return Err(ZipError::Truncated);
    }
    if !(file[off] == 0x50 && file[off + 1] == 0x4b && file[off + 2] == 0x03 && file[off + 3]
        == 0x04) {
        return Err(ZipError::CorruptHeader);
    }
    if len - off < 30 {
        return Err(ZipError::Truncated);
    }
    let file_name_length = get_u16(file, off + 26);
    let extra_field_length = get_u16(file, off + 28);
    let variable = file_name_length as usize + extra_field_length as usize;
    if len - (off + 30) < variable {
        return Err(ZipError::Truncated);
    }
    let name_start = off + 30;
    let extra_start = name_start + file_name_length as usize;
    let header = LocalFileHeader {
        start_position: off as u64,
        version_needed_to_extract: get_u16(file, off + 4),
        general_purpose_bit_flag: get_u16(file, off + 6),
        compression_method: get_u16(file, off + 8),
        last_mod_file_time: get_u16(file, off + 10),
        last_mod_file_date: get_u16(file, off + 12),
        crc_32: get_u32(file, off + 14),
        compressed_size: get_u32(file, off + 18),
        uncompressed_size: get_u32(file, off + 22),
        file_name_length,
        extra_field_length,
        file_name: get_range(file, name_start, file_name_length as usize),
        extra_field: get_range(file, extra_start, extra_field_length as usize),
        end_position: (extra_start + extra_field_length as usize) as u64,
    };
    Ok(header)
}

impl PkZip {
    /// Whether the buffer starts with the local-file-header signature.
    pub fn data_is_pkzip(file: &[u8]) -> (r: bool)
        ensures
            r == is_lfh_sig(file@, 0),
    {
        file.len() >= 4 && file[0] == 0x50 && file[1] == 0x4b && file[2] == 0x03 && file[3] == 0x04
    }

    /// Parses a whole buffer as a ZIP archive: the end-of-central-
    /// directory record, every central directory header, and every
    /// local file header they point to.  Fails exactly on the buffers
    /// `zip_parse_err` rejects, with that error.
    pub fn new(file_bytes: &[u8]) -> (r: Result<Self, ZipError>)
        ensures
            r is Ok <==> zip_parse_err(file_bytes@) is None,
            r is Err ==> r == Err::<PkZip, ZipError>(zip_parse_err(file_bytes@).unwrap()),
            r is Ok ==> zip_ok(file_bytes@, r.unwrap()),
    {
        let ghost s = file_bytes@;
        let len = file_bytes.len();
        if !Self::data_is_pkzip(file_bytes) {
            return Err(ZipError::NotAZipFile);
        }
        // Find the end-of-central-directory signature.
        let mut i: usize = 0;
        loop
            invariant
                s == file_bytes@,
                len == s.len(),
                is_lfh_sig(s, 0),
                find_eocd(s, 0) == find_eocd(s, i as int),
                i <= len,
            ensures
                s == file_bytes@,
                len == s.len(),
                is_lfh_sig(s, 0),
                i + 4 <= len,
                is_eocd_sig(s, i as int),
                find_eocd(s, 0) == Some(i as int),
            decreases len - i,
        {
            if len - i < 4 {
                proof {
                    assert(find_eocd(s, i as int) == Option::<int>::None);
                }
                return Err(ZipError::MissingEocd);
            }
            if file_bytes[i] == 0x50 && file_bytes[i + 1] == 0x4b && file_bytes[i + 2] == 0x05
                && file_bytes[i + 3] == 0x06 {
                proof {
                    assert(is_eocd_sig(s, i as int));
                    assert(find_eocd(s, i as int) == Some(i as int));
                }
                break;
            }
            proof {
                assert(!is_eocd_sig(s, i as int));
                assert(find_eocd(s, i as int) == find_eocd(s, i + 1));
            }
            i = i + 1;
        }
        let p = i;
        // The fixed part of the record, then the archive comment.
        if len - p < 22 {
            return Err(ZipError::Truncated);
        }
        let zip_file_comment_length = get_u16(file_bytes, p + 20);
        if len - (p + 22) < zip_file_comment_length as usize {
            return Err(ZipError::Truncated);
        }
        let end_of_central_directory_record = EndOfCentralDirectoryRecord {
            number_of_this_disk: get_u16(file_bytes, p + 4),
            number_of_disk_with_start_of_central_directory: get_u16(file_bytes, p + 6),
            total_number_of_entries_in_central_directory_on_current_disk: get_u16(
                file_bytes,
                p + 8,
            ),
            total_number_of_entries_in_central_directory: get_u16(file_bytes, p + 10),
            size_of_central_directory: get_u32(file_bytes, p + 12),
            offset_of_start_of_central_directory_with_respect_to_starting_disk_number: get_u32(
                file_bytes,
                p + 16,
            ),
            zip_file_comment_length,
            zip_file_comment: get_range(file_bytes, p + 22, zip_file_comment_length as usize),
        };
        let total_entries = get_u16(file_bytes, p + 10);
        let cd_offset = get_u32(file_bytes, p + 16);
        let ghost n = u16_at(s, p + 10);
        // Walk the central directory.
        let mut central_directory_headers: Vec<CentralDirectoryHeader> = Vec::new();
        let mut cursor: usize = cd_offset as usize;
        let mut ghost_positions: Ghost<Seq<int>> = Ghost(Seq::empty());
        for k in 0..total_entries
            invariant
                s == file_bytes@,
                len == s.len(),
                is_lfh_sig(s, 0),
                find_eocd(s, 0) == Some(p as int),
                p + 22 <= s.len(),
                p + 22 + u16_at(s, p + 20) <= s.len(),
                n == u16_at(s, p + 10) == total_entries,
                central_directory_headers@.len() == k,
                ghost_positions@.len() == k,
                cursor as int == (if k == 0 {
                    u32_at(s, p + 16) as int
                } else {
                    central_directory_headers@[k - 1].end_position as int
                }),
                forall|j: int|
                    0 <= j < k ==> cdh_ok(
                        s,
                        (#[trigger] central_directory_headers@[j]).start_position as int,
                        central_directory_headers@[j],
                    ),
                forall|j: int|
                    0 <= j < k ==> (#[trigger] ghost_positions@[j])
                        == central_directory_headers@[j].start_position as int,
                k > 0 ==> central_directory_headers@[0].start_position == u32_at(s, p + 16),
                forall|j: int|
                    0 <= j < k - 1 ==> (#[trigger] central_directory_headers@[j + 1]).start_position
                        == central_directory_headers@[j].end_position,
                parse_cd(s, u32_at(s, p + 16) as int, n) == (match parse_cd(
                    s,
                    cursor as int,
                    (n - k) as nat,
                ) {
                    Err(e) => Err::<Seq<int>, ZipError>(e),
                    Ok(rest) => Ok::<Seq<int>, ZipError>(ghost_positions@ + rest),
                }),
        {
            let header = match parse_cdh_at(file_bytes, cursor) {
                Ok(h) => h,
                Err(e) => {
                    proof {
                        assert(parse_cd(s, cursor as int, (n - k) as nat) == Err::<
                            Seq<int>,
                            ZipError,
                        >(e));
                    }
                    return Err(e);
                },
            };
            let next = header.end_position as usize;
            proof {
                assert(next as int == cdh_end(s, cursor as int));
                match parse_cd(s, cdh_end(s, cursor as int), (n - k - 1) as nat) {
                    Err(_) => {},
                    Ok(rest) => {
                        assert(ghost_positions@ + (seq![cursor as int] + rest) =~= (
                        ghost_positions@.push(cursor as int)) + rest);
                    },
                }
            }
            ghost_positions = Ghost(ghost_positions@.push(cursor as int));
            central_directory_headers.push(header);
            cursor = next;
        }
        proof {
            assert(parse_cd(s, cursor as int, 0) == Ok::<Seq<int>, ZipError>(Seq::empty()));
            assert(ghost_positions@ + Seq::<int>::empty() =~= ghost_positions@);
            assert(parse_cd(s, u32_at(s, p + 16) as int, n) == Ok::<Seq<int>, ZipError>(
                ghost_positions@,
            ));
        }
        // Visit each member's local file header.
        let mut local_file_headers: Vec<LocalFileHeader> = Vec::new();
        let count = central_directory_headers.len();
        for k in 0..count
            invariant
                s == file_bytes@,
                len == s.len(),
                is_lfh_sig(s, 0),
                find_eocd(s, 0) == Some(p as int),
                p + 22 <= s.len(),
                p + 22 + u16_at(s, p + 20) <= s.len(),
                n == u16_at(s, p + 10),
                parse_cd(s, u32_at(s, p + 16) as int, n) == Ok::<Seq<int>, ZipError>(
                    ghost_positions@,
                ),
                count == central_directory_headers@.len() == n,
                ghost_positions@.len() == n,
                local_file_headers@.len() == k,
                forall|j: int|
                    0 <= j < count ==> cdh_ok(
                        s,
                        (#[trigger] central_directory_headers@[j]).start_position as int,
                        central_directory_headers@[j],
                    ),
                forall|j: int|
                    0 <= j < count ==> (#[trigger] ghost_positions@[j])
                        == central_directory_headers@[j].start_position as int,
                k > 0 ==> central_directory_headers@[0].start_position == u32_at(s, p + 16),
                count > 0 ==> central_directory_headers@[0].start_position == u32_at(s, p + 16),
                forall|j: int|
                    0 <= j < count - 1 ==> (#[trigger] central_directory_headers@[j
                        + 1]).start_position == central_directory_headers@[j].end_position,
                forall|j: int|
                    0 <= j < k ==> lfh_ok(
                        s,
                        central_directory_headers@[j].relative_offset_of_local_header as int,
                        (#[trigger] local_file_headers@[j]),
                    ),
                lfh_scan(s, ghost_positions@, 0) == lfh_scan(s, ghost_positions@, k as int),
        {
            let offset = central_directory_headers[k].relative_offset_of_local_header;
            proof {
                assert(cdh_ok(
                    s,
                    central_directory_headers@[k as int].start_position as int,
                    central_directory_headers@[k as int],
                ));
                assert(u32_at(s, ghost_positions@[k as int] + 42) == offset);
            }
            let off: usize = offset as usize;
            let header = match parse_lfh_at(file_bytes, off) {
                Ok(h) => h,
                Err(e) => {
                    proof {
                        assert(lfh_scan(s, ghost_positions@, k as int) == Some(e));
                    }
                    return Err(e);
                },
            };
            proof {
                assert(lfh_entry_err(s, offset as int) is None);
                assert(lfh_scan(s, ghost_positions@, k as int) == lfh_scan(
                    s,
                    ghost_positions@,
                    k + 1,
                ));
            }
            local_file_headers.push(header);
        }
        proof {
            assert(lfh_scan(s, ghost_positions@, n as int) == Option::<ZipError>::None);
        }
        let file_bytes_vec = vstd::slice::slice_to_vec(file_bytes);
        Ok(
            PkZip {
                local_file_headers,
                central_directory_headers,
                end_of_central_directory_record,
                file_bytes: file_bytes_vec,
            },
        )
    }
}

/// A name for what `String::from_utf8` decodes: the character sequence
/// of a byte sequence, when the bytes are valid UTF-8.
pub uninterp spec fn utf8_decode(bytes: Seq<u8>) -> Option<Seq<char>>;

/// Relies on `String::from_utf8`: succeeds exactly on valid UTF-8 and
/// returns its decoding.
#[verifier::external_body]
fn bytes_to_string(v: Vec<u8>) -> (r: Option<String>)
    ensures
        r is Some <==> utf8_decode(v@) is Some,
        r is Some ==> r.unwrap()@ == utf8_decode(v@).unwrap(),
{
    match String::from_utf8(v) {
        Ok(s) => Some(s),
        Err(_) => None,
    }
}

/// One member of the archive, paired with its compressed byte range.
#[derive(Debug, Clone)]
pub struct PkZipFile {
    pub file_name: String,
    pub compressed_size: u32,
    pub compression_method: CompressionMethod,
    pub uncompressed_size: u32,
    pub crc_32: u32,
    pub compressed_data: Vec<u8>,
}

/// How many members the archive has: central directory entries and
/// local file headers are paired positionally, stopping at the shorter
/// list.
pub open spec fn pair_count(z: PkZip) -> int {
    if z.central_directory_headers@.len() <= z.local_file_headers@.len() {
        z.central_directory_headers@.len() as int
    } else {
        z.local_file_headers@.len() as int
    }
}

/// What is wrong with member `i`, if anything: a compressed range past
/// the buffer, a name that is not text, or a method identifier this
/// library does not know.
pub open spec fn member_err(z: PkZip, i: int) -> Option<ZipError> {
    let c = z.central_directory_headers@[i];
    let l = z.local_file_headers@[i];
    if l.end_position + c.compressed_size > z.file_bytes@.len() {
        Some(ZipError::Truncated)
    } else if utf8_decode(c.file_name@) is None {
        Some(ZipError::CorruptHeader)
    } else if spec_method(c.compression_method) is None {
        Some(ZipError::UnsupportedCompressionMethod)
    } else {
        None
    }
}

/// The first error among the members from index `i` on.
pub open spec fn members_err(z: PkZip, i: int) -> Option<ZipError>
    decreases pair_count(z) - i,
{
    if i < 0 || i >= pair_count(z) {
        None
    } else {
        match member_err(z, i) {
            Some(e) => Some(e),
            None => members_err(z, i + 1),
        }
    }
}

/// Member `i` of the archive, field by field: metadata from its
/// central directory entry, and `compressed_size` raw bytes starting
/// where its local file header ends.
pub open spec fn member_ok(z: PkZip, i: int, f: PkZipFile) -> bool {
    let c = z.central_directory_headers@[i];
    let l = z.local_file_headers@[i];
    &&& f.file_name@ == utf8_decode(c.file_name@).unwrap()
    &&& f.compressed_size == c.compressed_size
    &&& Some(f.compression_method) == spec_method(c.compression_method)
    &&& f.uncompressed_size == c.uncompressed_size
    &&& f.crc_32 == c.crc_32
    &&& f.compressed_data@ == z.file_bytes@.subrange(
        l.end_position as int,
        l.end_position + c.compressed_size,
    )
}

impl PkZip {
    /// Pairs every central directory entry with its local file header,
    /// by position, and slices out each member's compressed bytes.
    pub fn get_files(&self) -> (r: Result<Vec<PkZipFile>, ZipError>)
        ensures
            r is Ok <==> members_err(*self, 0) is None,
            r is Err ==> r == Err::<Vec<PkZipFile>, ZipError>(members_err(*self, 0).unwrap()),
            r is Ok ==> r.unwrap()@.len() == pair_count(*self) && (forall|i: int|
                0 <= i < pair_count(*self) ==> member_ok(*self, i, #[trigger] r.unwrap()@[i])),
    {
        let count = if self.central_directory_headers.len() <= self.local_file_headers.len() {
            self.central_directory_headers.len()
        } else {
            self.local_file_headers.len()
        };
        let mut ret_val: Vec<PkZipFile> = Vec::new();
        let flen = self.file_bytes.len();
        for k in 0..count
            invariant
                count == pair_count(*self),
                flen == self.file_bytes@.len(),
                ret_val@.len() == k,
                members_err(*self, 0) == members_err(*self, k as int),
                forall|j: int| 0 <= j < k ==> member_ok(*self, j, #[trigger] ret_val@[j]),
        {
            let start64 = self.local_file_headers[k].end_position;
            let csize = self.central_directory_headers[k].compressed_size;
            if start64 > flen as u64 || csize as u64 > flen as u64 - start64 {
                proof {
                    assert(member_err(*self, k as int) == Some(ZipError::Truncated));
                }
                return Err(ZipError::Truncated);
            }
            let start = start64 as usize;
            let compressed_data = get_range(self.file_bytes.as_slice(), start, csize as usize);
            let name_bytes = vstd::slice::slice_to_vec(
                self.central_directory_headers[k].file_name.as_slice(),
            );
            let file_name = match bytes_to_string(name_bytes) {
                Some(n) => n,
                None => {
                    proof {
                        assert(member_err(*self, k as int) == Some(ZipError::CorruptHeader));
                    }
                    return Err(ZipError::CorruptHeader);
                },
            };
            let compression_method = match get_compression_method(
                self.central_directory_headers[k].compression_method,
            ) {
                Ok(m) => m,
                Err(e) => {
                    proof {
                        assert(member_err(*self, k as int) == Some(
                            ZipError::UnsupportedCompressionMethod,
                        ));
                    }
                    return Err(e);
                },
            };
            let member = PkZipFile {
                file_name,
                compressed_size: csize,
                compression_method,
                uncompressed_size: self.central_directory_headers[k].uncompressed_size,
                crc_32: self.central_directory_headers[k].crc_32,
                compressed_data,
            };
            ret_val.push(member);
            proof {
                assert(member_err(*self, k as int) == Option::<ZipError>::None);
                assert(members_err(*self, k as int) == members_err(*self, k + 1));
            }
        }
        Ok(ret_val)
    }
}

impl PkZipFile {
    /// Reconstructs the member's uncompressed bytes: stored members
    /// pass through unchanged, deflated members run the DEFLATE
    /// decoder, and any other compression method is unsupported.
    pub fn decompress(&self) -> (r: Result<Vec<u8>, ZipError>)
        ensures
            self.compression_method == CompressionMethod::NoCompression ==> r is Ok && r.unwrap()@
                == self.compressed_data@,
            self.compression_method == CompressionMethod::Deflated ==> match spec_inflate(
                bytes_lsb_bits(self.compressed_data@),
            ) {
                Ok(v) => r is Ok && r.unwrap()@ == v,
                Err(e) => r == Err::<Vec<u8>, ZipError>(e),
            },
            self.compression_method != CompressionMethod::NoCompression
                && self.compression_method != CompressionMethod::Deflated ==> r == Err::<
                Vec<u8>,
                ZipError,
            >(ZipError::UnsupportedCompressionMethod),
    {
        match self.compression_method {
            CompressionMethod::NoCompression => Ok(
                vstd::slice::slice_to_vec(self.compressed_data.as_slice()),
            ),
            CompressionMethod::Deflated => crate::deflate::inflate(&self.compressed_data),
            _ => Err(ZipError::UnsupportedCompressionMethod),
        }
    }
}

} // verus!
