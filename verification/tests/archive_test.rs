use pkzip::BitArray;
use pkzip::ByteStream;
use pkzip::CompressionMethod;
use pkzip::PkZip;
use pkzip::PkZipFile;
use pkzip::ZipError;

/// A minimal single-member archive holding `data` uncompressed under
/// `name`.
fn stored_archive(name: &[u8], data: &[u8]) -> Vec<u8> {
    let mut v: Vec<u8> = Vec::new();
    // Local file header.
    v.extend_from_slice(&[0x50, 0x4b, 0x03, 0x04]);
    v.extend_from_slice(&[20, 0]); // version needed
    v.extend_from_slice(&[0, 0]); // flags
    v.extend_from_slice(&[0, 0]); // method: stored
    v.extend_from_slice(&[0, 0]); // time
    v.extend_from_slice(&[0, 0]); // date
    v.extend_from_slice(&[0, 0, 0, 0]); // crc-32
    v.extend_from_slice(&(data.len() as u32).to_le_bytes()); // compressed size
    v.extend_from_slice(&(data.len() as u32).to_le_bytes()); // uncompressed size
    v.extend_from_slice(&(name.len() as u16).to_le_bytes());
    v.extend_from_slice(&[0, 0]); // extra length
    v.extend_from_slice(name);
    v.extend_from_slice(data);
    let cd_offset = v.len() as u32;
    // Central directory header.
    v.extend_from_slice(&[0x50, 0x4b, 0x01, 0x02]);
    v.extend_from_slice(&[20, 0]); // version made by
    v.extend_from_slice(&[20, 0]); // version needed
    v.extend_from_slice(&[0, 0]); // flags
    v.extend_from_slice(&[0, 0]); // method: stored
    v.extend_from_slice(&[0, 0]); // time
    v.extend_from_slice(&[0, 0]); // date
    v.extend_from_slice(&[0, 0, 0, 0]); // crc-32
    v.extend_from_slice(&(data.len() as u32).to_le_bytes());
    v.extend_from_slice(&(data.len() as u32).to_le_bytes());
    v.extend_from_slice(&(name.len() as u16).to_le_bytes());
    v.extend_from_slice(&[0, 0]); // extra length
    v.extend_from_slice(&[0, 0]); // comment length
    v.extend_from_slice(&[0, 0]); // disk number
    v.extend_from_slice(&[0, 0]); // internal attributes
    v.extend_from_slice(&[0, 0, 0, 0]); // external attributes
    v.extend_from_slice(&[0, 0, 0, 0]); // local header offset
    v.extend_from_slice(name);
    let cd_size = v.len() as u32 - cd_offset;
    // End of central directory record.
    v.extend_from_slice(&[0x50, 0x4b, 0x05, 0x06]);
    v.extend_from_slice(&[0, 0]); // this disk
    v.extend_from_slice(&[0, 0]); // central directory disk
    v.extend_from_slice(&[1, 0]); // entries on this disk
    v.extend_from_slice(&[1, 0]); // total entries
    v.extend_from_slice(&cd_size.to_le_bytes());
    v.extend_from_slice(&cd_offset.to_le_bytes());
    v.extend_from_slice(&[0, 0]); // comment length
    v
}

fn deflated_member(compressed: Vec<u8>, uncompressed_size: u32) -> PkZipFile {
    PkZipFile {
        file_name: String::from("member"),
        compressed_size: compressed.len() as u32,
        compression_method: CompressionMethod::Deflated,
        uncompressed_size,
        crc_32: 0,
        compressed_data: compressed,
    }
}

#[test]
fn stored_archive_round_trip_test() {
    let data = b"HELLO WORLD";
    let bytes = stored_archive(b"hello.txt", data);
    assert!(PkZip::data_is_pkzip(&bytes));
    let zip = PkZip::new(&bytes).unwrap();
    let files = zip.get_files().unwrap();
    assert_eq!(files.len(), 1);
    assert_eq!(files[0].file_name, "hello.txt");
    assert_eq!(files[0].compressed_size, data.len() as u32);
    assert_eq!(files[0].uncompressed_size, data.len() as u32);
    assert!(matches!(
        files[0].compression_method,
        CompressionMethod::NoCompression
    ));
    let recovered = files[0].decompress().unwrap();
    assert_eq!(recovered, data.to_vec());
}

#[test]
fn non_pkzip_buffer_rejected_test() {
    let bytes = vec![1u8, 2, 3, 4, 5, 6, 7, 8];
    assert!(!PkZip::data_is_pkzip(&bytes));
    assert!(matches!(PkZip::new(&bytes), Err(ZipError::NotAZipFile)));
    let empty: Vec<u8> = Vec::new();
    assert!(!PkZip::data_is_pkzip(&empty));
    assert!(matches!(PkZip::new(&empty), Err(ZipError::NotAZipFile)));
}

#[test]
fn missing_eocd_test() {
    // Starts like an archive but never carries the trailer signature.
    let bytes = vec![0x50, 0x4b, 0x03, 0x04, 0, 0, 0, 0];
    assert!(matches!(PkZip::new(&bytes), Err(ZipError::MissingEocd)));
}

#[test]
fn truncated_eocd_test() {
    // The trailer signature appears, but its fixed fields do not fit.
    let mut bytes = vec![0x50, 0x4b, 0x03, 0x04];
    bytes.extend_from_slice(&[0x50, 0x4b, 0x05, 0x06, 1, 0]);
    assert!(matches!(PkZip::new(&bytes), Err(ZipError::Truncated)));
}

#[test]
fn corrupt_central_directory_test() {
    // A valid archive whose central directory signature is damaged.
    let mut bytes = stored_archive(b"a.txt", b"xy");
    let cd_offset: usize = 30 + 5 + 2;
    bytes[cd_offset] = 0x51;
    assert!(matches!(PkZip::new(&bytes), Err(ZipError::CorruptHeader)));
}

#[test]
fn invalid_member_name_test() {
    // Parsing keeps raw name bytes; pairing rejects a non-UTF-8 name.
    let mut bytes = stored_archive(b"\xffbad", b"xy");
    assert!(bytes[30] == 0xff);
    let zip = PkZip::new(&bytes).unwrap();
    assert!(matches!(zip.get_files(), Err(ZipError::CorruptHeader)));
}

#[test]
fn reserved_block_type_test() {
    // final-block flag set, then block type bits 11: reserved.
    let member = deflated_member(vec![0b0000_0111], 5);
    assert!(matches!(member.decompress(), Err(ZipError::CorruptStream)));
}

#[test]
fn empty_deflate_stream_test() {
    let member = deflated_member(Vec::new(), 5);
    assert!(matches!(member.decompress(), Err(ZipError::EndOfStream)));
}

#[test]
fn fixed_huffman_back_reference_test() {
    // "abc" as literals, then a length-6 distance-3 back-reference,
    // then end of block, under the fixed tables.
    let member = deflated_member(vec![75, 76, 74, 134, 32, 0], 9);
    let out = member.decompress().unwrap();
    assert_eq!(out, b"abcabcabc".to_vec());
}

#[test]
fn inflate_fixed_huffman_test() {
    let out = pkzip::inflate(&vec![75, 76, 74, 134, 32, 0]).unwrap();
    assert_eq!(out, b"abcabcabc".to_vec());
}

#[test]
fn overfull_code_length_run_test() {
    // A dynamic block whose zero-length runs overshoot the declared
    // literal table size.
    let member = deflated_member(vec![5, 0, 128, 228, 255, 31], 1);
    assert!(matches!(
        member.decompress(),
        Err(ZipError::CorruptHuffmanTable)
    ));
}

#[test]
fn unsupported_method_test() {
    let member = PkZipFile {
        file_name: String::from("member"),
        compressed_size: 2,
        compression_method: CompressionMethod::Bzip2,
        uncompressed_size: 2,
        crc_32: 0,
        compressed_data: vec![1, 2],
    };
    assert!(matches!(
        member.decompress(),
        Err(ZipError::UnsupportedCompressionMethod)
    ));
    assert!(matches!(
        pkzip::get_compression_method(42),
        Err(ZipError::UnsupportedCompressionMethod)
    ));
    assert!(matches!(
        pkzip::get_compression_method(8),
        Ok(CompressionMethod::Deflated)
    ));
}

#[test]
fn empty_member_decompresses_to_nothing_test() {
    let member = PkZipFile {
        file_name: String::from("member"),
        compressed_size: 0,
        compression_method: CompressionMethod::NoCompression,
        uncompressed_size: 0,
        crc_32: 0,
        compressed_data: Vec::new(),
    };
    assert_eq!(member.decompress().unwrap(), Vec::<u8>::new());
    // An empty stored member inside a whole archive comes back empty too.
    let bytes = stored_archive(b"empty.txt", b"");
    let files = PkZip::new(&bytes).unwrap().get_files().unwrap();
    assert_eq!(files[0].decompress().unwrap(), Vec::<u8>::new());
}

#[test]
fn stored_deflate_block_test() {
    // A stored DEFLATE block: final flag, type 00, alignment padding,
    // then the length (first byte most significant), its complement,
    // and the raw payload.
    let mut data = vec![0b0000_0001u8];
    data.push(0); // length, high byte first
    data.push(3);
    data.push(255); // one's complement of the length
    data.push(252);
    data.extend_from_slice(b"dog");
    let out = pkzip::inflate(&data).unwrap();
    assert_eq!(out, b"dog".to_vec());
}

#[test]
fn stored_block_bad_complement_test() {
    let mut data = vec![0b0000_0001u8];
    data.push(0);
    data.push(3);
    data.push(0); // wrong complement
    data.push(0);
    data.extend_from_slice(b"dog");
    assert!(matches!(
        pkzip::inflate(&data),
        Err(ZipError::CorruptStream)
    ));
}

#[test]
fn bit_stream_field_reads_test() {
    // 0xB5 = 1011_0101: LSB-first reads pull 1,0,1,0,1,1,0,1.
    let mut bs = ByteStream::new(vec![BitArray::new(0xB5)]);
    assert_eq!(bs.read_bit().unwrap(), true);
    assert_eq!(bs.read_number_from_arbitrary_bits(3).unwrap(), 0b010);
    assert!(!bs.is_at_end());
    assert_eq!(bs.read_number_from_arbitrary_bits(4).unwrap(), 0b1011);
    assert!(bs.is_at_end());
    assert!(matches!(bs.read_bit(), Err(ZipError::EndOfStream)));
}

#[test]
fn bit_stream_alignment_test() {
    let mut bs = ByteStream::new(vec![BitArray::new(1), BitArray::new(0x42)]);
    assert_eq!(bs.read_bit().unwrap(), true);
    bs.skip_until_byte_aligned().unwrap();
    assert_eq!(bs.read_byte().unwrap(), 0x42);
    assert!(bs.is_at_end());
}

#[test]
fn bit_array_helpers_test() {
    let ba = BitArray::new(0b0000_0101);
    assert_eq!(ba.get_string(), "0b00000101");
    assert_eq!(ba.get_bits_as_u8_vector(), vec![0, 0, 0, 0, 0, 1, 0, 1]);
    assert_eq!(ba.get_word(), 5u16);
    let word = BitArray::new_from_word(0x0105);
    assert_eq!(word.bits.len(), 16);
    assert!(BitArray::is_bit_set(0b0000_0101, 1));
    assert!(!BitArray::is_bit_set(0b0000_0101, 2));
    assert!(BitArray::is_bit_set(0b0000_0101, 3));
    assert_eq!(
        BitArray::get_bits(vec![0x80, 0x01])[0..9],
        [true, false, false, false, false, false, false, false, false]
    );
    let combined =
        BitArray::get_bytearray_vec_as_combined_u8_vec(&[BitArray::new(0x80), BitArray::new(1)]);
    assert_eq!(
        combined,
        vec![1, 0, 0, 0, 0, 0, 0, 0, 0, 0, 0, 0, 0, 0, 0, 1]
    );
}

#[test]
fn dynamic_huffman_block_test() {
    // A dynamic-Huffman block produced by a reference encoder.
    let compressed = vec![
        21u8, 135, 177, 1, 128, 0, 12, 131, 110, 133, 88, 155, 255, 47, 176, 194, 2, 187, 128,
        203, 188, 179, 250, 112, 14, 142, 183, 49, 77, 44, 203, 149, 213, 54, 132, 31, 33, 249, 0,
    ];
    let expected = vec![
        103u8, 103, 97, 97, 97, 98, 103, 97, 101, 102, 101, 103, 98, 98, 100, 97, 100, 97, 100,
        101, 97, 98, 101, 98, 102, 101, 103, 99, 98, 99, 104, 99, 99, 98, 104, 97, 103, 97, 98,
        99, 104, 98, 104, 98, 98, 104, 104, 99, 97, 99, 97, 97, 97, 97, 97, 98, 97, 97, 99, 99,
    ];
    assert_eq!(pkzip::inflate(&compressed).unwrap(), expected);
}

#[test]
fn two_stored_blocks_test() {
    // A non-final stored block, then a final one: the outputs chain.
    let data = vec![0u8, 0, 1, 255, 254, 65, 1, 0, 1, 255, 254, 66];
    assert_eq!(pkzip::inflate(&data).unwrap(), b"AB".to_vec());
}

#[test]
fn two_member_archive_test() {
    fn lfh(v: &mut Vec<u8>, name: &[u8], data: &[u8]) -> u32 {
        let off = v.len() as u32;
        v.extend_from_slice(&[0x50, 0x4b, 0x03, 0x04, 20, 0, 0, 0, 0, 0, 0, 0, 0, 0]);
        v.extend_from_slice(&[0, 0, 0, 0]); // crc-32
        v.extend_from_slice(&(data.len() as u32).to_le_bytes());
        v.extend_from_slice(&(data.len() as u32).to_le_bytes());
        v.extend_from_slice(&(name.len() as u16).to_le_bytes());
        v.extend_from_slice(&[0, 0]);
        v.extend_from_slice(name);
        v.extend_from_slice(data);
        off
    }
    fn cdh(v: &mut Vec<u8>, name: &[u8], data: &[u8], off: u32) {
        v.extend_from_slice(&[0x50, 0x4b, 0x01, 0x02, 20, 0, 20, 0, 0, 0, 0, 0, 0, 0, 0, 0]);
        v.extend_from_slice(&[0, 0, 0, 0]); // crc-32
        v.extend_from_slice(&(data.len() as u32).to_le_bytes());
        v.extend_from_slice(&(data.len() as u32).to_le_bytes());
        v.extend_from_slice(&(name.len() as u16).to_le_bytes());
        v.extend_from_slice(&[0, 0, 0, 0, 0, 0, 0, 0]);
        v.extend_from_slice(&[0, 0, 0, 0]); // external attributes
        v.extend_from_slice(&off.to_le_bytes());
        v.extend_from_slice(name);
    }
    let mut v: Vec<u8> = Vec::new();
    let off_a = lfh(&mut v, b"a.txt", b"first");
    let off_b = lfh(&mut v, b"b.txt", b"second");
    let cd_offset = v.len() as u32;
    cdh(&mut v, b"a.txt", b"first", off_a);
    cdh(&mut v, b"b.txt", b"second", off_b);
    let cd_size = v.len() as u32 - cd_offset;
    v.extend_from_slice(&[0x50, 0x4b, 0x05, 0x06, 0, 0, 0, 0, 2, 0, 2, 0]);
    v.extend_from_slice(&cd_size.to_le_bytes());
    v.extend_from_slice(&cd_offset.to_le_bytes());
    v.extend_from_slice(&[0, 0]);

    let zip = PkZip::new(&v).unwrap();
    let files = zip.get_files().unwrap();
    assert_eq!(files.len(), 2);
    assert_eq!(files[0].file_name, "a.txt");
    assert_eq!(files[1].file_name, "b.txt");
    assert_eq!(files[0].decompress().unwrap(), b"first".to_vec());
    assert_eq!(files[1].decompress().unwrap(), b"second".to_vec());
}

#[test]
fn member_range_past_buffer_test() {
    // Overstate the member's compressed size in the central directory:
    // parsing still succeeds, pairing reports the truncation.
    let mut bytes = stored_archive(b"hello.txt", b"HELLO WORLD");
    let cd_offset: usize = 30 + 9 + 11;
    bytes[cd_offset + 20] = 0xff;
    let zip = PkZip::new(&bytes).unwrap();
    assert!(matches!(zip.get_files(), Err(ZipError::Truncated)));
}
