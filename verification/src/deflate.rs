//! The DEFLATE block decoder: block headers, stored blocks, the fixed
//! and dynamic Huffman tables, the shared token decode loop, and the
//! LZ77 back-reference copy.
//!
//! The whole decoder is mirrored by spec functions over the bit
//! sequence of the compressed stream: `spec_blocks` is the reference
//! meaning of a DEFLATE stream, and every executable piece is proved to
//! return exactly what its spec function says.

use vstd::arithmetic::power2::pow2;
use vstd::prelude::*;

use crate::bits::bytes_lsb_bits;
use crate::bits::lsb_val;
use crate::bits::BitArray;
use crate::bits::ByteStream;
use crate::huffman::spec_construct;
use crate::huffman::spec_walk;
use crate::huffman::HuffmanTree;
use crate::huffman::Node;
use crate::ZipError;

verus! {

/// The two-bit block type of a DEFLATE block header.
#[derive(Debug, Clone, Copy, PartialEq, Eq, Structural)]
pub enum DeflateCompressionType {
    Stored,
    FixedHuffman,
    DynamicHuffman,
    Reserved,
}

/// The mapping from a two-bit block-type field to the block kind; any
/// value past three counts as reserved.
pub open spec fn spec_deflate_type(type_indicator: u16) -> DeflateCompressionType {
    if type_indicator == 0 {
        DeflateCompressionType::Stored
    } else if type_indicator == 1 {
        DeflateCompressionType::FixedHuffman
    } else if type_indicator == 2 {
        DeflateCompressionType::DynamicHuffman
    } else {
        DeflateCompressionType::Reserved
    }
}

/// Reads a block-type field as the block kind it names.
pub fn get_deflate_compression_type(type_indicator: u16) -> (r: DeflateCompressionType)
    ensures
        r == spec_deflate_type(type_indicator),
{
    match type_indicator {
        0 => DeflateCompressionType::Stored,
        1 => DeflateCompressionType::FixedHuffman,
        2 => DeflateCompressionType::DynamicHuffman,
        _ => DeflateCompressionType::Reserved,
    }
}

/// The length-code table: triples `(code, extra bits, base value)` for
/// codes 257 through 285, RFC 1951 section 3.2.5.
pub open spec fn length_table() -> Seq<u16> {
    seq![
        257, 0, 3, 258, 0, 4, 259, 0, 5, 260, 0, 6, 261, 0, 7, 262, 0, 8, 263, 0, 9, 264, 0, 10,
        265, 1, 11, 266, 1, 13, 267, 1, 15, 268, 1, 17, 269, 2, 19, 270, 2, 23, 271, 2, 27, 272, 2,
        31, 273, 3, 35, 274, 3, 43, 275, 3, 51, 276, 3, 59, 277, 4, 67, 278, 4, 83, 279, 4, 99,
        280, 4, 115, 281, 5, 131, 282, 5, 163, 283, 5, 195, 284, 5, 227, 285, 0, 258,
    ]
}

/// The distance-code table: triples `(code, extra bits, base value)`
/// for codes 0 through 29, RFC 1951 section 3.2.5.
pub open spec fn dist_table() -> Seq<u16> {
    seq![
        0, 0, 1, 1, 0, 2, 2, 0, 3, 3, 0, 4, 4, 1, 5, 5, 1, 7, 6, 2, 9, 7, 2, 13, 8, 3, 17, 9, 3,
        25, 10, 4, 33, 11, 4, 49, 12, 5, 65, 13, 5, 97, 14, 6, 129, 15, 6, 193, 16, 7, 257, 17, 7,
        385, 18, 8, 513, 19, 8, 769, 20, 9, 1025, 21, 9, 1537, 22, 10, 2049, 23, 10, 3073, 24, 11,
        4097, 25, 11, 6145, 26, 12, 8193, 27, 12, 12289, 28, 13, 16385, 29, 13, 24577,
    ]
}

fn build_length_table() -> (r: Vec<u16>)
    ensures
        r@ == length_table(),
{
    let r: Vec<u16> = vec![
        257, 0, 3, 258, 0, 4, 259, 0, 5, 260, 0, 6, 261, 0, 7, 262, 0, 8, 263, 0, 9, 264, 0, 10,
        265, 1, 11, 266, 1, 13, 267, 1, 15, 268, 1, 17, 269, 2, 19, 270, 2, 23, 271, 2, 27, 272, 2,
        31, 273, 3, 35, 274, 3, 43, 275, 3, 51, 276, 3, 59, 277, 4, 67, 278, 4, 83, 279, 4, 99,
        280, 4, 115, 281, 5, 131, 282, 5, 163, 283, 5, 195, 284, 5, 227, 285, 0, 258,
    ];
    proof {
        assert(r@ =~= length_table());
    }
    r
}

fn build_dist_table() -> (r: Vec<u16>)
    ensures
        r@ == dist_table(),
{
    let r: Vec<u16> = vec![
        0, 0, 1, 1, 0, 2, 2, 0, 3, 3, 0, 4, 4, 1, 5, 5, 1, 7, 6, 2, 9, 7, 2, 13, 8, 3, 17, 9, 3,
        25, 10, 4, 33, 11, 4, 49, 12, 5, 65, 13, 5, 97, 14, 6, 129, 15, 6, 193, 16, 7, 257, 17, 7,
        385, 18, 8, 513, 19, 8, 769, 20, 9, 1025, 21, 9, 1537, 22, 10, 2049, 23, 10, 3073, 24, 11,
        4097, 25, 11, 6145, 26, 12, 8193, 27, 12, 12289, 28, 13, 16385, 29, 13, 24577,
    ];
    proof {
        assert(r@ =~= dist_table());
    }
    r
}

/// The symbols 0 through `n - 1`.
pub open spec fn id_symbols(n: int) -> Seq<u16> {
    Seq::new(n as nat, |i: int| i as u16)
}

/// The fixed literal/length code lengths: 8 bits for symbols 0-143,
/// 9 for 144-255, 7 for 256-279, and 8 for 280-287.
pub open spec fn fixed_lit_lengths() -> Seq<u16> {
    Seq::new(
        288,
        |i: int|
            if i <= 143 {
                8u16
            } else if i <= 255 {
                9u16
            } else if i <= 279 {
                7u16
            } else {
                8u16
            },
    )
}

/// The fixed distance code lengths: five bits for each of 32 symbols.
pub open spec fn fixed_dist_lengths() -> Seq<u16> {
    Seq::new(32, |i: int| 5u16)
}

/// The fixed literal/length decoding trie.
pub open spec fn fixed_lit_tree() -> Node {
    spec_construct(id_symbols(288), fixed_lit_lengths(), 288)
}

/// The fixed distance decoding trie.
pub open spec fn fixed_dist_tree() -> Node {
    spec_construct(id_symbols(32), fixed_dist_lengths(), 32)
}

fn build_id_symbols(n: u16) -> (r: Vec<u16>)
    ensures
        r@ == id_symbols(n as int),
{
    let mut r: Vec<u16> = Vec::new();
    for i in 0..n
        invariant
            r@ =~= id_symbols(i as int),
    {
        r.push(i);
        proof {
            assert(r@ =~= id_symbols(i + 1));
        }
    }
    r
}

/// The fixed literal/length and distance tries, together with the
/// length-code and distance-code tables.
pub fn get_fixed_huffman_trees() -> (r: (HuffmanTree, HuffmanTree, Vec<u16>, Vec<u16>))
    ensures
        r.0.spec_root() == fixed_lit_tree(),
        r.1.spec_root() == fixed_dist_tree(),
        r.2@ == length_table(),
        r.3@ == dist_table(),
{
    let length_values = build_length_table();
    let distance_values = build_dist_table();
    let literal_length_ht_values = build_id_symbols(288);
    let mut literal_length_ht_bit_length: Vec<u16> = Vec::new();
    for i in 0..288u16
        invariant
            literal_length_ht_bit_length@ =~= fixed_lit_lengths().take(i as int),
    {
        let l: u16 = if i <= 143 {
            8
        } else if i <= 255 {
            9
        } else if i <= 279 {
            7
        } else {
            8
        };
        literal_length_ht_bit_length.push(l);
        proof {
            assert(literal_length_ht_bit_length@ =~= fixed_lit_lengths().take(i + 1));
        }
    }
    proof {
        assert(literal_length_ht_bit_length@ =~= fixed_lit_lengths());
    }
    let literal_length_ht = HuffmanTree::construct_from_bitlengths(
        literal_length_ht_values.as_slice(),
        literal_length_ht_bit_length.as_slice(),
    );
    let distance_ht_values = build_id_symbols(32);
    let mut distance_ht_bit_lengths: Vec<u16> = Vec::new();
    for i in 0..32u16
        invariant
            distance_ht_bit_lengths@ =~= fixed_dist_lengths().take(i as int),
    {
        distance_ht_bit_lengths.push(5);
        proof {
            assert(distance_ht_bit_lengths@ =~= fixed_dist_lengths().take(i + 1));
        }
    }
    proof {
        assert(distance_ht_bit_lengths@ =~= fixed_dist_lengths());
    }
    let distance_ht = HuffmanTree::construct_from_bitlengths(
        distance_ht_values.as_slice(),
        distance_ht_bit_lengths.as_slice(),
    );
    (literal_length_ht, distance_ht, length_values, distance_values)
}

/// Linear search of a `(code, extra bits, base)` triple table: the
/// extra-bit count and base of the first triple whose code matches.
pub open spec fn table_find(t: Seq<u16>, code: u16, i: int) -> Option<(u16, u16)>
    decreases t.len() - 3 * i,
{
    if 3 * i + 3 > t.len() || i < 0 {
        Option::None
    } else if t[3 * i] == code {
        Option::Some((t[3 * i + 1], t[3 * i + 2]))
    } else {
        table_find(t, code, i + 1)
    }
}

fn table_lookup(t: &Vec<u16>, code: u16) -> (r: Option<(u16, u16)>)
    requires
        t@.len() % 3 == 0,
    ensures
        r == table_find(t@, code, 0),
{
    let n = t.len();
    let m = n / 3;
    proof {
        vstd::arithmetic::div_mod::lemma_fundamental_div_mod(n as int, 3);
    }
    let mut j: usize = 0;
    while j < m
        invariant
            n == t@.len(),
            n == 3 * m,
            j <= m,
            table_find(t@, code, 0) == table_find(t@, code, j as int),
        decreases m - j,
    {
        if t[3 * j] == code {
            return Some((t[3 * j + 1], t[3 * j + 2]));
        }
        j = j + 1;
    }
    None
}

/// The LZ77 copy: appends `len` bytes, each taken `dist` positions
/// before the current end of the output, one at a time, so that a copy
/// longer than its distance re-reads bytes it has just written.
pub open spec fn lz77(out: Seq<u8>, dist: nat, len: nat) -> Seq<u8>
    decreases len,
{
    if len == 0 {
        out
    } else {
        lz77(out.push(out[out.len() - dist]), dist, (len - 1) as nat)
    }
}

fn lz77_copy(out: &mut Vec<u8>, distance: u32, length: u32)
    requires
        1 <= distance <= old(out)@.len(),
    ensures
        final(out)@ == lz77(old(out)@, distance as nat, length as nat),
{
    let d = distance as usize;
    for k in 0..length
        invariant
            1 <= d <= out@.len(),
            d == distance,
            lz77(old(out)@, distance as nat, length as nat) == lz77(
                out@,
                distance as nat,
                (length - k) as nat,
            ),
    {
        let b = out[out.len() - d];
        out.push(b);
    }
}

/// One run of the shared literal/back-reference decode loop: reads
/// literal/length symbols until the end-of-block symbol, appending
/// literals and expanding back-references against everything decoded so
/// far.  A token that consumes no bits, a code outside the tables, an
/// extra-bit count no field read could satisfy, or a back-reference
/// past the start of the output is a corrupt stream.
pub open spec fn spec_tokens(
    lit: Node,
    dist: Node,
    ltab: Seq<u16>,
    dtab: Seq<u16>,
    bits: Seq<bool>,
    out: Seq<u8>,
) -> Result<(Seq<u8>, Seq<bool>), ZipError>
    decreases bits.len(),
{
    match spec_walk(lit, bits) {
        Err(e) => Err(e),
        Ok(sr) => {
            if sr.0 < 256 {
                if sr.1.len() < bits.len() {
                    spec_tokens(lit, dist, ltab, dtab, sr.1, out.push(sr.0 as u8))
                } else {
                    Err(ZipError::CorruptStream)
                }
            } else if sr.0 == 256 {
                Ok((out, sr.1))
            } else {
                match table_find(ltab, sr.0, 0) {
                    Option::None => Err(ZipError::CorruptStream),
                    Option::Some(lx) => {
                        if lx.0 > 16 {
                            Err(ZipError::CorruptStream)
                        } else if sr.1.len() < lx.0 {
                            Err(ZipError::EndOfStream)
                        } else {
                            let length = lx.1 + lsb_val(sr.1.take(lx.0 as int));
                            let r2 = sr.1.skip(lx.0 as int);
                            match spec_walk(dist, r2) {
                                Err(e) => Err(e),
                                Ok(dr) => match table_find(dtab, dr.0, 0) {
                                    Option::None => Err(ZipError::CorruptStream),
                                    Option::Some(dx) => {
                                        if dx.0 > 16 {
                                            Err(ZipError::CorruptStream)
                                        } else if dr.1.len() < dx.0 {
                                            Err(ZipError::EndOfStream)
                                        } else {
                                            let distance = dx.1 + lsb_val(dr.1.take(dx.0 as int));
                                            let r4 = dr.1.skip(dx.0 as int);
                                            if distance == 0 || distance > out.len() {
                                                Err(ZipError::CorruptStream)
                                            } else if r4.len() < bits.len() {
                                                spec_tokens(
                                                    lit,
                                                    dist,
                                                    ltab,
                                                    dtab,
                                                    r4,
                                                    lz77(out, distance as nat, length as nat),
                                                )
                                            } else {
                                                Err(ZipError::CorruptStream)
                                            }
                                        }
                                    },
                                },
                            }
                        }
                    },
                }
            }
        },
    }
}

/// Runs the shared decode loop against the given tries and tables,
/// appending the decoded bytes to `out`.
pub(crate) fn extract_using_given_huffman_trees(
    byte_stream: &mut ByteStream,
    literal_length_ht: HuffmanTree,
    length_values: Vec<u16>,
    distance_ht: HuffmanTree,
    distance_values: Vec<u16>,
    out: &mut Vec<u8>,
) -> (r: Result<(), ZipError>)
    requires
        old(byte_stream).wf(),
        length_values@.len() % 3 == 0,
        distance_values@.len() % 3 == 0,
    ensures
        final(byte_stream).wf(),
        match spec_tokens(
            literal_length_ht.spec_root(),
            distance_ht.spec_root(),
            length_values@,
            distance_values@,
            old(byte_stream).remaining(),
            old(out)@,
        ) {
            Ok(p) => r is Ok && final(out)@ == p.0 && final(byte_stream).remaining() == p.1,
            Err(e) => r == Err::<(), ZipError>(e),
        },
{
    let ghost lroot = literal_length_ht.spec_root();
    let ghost droot = distance_ht.spec_root();
    let ghost lt = length_values@;
    let ghost dt = distance_values@;
    loop
        invariant
            byte_stream.wf(),
            length_values@ == lt,
            distance_values@ == dt,
            lt.len() % 3 == 0,
            dt.len() % 3 == 0,
            literal_length_ht.spec_root() == lroot,
            distance_ht.spec_root() == droot,
            spec_tokens(lroot, droot, lt, dt, old(byte_stream).remaining(), old(out)@)
                == spec_tokens(lroot, droot, lt, dt, byte_stream.remaining(), out@),
        decreases byte_stream.remaining().len(),
    {
        let ghost it_bits = byte_stream.remaining();
        let ghost it_out = out@;
        let before = byte_stream.bits_left();
        let next_literal_or_length = match byte_stream.read_next_symbol(&literal_length_ht) {
            Ok(s) => s,
            Err(e) => {
                return Err(e);
            },
        };
        if next_literal_or_length <= 255 {
            let after = byte_stream.bits_left();
            if after >= before {
                return Err(ZipError::CorruptStream);
            }
            out.push(next_literal_or_length as u8);
            proof {
                assert(spec_tokens(lroot, droot, lt, dt, it_bits, it_out) == spec_tokens(
                    lroot,
                    droot,
                    lt,
                    dt,
                    byte_stream.remaining(),
                    out@,
                ));
            }
        } else if next_literal_or_length == 256 {
            proof {
                assert(spec_tokens(lroot, droot, lt, dt, it_bits, it_out) == Ok::<
                    (Seq<u8>, Seq<bool>),
                    ZipError,
                >((it_out, byte_stream.remaining())));
            }
            return Ok(());
        } else {
            let length_code = next_literal_or_length;
            let lx = match table_lookup(&length_values, length_code) {
                Some(x) => x,
                None => {
                    return Err(ZipError::CorruptStream);
                },
            };
            let (length_number_of_extra_bits, length_base) = lx;
            if length_number_of_extra_bits > 16 {
                return Err(ZipError::CorruptStream);
            }
            let length_extra = match byte_stream.read_number_from_arbitrary_bits(
                length_number_of_extra_bits,
            ) {
                Ok(v) => v,
                Err(e) => {
                    return Err(e);
                },
            };
            let length = length_base as u32 + length_extra as u32;
            let distance_code = match byte_stream.read_next_symbol(&distance_ht) {
                Ok(s) => s,
                Err(e) => {
                    return Err(e);
                },
            };
            let dx = match table_lookup(&distance_values, distance_code) {
                Some(x) => x,
                None => {
                    return Err(ZipError::CorruptStream);
                },
            };
            let (distance_number_of_extra_bits, distance_base) = dx;
            if distance_number_of_extra_bits > 16 {
                return Err(ZipError::CorruptStream);
            }
            let distance_extra = match byte_stream.read_number_from_arbitrary_bits(
                distance_number_of_extra_bits,
            ) {
                Ok(v) => v,
                Err(e) => {
                    return Err(e);
                },
            };
            let distance = distance_base as u32 + distance_extra as u32;
            if distance == 0 || distance as usize > out.len() {
                return Err(ZipError::CorruptStream);
            }
            let after = byte_stream.bits_left();
            if after >= before {
                return Err(ZipError::CorruptStream);
            }
            lz77_copy(out, distance, length);
            proof {
                assert(spec_tokens(lroot, droot, lt, dt, it_bits, it_out) == spec_tokens(
                    lroot,
                    droot,
                    lt,
                    dt,
                    byte_stream.remaining(),
                    out@,
                ));
            }
        }
    }
}

/// The bytes packed in a bit sequence, eight bits per byte, least
/// significant bit first within each byte; a trailing partial byte is
/// dropped.
pub open spec fn bits_to_bytes(s: Seq<bool>) -> Seq<u8>
    decreases s.len(),
{
    if s.len() < 8 {
        Seq::empty()
    } else {
        seq![lsb_val(s.take(8)) as u8] + bits_to_bytes(s.skip(8))
    }
}

proof fn lemma_bits_to_bytes_snoc(s: Seq<bool>, c: Seq<bool>)
    requires
        s.len() % 8 == 0,
        c.len() == 8,
    ensures
        bits_to_bytes(s + c) == bits_to_bytes(s) + seq![lsb_val(c) as u8],
    decreases s.len(),
{
    if s.len() == 0 {
        assert(s + c =~= c);
        assert(c.take(8) =~= c);
        assert(c.skip(8) =~= Seq::<bool>::empty());
        assert(bits_to_bytes(s) =~= Seq::<u8>::empty());
        assert(bits_to_bytes(c.skip(8)) =~= Seq::<u8>::empty());
        assert(bits_to_bytes(c) =~= seq![lsb_val(c) as u8]);
        assert(bits_to_bytes(s + c) =~= bits_to_bytes(s) + seq![lsb_val(c) as u8]);
    } else {
        assert((s + c).take(8) =~= s.take(8));
        assert((s + c).skip(8) =~= s.skip(8) + c);
        lemma_bits_to_bytes_snoc(s.skip(8), c);
        assert(bits_to_bytes(s + c) == seq![lsb_val(s.take(8)) as u8] + (bits_to_bytes(s.skip(8))
            + seq![lsb_val(c) as u8]));
        assert(seq![lsb_val(s.take(8)) as u8] + (bits_to_bytes(s.skip(8)) + seq![lsb_val(c) as u8])
            =~= (seq![lsb_val(s.take(8)) as u8] + bits_to_bytes(s.skip(8))) + seq![lsb_val(
            c,
        ) as u8]);
        assert(bits_to_bytes(s + c) =~= bits_to_bytes(s) + seq![lsb_val(c) as u8]);
    }
}

/// One stored (uncompressed) block: skip to the next byte boundary,
/// read a two-byte length (first byte most significant) and its
/// one's-complement check, then pass that many raw bytes through.
pub open spec fn spec_stored(bits: Seq<bool>, out: Seq<u8>) -> Result<
    (Seq<u8>, Seq<bool>),
    ZipError,
> {
    let a = bits.skip((bits.len() % 8) as int);
    if a.len() < 32 {
        Err(ZipError::EndOfStream)
    } else {
        let len_hi = lsb_val(a.take(8));
        let len_lo = lsb_val(a.skip(8).take(8));
        let nlen_hi = lsb_val(a.skip(16).take(8));
        let nlen_lo = lsb_val(a.skip(24).take(8));
        if len_hi + nlen_hi != 255 || len_lo + nlen_lo != 255 {
            Err(ZipError::CorruptStream)
        } else {
            let len_v = len_hi * 256 + len_lo;
            let body = a.skip(32);
            if body.len() < 8 * len_v {
                Err(ZipError::EndOfStream)
            } else {
                Ok((out + bits_to_bytes(body.take(8 * len_v as int)), body.skip(8 * len_v as int)))
            }
        }
    }
}

/// Copies one stored block's raw bytes to the output.
pub(crate) fn extract_stored(byte_stream: &mut ByteStream, out: &mut Vec<u8>) -> (r: Result<
    (),
    ZipError,
>)
    requires
        old(byte_stream).wf(),
    ensures
        final(byte_stream).wf(),
        match spec_stored(old(byte_stream).remaining(), old(out)@) {
            Ok(p) => r is Ok && final(out)@ == p.0 && final(byte_stream).remaining() == p.1,
            Err(e) => r == Err::<(), ZipError>(e),
        },
{
    match byte_stream.skip_until_byte_aligned() {
        Ok(()) => (),
        Err(e) => {
            proof {
                assert(false);
            }
            return Err(e);
        },
    }
    let ghost a = byte_stream.remaining();
    let len_first = match byte_stream.read_byte() {
        Ok(b) => b,
        Err(e) => {
            return Err(e);
        },
    };
    let len_second = match byte_stream.read_byte() {
        Ok(b) => b,
        Err(e) => {
            return Err(e);
        },
    };
    let nlen_first = match byte_stream.read_byte() {
        Ok(b) => b,
        Err(e) => {
            return Err(e);
        },
    };
    let nlen_second = match byte_stream.read_byte() {
        Ok(b) => b,
        Err(e) => {
            return Err(e);
        },
    };
    proof {
        assert(a.skip(8).skip(8) =~= a.skip(16));
        assert(a.skip(16).skip(8) =~= a.skip(24));
        assert(a.skip(24).skip(8) =~= a.skip(32));
    }
    if len_first as u16 + nlen_first as u16 != 255 || len_second as u16 + nlen_second as u16
        != 255 {
        return Err(ZipError::CorruptStream);
    }
    let len = len_first as u32 * 256 + len_second as u32;
    let ghost body = a.skip(32);
    if (byte_stream.bits_left() as u64) < 8 * (len as u64) {
        return Err(ZipError::EndOfStream);
    }
    for i in 0..len
        invariant
            byte_stream.wf(),
            8 * len <= body.len(),
            byte_stream.remaining() == body.skip(8 * i),
            out@ == old(out)@ + bits_to_bytes(body.take(8 * i)),
    {
        let byte = match byte_stream.read_byte() {
            Ok(b) => b,
            Err(e) => {
                proof {
                    assert(false);
                }
                return Err(e);
            },
        };
        out.push(byte);
        proof {
            assert(body.take(8 * i) + body.skip(8 * i).take(8) =~= body.take(8 * (i + 1)));
            lemma_bits_to_bytes_snoc(body.take(8 * i), body.skip(8 * i).take(8));
            assert(out@ =~= old(out)@ + bits_to_bytes(body.take(8 * (i + 1))));
            assert(body.skip(8 * i).skip(8) =~= body.skip(8 * (i + 1)));
        }
    }
    proof {
        assert(bits_to_bytes(body.take(8 * len as int)) == bits_to_bytes(
            body.take(8 * (len as int)),
        ));
    }
    Ok(())
}

/// `count` fixed-width fields read in a row, each assembled LSB-first.
pub open spec fn read_fields(bits: Seq<bool>, count: nat, width: nat, acc: Seq<u16>) -> Result<
    (Seq<u16>, Seq<bool>),
    ZipError,
>
    decreases count,
{
    if count == 0 {
        Ok((acc, bits))
    } else if bits.len() < width {
        Err(ZipError::EndOfStream)
    } else {
        read_fields(
            bits.skip(width as int),
            (count - 1) as nat,
            width,
            acc.push(lsb_val(bits.take(width as int)) as u16),
        )
    }
}

fn read_fields_exec(byte_stream: &mut ByteStream, count: u16, width: u16) -> (r: Result<
    Vec<u16>,
    ZipError,
>)
    requires
        old(byte_stream).wf(),
        1 <= width <= 16,
    ensures
        final(byte_stream).wf(),
        match read_fields(old(byte_stream).remaining(), count as nat, width as nat, Seq::empty()) {
            Ok(p) => r is Ok && r.unwrap()@ == p.0 && final(byte_stream).remaining() == p.1,
            Err(e) => r == Err::<Vec<u16>, ZipError>(e),
        },
        r is Ok ==> r.unwrap()@.len() == count,
        r is Ok ==> forall|j: int|
            0 <= j < r.unwrap()@.len() ==> (#[trigger] r.unwrap()@[j]) < pow2(width as nat),
{
    let ghost bits0 = byte_stream.remaining();
    let mut acc: Vec<u16> = Vec::new();
    for i in 0..count
        invariant
            byte_stream.wf(),
            1 <= width <= 16,
            acc@.len() == i,
            bits0 == old(byte_stream).remaining(),
            read_fields(bits0, count as nat, width as nat, Seq::empty()) == read_fields(
                byte_stream.remaining(),
                (count - i) as nat,
                width as nat,
                acc@,
            ),
            forall|j: int| 0 <= j < acc@.len() ==> (#[trigger] acc@[j]) < pow2(width as nat),
    {
        let ghost it_bits = byte_stream.remaining();
        let v = match byte_stream.read_number_from_arbitrary_bits(width) {
            Ok(v) => v,
            Err(e) => {
                proof {
                    assert(read_fields(it_bits, (count - i) as nat, width as nat, acc@)
                        == Result::<(Seq<u16>, Seq<bool>), ZipError>::Err(ZipError::EndOfStream));
                }
                return Err(e);
            },
        };
        proof {
            crate::bits::lemma_lsb_val_bound(it_bits.take(width as int));
        }
        let ghost prev_acc = acc@;
        acc.push(v);
        proof {
            assert(acc@ =~= prev_acc.push(v));
            assert(read_fields(it_bits, (count - i) as nat, width as nat, prev_acc)
                == read_fields(
                byte_stream.remaining(),
                (count - i - 1) as nat,
                width as nat,
                acc@,
            ));
        }
    }
    Ok(acc)
}

/// The order in which the code-length-code lengths are transmitted.
pub open spec fn clen_order() -> Seq<u16> {
    seq![16, 17, 18, 0, 8, 7, 9, 6, 10, 5, 11, 4, 12, 3, 13, 2, 14, 1, 15]
}

/// The 19 code-length-code lengths after undoing the transmission
/// permutation: entry `clen_order()[i]` receives the `i`-th value read,
/// everything not transmitted stays zero.
pub open spec fn unpermute(vals: Seq<u16>, i: int) -> Seq<u16>
    decreases i,
{
    if i <= 0 {
        Seq::new(19, |k: int| 0u16)
    } else {
        unpermute(vals, i - 1).update(clen_order()[i - 1] as int, vals[i - 1])
    }
}

/// One symbol stream of code lengths: symbols 0-15 are lengths, 16
/// repeats the previous length 3-6 times, 17 and 18 insert 3-10 or
/// 11-138 zero lengths, until at least `target` lengths are present.
pub open spec fn read_code_lengths(
    tree: Node,
    bits: Seq<bool>,
    target: nat,
    last: u16,
    acc: Seq<u16>,
) -> Result<(Seq<u16>, u16, Seq<bool>), ZipError>
    decreases bits.len(),
{
    if acc.len() >= target {
        Ok((acc, last, bits))
    } else {
        match spec_walk(tree, bits) {
            Err(e) => Err(e),
            Ok(sr) => {
                if sr.0 <= 15 {
                    if sr.1.len() < bits.len() {
                        read_code_lengths(tree, sr.1, target, sr.0, acc.push(sr.0))
                    } else {
                        Err(ZipError::CorruptStream)
                    }
                } else if sr.0 == 16 {
                    if sr.1.len() < 2 {
                        Err(ZipError::EndOfStream)
                    } else {
                        let times = 3 + lsb_val(sr.1.take(2));
                        let r2 = sr.1.skip(2);
                        if r2.len() < bits.len() {
                            read_code_lengths(
                                tree,
                                r2,
                                target,
                                last,
                                acc + Seq::new(times, |k: int| last),
                            )
                        } else {
                            Err(ZipError::CorruptStream)
                        }
                    }
                } else if sr.0 == 17 || sr.0 == 18 {
                    let width: int = if sr.0 == 17 {
                        3
                    } else {
                        7
                    };
                    let base: nat = if sr.0 == 17 {
                        3
                    } else {
                        11
                    };
                    if sr.1.len() < width {
                        Err(ZipError::EndOfStream)
                    } else {
                        let times = base + lsb_val(sr.1.take(width));
                        let r2 = sr.1.skip(width);
                        if r2.len() < bits.len() {
                            read_code_lengths(
                                tree,
                                r2,
                                target,
                                0,
                                acc + Seq::new(times, |k: int| 0u16),
                            )
                        } else {
                            Err(ZipError::CorruptStream)
                        }
                    }
                } else {
                    Err(ZipError::CorruptStream)
                }
            },
        }
    }
}

fn decode_code_lengths(
    byte_stream: &mut ByteStream,
    tree: &HuffmanTree,
    target: usize,
    start_last: u16,
) -> (r: Result<(Vec<u16>, u16), ZipError>)
    requires
        old(byte_stream).wf(),
        start_last <= 15,
    ensures
        final(byte_stream).wf(),
        match read_code_lengths(
            tree.spec_root(),
            old(byte_stream).remaining(),
            target as nat,
            start_last,
            Seq::empty(),
        ) {
            Ok(t3) => r is Ok && r.unwrap().0@ == t3.0 && r.unwrap().1 == t3.1
                && final(byte_stream).remaining() == t3.2,
            Err(e) => r == Err::<(Vec<u16>, u16), ZipError>(e),
        },
        r is Ok ==> r.unwrap().1 <= 15,
        r is Ok ==> forall|j: int|
            0 <= j < r.unwrap().0@.len() ==> (#[trigger] r.unwrap().0@[j]) <= 15,
{
    let ghost root = tree.spec_root();
    let ghost bits0 = byte_stream.remaining();
    let mut acc: Vec<u16> = Vec::new();
    let mut last: u16 = start_last;
    while acc.len() < target
        invariant
            byte_stream.wf(),
            last <= 15,
            tree.spec_root() == root,
            bits0 == old(byte_stream).remaining(),
            forall|j: int| 0 <= j < acc@.len() ==> (#[trigger] acc@[j]) <= 15,
            read_code_lengths(root, bits0, target as nat, start_last, Seq::empty())
                == read_code_lengths(root, byte_stream.remaining(), target as nat, last, acc@),
        decreases byte_stream.remaining().len(),
    {
        let ghost it_bits = byte_stream.remaining();
        let ghost it_acc = acc@;
        let ghost it_last = last;
        let before = byte_stream.bits_left();
        let sym = match byte_stream.read_next_symbol(tree) {
            Ok(s) => s,
            Err(e) => {
                proof {
                    assert(read_code_lengths(root, it_bits, target as nat, it_last, it_acc)
                        == Result::<(Seq<u16>, u16, Seq<bool>), ZipError>::Err(e));
                }
                return Err(e);
            },
        };
        let ghost rest1 = byte_stream.remaining();
        if sym <= 15 {
            let after = byte_stream.bits_left();
            if after >= before {
                proof {
                    assert(read_code_lengths(root, it_bits, target as nat, it_last, it_acc)
                        == Result::<(Seq<u16>, u16, Seq<bool>), ZipError>::Err(
                        ZipError::CorruptStream,
                    ));
                }
                return Err(ZipError::CorruptStream);
            }
            acc.push(sym);
            last = sym;
            proof {
                assert(acc@ =~= it_acc.push(sym));
                assert(read_code_lengths(root, it_bits, target as nat, it_last, it_acc)
                    == read_code_lengths(root, rest1, target as nat, sym, it_acc.push(sym)));
            }
        } else if sym == 16 {
            let v = match byte_stream.read_number_from_arbitrary_bits(2) {
                Ok(v) => v,
                Err(e) => {
                    proof {
                        assert(read_code_lengths(root, it_bits, target as nat, it_last, it_acc)
                            == Result::<(Seq<u16>, u16, Seq<bool>), ZipError>::Err(e));
                    }
                    return Err(e);
                },
            };
            let after = byte_stream.bits_left();
            if after >= before {
                proof {
                    assert(read_code_lengths(root, it_bits, target as nat, it_last, it_acc)
                        == Result::<(Seq<u16>, u16, Seq<bool>), ZipError>::Err(
                        ZipError::CorruptStream,
                    ));
                }
                return Err(ZipError::CorruptStream);
            }
            let times = 3 + v as usize;
            let ghost mid_acc = acc@;
            for k in 0..times
                invariant
                    last == it_last,
                    last <= 15,
                    acc@ =~= mid_acc + Seq::new(k as nat, |x: int| it_last),
                    forall|j: int| 0 <= j < mid_acc.len() ==> (#[trigger] mid_acc[j]) <= 15,
            {
                acc.push(last);
                proof {
                    assert(acc@ =~= mid_acc + Seq::new((k + 1) as nat, |x: int| it_last));
                }
            }
            proof {
                assert(acc@ =~= it_acc + Seq::new((3 + lsb_val(rest1.take(2))) as nat, |x: int| it_last));
                assert(read_code_lengths(root, it_bits, target as nat, it_last, it_acc)
                    == read_code_lengths(
                    root,
                    byte_stream.remaining(),
                    target as nat,
                    last,
                    acc@,
                ));
            }
        } else if sym == 17 || sym == 18 {
            let width: u16 = if sym == 17 {
                3
            } else {
                7
            };
            let base: usize = if sym == 17 {
                3
            } else {
                11
            };
            let v = match byte_stream.read_number_from_arbitrary_bits(width) {
                Ok(v) => v,
                Err(e) => {
                    proof {
                        assert(read_code_lengths(root, it_bits, target as nat, it_last, it_acc)
                            == Result::<(Seq<u16>, u16, Seq<bool>), ZipError>::Err(e));
                    }
                    return Err(e);
                },
            };
            let after = byte_stream.bits_left();
            if after >= before {
                proof {
                    assert(read_code_lengths(root, it_bits, target as nat, it_last, it_acc)
                        == Result::<(Seq<u16>, u16, Seq<bool>), ZipError>::Err(
                        ZipError::CorruptStream,
                    ));
                }
                return Err(ZipError::CorruptStream);
            }
            let times = base + v as usize;
            let ghost mid_acc = acc@;
            for k in 0..times
                invariant
                    acc@ =~= mid_acc + Seq::new(k as nat, |x: int| 0u16),
                    forall|j: int| 0 <= j < mid_acc.len() ==> (#[trigger] mid_acc[j]) <= 15,
            {
                acc.push(0);
                proof {
                    assert(acc@ =~= mid_acc + Seq::new((k + 1) as nat, |x: int| 0u16));
                }
            }
            last = 0;
            proof {
                assert(acc@ =~= it_acc + Seq::new(
                    (base + lsb_val(rest1.take(width as int))) as nat,
                    |x: int| 0u16,
                ));
                assert(read_code_lengths(root, it_bits, target as nat, it_last, it_acc)
                    == read_code_lengths(
                    root,
                    byte_stream.remaining(),
                    target as nat,
                    last,
                    acc@,
                ));
            }
        } else {
            proof {
                assert(read_code_lengths(root, it_bits, target as nat, it_last, it_acc)
                    == Result::<(Seq<u16>, u16, Seq<bool>), ZipError>::Err(
                    ZipError::CorruptStream,
                ));
            }
            return Err(ZipError::CorruptStream);
        }
    }
    Ok((acc, last))
}


/// One dynamic-Huffman block: the table sizes, the permuted
/// code-length-code lengths, the two run-length-decoded length arrays,
/// the two tries they define, and then the shared decode loop.
pub open spec fn spec_dynamic(bits: Seq<bool>, out: Seq<u8>) -> Result<
    (Seq<u8>, Seq<bool>),
    ZipError,
> {
    if bits.len() < 14 {
        Err(ZipError::EndOfStream)
    } else {
        let hlit = 257 + lsb_val(bits.take(5));
        let hdist = 1 + lsb_val(bits.skip(5).take(5));
        let hclen = 4 + lsb_val(bits.skip(10).take(4));
        match read_fields(bits.skip(14), hclen, 3, Seq::empty()) {
            Err(e) => Err(e),
            Ok(f) => {
                let sorted = unpermute(f.0, f.0.len() as int);
                let cl_tree = spec_construct(id_symbols(19), sorted, 19);
                match read_code_lengths(cl_tree, f.1, hlit, 0, Seq::empty()) {
                    Err(e) => Err(e),
                    Ok(lit_r) => {
                        if lit_r.0.len() != hlit {
                            Err(ZipError::CorruptHuffmanTable)
                        } else {
                            match read_code_lengths(cl_tree, lit_r.2, hdist, lit_r.1, Seq::empty()) {
                                Err(e) => Err(e),
                                Ok(dist_r) => {
                                    if dist_r.0.len() != hdist {
                                        Err(ZipError::CorruptHuffmanTable)
                                    } else {
                                        spec_tokens(
                                            spec_construct(id_symbols(286), lit_r.0, 286),
                                            spec_construct(id_symbols(30), dist_r.0, 30),
                                            length_table(),
                                            dist_table(),
                                            dist_r.2,
                                            out,
                                        )
                                    }
                                },
                            }
                        }
                    },
                }
            },
        }
    }
}

/// Decodes one dynamic-Huffman block: reads and run-length-decodes the
/// two code-length arrays, builds their tries, and runs the shared
/// decode loop.
pub(crate) fn extract_dynamic_huffman(byte_stream: &mut ByteStream, out: &mut Vec<u8>) -> (r:
    Result<(), ZipError>)
    requires
        old(byte_stream).wf(),
    ensures
        final(byte_stream).wf(),
        match spec_dynamic(old(byte_stream).remaining(), old(out)@) {
            Ok(p) => r is Ok && final(out)@ == p.0 && final(byte_stream).remaining() == p.1,
            Err(e) => r == Err::<(), ZipError>(e),
        },
{
    let ghost bits0 = byte_stream.remaining();
    let hlit_raw = match byte_stream.read_number_from_arbitrary_bits(5) {
        Ok(v) => v,
        Err(e) => {
            return Err(e);
        },
    };
    let hdist_raw = match byte_stream.read_number_from_arbitrary_bits(5) {
        Ok(v) => v,
        Err(e) => {
            return Err(e);
        },
    };
    let hclen_raw = match byte_stream.read_number_from_arbitrary_bits(4) {
        Ok(v) => v,
        Err(e) => {
            return Err(e);
        },
    };
    proof {
        crate::bits::lemma_lsb_val_bound(bits0.take(5));
        crate::bits::lemma_lsb_val_bound(bits0.skip(5).take(5));
        crate::bits::lemma_lsb_val_bound(bits0.skip(10).take(4));
        vstd::arithmetic::power2::lemma2_to64();
        assert(bits0.skip(5).skip(5) =~= bits0.skip(10));
        assert(bits0.skip(10).skip(4) =~= bits0.skip(14));
    }
    let hlit = hlit_raw + 257;
    let hdist = hdist_raw + 1;
    let hclen = hclen_raw + 4;
    let unsorted_lengths = match read_fields_exec(byte_stream, hclen, 3) {
        Ok(v) => v,
        Err(e) => {
            return Err(e);
        },
    };
    // Undo the transmission permutation of the code-length-code
    // lengths.
    let sort_order: Vec<u16> = vec![16, 17, 18, 0, 8, 7, 9, 6, 10, 5, 11, 4, 12, 3, 13, 2, 14, 1, 15];
    proof {
        assert(sort_order@ =~= clen_order());
        assert(forall|k: int| 0 <= k < 19 ==> (#[trigger] clen_order()[k]) < 19);
    }
    let mut sorted: Vec<u16> = Vec::new();
    for z in 0..19usize
        invariant
            sorted@ =~= Seq::new(z as nat, |k: int| 0u16),
    {
        sorted.push(0);
        proof {
            assert(sorted@ =~= Seq::new((z + 1) as nat, |k: int| 0u16));
        }
    }
    proof {
        assert(sorted@ =~= unpermute(unsorted_lengths@, 0));
        vstd::arithmetic::power2::lemma2_to64();
    }
    let nu = unsorted_lengths.len();
    for i in 0..nu
        invariant
            nu == unsorted_lengths@.len() <= 19,
            sort_order@ == clen_order(),
            sorted@.len() == 19,
            sorted@ == unpermute(unsorted_lengths@, i as int),
            forall|j: int| 0 <= j < unsorted_lengths@.len() ==> (#[trigger] unsorted_lengths@[j]) < 8,
            forall|j: int| 0 <= j < sorted@.len() ==> (#[trigger] sorted@[j]) <= 15,
    {
        proof {
            assert(clen_order()[i as int] < 19);
        }
        let pos = sort_order[i] as usize;
        sorted.set(pos, unsorted_lengths[i]);
    }
    let code_lengths_values = build_id_symbols(19);
    let ht_of_code_lengths = HuffmanTree::construct_from_bitlengths(
        code_lengths_values.as_slice(),
        sorted.as_slice(),
    );
    let lit_pair = match decode_code_lengths(byte_stream, &ht_of_code_lengths, hlit as usize, 0) {
        Ok(p) => p,
        Err(e) => {
            return Err(e);
        },
    };
    let (literal_length_bitlengths, last_bit_length) = lit_pair;
    if literal_length_bitlengths.len() != hlit as usize {
        return Err(ZipError::CorruptHuffmanTable);
    }
    let dist_pair = match decode_code_lengths(
        byte_stream,
        &ht_of_code_lengths,
        hdist as usize,
        last_bit_length,
    ) {
        Ok(p) => p,
        Err(e) => {
            return Err(e);
        },
    };
    let (distance_ht_bit_lengths, _last) = dist_pair;
    if distance_ht_bit_lengths.len() != hdist as usize {
        return Err(ZipError::CorruptHuffmanTable);
    }
    let literal_length_values = build_id_symbols(286);
    let literal_length_ht = HuffmanTree::construct_from_bitlengths(
        literal_length_values.as_slice(),
        literal_length_bitlengths.as_slice(),
    );
    let distance_value_symbols = build_id_symbols(30);
    let distance_ht = HuffmanTree::construct_from_bitlengths(
        distance_value_symbols.as_slice(),
        distance_ht_bit_lengths.as_slice(),
    );
    let length_values = build_length_table();
    let distance_values = build_dist_table();
    extract_using_given_huffman_trees(
        byte_stream,
        literal_length_ht,
        length_values,
        distance_ht,
        distance_values,
        out,
    )
}

/// Decodes one fixed-Huffman block: the static tries and tables, then
/// the shared decode loop.
pub(crate) fn extract_fixed_huffman(byte_stream: &mut ByteStream, out: &mut Vec<u8>) -> (r: Result<
    (),
    ZipError,
>)
    requires
        old(byte_stream).wf(),
    ensures
        final(byte_stream).wf(),
        match spec_tokens(
            fixed_lit_tree(),
            fixed_dist_tree(),
            length_table(),
            dist_table(),
            old(byte_stream).remaining(),
            old(out)@,
        ) {
            Ok(p) => r is Ok && final(out)@ == p.0 && final(byte_stream).remaining() == p.1,
            Err(e) => r == Err::<(), ZipError>(e),
        },
{
    let trees = get_fixed_huffman_trees();
    let (literal_length_ht, distance_ht, length_values, distance_values) = trees;
    extract_using_given_huffman_trees(
        byte_stream,
        literal_length_ht,
        length_values,
        distance_ht,
        distance_values,
        out,
    )
}

/// A whole DEFLATE stream: blocks decoded in order until one carries
/// the final-block flag; a reserved block type, or a block that
/// consumes nothing, is a corrupt stream.
pub open spec fn spec_blocks(bits: Seq<bool>, out: Seq<u8>) -> Result<Seq<u8>, ZipError>
    decreases bits.len(),
{
    if bits.len() < 3 {
        Err(ZipError::EndOfStream)
    } else {
        let fin = bits[0];
        let ty = lsb_val(bits.skip(1).take(2));
        let rest = bits.skip(3);
        let step: Result<(Seq<u8>, Seq<bool>), ZipError> = if ty == 0 {
            spec_stored(rest, out)
        } else if ty == 1 {
            spec_tokens(
                fixed_lit_tree(),
                fixed_dist_tree(),
                length_table(),
                dist_table(),
                rest,
                out,
            )
        } else if ty == 2 {
            spec_dynamic(rest, out)
        } else {
            Err(ZipError::CorruptStream)
        };
        match step {
            Err(e) => Err(e),
            Ok(p) => {
                if fin {
                    Ok(p.0)
                } else if p.1.len() < bits.len() {
                    spec_blocks(p.1, p.0)
                } else {
                    Err(ZipError::CorruptStream)
                }
            },
        }
    }
}

/// The meaning of a DEFLATE stream, starting from an empty output.
pub open spec fn spec_inflate(bits: Seq<bool>) -> Result<Seq<u8>, ZipError> {
    spec_blocks(bits, Seq::empty())
}

/// Decompresses a whole DEFLATE stream held in a byte buffer.
pub fn inflate(compressed_data: &Vec<u8>) -> (r: Result<Vec<u8>, ZipError>)
    ensures
        match spec_inflate(bytes_lsb_bits(compressed_data@)) {
            Ok(v) => r is Ok && r.unwrap()@ == v,
            Err(e) => r == Err::<Vec<u8>, ZipError>(e),
        },
{
    let mut compressed_byte_arrays: Vec<BitArray> = Vec::new();
    let n = compressed_data.len();
    for i in 0..n
        invariant
            n == compressed_data@.len(),
            forall|j: int|
                0 <= j < compressed_byte_arrays@.len() ==> (#[trigger] compressed_byte_arrays@[j]).bits@.len() == 8,
            crate::bits::lsb_stream(compressed_byte_arrays@) == bytes_lsb_bits(
                compressed_data@.take(i as int),
            ),
    {
        let ghost prev = compressed_byte_arrays@;
        let ba = BitArray::new(compressed_data[i]);
        compressed_byte_arrays.push(ba);
        proof {
            crate::bits::lemma_lsb_stream_push(prev, ba);
            crate::bits::lemma_bytes_lsb_bits_push(
                compressed_data@.take(i as int),
                compressed_data@[i as int],
            );
            assert(compressed_data@.take(i + 1) =~= compressed_data@.take(i as int).push(
                compressed_data@[i as int],
            ));
        }
    }
    proof {
        assert(compressed_data@.take(n as int) =~= compressed_data@);
    }
    let mut byte_stream = ByteStream::new(compressed_byte_arrays);
    let ghost bits0 = byte_stream.remaining();
    let mut ret_val: Vec<u8> = Vec::new();
    loop
        invariant
            byte_stream.wf(),
            bits0 == bytes_lsb_bits(compressed_data@),
            spec_blocks(bits0, Seq::empty()) == spec_blocks(byte_stream.remaining(), ret_val@),
        decreases byte_stream.remaining().len(),
    {
        let ghost it_bits = byte_stream.remaining();
        let ghost it_out = ret_val@;
        let start_len = byte_stream.bits_left();
        let is_last_block = match byte_stream.read_bit() {
            Ok(b) => b,
            Err(e) => {
                return Err(e);
            },
        };
        let compression_type_indicator = match byte_stream.read_number_from_arbitrary_bits(2) {
            Ok(v) => v,
            Err(e) => {
                return Err(e);
            },
        };
        proof {
            assert(it_bits.skip(1).skip(2) =~= it_bits.skip(3));
        }
        let compression_type = get_deflate_compression_type(compression_type_indicator);
        match compression_type {
            DeflateCompressionType::Stored => {
                match extract_stored(&mut byte_stream, &mut ret_val) {
                    Ok(()) => (),
                    Err(e) => {
                        return Err(e);
                    },
                }
            },
            DeflateCompressionType::FixedHuffman => {
                match extract_fixed_huffman(&mut byte_stream, &mut ret_val) {
                    Ok(()) => (),
                    Err(e) => {
                        return Err(e);
                    },
                }
            },
            DeflateCompressionType::DynamicHuffman => {
                match extract_dynamic_huffman(&mut byte_stream, &mut ret_val) {
                    Ok(()) => (),
                    Err(e) => {
                        return Err(e);
                    },
                }
            },
            DeflateCompressionType::Reserved => {
                return Err(ZipError::CorruptStream);
            },
        }
        if is_last_block {
            return Ok(ret_val);
        }
        let now_len = byte_stream.bits_left();
        if now_len >= start_len {
            return Err(ZipError::CorruptStream);
        }
    }
}

} // verus!
