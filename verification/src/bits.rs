//! Bit-level model of the DEFLATE input: byte-sized bit arrays and a bit
//! stream over them.
//!
//! DEFLATE packs value fields starting from each byte's least significant
//! bit, while Huffman codes are matched most significant bit first.  The
//! spec functions here fix both orders once: `bits_val` reads a sequence
//! MSB-first, `lsb_val` reads it LSB-first, and `low_bits` writes the low
//! `n` bits of a number MSB-first.

use vstd::arithmetic::div_mod::lemma_fundamental_div_mod;
use vstd::arithmetic::div_mod::lemma_fundamental_div_mod_converse;
use vstd::arithmetic::power2::lemma2_to64;
use vstd::arithmetic::power2::lemma_pow2_strictly_increases;
use vstd::arithmetic::power2::lemma_pow2_unfold;
use vstd::arithmetic::power2::pow2;
use vstd::prelude::*;

use crate::ZipError;

verus! {

/// Value of a bit sequence read most-significant bit first.
pub open spec fn bits_val(s: Seq<bool>) -> nat
    decreases s.len(),
{
    if s.len() == 0 {
        0
    } else {
        2 * bits_val(s.drop_last()) + (if s.last() {
            1nat
        } else {
            0nat
        })
    }
}

/// Value of a bit sequence read least-significant bit first: the first
/// bit of the sequence is the least significant bit of the value.
pub open spec fn lsb_val(s: Seq<bool>) -> nat
    decreases s.len(),
{
    if s.len() == 0 {
        0
    } else {
        (if s[0] {
            1nat
        } else {
            0nat
        }) + 2 * lsb_val(s.skip(1))
    }
}

/// The low `n` bits of `v`, most significant bit first.
pub open spec fn low_bits(v: nat, n: nat) -> Seq<bool>
    decreases n,
{
    if n == 0 {
        Seq::empty()
    } else {
        low_bits(v / 2, (n - 1) as nat).push(v % 2 == 1)
    }
}

pub proof fn lemma_low_bits_len(v: nat, n: nat)
    ensures
        low_bits(v, n).len() == n,
    decreases n,
{
    if n > 0 {
        lemma_low_bits_len(v / 2, (n - 1) as nat);
    }
}

pub proof fn lemma_bits_val_push(s: Seq<bool>, b: bool)
    ensures
        bits_val(s.push(b)) == 2 * bits_val(s) + (if b {
            1nat
        } else {
            0nat
        }),
{
    assert(s.push(b).drop_last() =~= s);
}

pub proof fn lemma_bits_val_bound(s: Seq<bool>)
    ensures
        bits_val(s) < pow2(s.len()),
    decreases s.len(),
{
    if s.len() == 0 {
        lemma2_to64();
    } else {
        lemma_bits_val_bound(s.drop_last());
        lemma_pow2_unfold(s.len());
    }
}

/// Building a bit array from a byte value and reading it back MSB-first
/// reproduces the value: the bit/byte round trip, value side.
pub proof fn lemma_bits_val_low_bits(v: nat, n: nat)
    requires
        v < pow2(n),
    ensures
        bits_val(low_bits(v, n)) == v,
    decreases n,
{
    if n == 0 {
        lemma2_to64();
    } else {
        lemma_pow2_unfold(n);
        lemma_bits_val_low_bits(v / 2, (n - 1) as nat);
        lemma_bits_val_push(low_bits(v / 2, (n - 1) as nat), v % 2 == 1);
        lemma_fundamental_div_mod(v as int, 2);
    }
}

/// Encoding a bit sequence as a number and expanding the number back into
/// bits reproduces the sequence: the bit/byte round trip, sequence side.
pub proof fn lemma_low_bits_val(s: Seq<bool>)
    ensures
        low_bits(bits_val(s), s.len()) == s,
    decreases s.len(),
{
    if s.len() == 0 {
        assert(low_bits(bits_val(s), 0) =~= s);
    } else {
        let d = s.drop_last();
        let b: nat = if s.last() {
            1
        } else {
            0
        };
        lemma_low_bits_val(d);
        lemma_fundamental_div_mod_converse(bits_val(s) as int, 2, bits_val(d) as int, b as int);
        assert(low_bits(bits_val(s), s.len()) =~= s);
    }
}

/// Reading a sequence LSB-first is reading its reverse MSB-first.
pub proof fn lemma_lsb_val_is_rev(s: Seq<bool>)
    ensures
        lsb_val(s) == bits_val(s.reverse()),
    decreases s.len(),
{
    if s.len() > 0 {
        lemma_lsb_val_is_rev(s.skip(1));
        assert(s.reverse().drop_last() =~= s.skip(1).reverse());
        assert(s.reverse().last() == s[0]);
        lemma_bits_val_push(s.skip(1).reverse(), s[0]);
        assert(s.reverse() =~= s.skip(1).reverse().push(s[0]));
    }
}

pub proof fn lemma_lsb_val_bound(s: Seq<bool>)
    ensures
        lsb_val(s) < pow2(s.len()),
{
    lemma_lsb_val_is_rev(s);
    lemma_bits_val_bound(s.reverse());
}

/// Appends the low `n` bits of `v`, most significant first.
fn push_low_bits(bits: &mut Vec<bool>, v: u16, n: u16)
    ensures
        final(bits)@ == old(bits)@ + low_bits(v as nat, n as nat),
    decreases n,
{
    if n == 0 {
        proof {
            assert(bits@ =~= bits@ + low_bits(v as nat, 0));
        }
    } else {
        push_low_bits(bits, v / 2, n - 1);
        bits.push(v % 2 == 1);
        proof {
            assert(bits@ =~= old(bits)@ + low_bits(v as nat, n as nat));
        }
    }
}

/// The first eight entries of a bit sequence, padded at the end with
/// zero bits when the sequence is shorter than a byte.
pub open spec fn first8(s: Seq<bool>) -> Seq<bool> {
    if s.len() >= 8 {
        s.take(8)
    } else {
        s + Seq::new((8 - s.len()) as nat, |i: int| false)
    }
}

/// The bits of one byte, most significant bit first.
#[derive(Debug)]
pub struct BitArray {
    pub bits: Vec<bool>,
}

impl BitArray {
    /// The bit array of `byte`: eight bits, most significant first.
    pub fn new(byte: u8) -> (r: Self)
        ensures
            r.bits@ == low_bits(byte as nat, 8),
            r.bits@.len() == 8,
            bits_val(r.bits@) == byte,
    {
        let mut bits: Vec<bool> = Vec::new();
        push_low_bits(&mut bits, byte as u16, 8);
        proof {
            assert(bits@ =~= low_bits(byte as nat, 8));
            lemma_low_bits_len(byte as nat, 8);
            lemma2_to64();
            lemma_bits_val_low_bits(byte as nat, 8);
        }
        BitArray { bits }
    }

    /// The bit array of the low 16 bits of `byte`, most significant first.
    pub fn new_from_word(byte: u16) -> (r: Self)
        ensures
            r.bits@ == low_bits(byte as nat, 16),
            r.bits@.len() == 16,
            bits_val(r.bits@) == byte,
    {
        let mut bits: Vec<bool> = Vec::new();
        push_low_bits(&mut bits, byte, 16);
        proof {
            assert(bits@ =~= low_bits(byte as nat, 16));
            lemma_low_bits_len(byte as nat, 16);
            lemma2_to64();
            lemma_bits_val_low_bits(byte as nat, 16);
        }
        BitArray { bits }
    }

    /// Packs up to eight bits (MSB-first) into a byte-sized bit array,
    /// zero-extended at the front.
    pub fn new_from_bits(bist: &[bool]) -> (r: Self)
        requires
            bist@.len() <= 8,
        ensures
            r.bits@ == low_bits(bits_val(bist@), 8),
            r.bits@.len() == 8,
            bits_val(r.bits@) == bits_val(bist@),
    {
        let n = bist.len();
        let mut v: u8 = 0;
        for i in 0..n
            invariant
                n == bist@.len() <= 8,
                v == bits_val(bist@.take(i as int)),
        {
            proof {
                lemma_bits_val_bound(bist@.take(i as int));
                lemma_pow2_strictly_increases(i as nat, 8);
                lemma2_to64();
                lemma_bits_val_push(bist@.take(i as int), bist@[i as int]);
                assert(bist@.take(i + 1) =~= bist@.take(i as int).push(bist@[i as int]));
            }
            v = v * 2 + (if bist[i] {
                1
            } else {
                0
            });
        }
        proof {
            assert(bist@.take(n as int) =~= bist@);
            lemma_bits_val_bound(bist@);
            lemma_pow2_strictly_increases(bist@.len(), 9);
            lemma2_to64();
        }
        Self::new(v)
    }

    /// The value of the first eight bits, most significant bit first;
    /// missing bits count as zero.
    pub fn get_byte(&self) -> (r: u8)
        ensures
            r == bits_val(first8(self.bits@)),
    {
        let ghost f = first8(self.bits@);
        let mut v: u16 = 0;
        proof {
            lemma2_to64();
        }
        for i in 0..8usize
            invariant
                f == first8(self.bits@),
                f.len() == 8,
                v == bits_val(f.take(i as int)),
                v < pow2(i as nat),
        {
            let b = if i < self.bits.len() {
                self.bits[i]
            } else {
                false
            };
            proof {
                assert(f[i as int] == b);
                lemma_bits_val_push(f.take(i as int), b);
                assert(f.take(i + 1) =~= f.take(i as int).push(b));
                lemma_pow2_unfold((i + 1) as nat);
                lemma_pow2_strictly_increases(i as nat, 8);
                lemma2_to64();
            }
            v = v * 2 + (if b {
                1
            } else {
                0
            });
        }
        proof {
            assert(f.take(8) =~= f);
            lemma_bits_val_bound(f);
            lemma2_to64();
        }
        v as u8
    }

    /// Same value as `get_byte`, returned one word wide: only the first
    /// eight bits are read.
    pub fn get_word(&self) -> (r: u16)
        ensures
            r == bits_val(first8(self.bits@)),
    {
        self.get_byte() as u16
    }

    /// Renders the bits as a binary literal, `0b` followed by one digit
    /// per bit.
    pub fn get_string(&self) -> (r: String)
        ensures
            r@ == seq!['0', 'b'] + self.bits@.map_values(
                |b: bool|
                    if b {
                        '1'
                    } else {
                        '0'
                    },
            ),
    {
        let ghost digits = self.bits@.map_values(
            |b: bool|
                if b {
                    '1'
                } else {
                    '0'
                },
        );
        let mut r = String::new();
        push_char(&mut r, '0');
        push_char(&mut r, 'b');
        let n = self.bits.len();
        for i in 0..n
            invariant
                n == self.bits@.len(),
                digits == self.bits@.map_values(
                    |b: bool|
                        if b {
                            '1'
                        } else {
                            '0'
                        },
                ),
                r@ == seq!['0', 'b'] + digits.take(i as int),
        {
            let c = if self.bits[i] {
                '1'
            } else {
                '0'
            };
            push_char(&mut r, c);
            proof {
                assert(r@ =~= seq!['0', 'b'] + digits.take(i + 1));
            }
        }
        proof {
            assert(digits.take(n as int) =~= digits);
        }
        r
    }

    /// Flattens bytes into their bits, most significant bit of each
    /// byte first.
    pub fn get_bits(source: Vec<u8>) -> (r: Vec<bool>)
        ensures
            r@ == bytes_msb_bits(source@),
    {
        let mut r: Vec<bool> = Vec::new();
        let n = source.len();
        for i in 0..n
            invariant
                n == source@.len(),
                r@ == bytes_msb_bits(source@.take(i as int)),
        {
            let ba = BitArray::new(source[i]);
            let mut rest = ba.bits;
            r.append(&mut rest);
            proof {
                lemma_bytes_msb_bits_push(source@.take(i as int), source@[i as int]);
                assert(source@.take(i + 1) =~= source@.take(i as int).push(source@[i as int]));
            }
        }
        proof {
            assert(source@.take(n as int) =~= source@);
        }
        r
    }

    /// Whether bit `n` of `source` is set, counting from 1 at the least
    /// significant bit.
    pub fn is_bit_set(source: u8, n: u8) -> (r: bool)
        requires
            1 <= n <= 8,
        ensures
            r == ((source as nat / pow2((n - 1) as nat)) % 2 == 1),
    {
        let mut x: u8 = source;
        let mut j: u8 = 0;
        proof {
            lemma2_to64();
        }
        while j < n - 1
            invariant
                n <= 8,
                j <= n - 1,
                x as nat == source as nat / pow2(j as nat),
            decreases n - 1 - j,
        {
            proof {
                lemma_pow2_unfold((j + 1) as nat);
                vstd::arithmetic::power2::lemma_pow2_pos(j as nat);
                vstd::arithmetic::div_mod::lemma_div_denominator(source as int, pow2(j as nat) as int, 2);
            }
            x = x / 2;
            j = j + 1;
        }
        x % 2 == 1
    }

    /// The bits as bytes, one `1` or `0` per bit.
    pub fn get_bits_as_u8_vector(&self) -> (r: Vec<u8>)
        ensures
            r@ == self.bits@.map_values(
                |b: bool|
                    if b {
                        1u8
                    } else {
                        0u8
                    },
            ),
    {
        let mut r: Vec<u8> = Vec::new();
        let n = self.bits.len();
        for i in 0..n
            invariant
                n == self.bits@.len(),
                r@ == self.bits@.take(i as int).map_values(
                    |b: bool|
                        if b {
                            1u8
                        } else {
                            0u8
                        },
                ),
        {
            r.push(
                if self.bits[i] {
                    1
                } else {
                    0
                },
            );
            proof {
                assert(r@ =~= self.bits@.take(i + 1).map_values(
                    |b: bool|
                        if b {
                            1u8
                        } else {
                            0u8
                        },
                ));
            }
        }
        proof {
            assert(self.bits@.take(n as int) =~= self.bits@);
        }
        r
    }

    /// Concatenation of `get_bits_as_u8_vector` over a slice of bit
    /// arrays.
    pub fn get_bytearray_vec_as_combined_u8_vec(o: &[Self]) -> (r: Vec<u8>)
        ensures
            r@ == combined_bits01(o@),
    {
        let mut r: Vec<u8> = Vec::new();
        let n = o.len();
        for i in 0..n
            invariant
                n == o@.len(),
                r@ == combined_bits01(o@.take(i as int)),
        {
            let mut part = o[i].get_bits_as_u8_vector();
            r.append(&mut part);
            proof {
                lemma_combined_bits01_push(o@.take(i as int), o@[i as int]);
                assert(o@.take(i + 1) =~= o@.take(i as int).push(o@[i as int]));
            }
        }
        proof {
            assert(o@.take(n as int) =~= o@);
        }
        r
    }

    /// The same eight bits in the opposite order.
    pub fn get_flipped(&self) -> (r: BitArray)
        requires
            self.bits@.len() == 8,
        ensures
            r.bits@ == self.bits@.reverse(),
            r.bits@.len() == 8,
    {
        let mut rev: Vec<bool> = Vec::new();
        for i in 0..8usize
            invariant
                self.bits@.len() == 8,
                rev@.len() == i,
                forall|j: int| 0 <= j < i ==> rev@[j] == self.bits@[7 - j],
        {
            rev.push(self.bits[7 - i]);
        }
        let r = Self::new_from_bits(rev.as_slice());
        proof {
            assert(rev@ =~= self.bits@.reverse());
            lemma_low_bits_val(self.bits@.reverse());
        }
        r
    }
}

/// One `1` or `0` byte per bit of one bit array.
pub open spec fn bits01(a: BitArray) -> Seq<u8> {
    a.bits@.map_values(
        |b: bool|
            if b {
                1u8
            } else {
                0u8
            },
    )
}

/// Concatenation of `bits01` over a sequence of bit arrays.
pub open spec fn combined_bits01(s: Seq<BitArray>) -> Seq<u8>
    decreases s.len(),
{
    if s.len() == 0 {
        Seq::empty()
    } else {
        combined_bits01(s.drop_last()) + bits01(s.last())
    }
}

proof fn lemma_combined_bits01_push(s: Seq<BitArray>, a: BitArray)
    ensures
        combined_bits01(s.push(a)) == combined_bits01(s) + bits01(a),
{
    assert(s.push(a).drop_last() =~= s);
}

/// The bits of a byte sequence, each byte most significant bit first.
pub open spec fn bytes_msb_bits(s: Seq<u8>) -> Seq<bool>
    decreases s.len(),
{
    if s.len() == 0 {
        Seq::empty()
    } else {
        bytes_msb_bits(s.drop_last()) + low_bits(s.last() as nat, 8)
    }
}

proof fn lemma_bytes_msb_bits_push(s: Seq<u8>, x: u8)
    ensures
        bytes_msb_bits(s.push(x)) == bytes_msb_bits(s) + low_bits(x as nat, 8),
{
    assert(s.push(x).drop_last() =~= s);
}

/// The bits of a byte sequence as DEFLATE consumes them: within each
/// byte, least significant bit first.
pub open spec fn bytes_lsb_bits(s: Seq<u8>) -> Seq<bool>
    decreases s.len(),
{
    if s.len() == 0 {
        Seq::empty()
    } else {
        bytes_lsb_bits(s.drop_last()) + low_bits(s.last() as nat, 8).reverse()
    }
}

pub proof fn lemma_bytes_lsb_bits_push(s: Seq<u8>, x: u8)
    ensures
        bytes_lsb_bits(s.push(x)) == bytes_lsb_bits(s) + low_bits(x as nat, 8).reverse(),
{
    assert(s.push(x).drop_last() =~= s);
}

/// Relies on `String::push`: appends exactly the given character.
#[verifier::external_body]
fn push_char(s: &mut String, c: char)
    ensures
        final(s)@ == old(s)@.push(c),
{
    s.push(c);
}

/// A cursor over the bits of a byte buffer, in DEFLATE order: within
/// each byte, least significant bit first.  Reading only ever advances.
#[derive(Debug)]
pub struct ByteStream {
    pub(crate) bits: Vec<bool>,
    pub(crate) pos: usize,
}

impl ByteStream {
    /// Positions already read never exceed the buffer.
    pub closed spec fn wf(self) -> bool {
        self.pos <= self.bits@.len()
    }

    /// The bits not yet consumed, in the order they will be read.
    pub closed spec fn remaining(self) -> Seq<bool> {
        self.bits@.skip(self.pos as int)
    }

    /// How many bits are left to read.
    pub fn bits_left(&self) -> (n: usize)
        requires
            self.wf(),
        ensures
            n == self.remaining().len(),
    {
        self.bits.len() - self.pos
    }

    /// Builds the stream from byte-sized bit arrays, flipping each so
    /// that the least significant bit of every byte is read first.
    pub fn new(data: Vec<BitArray>) -> (r: Self)
        requires
            forall|i: int| 0 <= i < data@.len() ==> (#[trigger] data@[i]).bits@.len() == 8,
        ensures
            r.wf(),
            r.remaining() == lsb_stream(data@),
    {
        let mut bits: Vec<bool> = Vec::new();
        let n = data.len();
        for i in 0..n
            invariant
                n == data@.len(),
                forall|j: int| 0 <= j < data@.len() ==> (#[trigger] data@[j]).bits@.len() == 8,
                bits@ == lsb_stream(data@.take(i as int)),
        {
            let flipped = data[i].get_flipped();
            let mut part = flipped.bits;
            bits.append(&mut part);
            proof {
                lemma_lsb_stream_push(data@.take(i as int), data@[i as int]);
                assert(data@.take(i + 1) =~= data@.take(i as int).push(data@[i as int]));
            }
        }
        proof {
            assert(data@.take(n as int) =~= data@);
            assert(bits@.skip(0) =~= bits@);
        }
        ByteStream { bits, pos: 0 }
    }

    /// Consumes and returns the next bit; `EndOfStream` when none is
    /// left.
    pub fn read_bit(&mut self) -> (r: Result<bool, ZipError>)
        requires
            old(self).wf(),
        ensures
            final(self).wf(),
            old(self).remaining().len() == 0 ==> r == Err::<bool, ZipError>(ZipError::EndOfStream)
                && *final(self) == *old(self),
            old(self).remaining().len() > 0 ==> r == Ok::<bool, ZipError>(old(self).remaining()[0])
                && final(self).remaining() == old(self).remaining().skip(1),
    {
        if self.pos < self.bits.len() {
            let b = self.bits[self.pos];
            self.pos = self.pos + 1;
            proof {
                assert(self.bits@.skip(self.pos as int) =~= old(self).remaining().skip(1));
            }
            Ok(b)
        } else {
            Err(ZipError::EndOfStream)
        }
    }

    /// Consumes `number_of_bits` bits and returns them in reverse read
    /// order: the last bit read comes first.
    pub fn read_bits(&mut self, number_of_bits: u16) -> (r: Result<Vec<bool>, ZipError>)
        requires
            old(self).wf(),
        ensures
            final(self).wf(),
            old(self).remaining().len() < number_of_bits ==> r == Err::<Vec<bool>, ZipError>(
                ZipError::EndOfStream,
            ) && *final(self) == *old(self),
            old(self).remaining().len() >= number_of_bits ==> r.is_ok() && r.unwrap()@ == old(
                self,
            ).remaining().take(number_of_bits as int).reverse() && final(self).remaining() == old(
                self,
            ).remaining().skip(number_of_bits as int),
    {
        let n = number_of_bits as usize;
        if self.bits.len() - self.pos < n {
            return Err(ZipError::EndOfStream);
        }
        let ghost orig = *self;
        let mut forward: Vec<bool> = Vec::new();
        for i in 0..n
            invariant
                orig.wf(),
                self.bits@ == orig.bits@,
                self.pos == orig.pos + i,
                orig.pos + n <= orig.bits@.len(),
                forward@ =~= orig.remaining().take(i as int),
        {
            let len = self.bits.len();
            assert(self.pos < len);
            forward.push(self.bits[self.pos]);
            self.pos = self.pos + 1;
            proof {
                assert(orig.remaining()[i as int] == orig.bits@[orig.pos + i]);
                assert(forward@ =~= orig.remaining().take(i + 1));
            }
        }
        let mut r: Vec<bool> = Vec::new();
        for i in 0..n
            invariant
                n == forward@.len(),
                r@.len() == i,
                forall|j: int| 0 <= j < i ==> r@[j] == forward@[n - 1 - j],
        {
            r.push(forward[n - 1 - i]);
        }
        proof {
            assert(r@ =~= forward@.reverse());
            assert(self.remaining() =~= old(self).remaining().skip(n as int));
        }
        Ok(r)
    }

    /// Consumes `number_of_bits` bits and assembles them into a value
    /// whose least significant bit is the first bit read.
    pub fn read_number_from_arbitrary_bits(&mut self, number_of_bits: u16) -> (r: Result<
        u16,
        ZipError,
    >)
        requires
            old(self).wf(),
            number_of_bits <= 16,
        ensures
            final(self).wf(),
            old(self).remaining().len() < number_of_bits ==> r == Err::<u16, ZipError>(
                ZipError::EndOfStream,
            ) && *final(self) == *old(self),
            old(self).remaining().len() >= number_of_bits ==> r.is_ok() && r.unwrap() == lsb_val(
                old(self).remaining().take(number_of_bits as int),
            ) && final(self).remaining() == old(self).remaining().skip(number_of_bits as int),
    {
        let rev = match self.read_bits(number_of_bits) {
            Ok(v) => v,
            Err(e) => {
                return Err(e);
            },
        };
        let n = rev.len();
        let mut v: u32 = 0;
        proof {
            lemma2_to64();
        }
        for i in 0..n
            invariant
                n == rev@.len() <= 16,
                v == bits_val(rev@.take(i as int)),
                v < pow2(i as nat),
        {
            proof {
                lemma_bits_val_push(rev@.take(i as int), rev@[i as int]);
                assert(rev@.take(i + 1) =~= rev@.take(i as int).push(rev@[i as int]));
                lemma_pow2_unfold((i + 1) as nat);
                lemma_pow2_strictly_increases(i as nat, 16);
                lemma2_to64();
            }
            v = v * 2 + (if rev[i] {
                1
            } else {
                0
            });
        }
        proof {
            assert(rev@.take(n as int) =~= rev@);
            lemma_bits_val_bound(rev@);
            lemma_pow2_strictly_increases(rev@.len(), 17);
            lemma2_to64();
            lemma_lsb_val_is_rev(old(self).remaining().take(number_of_bits as int));
            assert(old(self).remaining().take(number_of_bits as int).reverse().reverse() =~= old(
                self,
            ).remaining().take(number_of_bits as int));
        }
        Ok(v as u16)
    }

    /// Consumes eight bits and assembles them into a byte, least
    /// significant bit first.
    pub fn read_byte(&mut self) -> (r: Result<u8, ZipError>)
        requires
            old(self).wf(),
        ensures
            final(self).wf(),
            old(self).remaining().len() < 8 ==> r == Err::<u8, ZipError>(ZipError::EndOfStream)
                && *final(self) == *old(self),
            old(self).remaining().len() >= 8 ==> r.is_ok() && r.unwrap() == lsb_val(
                old(self).remaining().take(8),
            ) && final(self).remaining() == old(self).remaining().skip(8),
    {
        let v = match self.read_number_from_arbitrary_bits(8) {
            Ok(v) => v,
            Err(e) => {
                return Err(e);
            },
        };
        proof {
            if old(self).remaining().len() >= 8 {
                lemma_lsb_val_bound(old(self).remaining().take(8));
                lemma2_to64();
            }
        }
        Ok(v as u8)
    }

    /// Discards bits until the remaining length is a multiple of eight.
    pub fn skip_until_byte_aligned(&mut self) -> (r: Result<(), ZipError>)
        requires
            old(self).wf(),
        ensures
            final(self).wf(),
            r.is_ok(),
            final(self).remaining() == old(self).remaining().skip(
                (old(self).remaining().len() % 8) as int,
            ),
    {
        let rem = self.bits.len() - self.pos;
        let k = rem % 8;
        self.pos = self.pos + k;
        proof {
            assert(self.remaining() =~= old(self).remaining().skip(
                (old(self).remaining().len() % 8) as int,
            ));
        }
        Ok(())
    }

    /// Whether every bit has been consumed.
    pub fn is_at_end(&self) -> (r: bool)
        requires
            self.wf(),
        ensures
            r == (self.remaining().len() == 0),
    {
        self.pos == self.bits.len()
    }
}

/// The bits of a sequence of byte-sized bit arrays as the stream reads
/// them: each array reversed, so the least significant bit comes first.
pub open spec fn lsb_stream(s: Seq<BitArray>) -> Seq<bool>
    decreases s.len(),
{
    if s.len() == 0 {
        Seq::empty()
    } else {
        lsb_stream(s.drop_last()) + s.last().bits@.reverse()
    }
}

pub proof fn lemma_lsb_stream_push(s: Seq<BitArray>, a: BitArray)
    ensures
        lsb_stream(s.push(a)) == lsb_stream(s) + a.bits@.reverse(),
{
    assert(s.push(a).drop_last() =~= s);
}

/// For every byte value, building its eight-bit array and reading the
/// first eight bits back MSB-first reproduces the byte: the round trip
/// behind `BitArray::new` followed by `BitArray::get_byte`.
pub proof fn lemma_byte_bit_round_trip(b: u8)
    ensures
        bits_val(first8(low_bits(b as nat, 8))) == b,
{
    lemma_low_bits_len(b as nat, 8);
    assert(first8(low_bits(b as nat, 8)) =~= low_bits(b as nat, 8));
    lemma2_to64();
    lemma_bits_val_low_bits(b as nat, 8);
}

/// For every eight-bit sequence, encoding it as a byte and expanding
/// the byte back into bits reproduces the sequence: the round trip
/// behind `BitArray::new_from_bits` on the bits of a bit array.
pub proof fn lemma_bits_byte_round_trip(s: Seq<bool>)
    requires
        s.len() == 8,
    ensures
        low_bits(bits_val(s), 8) == s,
{
    lemma_low_bits_val(s);
}

} // verus!
