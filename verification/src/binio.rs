//! Writing and reading runs of bits that do not stop at byte boundaries. Bits
//! go into a byte from its lowest place upwards.

use crate::bits::bit_at;
use crate::bits::bit_weight;
use crate::bits::bits_of;
use crate::bits::bytes_bits;
use crate::bits::flushed;
use crate::bits::lemma_bits_of_byte;
use crate::bits::lemma_bits_of_push;
use crate::bits::lemma_bits_of_small;
use crate::bits::lemma_bytes_bits_push;
use crate::bits::lemma_flushed_bits;
use crate::bits::lemma_pow2_step;
use crate::bits::lemma_value_bits_step;
use crate::bits::lemma_value_of_bits_of;
use crate::bits::lemma_value_of_bound;
use crate::bits::lemma_value_of_concat;
use crate::bits::lemma_value_of_push;
use crate::bits::pack;
use crate::bits::value_of;
use crate::bits::zeros;
use vstd::arithmetic::div_mod::lemma_small_mod;
use vstd::arithmetic::power2::lemma2_to64;
use vstd::arithmetic::power2::lemma2_to64_rest;
use vstd::arithmetic::power2::lemma_pow2_adds;
use vstd::arithmetic::power2::lemma_pow2_strictly_increases;
use vstd::arithmetic::power2::pow2;
use vstd::bits::lemma_u64_pow2_no_overflow;
use vstd::bits::lemma_u64_shl_is_mul;
use vstd::bits::lemma_u64_shr_is_div;
use vstd::bits::lemma_u8_shl_is_mul;
use vstd::bits::lemma_u8_shr_is_div;
use vstd::prelude::*;

verus! {

/// Why a read or a write on a buffer in memory did not go through.
#[derive(Debug, Clone, Copy, PartialEq, Eq, Structural)]
pub enum IoFailure {
    /// The input ended before everything asked for was read.
    UnexpectedEof,
    /// A parameter was out of its range.
    InvalidInput,
}

/// The lowest bit of a number says whether it is odd.
proof fn lemma_low_bit_u64(y: u64)
    by (bit_vector)
    ensures
        y & 1 == y % 2,
{
}

/// Setting a clear bit of a byte adds the bit's weight.
proof fn lemma_set_bit_u8(cb: u8, bit: u64, off: u8, mask: u8)
    by (bit_vector)
    requires
        off < 8,
        mask == 1u8 << off,
        cb < mask,
        bit <= 1,
    ensures
        bit << (off as u64) <= 0xff,
        bit == 1 ==> ((cb & !mask) | ((bit << (off as u64)) as u8)) == cb + mask,
        bit == 0 ==> ((cb & !mask) | ((bit << (off as u64)) as u8)) == cb,
{
}

/// Setting a bit of a number above all its set bits adds the bit's weight.
proof fn lemma_set_bit_u64(acc: u64, bit: u64, i: u64, top: u64)
    by (bit_vector)
    requires
        i < 64,
        top == 1u64 << i,
        acc < top,
        bit <= 1,
    ensures
        bit == 1 ==> (acc | (bit << i)) == acc + top,
        bit == 0 ==> (acc | (bit << i)) == acc,
{
}

/// The lowest eight bits of a number are its remainder by 256.
proof fn lemma_low_byte_u64(y: u64)
    by (bit_vector)
    ensures
        y & 0xff == y % 256,
{
}

/// Bit `i` of `data`, as the shift and mask of the writer compute it.
proof fn lemma_bit_of_u64(data: u64, i: u64)
    requires
        i < 64,
    ensures
        (data >> i) & 1 == if bit_at(data as nat, i as nat) {
            1u64
        } else {
            0u64
        },
{
    lemma_u64_shr_is_div(data, i);
    lemma_low_bit_u64(data >> i);
}

/// Bit `off` of a byte, as the shift and mask of the reader compute it.
proof fn lemma_bit_of_u8(cur: u8, off: u8)
    requires
        off < 8,
    ensures
        ((cur >> off) as u64) & 1 == if bit_at(cur as nat, off as nat) {
            1u64
        } else {
            0u64
        },
{
    lemma_u8_shr_is_div(cur, off);
    lemma_low_bit_u64((cur >> off) as u64);
}

/// A simple way to write individual bits to a growing buffer of bytes.
pub struct BitWriter {
    output: Vec<u8>,
    current_byte: u8,
    byte_offset: usize,
    bit_offset: usize,
    byte_size: usize,
}

impl BitWriter {
    /// Every bit written so far, in the order of writing; the clear bits that
    /// a flush added count among them.
    pub closed spec fn bits(&self) -> Seq<bool> {
        bytes_bits(self.output@) + bits_of(self.current_byte as nat, self.bit_offset as nat)
    }

    /// The writer is in order: its counters agree with what it has buffered.
    pub closed spec fn wf(&self) -> bool {
        &&& self.bit_offset < 8
        &&& (self.current_byte as nat) < pow2(self.bit_offset as nat)
        &&& self.byte_offset == self.output@.len()
        &&& self.byte_size == self.byte_offset + (self.bit_offset + 7) / 8
        &&& 8 * self.output@.len() + 8 <= usize::MAX
    }

    /// The whole bytes that have left the writer.
    pub closed spec fn bytes(&self) -> Seq<u8> {
        self.output@
    }

    /// The bytes that have left a writer are the whole bytes of its bits.
    pub proof fn lemma_bytes(&self)
        requires
            self.wf(),
        ensures
            self.bytes() == pack(self.bits()),
            self.bits().len() <= usize::MAX,
    {
        let bits = self.bits();
        let n = self.output@.len();
        assert forall|k: int| 0 <= k < n implies #[trigger] pack(bits)[k] == self.output@[k] by {
            assert(bits.subrange(8 * k, 8 * k + 8) =~= bits_of(self.output@[k] as nat, 8));
            lemma_value_of_bits_of(self.output@[k] as nat, 8);
            lemma2_to64();
            lemma_small_mod(self.output@[k] as nat, 256);
        }
        assert(pack(bits) =~= self.output@);
    }

    /// Create a new writer with nothing written.
    pub fn new() -> (w: Self)
        ensures
            w.wf(),
            w.bits() == Seq::<bool>::empty(),
    {
        let w = Self {
            output: Vec::new(),
            current_byte: 0,
            byte_offset: 0,
            bit_offset: 0,
            byte_size: 0,
        };
        proof {
            lemma2_to64();
            assert(w.bits() =~= Seq::<bool>::empty());
        }
        w
    }

    /// Get the number of bytes needed to hold every bit written.
    pub fn byte_size(&self) -> (n: usize)
        requires
            self.wf(),
        ensures
            n == (self.bits().len() + 7) / 8,
    {
        self.byte_size
    }

    /// Align the writer to the next byte boundary by padding with zero bits.
    /// A writer that stands on a boundary puts out a whole zero byte.
    pub fn flush(&mut self)
        requires
            old(self).wf(),
            old(self).bits().len() + 16 <= usize::MAX,
        ensures
            final(self).wf(),
            final(self).bits() == old(self).bits() + zeros((8 - old(self).bits().len() % 8) as nat),
            final(self).bytes() == flushed(old(self).bits()),
    {
        proof {
            lemma_bits_of_small(self.current_byte as nat, self.bit_offset as nat, 8);
            lemma_bytes_bits_push(self.output@, self.current_byte);
            lemma2_to64();
        }
        self.byte_offset += 1;
        self.output.push(self.current_byte);
        self.current_byte = 0;
        self.bit_offset = 0;
        self.byte_size = self.byte_offset;
        proof {
            assert(self.bits() =~= old(self).bits() + zeros(
                (8 - old(self).bits().len() % 8) as nat,
            ));
            self.lemma_bytes();
            assert(self.bits().len() % 8 == 0);
            assert(self.bits().subrange(0, self.bits().len() as int) =~= self.bits());
        }
    }

    /// Take the bytes out of the writer. Bits that do not fill a byte are
    /// lost unless the writer was flushed.
    pub fn into_bytes(self) -> (out: Vec<u8>)
        requires
            self.wf(),
        ensures
            out@ == self.bytes(),
            out@ == pack(self.bits()),
    {
        proof {
            self.lemma_bytes();
        }
        self.output
    }

    /// Write the lowest `bit_len` bits of `data` to the output, lowest first.
    /// A length of no bits, or of more than 64, is rejected: the call
    /// returns `InvalidInput`, and no bit and no byte reaches the output.
    pub fn write_bit(&mut self, data: u64, bit_len: usize) -> (r: Result<(), IoFailure>)
        requires
            old(self).wf(),
            old(self).bits().len() + 80 <= usize::MAX,
        ensures
            final(self).wf(),
            r.is_ok() <==> 1 <= bit_len <= 64,
            r.is_err() ==> r == Err::<(), IoFailure>(IoFailure::InvalidInput) && final(self).bits()
                == old(self).bits() && final(self).bytes() == old(self).bytes(),
            r.is_ok() ==> final(self).bits() == old(self).bits() + bits_of(
                data as nat,
                bit_len as nat,
            ),
    {
        if bit_len > 64 || bit_len == 0 {
            return Err(IoFailure::InvalidInput);
        }
        if bit_len % 8 == 0 && self.bit_offset == 0 {
            self.write_aligned(data, bit_len / 8);
            return Ok(());
        }
        self.write_unaligned(data, bit_len);
        Ok(())
    }

    /// Write the lowest `byte_len` bytes of `data` to the output, lowest
    /// first. A length of no bytes, or of more than 8, is refused and nothing
    /// is written.
    pub fn write(&mut self, data: u64, byte_len: usize) -> (r: Result<(), IoFailure>)
        requires
            old(self).wf(),
            old(self).bits().len() + 80 <= usize::MAX,
        ensures
            final(self).wf(),
            r.is_ok() <==> 1 <= byte_len <= 8,
            r.is_err() ==> r == Err::<(), IoFailure>(IoFailure::InvalidInput) && final(self).bits()
                == old(self).bits() && final(self).bytes() == old(self).bytes(),
            r.is_ok() ==> final(self).bits() == old(self).bits() + bits_of(
                data as nat,
                8 * byte_len as nat,
            ),
    {
        if byte_len > 8 || byte_len == 0 {
            return Err(IoFailure::InvalidInput);
        }
        if self.bit_offset == 0 {
            self.write_aligned(data, byte_len);
        } else {
            self.write_unaligned(data, 8 * byte_len);
        }
        Ok(())
    }

    /// The byte-aligned way: whole bytes go straight to the output.
    fn write_aligned(&mut self, data: u64, byte_len: usize)
        requires
            old(self).wf(),
            old(self).bit_offset == 0,
            1 <= byte_len <= 8,
            old(self).bits().len() + 80 <= usize::MAX,
        ensures
            final(self).wf(),
            final(self).bits() == old(self).bits() + bits_of(data as nat, 8 * byte_len as nat),
    {
        let mut k: usize = 0;
        proof {
            lemma2_to64();
            assert(self.bits() =~= old(self).bits() + bits_of(data as nat, 0));
        }
        while k < byte_len
            invariant
                k <= byte_len <= 8,
                self.wf(),
                self.bit_offset == 0,
                self.current_byte == 0,
                self.output@.len() == old(self).output@.len() + k,
                old(self).bits().len() + 80 <= usize::MAX,
                old(self).bits().len() == 8 * old(self).output@.len(),
                self.bits() == old(self).bits() + bits_of(data as nat, 8 * k as nat),
            decreases byte_len - k,
        {
            let shift: u64 = 8 * (k as u64);
            let byte: u8 = ((data >> shift) & 0xff) as u8;
            proof {
                lemma_u64_shr_is_div(data, shift);
                lemma_low_byte_u64(data >> shift);
                lemma_bits_of_byte(data as nat, k as nat);
                lemma_bytes_bits_push(self.output@, byte);
                assert(bits_of(data as nat, 8 * k as nat + 8) =~= bits_of(data as nat, 8 * k as nat)
                    + bits_of(data as nat, 8 * k as nat + 8).subrange(8 * k as int, 8 * k + 8));
            }
            self.output.push(byte);
            self.byte_offset += 1;
            self.byte_size = self.byte_offset;
            k += 1;
            proof {
                assert(self.bits() =~= old(self).bits() + bits_of(data as nat, 8 * k as nat));
            }
        }
    }

    /// The general way: the bits go through the byte being filled, one at a
    /// time.
    fn write_unaligned(&mut self, data: u64, bit_len: usize)
        requires
            old(self).wf(),
            1 <= bit_len <= 64,
            old(self).bits().len() + 80 <= usize::MAX,
        ensures
            final(self).wf(),
            final(self).bits() == old(self).bits() + bits_of(data as nat, bit_len as nat),
    {
        let mut i: usize = 0;
        proof {
            assert(self.bits() =~= old(self).bits() + bits_of(data as nat, 0));
        }
        while i < bit_len
            invariant
                i <= bit_len <= 64,
                self.wf(),
                old(self).bits().len() + 80 <= usize::MAX,
                self.bits() == old(self).bits() + bits_of(data as nat, i as nat),
            decreases bit_len - i,
        {
            let ghost before = self.bits();
            let bit_value: u64 = (data >> (i as u64)) & 1;
            let off: u8 = self.bit_offset as u8;
            let mask: u8 = 1u8 << off;
            proof {
                lemma_bit_of_u64(data, i as u64);
                lemma2_to64();
                lemma_u8_shl_is_mul(1u8, off);
                lemma_set_bit_u8(self.current_byte, bit_value, off, mask);
                lemma_pow2_step(off as nat);
                lemma_bits_of_push(data as nat, i as nat);
            }
            let ghost old_byte = self.current_byte;
            self.current_byte = self.current_byte & !mask;
            self.current_byte = self.current_byte | ((bit_value << (off as u64)) as u8);
            proof {
                let b = bit_at(data as nat, i as nat);
                assert(self.current_byte as nat == old_byte as nat + bit_weight(b, off as nat));
                lemma_value_bits_step(old_byte as nat, off as nat, b);
            }
            self.bit_offset += 1;
            if self.bit_offset >= 8 {
                proof {
                    lemma_bytes_bits_push(self.output@, self.current_byte);
                }
                self.byte_offset += 1;
                self.bit_offset = 0;
                self.output.push(self.current_byte);
                self.current_byte = 0;
            }
            self.byte_size = self.byte_offset + (self.bit_offset + 7) / 8;
            i += 1;
            proof {
                assert(self.bits() =~= before.push(bit_at(data as nat, (i - 1) as nat)));
            }
        }
    }
}

/// Placing a byte above all set bits of a number adds the byte's weight.
proof fn lemma_set_byte_u64(acc: u64, byte: u8, shift: u64, top: u64)
    by (bit_vector)
    requires
        shift <= 56,
        shift % 8 == 0,
        top == 1u64 << shift,
        acc < top,
    ensures
        (acc | ((byte as u64) << shift)) == acc + ((byte as u64) << shift),
        (acc | ((byte as u64) << shift)) < 256 * top || shift == 56,
{
}

/// A simple way to read individual bits from a buffer of bytes.
pub struct BitReader<'a> {
    input: &'a [u8],
    current_byte: Option<u8>,
    byte_offset: usize,
    bit_offset: usize,
}

impl<'a> BitReader<'a> {
    /// The bytes that the reader reads from.
    pub closed spec fn source(&self) -> Seq<u8> {
        self.input@
    }

    /// The bits of the source, in reading order.
    pub open spec fn stream(&self) -> Seq<bool> {
        bytes_bits(self.source())
    }

    /// The number of bits read so far.
    pub closed spec fn position(&self) -> nat {
        (8 * self.byte_offset + self.bit_offset) as nat
    }

    /// The reader is in order: it stands inside its source and holds the
    /// byte it stands in.
    pub closed spec fn wf(&self) -> bool {
        &&& self.bit_offset < 8
        &&& self.byte_offset <= self.input@.len()
        &&& self.byte_offset == self.input@.len() ==> self.bit_offset == 0
        &&& self.current_byte == if self.byte_offset < self.input@.len() {
            Some(self.input@[self.byte_offset as int])
        } else {
            None::<u8>
        }
    }

    /// A reader in order stands inside its stream.
    pub proof fn lemma_position(&self)
        requires
            self.wf(),
        ensures
            self.position() <= self.stream().len(),
            self.stream().len() == 8 * self.source().len(),
    {
    }

    /// Create a new reader at the start of `input`. The first byte is loaded
    /// at once, where there is one.
    pub fn new(input: &'a [u8]) -> (r: Self)
        ensures
            r.wf(),
            r.source() == input@,
            r.position() == 0,
    {
        let first = if input.len() > 0 {
            Some(input[0])
        } else {
            None
        };
        Self { input, current_byte: first, byte_offset: 0, bit_offset: 0 }
    }

    /// Get the number of whole bytes read from the source.
    pub fn byte_offset(&self) -> (n: usize)
        requires
            self.wf(),
        ensures
            n == self.position() / 8,
    {
        self.byte_offset
    }

    /// Whether `bit_len` more bits can be read.
    fn has_bits(&self, bit_len: usize) -> (b: bool)
        requires
            self.wf(),
            bit_len <= 64,
        ensures
            b <==> self.position() + bit_len <= self.stream().len(),
    {
        let rest: usize = self.input.len() - self.byte_offset;
        if rest >= 9 {
            true
        } else {
            bit_len <= 8 * rest - self.bit_offset
        }
    }

    /// Read `bit_len` bits from the input and give the number they stand
    /// for, the first bit read being the lowest. A length of no bits, or of
    /// more than 64, is refused; so is a length that goes beyond the end of
    /// the input. A read that is refused reads nothing.
    pub fn read_bit(&mut self, bit_len: usize) -> (r: Result<u64, IoFailure>)
        requires
            old(self).wf(),
        ensures
            final(self).wf(),
            final(self).source() == old(self).source(),
            r.is_err() ==> final(self).position() == old(self).position(),
            (bit_len == 0 || bit_len > 64) ==> r == Err::<u64, IoFailure>(IoFailure::InvalidInput),
            1 <= bit_len <= 64 && old(self).position() + bit_len > old(self).stream().len() ==> r
                == Err::<u64, IoFailure>(IoFailure::UnexpectedEof),
            1 <= bit_len <= 64 && old(self).position() + bit_len <= old(self).stream().len() ==> {
                &&& r matches Ok(v)
                &&& v == value_of(
                    old(self).stream().subrange(
                        old(self).position() as int,
                        old(self).position() + bit_len,
                    ),
                )
                &&& final(self).position() == old(self).position() + bit_len
            },
    {
        if bit_len > 64 || bit_len == 0 {
            return Err(IoFailure::InvalidInput);
        }
        if !self.has_bits(bit_len) {
            return Err(IoFailure::UnexpectedEof);
        }
        if bit_len % 8 == 0 && self.bit_offset == 0 {
            return Ok(self.read_aligned(bit_len / 8));
        }
        Ok(self.read_unaligned(bit_len))
    }

    /// Read `byte_len` bytes from the input and give the number they stand
    /// for, the first byte read being the lowest. A length of no bytes, or of
    /// more than 8, is refused; so is a length that goes beyond the end of
    /// the input. A read that is refused reads nothing.
    pub fn read(&mut self, byte_len: usize) -> (r: Result<u64, IoFailure>)
        requires
            old(self).wf(),
        ensures
            final(self).wf(),
            final(self).source() == old(self).source(),
            r.is_err() ==> final(self).position() == old(self).position(),
            (byte_len == 0 || byte_len > 8) ==> r == Err::<u64, IoFailure>(IoFailure::InvalidInput),
            1 <= byte_len <= 8 && old(self).position() + 8 * byte_len > old(self).stream().len()
                ==> r == Err::<u64, IoFailure>(IoFailure::UnexpectedEof),
            1 <= byte_len <= 8 && old(self).position() + 8 * byte_len <= old(self).stream().len()
                ==> {
                &&& r matches Ok(v)
                &&& v == value_of(
                    old(self).stream().subrange(
                        old(self).position() as int,
                        old(self).position() + 8 * byte_len,
                    ),
                )
                &&& final(self).position() == old(self).position() + 8 * byte_len
            },
    {
        if byte_len > 8 || byte_len == 0 {
            return Err(IoFailure::InvalidInput);
        }
        if !self.has_bits(8 * byte_len) {
            return Err(IoFailure::UnexpectedEof);
        }
        if self.bit_offset == 0 {
            Ok(self.read_aligned(byte_len))
        } else {
            Ok(self.read_unaligned(8 * byte_len))
        }
    }

    /// The byte-aligned way: whole bytes come straight from the input.
    fn read_aligned(&mut self, byte_len: usize) -> (v: u64)
        requires
            old(self).wf(),
            old(self).bit_offset == 0,
            1 <= byte_len <= 8,
            old(self).position() + 8 * byte_len <= old(self).stream().len(),
        ensures
            final(self).wf(),
            final(self).source() == old(self).source(),
            v == value_of(
                old(self).stream().subrange(
                    old(self).position() as int,
                    old(self).position() + 8 * byte_len,
                ),
            ),
            final(self).position() == old(self).position() + 8 * byte_len,
    {
        let ghost stream = self.stream();
        let ghost start = self.position() as int;
        let mut result: u64 = 0;
        let mut k: usize = 0;
        proof {
            lemma2_to64();
            assert(stream.subrange(start, start) =~= Seq::<bool>::empty());
        }
        while k < byte_len
            invariant
                k <= byte_len <= 8,
                self.wf(),
                self.input == old(self).input,
                self.bit_offset == 0,
                stream == bytes_bits(self.input@),
                start == 8 * old(self).byte_offset,
                self.byte_offset == old(self).byte_offset + k,
                start + 8 * byte_len <= stream.len(),
                result == value_of(stream.subrange(start, start + 8 * k)),
                k < 8 ==> result < pow2(8 * k as nat),
            decreases byte_len - k,
        {
            let byte: u8 = self.input[self.byte_offset];
            let shift: u64 = 8 * (k as u64);
            let ghost top: u64 = 1u64 << shift;
            proof {
                let lo = stream.subrange(start, start + 8 * k);
                let hi = stream.subrange(start + 8 * k, start + 8 * k + 8);
                assert(hi =~= bits_of(byte as nat, 8));
                assert(stream.subrange(start, start + 8 * k + 8) =~= lo + hi);
                lemma_value_of_concat(lo, hi);
                lemma_value_of_bits_of(byte as nat, 8);
                lemma_small_mod(byte as nat, 256);
                lemma_value_of_bound(stream.subrange(start, start + 8 * k + 8));
                lemma_pow2_adds(8 * k as nat, 8);
                lemma2_to64_rest();
                if shift < 56 {
                    lemma_pow2_strictly_increases(shift as nat, 56);
                }
                lemma2_to64();
                assert((byte as u64) * pow2(shift as nat) <= 255 * pow2(56)) by (nonlinear_arith)
                    requires
                        0 <= pow2(shift as nat) <= pow2(56),
                        byte <= 255,
                ;
                lemma_u64_pow2_no_overflow(shift as nat);
                lemma_u64_shl_is_mul(1u64, shift);
                lemma_u64_shl_is_mul(byte as u64, shift);
                lemma_set_byte_u64(result, byte, shift, top);
                assert((byte as u64) * pow2(shift as nat) == pow2(lo.len()) * value_of(hi))
                    by (nonlinear_arith)
                    requires
                        value_of(hi) == byte as nat,
                        lo.len() == shift,
                ;
            }
            result = result | ((byte as u64) << shift);
            self.byte_offset += 1;
            self.current_byte = if self.byte_offset < self.input.len() {
                Some(self.input[self.byte_offset])
            } else {
                None
            };
            k += 1;
        }
        result
    }

    /// The general way: the bits come out of the byte being read, one at a
    /// time.
    fn read_unaligned(&mut self, bit_len: usize) -> (v: u64)
        requires
            old(self).wf(),
            1 <= bit_len <= 64,
            old(self).position() + bit_len <= old(self).stream().len(),
        ensures
            final(self).wf(),
            final(self).source() == old(self).source(),
            v == value_of(
                old(self).stream().subrange(
                    old(self).position() as int,
                    old(self).position() + bit_len,
                ),
            ),
            final(self).position() == old(self).position() + bit_len,
    {
        let ghost stream = self.stream();
        let ghost start = self.position() as int;
        let total: usize = self.input.len();
        let mut result: u64 = 0;
        let mut i: usize = 0;
        proof {
            lemma2_to64();
            assert(stream.subrange(start, start) =~= Seq::<bool>::empty());
        }
        while i < bit_len
            invariant
                i <= bit_len <= 64,
                total == self.input@.len(),
                self.wf(),
                self.input == old(self).input,
                stream == bytes_bits(self.input@),
                start == old(self).position(),
                self.position() == start + i,
                start + bit_len <= stream.len(),
                stream.len() == 8 * self.input@.len(),
                result == value_of(stream.subrange(start, start + i)),
                i < 64 ==> result < pow2(i as nat),
            decreases bit_len - i,
        {
            let cur: u8 = match self.current_byte {
                Some(b) => b,
                None => 0,
            };
            let off: u8 = self.bit_offset as u8;
            let bit_value: u64 = ((cur >> off) as u64) & 1;
            let ghost top: u64 = 1u64 << (i as u64);
            proof {
                let b = stream[start + i];
                let so_far = stream.subrange(start, start + i);
                assert(b == bit_at(cur as nat, off as nat));
                lemma_bit_of_u8(cur, off);
                assert(stream.subrange(start, start + i + 1) =~= so_far.push(b));
                lemma_value_of_push(so_far, b);
                lemma_u64_pow2_no_overflow(i as nat);
                lemma_u64_shl_is_mul(1u64, i as u64);
                lemma_set_bit_u64(result, bit_value, i as u64, top);
                lemma_value_of_bound(so_far.push(b));
                assert(8 * self.byte_offset + self.bit_offset < 8 * self.input@.len());
            }
            self.bit_offset += 1;
            if self.bit_offset == 8 {
                self.byte_offset += 1;
                self.bit_offset = 0;
                self.current_byte = if self.byte_offset < total {
                    Some(self.input[self.byte_offset])
                } else {
                    None
                };
            }
            result = result | (bit_value << (i as u64));
            i += 1;
        }
        result
    }
}

/// The bits that a run of writes puts out: for each pair of a value and a
/// length, in turn, the lowest bits of the value.
pub open spec fn written(writes: Seq<(u64, nat)>) -> Seq<bool>
    decreases writes.len(),
{
    if writes.len() == 0 {
        Seq::<bool>::empty()
    } else {
        written(writes.drop_last()) + bits_of(writes.last().0 as nat, writes.last().1)
    }
}

/// The bits of the first `k` writes of a run open the bits of the whole run,
/// and those of write `k` follow them.
pub proof fn lemma_written_prefix(writes: Seq<(u64, nat)>, k: int)
    requires
        0 <= k < writes.len(),
    ensures
        written(writes.take(k)).len() + writes[k].1 <= written(writes).len(),
        written(writes).subrange(
            written(writes.take(k)).len() as int,
            written(writes.take(k)).len() as int + writes[k].1,
        ) == bits_of(writes[k].0 as nat, writes[k].1),
    decreases writes.len(),
{
    let front = writes.drop_last();
    let pos = written(writes.take(k)).len() as int;
    if k == writes.len() - 1 {
        assert(writes.take(k) =~= front);
        assert(written(writes).subrange(pos, pos + writes[k].1) =~= bits_of(
            writes[k].0 as nat,
            writes[k].1,
        ));
    } else {
        lemma_written_prefix(front, k);
        assert(front.take(k) =~= writes.take(k));
        assert(written(writes).subrange(pos, pos + writes[k].1) =~= written(front).subrange(
            pos,
            pos + writes[k].1,
        ));
    }
}

/// Bit I/O round trip. Let any run of writes be made, each of 1 to 64 bits,
/// and the writer be flushed. A reader over the bytes that came out, asked in
/// turn for the same lengths, finds at read `k` the bits of write `k`: it
/// gives back the value written, reduced to the bits that were written of it,
/// which is the value itself where it fits the length.
pub proof fn lemma_bit_io_roundtrip(writes: Seq<(u64, nat)>, k: int)
    requires
        0 <= k < writes.len(),
        forall|i: int| 0 <= i < writes.len() ==> 1 <= (#[trigger] writes[i]).1 <= 64,
    ensures
        ({
            let stream = bytes_bits(flushed(written(writes)));
            let pos = written(writes.take(k)).len() as int;
            let n = writes[k].1;
            &&& pos + n <= stream.len()
            &&& value_of(stream.subrange(pos, pos + n)) == writes[k].0 as nat % pow2(n)
            &&& writes[k].0 < pow2(n) ==> value_of(stream.subrange(pos, pos + n))
                == writes[k].0
        }),
{
    let bits = written(writes);
    let stream = bytes_bits(flushed(bits));
    let pos = written(writes.take(k)).len() as int;
    let n = writes[k].1;
    lemma_flushed_bits(bits);
    lemma_written_prefix(writes, k);
    assert(stream.subrange(pos, pos + n) =~= bits.subrange(pos, pos + n));
    lemma_value_of_bits_of(writes[k].0 as nat, n);
    if writes[k].0 < pow2(n) {
        lemma_small_mod(writes[k].0 as nat, pow2(n));
    }
}

} // verus!
