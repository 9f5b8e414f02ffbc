use vstd::prelude::*;
use vstd::arithmetic::power2::{pow2, lemma_pow2_unfold, lemma_pow2_adds, lemma_pow2_pos, lemma2_to64};

use crate::Error;

verus! {

/// The bit of `data`, LSB-first: bit number `i` is bit `i % 8` of byte `i / 8`.
pub open spec fn bit_at(data: Seq<u8>, i: int) -> u8 {
    (data[i / 8] >> ((i % 8) as u8)) & 1
}

/// The value of the `k`-bit group starting at bit position `s` of `data`,
/// assembled LSB-first: the first bit read is the least significant.
pub open spec fn bits_value(data: Seq<u8>, s: int, k: nat) -> nat
    decreases k,
{
    if k == 0 {
        0
    } else {
        bit_at(data, s) as nat + 2 * bits_value(data, s + 1, (k - 1) as nat)
    }
}

pub broadcast proof fn lemma_bit_at_is_bit(data: Seq<u8>, i: int)
    ensures
        #[trigger] bit_at(data, i) <= 1,
{
    let b = data[i / 8];
    let s = (i % 8) as u8;
    assert((b >> s) & 1 <= 1) by (bit_vector);
}

pub proof fn lemma_bits_value_bound(data: Seq<u8>, s: int, k: nat)
    ensures
        bits_value(data, s, k) < pow2(k),
    decreases k,
{
    if k == 0 {
        lemma2_to64();
    } else {
        lemma_bits_value_bound(data, s + 1, (k - 1) as nat);
        lemma_pow2_unfold(k);
        lemma_bit_at_is_bit(data, s);
    }
}

/// Reading a `k1`-bit group and then a `k2`-bit group from consecutive bit
/// positions yields exactly the LSB-first value of the combined `k1 + k2`-bit
/// group: partitioning the stream into groups never changes the bits read.
pub proof fn lemma_bits_value_concat(data: Seq<u8>, s: int, k1: nat, k2: nat)
    ensures
        bits_value(data, s, k1 + k2) == bits_value(data, s, k1) + pow2(k1) * bits_value(
            data,
            s + k1,
            k2,
        ),
    decreases k1,
{
    if k1 == 0 {
        lemma2_to64();
    } else {
        lemma_bits_value_concat(data, s + 1, (k1 - 1) as nat, k2);
        lemma_pow2_unfold(k1);
        let b = bit_at(data, s) as nat;
        let v1 = bits_value(data, s + 1, (k1 - 1) as nat);
        let v2 = bits_value(data, s + k1, k2);
        let p1 = pow2((k1 - 1) as nat);
        assert(bits_value(data, s, (k1 + k2) as nat) == b + 2 * (v1 + p1 * v2));
        assert(b + 2 * (v1 + p1 * v2) == (b + 2 * v1) + (2 * p1) * v2) by (nonlinear_arith);
    }
}

/// One aligned byte, read LSB-first, is the byte itself: the bit expansion of
/// a byte array is the LSB-first expansion of each of its bytes in turn.
pub proof fn lemma_bits_value_byte(data: Seq<u8>, i: int)
    requires
        0 <= i < data.len(),
    ensures
        bits_value(data, 8 * i, 8) == data[i],
{
    reveal_with_fuel(bits_value, 10);
    let b = data[i];
    assert((8 * i + 0) / 8 == i && (8 * i + 0) % 8 == 0 && (8 * i + 1) / 8 == i && (8 * i + 1) % 8
        == 1 && (8 * i + 2) / 8 == i && (8 * i + 2) % 8 == 2 && (8 * i + 3) / 8 == i && (8 * i + 3)
        % 8 == 3 && (8 * i + 4) / 8 == i && (8 * i + 4) % 8 == 4 && (8 * i + 5) / 8 == i && (8 * i
        + 5) % 8 == 5 && (8 * i + 6) / 8 == i && (8 * i + 6) % 8 == 6 && (8 * i + 7) / 8 == i && (8
        * i + 7) % 8 == 7) by (nonlinear_arith)
        requires
            0 <= i,
    ;
    assert(bits_value(data, 8 * i + 7, 1) == bit_at(data, 8 * i + 7) as nat);
    assert(bits_value(data, 8 * i + 6, 2) == bit_at(data, 8 * i + 6) as nat + 2 * bits_value(
        data,
        8 * i + 7,
        1,
    ));
    assert(bits_value(data, 8 * i + 5, 3) == bit_at(data, 8 * i + 5) as nat + 2 * bits_value(
        data,
        8 * i + 6,
        2,
    ));
    assert(bits_value(data, 8 * i + 4, 4) == bit_at(data, 8 * i + 4) as nat + 2 * bits_value(
        data,
        8 * i + 5,
        3,
    ));
    assert(bits_value(data, 8 * i + 3, 5) == bit_at(data, 8 * i + 3) as nat + 2 * bits_value(
        data,
        8 * i + 4,
        4,
    ));
    assert(bits_value(data, 8 * i + 2, 6) == bit_at(data, 8 * i + 2) as nat + 2 * bits_value(
        data,
        8 * i + 3,
        5,
    ));
    assert(bits_value(data, 8 * i + 1, 7) == bit_at(data, 8 * i + 1) as nat + 2 * bits_value(
        data,
        8 * i + 2,
        6,
    ));
    assert(bits_value(data, 8 * i, 8) == bit_at(data, 8 * i) as nat + 2 * bits_value(
        data,
        8 * i + 1,
        7,
    ));
    assert(b as nat == ((b >> 0u8) & 1) as nat + 2 * (((b >> 1u8) & 1) as nat + 2 * (((b >> 2u8)
        & 1) as nat + 2 * (((b >> 3u8) & 1) as nat + 2 * (((b >> 4u8) & 1) as nat + 2 * (((b
        >> 5u8) & 1) as nat + 2 * (((b >> 6u8) & 1) as nat + 2 * (((b >> 7u8)
        & 1) as nat)))))))) by (bit_vector);
}

/// A group of at most 16 bits, paired with its length; unused high bits are
/// zero. `bits` holds the group LSB-first when it comes from `BitReader`,
/// and MSB-first (first bit highest) when grown by `concat`.
#[derive(Clone, Copy, Debug, PartialEq, Eq, Hash, Structural)]
pub struct BitSequence {
    pub bits: u16,
    pub len: u8,
}

impl BitSequence {
    pub open spec fn wf(self) -> bool {
        self.len <= 16 && (self.bits as nat) < pow2(self.len as nat)
    }

    pub open spec fn spec_bits(self) -> u16 {
        self.bits
    }

    pub open spec fn spec_len(self) -> u8 {
        self.len
    }

    /// Keeps the low `len` bits and zeroes the rest, so that equality on
    /// the pair compares only the bits that are part of the group.
    pub fn new(bits: u16, len: u8) -> (r: BitSequence)
        requires
            len <= 16,
        ensures
            r.wf(),
            r.spec_len() == len,
            r.spec_bits() as nat == bits as nat % pow2(len as nat),
            (bits as nat) < pow2(len as nat) ==> r.spec_bits() == bits,
    {
        proof {
            lemma2_to64();
        }
        if len >= 16 {
            proof {
                assert(bits as nat % pow2(16) == bits as nat) by {
                    vstd::arithmetic::div_mod::lemma_small_mod(bits as nat, pow2(16));
                }
            }
            BitSequence { bits, len: 16 }
        } else {
            proof {
                vstd::bits::lemma_u16_pow2_no_overflow(len as nat);
                vstd::bits::lemma_u16_shl_is_mul(1u16, len as u16);
                lemma_pow2_pos(len as nat);
            }
            let mask: u16 = (1u16 << len) - 1;
            let r = BitSequence { bits: bits & mask, len };
            proof {
                let l = len;
                let b = bits;
                let m = mask;
                assert(b & m < (1u16 << l) && b & m == b % (1u16 << l) && (b < (1u16 << l) ==> b
                    & m == b)) by (bit_vector)
                    requires
                        l < 16,
                        m as int == (1u16 << l) - 1,
                ;
                assert((b % (1u16 << l)) as nat == b as nat % ((1u16 << l) as nat));
            }
            r
        }
    }

    pub fn bits(&self) -> (r: u16)
        ensures
            r == self.spec_bits(),
    {
        self.bits
    }

    pub fn len(&self) -> (r: u8)
        ensures
            r == self.spec_len(),
    {
        self.len
    }

    /// Appends `other` below `self`: the earlier-read group becomes the
    /// higher-order bits, which is the canonical Huffman code-word order.
    pub fn concat(self, other: Self) -> (r: Self)
        requires
            self.wf(),
            other.wf(),
            self.spec_len() + other.spec_len() <= 16,
        ensures
            r.wf(),
            r.spec_len() == self.spec_len() + other.spec_len(),
            r.spec_bits() == self.spec_bits() * pow2(other.spec_len() as nat)
                + other.spec_bits(),
    {
        if self.len == 0 {
            proof {
                lemma2_to64();
                assert(self.spec_bits() == 0);
                assert(self.spec_bits() * pow2(other.spec_len() as nat) == 0) by (nonlinear_arith)
                    requires
                        self.spec_bits() == 0,
                ;
            }
            return other;
        }
        proof {
            lemma_pow2_adds(self.len as nat, other.len as nat);
            lemma_pow2_pos(other.len as nat);
            lemma2_to64();
            assert(self.bits * pow2(other.len as nat) + other.bits < pow2(
                (self.len + other.len) as nat,
            )) by (nonlinear_arith)
                requires
                    (self.bits as nat) < pow2(self.len as nat),
                    (other.bits as nat) < pow2(other.len as nat),
                    pow2((self.len + other.len) as nat) == pow2(self.len as nat) * pow2(
                        other.len as nat,
                    ),
            ;
            vstd::bits::lemma_u16_pow2_no_overflow(other.len as nat);
            vstd::bits::lemma_u16_shl_is_mul(1u16, other.len as u16);
            vstd::bits::lemma_u16_shl_is_mul(self.bits, other.len as u16);
        }
        let bits: u16 = (self.bits << other.len) | other.bits;
        proof {
            let a = self.bits;
            let b = other.bits;
            let l = other.len;
            assert(((a << l) | b) as int == (a << l) + b) by (bit_vector)
                requires
                    l < 16,
                    b < (1u16 << l),
            ;
        }
        BitSequence { bits, len: self.len + other.len }
    }
}

/// A byte source that is consumed strictly from front to back.
pub struct ByteReader {
    pub data: Vec<u8>,
    pub pos: usize,
}

impl ByteReader {
    pub open spec fn wf(self) -> bool {
        self.pos <= self.data.len()
    }

    pub open spec fn spec_data(self) -> Seq<u8> {
        self.data@
    }

    pub open spec fn spec_pos(self) -> int {
        self.pos as int
    }

    pub fn new(data: Vec<u8>) -> (r: ByteReader)
        ensures
            r.wf(),
            r.spec_data() == data@,
            r.spec_pos() == 0,
    {
        ByteReader { data, pos: 0 }
    }

    pub fn remaining(&self) -> (r: usize)
        requires
            self.wf(),
        ensures
            r == self.spec_data().len() - self.spec_pos(),
    {
        self.data.len() - self.pos
    }

    pub fn read_u8(&mut self) -> (r: Result<u8, Error>)
        requires
            old(self).wf(),
        ensures
            final(self).wf(),
            final(self).spec_data() == old(self).spec_data(),
            final(self).spec_pos() >= old(self).spec_pos(),
            match r {
                Ok(b) => old(self).spec_pos() + 1 <= old(self).spec_data().len() && b == old(
                    self,
                ).spec_data()[old(self).spec_pos()] && final(self).spec_pos() == old(
                    self,
                ).spec_pos() + 1,
                Err(e) => e == Error::UnexpectedEof && old(self).spec_pos() == old(
                    self,
                ).spec_data().len() && *final(self) == *old(self),
            },
    {
        if self.pos < self.data.len() {
            let b = self.data[self.pos];
            self.pos = self.pos + 1;
            Ok(b)
        } else {
            Err(Error::UnexpectedEof)
        }
    }

    /// The 16-bit little-endian value at the cursor.
    pub fn read_u16_le(&mut self) -> (r: Result<u16, Error>)
        requires
            old(self).wf(),
        ensures
            final(self).wf(),
            final(self).spec_data() == old(self).spec_data(),
            final(self).spec_pos() >= old(self).spec_pos(),
            match r {
                Ok(v) => old(self).spec_pos() + 2 <= old(self).spec_data().len() && v == old(
                    self,
                ).spec_data()[old(self).spec_pos()] + 256 * old(self).spec_data()[old(
                    self,
                ).spec_pos() + 1] && final(self).spec_pos() == old(self).spec_pos() + 2,
                Err(e) => e == Error::UnexpectedEof && old(self).spec_pos() + 2 > old(
                    self,
                ).spec_data().len(),
            },
    {
        if self.data.len() - self.pos < 2 {
            if self.pos < self.data.len() {
                self.pos = self.data.len();
            }
            return Err(Error::UnexpectedEof);
        }
        let b0 = self.data[self.pos] as u16;
        let b1 = self.data[self.pos + 1] as u16;
        self.pos = self.pos + 2;
        Ok(b0 + 256 * b1)
    }

    /// The 32-bit little-endian value at the cursor.
    pub fn read_u32_le(&mut self) -> (r: Result<u32, Error>)
        requires
            old(self).wf(),
        ensures
            final(self).wf(),
            final(self).spec_data() == old(self).spec_data(),
            final(self).spec_pos() >= old(self).spec_pos(),
            match r {
                Ok(v) => old(self).spec_pos() + 4 <= old(self).spec_data().len() && v == le32(
                    old(self).spec_data(),
                    old(self).spec_pos(),
                ) && final(self).spec_pos() == old(self).spec_pos() + 4,
                Err(e) => e == Error::UnexpectedEof && old(self).spec_pos() + 4 > old(
                    self,
                ).spec_data().len(),
            },
    {
        if self.data.len() - self.pos < 4 {
            if self.pos < self.data.len() {
                self.pos = self.data.len();
            }
            return Err(Error::UnexpectedEof);
        }
        let b0 = self.data[self.pos] as u32;
        let b1 = self.data[self.pos + 1] as u32;
        let b2 = self.data[self.pos + 2] as u32;
        let b3 = self.data[self.pos + 3] as u32;
        self.pos = self.pos + 4;
        Ok(b0 + 256 * (b1 + 256 * (b2 + 256 * b3)))
    }

    /// Reads bytes up to a 0x00 terminator; the returned bytes exclude the
    /// terminator, and the cursor ends just past it.
    pub fn read_until_nul(&mut self) -> (r: Result<Vec<u8>, Error>)
        requires
            old(self).wf(),
        ensures
            final(self).wf(),
            final(self).spec_data() == old(self).spec_data(),
            final(self).spec_pos() >= old(self).spec_pos(),
            match r {
                Ok(v) => {
                    let p = old(self).spec_pos();
                    let n = v@.len() as int;
                    &&& p + n < old(self).spec_data().len()
                    &&& old(self).spec_data()[p + n] == 0
                    &&& forall|j: int| p <= j < p + n ==> old(self).spec_data()[j] != 0
                    &&& v@ == old(self).spec_data().subrange(p, p + n)
                    &&& final(self).spec_pos() == p + n + 1
                },
                Err(e) => e == Error::UnexpectedEof && forall|j: int|
                    old(self).spec_pos() <= j < old(self).spec_data().len() ==> old(
                        self,
                    ).spec_data()[j] != 0,
            },
    {
        let ghost start = self.pos as int;
        let mut out: Vec<u8> = Vec::new();
        loop
            invariant
                self.wf(),
                self.data@ == old(self).data@,
                start == old(self).spec_pos(),
                0 <= start <= self.pos <= self.data.len(),
                out@.len() == self.pos - start,
                out@ == self.data@.subrange(start, self.pos as int),
                forall|j: int| start <= j < self.pos ==> self.data@[j] != 0,
            decreases self.data.len() - self.pos,
        {
            if self.pos >= self.data.len() {
                return Err(Error::UnexpectedEof);
            }
            let b = self.data[self.pos];
            self.pos = self.pos + 1;
            if b == 0 {
                proof {
                    assert(out@ =~= self.data@.subrange(start, self.pos - 1));
                }
                return Ok(out);
            }
            out.push(b);
            proof {
                assert(out@ =~= self.data@.subrange(start, self.pos as int));
            }
        }
    }
}

/// The 32-bit little-endian value of the four bytes at `p`.
pub open spec fn le32(d: Seq<u8>, p: int) -> u32 {
    (d[p] + 256 * (d[p + 1] + 256 * (d[p + 2] + 256 * d[p + 3]))) as u32
}

/// The 16-bit little-endian value of the two bytes at `p`.
pub open spec fn le16(d: Seq<u8>, p: int) -> u16 {
    (d[p] + 256 * d[p + 1]) as u16
}

/// Adapts the byte source into an LSB-first bit stream.
pub struct BitReader {
    pub stream: ByteReader,
    pub bit: u8,
}

impl BitReader {
    pub open spec fn wf(self) -> bool {
        &&& self.stream.wf()
        &&& self.bit < 8
        &&& (self.bit > 0 ==> self.stream.spec_pos() < self.stream.spec_data().len())
    }

    pub open spec fn spec_data(self) -> Seq<u8> {
        self.stream.spec_data()
    }

    /// How many bits of the stream have been consumed.
    pub open spec fn bit_pos(self) -> int {
        self.stream.spec_pos() * 8 + self.bit
    }

    pub open spec fn total_bits(self) -> int {
        self.stream.spec_data().len() * 8int
    }

    pub fn new(data: Vec<u8>) -> (r: BitReader)
        ensures
            r.wf(),
            r.spec_data() == data@,
            r.bit_pos() == 0,
    {
        BitReader { stream: ByteReader::new(data), bit: 0 }
    }

    /// Pulls exactly `len` bits (at most 16), LSB-first; `len == 0` yields
    /// the empty sequence; fails with `UnexpectedEof` when fewer than `len`
    /// bits remain, and then the whole stream counts as consumed.
    pub fn read_bits(&mut self, len: u8) -> (r: Result<BitSequence, Error>)
        requires
            old(self).wf(),
            len <= 16,
        ensures
            final(self).wf(),
            final(self).spec_data() == old(self).spec_data(),
            final(self).bit_pos() >= old(self).bit_pos(),
            match r {
                Ok(bs) => {
                    &&& bs.wf()
                    &&& bs.spec_len() == len
                    &&& old(self).bit_pos() + len <= old(self).total_bits()
                    &&& bs.spec_bits() == bits_value(
                        old(self).spec_data(),
                        old(self).bit_pos(),
                        len as nat,
                    )
                    &&& final(self).bit_pos() == old(self).bit_pos() + len
                },
                Err(e) => {
                    &&& e == Error::UnexpectedEof
                    &&& old(self).bit_pos() + len > old(self).total_bits()
                    &&& final(self).bit_pos() == final(self).total_bits()
                },
            },
    {
        let ghost d = self.stream.spec_data();
        let ghost start = self.bit_pos();
        let mut out: u32 = 0;
        let mut mult: u32 = 1;
        let mut i: u8 = 0;
        proof {
            lemma2_to64();
        }
        while i < len
            invariant
                self.wf(),
                d == old(self).spec_data(),
                start == old(self).bit_pos(),
                self.stream.spec_data() == d,
                i <= len <= 16,
                self.bit_pos() == start + i,
                mult == pow2(i as nat),
                mult <= 65536,
                out == bits_value(d, start, i as nat),
                out < mult,
            decreases len - i,
        {
            proof {
                lemma2_to64();
            }
            if self.stream.pos >= self.stream.data.len() {
                self.bit = 0;
                self.stream.pos = self.stream.data.len();
                return Err(Error::UnexpectedEof);
            }
            let b = self.stream.data[self.stream.pos];
            let v: u8 = (b >> self.bit) & 1;
            proof {
                assert((start + i) / 8 == self.stream.spec_pos() && (start + i) % 8
                    == self.bit as int) by (nonlinear_arith)
                    requires
                        start + i == self.stream.spec_pos() * 8 + self.bit,
                        0 <= self.bit < 8,
                        self.stream.spec_pos() >= 0,
                ;
                assert(v == bit_at(d, start + i));
                lemma_bit_at_is_bit(d, start + i);
                lemma_bits_value_concat(d, start, i as nat, 1);
                assert(bits_value(d, start + i + 1, 0) == 0);
                assert(bits_value(d, start + i, 1) == bit_at(d, start + i) as nat);
                lemma_pow2_unfold((i + 1) as nat);
                assert((v as u32) * mult <= mult) by (nonlinear_arith)
                    requires
                        v <= 1,
                        mult >= 0,
                ;
                if i + 1 < 16 {
                    vstd::arithmetic::power2::lemma_pow2_strictly_increases(
                        (i + 1) as nat,
                        16,
                    );
                }
            }
            out = out + (v as u32) * mult;
            proof {
                assert(bits_value(d, start, (i + 1) as nat) == bits_value(d, start, i as nat)
                    + pow2(i as nat) * (bit_at(d, start + i) as nat));
                assert(pow2(i as nat) * (bit_at(d, start + i) as nat) == (v as u32) * mult)
                    by (nonlinear_arith)
                    requires
                        mult == pow2(i as nat),
                        v == bit_at(d, start + i),
                ;
                assert(out == bits_value(d, start, (i + 1) as nat));
            }
            mult = mult * 2;
            if self.bit == 7 {
                self.bit = 0;
                self.stream.pos = self.stream.pos + 1;
            } else {
                self.bit = self.bit + 1;
            }
            i = i + 1;
        }
        proof {
            lemma_bits_value_bound(d, start, len as nat);
        }
        Ok(BitSequence { bits: out as u16, len })
    }

    /// 32 bits assembled LSB-first, as two 16-bit groups.
    pub fn read_u32(&mut self) -> (r: Result<u32, Error>)
        requires
            old(self).wf(),
        ensures
            final(self).wf(),
            final(self).spec_data() == old(self).spec_data(),
            final(self).bit_pos() >= old(self).bit_pos(),
            match r {
                Ok(v) => {
                    &&& old(self).bit_pos() + 32 <= old(self).total_bits()
                    &&& v == bits_value(old(self).spec_data(), old(self).bit_pos(), 32)
                    &&& final(self).bit_pos() == old(self).bit_pos() + 32
                },
                Err(e) => e == Error::UnexpectedEof && old(self).bit_pos() + 32 > old(
                    self,
                ).total_bits(),
            },
    {
        let ghost d = self.spec_data();
        let ghost start = self.bit_pos();
        let lo = self.read_bits(16)?;
        let hi = self.read_bits(16)?;
        proof {
            lemma_bits_value_concat(d, start, 16, 16);
            lemma2_to64();
            lemma_bits_value_bound(d, start, 16);
            lemma_bits_value_bound(d, start + 16, 16);
        }
        Ok(lo.bits() as u32 + 65536 * (hi.bits() as u32))
    }

    /// Discards the unread bits of the current byte and hands out the
    /// underlying byte reader for byte-aligned reads.
    pub fn borrow_reader_from_boundary(&mut self) -> (r: &mut ByteReader)
        requires
            old(self).wf(),
        ensures
            r.wf(),
            r.spec_data() == old(self).spec_data(),
            r.spec_pos() == if old(self).bit == 0 {
                old(self).stream.spec_pos()
            } else {
                old(self).stream.spec_pos() + 1
            },
            final(self).stream == *final(r),
            final(self).bit == 0,
    {
        if self.bit != 0 {
            self.bit = 0;
            self.stream.pos = self.stream.pos + 1;
        }
        &mut self.stream
    }

    /// Realigns to the next byte boundary, then reads bytes up to and
    /// including a 0x00 terminator and returns the preceding bytes decoded
    /// as UTF-8.
    pub fn read_str_to_null(&mut self) -> (r: Result<String, Error>)
        requires
            old(self).wf(),
        ensures
            final(self).wf(),
            final(self).spec_data() == old(self).spec_data(),
            final(self).bit_pos() >= old(self).bit_pos(),
            match r {
                Ok(s) => {
                    let p = spec_align_up(old(self).bit_pos());
                    exists|m: int|
                        {
                            &&& 0 <= m
                            &&& p + m < old(self).spec_data().len()
                            &&& #[trigger] old(self).spec_data()[p + m] == 0
                            &&& (forall|j: int|
                                p <= j < p + m ==> old(self).spec_data()[j] != 0)
                            &&& vstd::utf8::encode_utf8(s@) == old(self).spec_data().subrange(
                                p,
                                p + m,
                            )
                            &&& vstd::utf8::valid_utf8(
                                old(self).spec_data().subrange(p, p + m),
                            )
                            &&& final(self).bit_pos() == 8 * (p + m + 1)
                        }
                },
                Err(e) => {
                    let p = spec_align_up(old(self).bit_pos());
                    &&& (e == Error::UnexpectedEof || e == Error::InvalidData(
                        crate::ErrorKind::HeaderNotUtf8,
                    ))
                    &&& (e == Error::UnexpectedEof ==> forall|j: int|
                        p <= j < old(self).spec_data().len() ==> old(self).spec_data()[j] != 0)
                    &&& (e == Error::InvalidData(crate::ErrorKind::HeaderNotUtf8) ==> exists|
                        m: int,
                    |
                        {
                            &&& 0 <= m
                            &&& p + m < old(self).spec_data().len()
                            &&& #[trigger] old(self).spec_data()[p + m] == 0
                            &&& (forall|j: int|
                                p <= j < p + m ==> old(self).spec_data()[j] != 0)
                            &&& !vstd::utf8::valid_utf8(
                                old(self).spec_data().subrange(p, p + m),
                            )
                        })
                },
            },
    {
        proof {
            let p0 = self.stream.spec_pos();
            let b0 = self.bit as int;
            assert((p0 * 8 + b0) / 8 == p0 && (p0 * 8 + b0) % 8 == b0) by (nonlinear_arith)
                requires
                    0 <= b0 < 8,
                    p0 >= 0,
            ;
        }
        let reader = self.borrow_reader_from_boundary();
        let res = reader.read_until_nul();
        let bytes = match res {
            Ok(v) => v,
            Err(e) => {
                return Err(e);
            },
        };
        let ghost bv = bytes@;
        let ghost p = spec_align_up(old(self).bit_pos());
        let out = crate::trusted::utf8_from_bytes(bytes);
        match out {
            Ok(s) => {
                proof {
                    let m = bv.len() as int;
                    assert(#[trigger] old(self).spec_data()[p + m] == 0);
                    assert(vstd::utf8::encode_utf8(s@) == old(self).spec_data().subrange(
                        p,
                        p + m,
                    ));
                    assert(final(self).bit_pos() == 8 * (p + m + 1));
                }
                Ok(s)
            },
            Err(e) => {
                proof {
                    let m = bv.len() as int;
                    assert(#[trigger] old(self).spec_data()[p + m] == 0);
                    assert(bv == old(self).spec_data().subrange(p, p + m));
                }
                Err(e)
            },
        }
    }
}

/// The byte position of the next boundary at or after bit position `p`.
pub open spec fn spec_align_up(p: int) -> int {
    if p % 8 == 0 {
        p / 8
    } else {
        p / 8 + 1
    }
}

/// A reader at a byte boundary has no partial byte: its cursor is exactly
/// `bit_pos() / 8` bytes in.
pub proof fn lemma_aligned(r: BitReader)
    requires
        r.wf(),
        r.bit_pos() % 8 == 0,
    ensures
        r.bit == 0,
        r.stream.spec_pos() == r.bit_pos() / 8,
{
    let p = r.stream.spec_pos();
    let b = r.bit as int;
    assert((p * 8 + b) % 8 == b && (p * 8 + b) / 8 == p) by (nonlinear_arith)
        requires
            0 <= b < 8,
            p >= 0,
    ;
}

/// Sixteen aligned bits, read LSB-first, are the 16-bit little-endian value.
pub proof fn lemma_bits_value_le16(d: Seq<u8>, i: int)
    requires
        0 <= i,
        i + 2 <= d.len(),
    ensures
        bits_value(d, 8 * i, 16) == le16(d, i),
{
    lemma_bits_value_concat(d, 8 * i, 8, 8);
    lemma_bits_value_byte(d, i);
    assert(8 * i + 8 == 8 * (i + 1));
    lemma_bits_value_byte(d, i + 1);
    lemma2_to64();
}

/// Thirty-two aligned bits, read LSB-first, are the 32-bit little-endian
/// value.
pub proof fn lemma_bits_value_le32(d: Seq<u8>, i: int)
    requires
        0 <= i,
        i + 4 <= d.len(),
    ensures
        bits_value(d, 8 * i, 32) == le32(d, i),
{
    lemma_bits_value_concat(d, 8 * i, 8, 24);
    lemma_bits_value_concat(d, 8 * (i + 1), 8, 16);
    lemma_bits_value_concat(d, 8 * (i + 2), 8, 8);
    assert(8 * i + 8 == 8 * (i + 1) && 8 * (i + 1) + 8 == 8 * (i + 2) && 8 * (i + 2) + 8 == 8 * (i
        + 3));
    lemma_bits_value_byte(d, i);
    lemma_bits_value_byte(d, i + 1);
    lemma_bits_value_byte(d, i + 2);
    lemma_bits_value_byte(d, i + 3);
    lemma2_to64();
}

} // verus!
