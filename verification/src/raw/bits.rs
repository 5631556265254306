//! Bit readers: a byte slice as a stream of bits, zeros past its end.

use crate::bytes::le32;
use vstd::arithmetic::power2::{lemma2_to64, lemma_pow2_adds, lemma_pow2_pos, lemma_pow2_unfold, pow2};
use vstd::bits::{lemma_u32_shl_is_mul, lemma_u64_shl_is_mul};
use vstd::prelude::*;

verus! {

/// Bit `shift` of a byte, counted from the least significant.
pub open spec fn bit_of(byte: u8, shift: int) -> bool {
    (byte as u32 >> (shift as u32)) & 1 == 1
}

/// The bits of `data`, each byte's most significant bit first.
pub open spec fn msb_bits(data: Seq<u8>) -> Seq<bool> {
    Seq::new(8 * data.len(), |i: int| bit_of(data[i / 8], 7 - i % 8))
}

/// The bits of `data`, each byte's least significant bit first.
pub open spec fn lsb_bits(data: Seq<u8>) -> Seq<bool> {
    Seq::new(8 * data.len(), |i: int| bit_of(data[i / 8], i % 8))
}

/// The bits of `data` taken as little-endian 32-bit words, each word's
/// most significant bit first. What the last word lacks is zero.
pub open spec fn msb32_bits(data: Seq<u8>) -> Seq<bool> {
    Seq::new(
        32 * ((data.len() + 3) / 4),
        |i: int|
            i / 32 * 4 + 3 - i % 32 / 8 < data.len() && bit_of(
                data[i / 32 * 4 + 3 - i % 32 / 8],
                7 - i % 8,
            ),
    )
}

/// Bit `i` of a stream as a number; zero past its end.
pub open spec fn bit_at(bits: Seq<bool>, i: int) -> nat {
    if 0 <= i < bits.len() && bits[i] {
        1
    } else {
        0
    }
}

/// The first `n` bits as a number, the first of them most significant.
pub open spec fn word(bits: Seq<bool>, n: nat) -> nat
    decreases n,
{
    if n == 0 {
        0
    } else {
        2 * word(bits, (n - 1) as nat) + bit_at(bits, n - 1)
    }
}

/// The first `n` bits as a number, the first of them least significant.
pub open spec fn low_word(bits: Seq<bool>, n: nat) -> nat
    decreases n,
{
    if n == 0 {
        0
    } else {
        low_word(bits, (n - 1) as nat) + if bit_at(bits, n - 1) == 1 {
            pow2((n - 1) as nat)
        } else {
            0
        }
    }
}

/// What is left of a stream after `n` bits.
pub open spec fn after(bits: Seq<bool>, n: nat) -> Seq<bool> {
    if n >= bits.len() {
        Seq::empty()
    } else {
        bits.skip(n as int)
    }
}

/// Skipping in two steps is skipping once.
pub proof fn lemma_after_after(bits: Seq<bool>, a: nat, b: nat)
    ensures
        after(after(bits, a), b) == after(bits, a + b),
{
    assert(after(after(bits, a), b) =~= after(bits, a + b));
}

proof fn lemma_bit_after(bits: Seq<bool>, a: nat, i: int)
    requires
        0 <= i,
    ensures
        bit_at(after(bits, a), i) == bit_at(bits, a + i),
{
}

/// A number of `n` bits is below two to the `n`.
pub proof fn lemma_word_bound(bits: Seq<bool>, n: nat)
    ensures
        word(bits, n) < pow2(n),
    decreases n,
{
    if n == 0 {
        lemma2_to64();
    } else {
        lemma_word_bound(bits, (n - 1) as nat);
        lemma_pow2_unfold(n);
    }
}

proof fn lemma_low_word_bound(bits: Seq<bool>, n: nat)
    ensures
        low_word(bits, n) < pow2(n),
    decreases n,
{
    if n == 0 {
        lemma2_to64();
    } else {
        lemma_low_word_bound(bits, (n - 1) as nat);
        lemma_pow2_unfold(n);
    }
}

/// A number read in two parts.
pub proof fn lemma_word_split(bits: Seq<bool>, a: nat, b: nat)
    ensures
        word(bits, a + b) == word(bits, a) * pow2(b) + word(after(bits, a), b),
    decreases b,
{
    if b == 0 {
        lemma2_to64();
    } else {
        let c = (b - 1) as nat;
        lemma_word_split(bits, a, c);
        lemma_bit_after(bits, a, c as int);
        lemma_pow2_unfold(b);
        let w = word(bits, a);
        let p = pow2(c);
        assert(w * (2 * p) == 2 * (w * p)) by (nonlinear_arith);
        assert(word(bits, a + b) == 2 * word(bits, a + c) + bit_at(bits, (a + c) as int));
    }
}

proof fn lemma_low_word_split(bits: Seq<bool>, a: nat, b: nat)
    ensures
        low_word(bits, a + b) == low_word(bits, a) + low_word(after(bits, a), b) * pow2(a),
    decreases b,
{
    if b == 0 {
        assert(low_word(after(bits, a), 0) * pow2(a) == 0) by (nonlinear_arith)
            requires
                low_word(after(bits, a), 0) == 0,
        ;
    } else {
        let c = (b - 1) as nat;
        lemma_low_word_split(bits, a, c);
        lemma_bit_after(bits, a, c as int);
        lemma_pow2_adds(a, c);
        let l = low_word(after(bits, a), c);
        assert((l + pow2(c)) * pow2(a) == l * pow2(a) + pow2(a) * pow2(c)) by (nonlinear_arith);
        assert(low_word(bits, a + b) == low_word(bits, a + c) + if bit_at(bits, (a + c) as int)
            == 1 {
            pow2(a + c)
        } else {
            0
        });
    }
}

/// `take` bits out of a byte, from `off` bits below its top.
proof fn lemma_byte_word(byte: u8, off: u32, take: u32, bits: Seq<bool>)
    requires
        off + take <= 8,
        forall|i: int| 0 <= i < take ==> #[trigger] bit_at(bits, i) == if bit_of(byte, 7 - off - i) {
            1nat
        } else {
            0
        },
    ensures
        word(bits, take as nat) == (byte as u32 >> ((8 - off - take) as u32)) & (0xffu32 >> ((8
            - take) as u32)),
    decreases take,
{
    let b = byte as u32;
    if take == 0 {
        let s = (8 - off) as u32;
        assert((b >> s) & (0xffu32 >> 8u32) == 0) by (bit_vector);
    } else {
        let t = (take - 1) as u32;
        let s = (8 - off - take) as u32;
        lemma_byte_word(byte, off, t, bits);
        assert((b >> s) & (0xffu32 >> ((8 - (t + 1)) as u32)) == 2 * ((b >> ((s + 1) as u32)) & (
        0xffu32 >> ((8 - t) as u32))) + ((b >> s) & 1)) by (bit_vector)
            requires
                t < 8,
                s < 8,
        ;
        assert((b >> s) & 1 == 0 || (b >> s) & 1 == 1) by (bit_vector);
        assert(bit_at(bits, t as int) == if bit_of(byte, s as int) {
            1nat
        } else {
            0
        });
    }
}

/// `take` bits out of a byte, from `off` bits above its bottom.
proof fn lemma_byte_low_word(byte: u8, off: u32, take: u32, bits: Seq<bool>)
    requires
        off + take <= 8,
        forall|i: int| 0 <= i < take ==> #[trigger] bit_at(bits, i) == if bit_of(byte, off + i) {
            1nat
        } else {
            0
        },
    ensures
        low_word(bits, take as nat) == (byte as u32 >> off) & (0xffu32 >> ((8 - take) as u32)),
    decreases take,
{
    let b = byte as u32;
    if take == 0 {
        assert((b >> off) & (0xffu32 >> 8u32) == 0) by (bit_vector);
    } else {
        let t = (take - 1) as u32;
        lemma_byte_low_word(byte, off, t, bits);
        let p = pow2(t as nat);
        lemma2_to64();
        assert((b >> off) & (0xffu32 >> ((8 - (t + 1)) as u32)) == ((b >> off) & (0xffu32 >> ((8
            - t) as u32))) + (((b >> ((off + t) as u32)) & 1) << t)) by (bit_vector)
            requires
                t < 8,
                off + t < 8,
        ;
        let e = (b >> ((off + t) as u32)) & 1;
        assert(e == 0 || e == 1) by (bit_vector)
            requires
                e == (b >> ((off + t) as u32)) & 1,
        ;
        assert(0u32 << t == 0) by (bit_vector);
        assert(t < 8 ==> (1u32 << t) == (if t == 0 { 1u32 } else if t == 1 { 2 } else if t == 2 { 4
        } else if t == 3 { 8 } else if t == 4 { 16 } else if t == 5 { 32 } else if t == 6 { 64
        } else { 128 })) by (bit_vector);
        assert(bit_at(bits, t as int) == if bit_of(byte, off + t) {
            1nat
        } else {
            0
        });
        assert(e == 1 ==> e << t == p);
    }
}

/// Where a reader `consumed` bits into `source` stands after `n` more.
pub open spec fn reached(consumed: int, n: int, source: Seq<u8>) -> int {
    if consumed + n <= 8 * source.len() {
        consumed + n
    } else {
        8 * source.len() as int
    }
}

/// A stream of bits read off a byte slice.
pub trait BitPump {
    /// The bits not read yet.
    spec fn rest(&self) -> Seq<bool>;

    /// What the first `n` bits of a stream mean as a number.
    spec fn number(bits: Seq<bool>, n: nat) -> nat;

    /// The next `n` bits as a number, without consuming them.
    fn peek(&self, n: u32) -> (value: u32)
        requires
            n <= 32,
        ensures
            value == Self::number(self.rest(), n as nat),
            value < pow2(n as nat),
    ;

    /// Skips `n` bits.
    fn consume(&mut self, n: u32)
        requires
            n <= 32,
        ensures
            final(self).rest() == after(old(self).rest(), n as nat),
    ;

    /// The next `n` bits as a number.
    fn get(&mut self, n: u32) -> (value: u32)
        requires
            n <= 32,
        ensures
            value == Self::number(old(self).rest(), n as nat),
            value < pow2(n as nat),
            final(self).rest() == after(old(self).rest(), n as nat),
    ;
}

/// Reads each byte from its most significant bit.
#[derive(Clone, Copy)]
pub struct BitPumpMsb<'a> {
    data: &'a [u8],
    byte: usize,
    bit: u32,
}

impl<'a> BitPumpMsb<'a> {
    #[verifier::type_invariant]
    spec fn well_formed(self) -> bool {
        &&& self.byte <= self.data@.len()
        &&& self.bit < 8
        &&& self.byte == self.data@.len() ==> self.bit == 0
    }

    /// The bits read so far.
    pub closed spec fn consumed(&self) -> int {
        8 * self.byte + self.bit
    }

    /// The slice that is read.
    pub closed spec fn source(&self) -> Seq<u8> {
        self.data@
    }

    /// A reader at the start of `data`.
    pub fn new(data: &'a [u8]) -> (pump: BitPumpMsb<'a>)
        ensures
            pump.rest() == msb_bits(data@),
            pump.consumed() == 0,
            pump.source() == data@,
    {
        let pump = BitPumpMsb { data, byte: 0, bit: 0 };
        assert(pump.rest() =~= msb_bits(data@));
        pump
    }

    /// How many bits have been read, at most as many as there are.
    pub fn position(&self) -> (bits: usize)
        requires
            8 * self.source().len() <= usize::MAX,
        ensures
            bits == self.consumed(),
    {
        proof {
            use_type_invariant(self);
        }
        8 * self.byte + self.bit as usize
    }
}

impl<'a> BitPump for BitPumpMsb<'a> {
    closed spec fn rest(&self) -> Seq<bool> {
        msb_bits(self.data@).skip(8 * self.byte + self.bit)
    }

    open spec fn number(bits: Seq<bool>, n: nat) -> nat {
        word(bits, n)
    }

    fn peek(&self, n: u32) -> (value: u32) {
        let mut ahead = *self;
        ahead.get(n)
    }

    fn consume(&mut self, n: u32)
        ensures
            final(self).source() == old(self).source(),
            final(self).consumed() == reached(old(self).consumed(), n as int, old(self).source()),
    {
        proof {
            use_type_invariant(&*self);
        }
        let total: u32 = self.bit + n;
        let bytes: usize = (total / 8) as usize;
        if self.data.len() - self.byte <= bytes {
            *self = BitPumpMsb { data: self.data, byte: self.data.len(), bit: 0 };
        } else {
            *self = BitPumpMsb { data: self.data, byte: self.byte + bytes, bit: total % 8 };
        }
        assert(self.rest() =~= after(old(self).rest(), n as nat));
    }

    fn get(&mut self, n: u32) -> (value: u32)
        ensures
            final(self).source() == old(self).source(),
            final(self).consumed() == reached(old(self).consumed(), n as int, old(self).source()),
    {
        let ghost start = self.rest();
        let ghost source = self.data@;
        proof {
            use_type_invariant(&*self);
            assert(after(start, 0) =~= start);
        }
        let mut value: u64 = 0;
        let mut filled: u32 = 0;
        let data = self.data;
        let mut byte: usize = self.byte;
        let mut bit: u32 = self.bit;
        while filled < n && byte < data.len()
            invariant
                data@ == source,
                n <= 32,
                filled <= n,
                byte <= data@.len(),
                bit < 8,
                byte == data@.len() ==> bit == 0,
                start == msb_bits(source).skip((8 * self.byte + self.bit) as int),
                8 * self.byte + self.bit <= 8 * source.len(),
                8 * byte + bit == 8 * self.byte + self.bit + filled,
                value == word(start, filled as nat),
            decreases n - filled,
        {
            let left: u32 = 8 - bit;
            let take: u32 = if n - filled < left {
                n - filled
            } else {
                left
            };
            let chunk: u32 = (data[byte] as u32 >> (left - take)) & (0xffu32 >> (8 - take));
            let ghost rest = after(start, filled as nat);
            proof {
                let d = data[byte as int];
                assert forall|i: int| 0 <= i < take implies #[trigger] bit_at(rest, i) == if bit_of(
                    d,
                    7 - bit - i,
                ) {
                    1nat
                } else {
                    0
                } by {
                    let at = 8 * byte + bit + i;
                    assert(at / 8 == byte && at % 8 == bit + i);
                    assert(rest[i] == msb_bits(source)[at]);
                }
                lemma_byte_word(d, bit, take, rest);
                lemma_word_split(start, filled as nat, take as nat);
                lemma_word_bound(start, (filled + take) as nat);
                lemma_pow2_small((filled + take) as nat);
                lemma_u64_shl_is_mul(value, take as u64);
            }
            value = (value << (take as u64)) + chunk as u64;
            filled = filled + take;
            if take == left {
                byte = byte + 1;
                bit = 0;
            } else {
                bit = bit + take;
            }
        }
        if filled < n {
            let pad: u32 = n - filled;
            proof {
                let rest = after(start, filled as nat);
                assert(rest.len() == 0);
                lemma_word_split(start, filled as nat, pad as nat);
                lemma_word_none(rest, pad as nat);
                lemma_word_bound(start, n as nat);
                lemma_pow2_small(n as nat);
                lemma_u64_shl_is_mul(value, pad as u64);
            }
            value = value << (pad as u64);
        }
        proof {
            lemma_word_bound(start, n as nat);
            lemma_pow2_small(n as nat);
        }
        *self = BitPumpMsb { data, byte, bit };
        assert(self.rest() =~= after(start, n as nat));
        value as u32
    }
}

/// Reads each byte from its least significant bit.
#[derive(Clone, Copy)]
pub struct BitPumpLsb<'a> {
    data: &'a [u8],
    byte: usize,
    bit: u32,
}

impl<'a> BitPumpLsb<'a> {
    #[verifier::type_invariant]
    spec fn well_formed(self) -> bool {
        &&& self.byte <= self.data@.len()
        &&& self.bit < 8
        &&& self.byte == self.data@.len() ==> self.bit == 0
    }

    /// A reader at the start of `data`.
    pub fn new(data: &'a [u8]) -> (pump: BitPumpLsb<'a>)
        ensures
            pump.rest() == lsb_bits(data@),
    {
        let pump = BitPumpLsb { data, byte: 0, bit: 0 };
        assert(pump.rest() =~= lsb_bits(data@));
        pump
    }
}

impl<'a> BitPump for BitPumpLsb<'a> {
    closed spec fn rest(&self) -> Seq<bool> {
        lsb_bits(self.data@).skip(8 * self.byte + self.bit)
    }

    open spec fn number(bits: Seq<bool>, n: nat) -> nat {
        low_word(bits, n)
    }

    fn peek(&self, n: u32) -> (value: u32) {
        let mut ahead = *self;
        ahead.get(n)
    }

    fn consume(&mut self, n: u32) {
        proof {
            use_type_invariant(&*self);
        }
        let total: u32 = self.bit + n;
        let bytes: usize = (total / 8) as usize;
        if self.data.len() - self.byte <= bytes {
            *self = BitPumpLsb { data: self.data, byte: self.data.len(), bit: 0 };
        } else {
            *self = BitPumpLsb { data: self.data, byte: self.byte + bytes, bit: total % 8 };
        }
        assert(self.rest() =~= after(old(self).rest(), n as nat));
    }

    fn get(&mut self, n: u32) -> (value: u32) {
        let ghost start = self.rest();
        let ghost source = self.data@;
        proof {
            use_type_invariant(&*self);
            assert(after(start, 0) =~= start);
            lemma2_to64();
        }
        let mut value: u64 = 0;
        let mut filled: u32 = 0;
        let data = self.data;
        let mut byte: usize = self.byte;
        let mut bit: u32 = self.bit;
        while filled < n && byte < data.len()
            invariant
                data@ == source,
                n <= 32,
                filled <= n,
                byte <= data@.len(),
                bit < 8,
                byte == data@.len() ==> bit == 0,
                start == lsb_bits(source).skip((8 * self.byte + self.bit) as int),
                8 * self.byte + self.bit <= 8 * source.len(),
                8 * byte + bit == 8 * self.byte + self.bit + filled,
                value == low_word(start, filled as nat),
            decreases n - filled,
        {
            let left: u32 = 8 - bit;
            let take: u32 = if n - filled < left {
                n - filled
            } else {
                left
            };
            let chunk: u32 = (data[byte] as u32 >> bit) & (0xffu32 >> (8 - take));
            let ghost rest = after(start, filled as nat);
            proof {
                let d = data[byte as int];
                assert forall|i: int| 0 <= i < take implies #[trigger] bit_at(rest, i) == if bit_of(
                    d,
                    bit + i,
                ) {
                    1nat
                } else {
                    0
                } by {
                    let at = 8 * byte + bit + i;
                    assert(at / 8 == byte && at % 8 == bit + i);
                    assert(rest[i] == lsb_bits(source)[at]);
                }
                lemma_byte_low_word(d, bit, take, rest);
                lemma_low_word_split(start, filled as nat, take as nat);
                lemma_low_word_bound(start, (filled + take) as nat);
                lemma_pow2_small((filled + take) as nat);
                lemma_u64_shl_is_mul(chunk as u64, filled as u64);
            }
            value = value + ((chunk as u64) << (filled as u64));
            filled = filled + take;
            if take == left {
                byte = byte + 1;
                bit = 0;
            } else {
                bit = bit + take;
            }
        }
        proof {
            if filled < n {
                let rest = after(start, filled as nat);
                assert(rest.len() == 0);
                lemma_low_word_split(start, filled as nat, (n - filled) as nat);
                lemma_word_none(rest, (n - filled) as nat);
            }
            lemma_low_word_bound(start, n as nat);
            lemma_pow2_small(n as nat);
        }
        *self = BitPumpLsb { data, byte, bit };
        assert(self.rest() =~= after(start, n as nat));
        value as u32
    }
}

/// Reads little-endian 32-bit words, each from its most significant bit.
#[derive(Clone, Copy)]
pub struct BitPumpMsb32<'a> {
    data: &'a [u8],
    /// Whole words read.
    words: usize,
    /// Bits read of the next word.
    bit: u32,
}

impl<'a> BitPumpMsb32<'a> {
    #[verifier::type_invariant]
    spec fn well_formed(self) -> bool {
        &&& self.words <= (self.data@.len() + 3) / 4
        &&& self.bit < 32
        &&& self.words == (self.data@.len() + 3) / 4 ==> self.bit == 0
    }

    /// A reader at the start of `data`.
    pub fn new(data: &'a [u8]) -> (pump: BitPumpMsb32<'a>)
        ensures
            pump.rest() == msb32_bits(data@),
    {
        let pump = BitPumpMsb32 { data, words: 0, bit: 0 };
        assert(pump.rest() =~= msb32_bits(data@));
        pump
    }
}

/// The words a slice makes, the last of them perhaps in part.
fn word_count(data: &[u8]) -> (words: usize)
    ensures
        words == (data@.len() + 3) / 4,
{
    let whole: usize = data.len() / 4;
    if data.len() % 4 == 0 {
        whole
    } else {
        whole + 1
    }
}

/// Bit `i` past bit `bit` of a word, all within one of its bytes `d`.
proof fn lemma_msb32_bit(source: Seq<u8>, words: int, bit: int, i: int, d: u8)
    requires
        0 <= bit,
        0 <= i,
        bit % 8 + i < 8,
        bit < 32,
        0 <= words,
        4 * words < source.len(),
        d == if 4 * words + 3 - bit / 8 < source.len() {
            source[4 * words + 3 - bit / 8]
        } else {
            0u8
        },
    ensures
        0 <= 32 * words + bit + i < msb32_bits(source).len(),
        msb32_bits(source)[32 * words + bit + i] == bit_of(d, 7 - bit % 8 - i),
{
    let at = 32 * words + bit + i;
    assert(at / 32 == words && at % 32 == bit + i);
    assert((bit + i) / 8 == bit / 8 && at % 8 == bit % 8 + i);
    let s = (7 - bit % 8 - i) as u32;
    assert((0u32 >> s) & 1 == 0) by (bit_vector);
    assert(!bit_of(0u8, 7 - bit % 8 - i));
}

impl<'a> BitPump for BitPumpMsb32<'a> {
    closed spec fn rest(&self) -> Seq<bool> {
        msb32_bits(self.data@).skip(32 * self.words + self.bit)
    }

    open spec fn number(bits: Seq<bool>, n: nat) -> nat {
        word(bits, n)
    }

    fn peek(&self, n: u32) -> (value: u32) {
        let mut ahead = *self;
        ahead.get(n)
    }

    fn consume(&mut self, n: u32) {
        proof {
            use_type_invariant(&*self);
        }
        let total: u32 = self.bit + n;
        let words: usize = (total / 32) as usize;
        let count: usize = word_count(self.data);
        if count - self.words <= words {
            *self = BitPumpMsb32 { data: self.data, words: count, bit: 0 };
        } else {
            *self = BitPumpMsb32 { data: self.data, words: self.words + words, bit: total % 32 };
        }
        assert(self.rest() =~= after(old(self).rest(), n as nat));
    }

    fn get(&mut self, n: u32) -> (value: u32) {
        let ghost start = self.rest();
        let ghost source = self.data@;
        proof {
            use_type_invariant(&*self);
            assert(after(start, 0) =~= start);
        }
        let mut value: u64 = 0;
        let mut filled: u32 = 0;
        let data = self.data;
        let count: usize = word_count(data);
        let mut words: usize = self.words;
        let mut bit: u32 = self.bit;
        while filled < n && words < count
            invariant
                data@ == source,
                n <= 32,
                filled <= n,
                count == (source.len() + 3) / 4,
                words <= count,
                bit < 32,
                words == count ==> bit == 0,
                start == msb32_bits(source).skip((32 * self.words + self.bit) as int),
                32 * self.words + self.bit <= 32 * count,
                32 * words + bit == 32 * self.words + self.bit + filled,
                value == word(start, filled as nat),
            decreases n - filled,
        {
            let off: u32 = bit % 8;
            let left: u32 = 8 - off;
            let take: u32 = if n - filled < left {
                n - filled
            } else {
                left
            };
            let back: usize = (3 - bit / 8) as usize;
            assert(4 * words < data.len());
            let first: usize = words * 4;
            let d: u8 = if back < data.len() - first {
                data[first + back]
            } else {
                0
            };
            let chunk: u32 = (d as u32 >> (left - take)) & (0xffu32 >> (8 - take));
            let ghost rest = after(start, filled as nat);
            proof {
                assert forall|i: int| 0 <= i < take implies #[trigger] bit_at(rest, i) == if bit_of(
                    d,
                    7 - off - i,
                ) {
                    1nat
                } else {
                    0
                } by {
                    lemma_msb32_bit(source, words as int, bit as int, i, d);
                    assert(rest[i] == msb32_bits(source)[32 * words + bit + i]);
                }
                lemma_byte_word(d, off, take, rest);
                lemma_word_split(start, filled as nat, take as nat);
                lemma_word_bound(start, (filled + take) as nat);
                lemma_pow2_small((filled + take) as nat);
                lemma_u64_shl_is_mul(value, take as u64);
            }
            value = (value << (take as u64)) + chunk as u64;
            filled = filled + take;
            if bit + take == 32 {
                words = words + 1;
                bit = 0;
            } else {
                bit = bit + take;
            }
        }
        if filled < n {
            let pad: u32 = n - filled;
            proof {
                let rest = after(start, filled as nat);
                assert(rest.len() == 0);
                lemma_word_split(start, filled as nat, pad as nat);
                lemma_word_none(rest, pad as nat);
                lemma_word_bound(start, n as nat);
                lemma_pow2_small(n as nat);
                lemma_u64_shl_is_mul(value, pad as u64);
            }
            value = value << (pad as u64);
        }
        proof {
            lemma_word_bound(start, n as nat);
            lemma_pow2_small(n as nat);
        }
        *self = BitPumpMsb32 { data, words, bit };
        assert(self.rest() =~= after(start, n as nat));
        value as u32
    }
}

/// A number of `length` bits in two's complement.
pub open spec fn twos_complement(value: int, length: nat) -> int {
    if length > 0 && value >= pow2((length - 1) as nat) {
        value - pow2(length)
    } else {
        value
    }
}

/// A difference of category `bits` as lossless JPEG writes it: the top
/// half of the range stands for itself, the bottom half is negative.
pub open spec fn category_value(value: int, bits: nat) -> int {
    if bits == 0 {
        0
    } else if value < pow2((bits - 1) as nat) {
        value - pow2(bits) + 1
    } else {
        value
    }
}

/// Two to the `n`.
pub fn power_of_two(n: u32) -> (r: u32)
    requires
        n < 32,
    ensures
        r == pow2(n as nat),
{
    proof {
        lemma_pow2_small_strict(n as nat);
        lemma_u32_shl_is_mul(1u32, n);
    }
    1u32 << n
}

/// Reads a number of `length` bits in two's complement.
pub fn from_twos_complement(value: u32, length: u32) -> (r: i32)
    requires
        length <= 16,
        value < pow2(length as nat),
    ensures
        r == twos_complement(value as int, length as nat),
        -0x8000 <= r < 0x8000,
{
    proof {
        lemma2_to64();
        lemma_pow2_half(length as nat);
    }
    if length > 0 && value >= power_of_two(length - 1) {
        value as i32 - power_of_two(length) as i32
    } else {
        value as i32
    }
}

/// Reads a difference of category `bits`.
pub fn from_category(value: u32, bits: u32) -> (r: i32)
    requires
        bits <= 16,
        value < pow2(bits as nat),
    ensures
        r == category_value(value as int, bits as nat),
        -0x1_0000 < r < 0x1_0000,
{
    proof {
        lemma2_to64();
        lemma_pow2_half(bits as nat);
    }
    if bits == 0 {
        0
    } else if value < power_of_two(bits - 1) {
        value as i32 - power_of_two(bits) as i32 + 1
    } else {
        value as i32
    }
}

/// A sum brought back into sixteen bits.
pub fn wrapped(sum: i32) -> (r: u16)
    requires
        -0x1_0000 <= sum < 0x2_0000,
    ensures
        r == sum as int % 0x1_0000,
{
    if sum < 0 {
        (sum + 0x1_0000) as u16
    } else if sum >= 0x1_0000 {
        (sum - 0x1_0000) as u16
    } else {
        sum as u16
    }
}

proof fn lemma_pow2_half(n: nat)
    requires
        n <= 16,
    ensures
        pow2(n) <= 0x1_0000,
        n > 0 ==> pow2(n) == 2 * pow2((n - 1) as nat),
        n > 0 ==> pow2((n - 1) as nat) <= 0x8000,
    decreases 16 - n,
{
    lemma2_to64();
    if n > 0 {
        lemma_pow2_unfold(n);
    }
    if n < 16 {
        lemma_pow2_half(n + 1);
    }
}

proof fn lemma_pow2_small_strict(n: nat)
    requires
        n < 32,
    ensures
        pow2(n) <= 0x8000_0000,
    decreases 32 - n,
{
    lemma2_to64();
    if n < 31 {
        lemma_pow2_small_strict(n + 1);
        lemma_pow2_unfold(n + 1);
    }
}

/// Past its end a stream reads as zero.
pub proof fn lemma_word_none(bits: Seq<bool>, n: nat)
    requires
        bits.len() == 0,
    ensures
        word(bits, n) == 0,
        low_word(bits, n) == 0,
    decreases n,
{
    if n > 0 {
        lemma_word_none(bits, (n - 1) as nat);
    }
}

proof fn lemma_pow2_small(n: nat)
    requires
        n <= 32,
    ensures
        pow2(n) <= 0x1_0000_0000,
    decreases 32 - n,
{
    lemma2_to64();
    if n < 32 {
        lemma_pow2_small(n + 1);
        lemma_pow2_unfold(n + 1);
    }
}

// ------------------------------------------------------------- writing

/// A number in `n` bits, the most significant first.
pub open spec fn bits_of(value: int, n: nat) -> Seq<bool>
    decreases n,
{
    if n == 0 {
        Seq::empty()
    } else {
        bits_of(value / 2, (n - 1) as nat).push(value % 2 == 1)
    }
}

/// A number in `n` bits, the least significant first.
pub open spec fn low_bits_of(value: int, n: nat) -> Seq<bool>
    decreases n,
{
    if n == 0 {
        Seq::empty()
    } else {
        seq![value % 2 == 1] + low_bits_of(value / 2, (n - 1) as nat)
    }
}

/// A difference in two's complement, as a number.
pub open spec fn two_complement_code(diff: int, n: nat) -> int {
    if diff < 0 {
        diff + pow2(n)
    } else {
        diff
    }
}

/// How many bits lossless JPEG spends on a difference: those of its
/// magnitude.
pub open spec fn category_of(diff: int) -> nat {
    if diff == 0 {
        0
    } else if diff < 0 {
        magnitude_bits(-diff)
    } else {
        magnitude_bits(diff)
    }
}

/// How many bits a number takes without leading zeros.
pub open spec fn magnitude_bits(n: int) -> nat
    decreases n,
{
    if n <= 0 {
        0
    } else {
        1 + magnitude_bits(n / 2)
    }
}

/// A difference as lossless JPEG writes it in the bits of its category:
/// itself, or the complement of its magnitude.
pub open spec fn category_code(diff: int) -> int {
    if diff < 0 {
        pow2(category_of(diff)) - 1 + diff
    } else {
        diff
    }
}

pub proof fn lemma_bits_of_len(value: int, n: nat)
    ensures
        bits_of(value, n).len() == n,
    decreases n,
{
    if n > 0 {
        lemma_bits_of_len(value / 2, (n - 1) as nat);
    }
}

pub proof fn lemma_low_bits_of_len(value: int, n: nat)
    ensures
        low_bits_of(value, n).len() == n,
    decreases n,
{
    if n > 0 {
        lemma_low_bits_of_len(value / 2, (n - 1) as nat);
    }
}

/// Only the first `n` bits tell in a number of `n` bits.
pub proof fn lemma_word_prefix(a: Seq<bool>, b: Seq<bool>, n: nat)
    requires
        forall|i: int| 0 <= i < n ==> bit_at(a, i) == bit_at(b, i),
    ensures
        word(a, n) == word(b, n),
        low_word(a, n) == low_word(b, n),
    decreases n,
{
    if n > 0 {
        lemma_word_prefix(a, b, (n - 1) as nat);
    }
}

proof fn lemma_word_of_bits(value: int, n: nat)
    requires
        0 <= value < pow2(n),
    ensures
        word(bits_of(value, n), n) == value,
    decreases n,
{
    lemma2_to64();
    if n > 0 {
        let m = (n - 1) as nat;
        lemma_pow2_unfold(n);
        lemma_word_of_bits(value / 2, m);
        lemma_bits_of_len(value / 2, m);
        lemma_word_prefix(bits_of(value, n), bits_of(value / 2, m), m);
    }
}

proof fn lemma_low_word_of_bits(value: int, n: nat)
    requires
        0 <= value < pow2(n),
    ensures
        low_word(low_bits_of(value, n), n) == value,
    decreases n,
{
    lemma2_to64();
    if n > 0 {
        let m = (n - 1) as nat;
        let all = low_bits_of(value, n);
        lemma_pow2_unfold(n);
        lemma_low_word_of_bits(value / 2, m);
        lemma_low_bits_of_len(value / 2, m);
        lemma_low_word_split(all, 1, m);
        assert(after(all, 1) =~= low_bits_of(value / 2, m));
        assert(low_word(all, 0) == 0);
        assert(low_word(all, 1) == value % 2);
        assert(pow2(1) == 2);
    }
}

/// A number written in as many bits as it takes is read back, whatever
/// follows, and what follows is what is left.
pub proof fn law_numbers_are_read_back(value: int, n: nat, tail: Seq<bool>)
    requires
        0 <= value < pow2(n),
    ensures
        word(bits_of(value, n) + tail, n) == value,
        after(bits_of(value, n) + tail, n) == tail,
{
    lemma_word_of_bits(value, n);
    lemma_bits_of_len(value, n);
    lemma_word_prefix(bits_of(value, n) + tail, bits_of(value, n), n);
    assert(after(bits_of(value, n) + tail, n) =~= tail);
}

/// The same of a number written from its least significant bit on.
pub proof fn law_low_numbers_are_read_back(value: int, n: nat, tail: Seq<bool>)
    requires
        0 <= value < pow2(n),
    ensures
        low_word(low_bits_of(value, n) + tail, n) == value,
        after(low_bits_of(value, n) + tail, n) == tail,
{
    lemma_low_word_of_bits(value, n);
    lemma_low_bits_of_len(value, n);
    lemma_word_prefix(low_bits_of(value, n) + tail, low_bits_of(value, n), n);
    assert(after(low_bits_of(value, n) + tail, n) =~= tail);
}

/// A difference in two's complement is read back from the bits that hold
/// it.
pub proof fn law_twos_complement_is_read_back(diff: int, n: nat)
    requires
        n > 0 ==> -pow2((n - 1) as nat) <= diff < pow2((n - 1) as nat),
        n == 0 ==> diff == 0,
    ensures
        0 <= two_complement_code(diff, n) < pow2(n),
        twos_complement(two_complement_code(diff, n), n) == diff,
{
    lemma2_to64();
    if n > 0 {
        lemma_pow2_unfold(n);
    }
}

proof fn lemma_magnitude_bits(n: int)
    requires
        0 <= n,
    ensures
        n < pow2(magnitude_bits(n)),
        n > 0 ==> magnitude_bits(n) > 0 && pow2((magnitude_bits(n) - 1) as nat) <= n,
    decreases n,
{
    lemma2_to64();
    if n > 0 {
        lemma_magnitude_bits(n / 2);
        lemma_pow2_unfold(magnitude_bits(n));
        if n / 2 > 0 {
            lemma_pow2_unfold(magnitude_bits(n / 2));
        }
    }
}

/// A number below a power of two takes no more bits than that power.
pub proof fn lemma_magnitude_bits_at_most(n: int, k: nat)
    requires
        n < pow2(k),
    ensures
        magnitude_bits(n) <= k,
    decreases k,
{
    lemma2_to64();
    if n > 0 && k > 0 {
        lemma_pow2_unfold(k);
        lemma_magnitude_bits_at_most(n / 2, (k - 1) as nat);
    }
}

/// A difference of whatever size is read back from the bits that lossless
/// JPEG writes it in.
pub proof fn law_categories_are_read_back(diff: int)
    ensures
        0 <= category_code(diff) < pow2(category_of(diff)),
        category_value(category_code(diff), category_of(diff)) == diff,
{
    lemma2_to64();
    let k = category_of(diff);
    if diff < 0 {
        lemma_magnitude_bits(-diff);
        lemma_pow2_unfold(k);
    } else if diff > 0 {
        lemma_magnitude_bits(diff);
        lemma_pow2_unfold(k);
    }
}

/// A number of `a + b` bits is its upper `a` bits and then its lower `b`.
proof fn lemma_bits_of_parts(high: int, low: int, a: nat, b: nat)
    requires
        0 <= low < pow2(b),
        0 <= high,
    ensures
        bits_of(high * pow2(b) + low, a + b) == bits_of(high, a) + bits_of(low, b),
    decreases b,
{
    lemma2_to64();
    if b == 0 {
        assert(high * pow2(b) + low == high);
        assert(bits_of(high, a) + bits_of(low, b) =~= bits_of(high, a));
    } else {
        let c = (b - 1) as nat;
        let p = pow2(c);
        lemma_pow2_unfold(b);
        assert(high * (2 * p) == 2 * (high * p)) by (nonlinear_arith);
        let v = high * pow2(b) + low;
        assert(v / 2 == high * p + low / 2 && v % 2 == low % 2);
        lemma_bits_of_parts(high, low / 2, a, c);
        assert(bits_of(high, a) + bits_of(low, b) =~= (bits_of(high, a) + bits_of(
            low / 2,
            c,
        )).push(low % 2 == 1));
    }
}

proof fn lemma_bit_of_number(value: int, n: nat, i: nat)
    requires
        0 <= value,
        i < n,
    ensures
        bits_of(value, n).len() == n,
        low_bits_of(value, n).len() == n,
        bits_of(value, n)[n - 1 - i] == (value / pow2(i) as int % 2 == 1),
        low_bits_of(value, n)[i as int] == (value / pow2(i) as int % 2 == 1),
    decreases n,
{
    lemma2_to64();
    lemma_bits_of_len(value, n);
    lemma_low_bits_of_len(value, n);
    let m = (n - 1) as nat;
    lemma_bits_of_len(value / 2, m);
    lemma_low_bits_of_len(value / 2, m);
    if i > 0 {
        let j = (i - 1) as nat;
        lemma_bit_of_number(value / 2, m, j);
        lemma_pow2_unfold(i);
        lemma_pow2_pos(j);
        vstd::arithmetic::div_mod::lemma_div_denominator(value, 2, pow2(j) as int);
        assert(value / 2 / pow2(j) as int == value / pow2(i) as int);
        assert(bits_of(value, n)[n - 1 - i] == bits_of(value / 2, m)[m - 1 - j]);
        assert(low_bits_of(value, n)[i as int] == low_bits_of(value / 2, m)[j as int]);
    }
}

proof fn lemma_bit_of_byte(byte: u8, i: nat)
    requires
        i < 8,
    ensures
        bit_of(byte, 7 - i) == bits_of(byte as int, 8)[i as int],
        bit_of(byte, i as int) == low_bits_of(byte as int, 8)[i as int],
{
    let b = byte as u32;
    lemma_bit_of_number(byte as int, 8, i);
    lemma_bit_of_number(byte as int, 8, (7 - i) as nat);
    lemma2_to64();
    assert((b >> 0u32) & 1 == b % 2 && (b >> 1u32) & 1 == b / 2 % 2 && (b >> 2u32) & 1 == b / 4 % 2
        && (b >> 3u32) & 1 == b / 8 % 2 && (b >> 4u32) & 1 == b / 16 % 2 && (b >> 5u32) & 1 == b
        / 32 % 2 && (b >> 6u32) & 1 == b / 64 % 2 && (b >> 7u32) & 1 == b / 128 % 2) by (bit_vector);
    assert forall|k: nat| k < 8 implies #[trigger] bit_of(byte, k as int) == (byte as int / pow2(
        k,
    ) as int % 2 == 1) by {
        let v = byte as int;
        if k == 0 {
            assert(bit_of(byte, 0) == ((b >> 0u32) & 1 == 1));
            assert(pow2(0) == 1 && b as int / 1 == v / 1);
        } else if k == 1 {
            assert(bit_of(byte, 1) == ((b >> 1u32) & 1 == 1));
            assert(pow2(1) == 2 && b as int / 2 == v / 2);
        } else if k == 2 {
            assert(bit_of(byte, 2) == ((b >> 2u32) & 1 == 1));
            assert(pow2(2) == 4 && b as int / 4 == v / 4);
        } else if k == 3 {
            assert(bit_of(byte, 3) == ((b >> 3u32) & 1 == 1));
            assert(pow2(3) == 8 && b as int / 8 == v / 8);
        } else if k == 4 {
            assert(bit_of(byte, 4) == ((b >> 4u32) & 1 == 1));
            assert(pow2(4) == 16 && b as int / 16 == v / 16);
        } else if k == 5 {
            assert(bit_of(byte, 5) == ((b >> 5u32) & 1 == 1));
            assert(pow2(5) == 32 && b as int / 32 == v / 32);
        } else if k == 6 {
            assert(bit_of(byte, 6) == ((b >> 6u32) & 1 == 1));
            assert(pow2(6) == 64 && b as int / 64 == v / 64);
        } else {
            assert(bit_of(byte, 7) == ((b >> 7u32) & 1 == 1));
            assert(pow2(7) == 128 && b as int / 128 == v / 128);
        }
    }
    assert(bit_of(byte, i as int) == (byte as int / pow2(i) as int % 2 == 1));
    assert(bit_of(byte, (7 - i) as nat as int) == (byte as int / pow2((7 - i) as nat) as int % 2
        == 1));
}

/// A stream read from each byte's top is the bytes' own bits in order; one
/// read from each byte's bottom is those of each byte in reverse.
pub proof fn law_streams_are_their_bytes(data: Seq<u8>, k: int)
    requires
        0 <= k < data.len(),
    ensures
        msb_bits(data).len() == 8 * data.len(),
        lsb_bits(data).len() == 8 * data.len(),
        msb_bits(data).subrange(8 * k, 8 * k + 8) == bits_of(data[k] as int, 8),
        lsb_bits(data).subrange(8 * k, 8 * k + 8) == low_bits_of(data[k] as int, 8),
{
    lemma_bits_of_len(data[k] as int, 8);
    lemma_low_bits_of_len(data[k] as int, 8);
    assert forall|i: int| 0 <= i < 8 implies msb_bits(data)[8 * k + i] == #[trigger] bits_of(
        data[k] as int,
        8,
    )[i] && lsb_bits(data)[8 * k + i] == low_bits_of(data[k] as int, 8)[i] by {
        lemma_bit_of_byte(data[k], i as nat);
    }
    assert(msb_bits(data).subrange(8 * k, 8 * k + 8) =~= bits_of(data[k] as int, 8));
    assert forall|i: int| 0 <= i < 8 implies #[trigger] lsb_bits(data).subrange(8 * k, 8 * k + 8)[i]
        == low_bits_of(data[k] as int, 8)[i] by {
        lemma_bit_of_byte(data[k], i as nat);
    }
    assert(lsb_bits(data).subrange(8 * k, 8 * k + 8) =~= low_bits_of(data[k] as int, 8));
}

/// A stream read by words is the bits of the little-endian words of the
/// bytes, each from its top.
pub proof fn law_word_streams_are_their_words(data: Seq<u8>, k: int)
    requires
        0 <= k,
        4 * k + 4 <= data.len(),
    ensures
        msb32_bits(data).subrange(32 * k, 32 * k + 32) == bits_of(le32(data, 4 * k), 32),
{
    lemma2_to64();
    let (b0, b1) = (data[4 * k] as int, data[4 * k + 1] as int);
    let (b2, b3) = (data[4 * k + 2] as int, data[4 * k + 3] as int);
    lemma_bits_of_parts(b3, b2, 8, 8);
    lemma_bits_of_parts(b3 * 256 + b2, b1, 16, 8);
    lemma_bits_of_parts((b3 * 256 + b2) * 256 + b1, b0, 24, 8);
    assert(pow2(8) == 256);
    assert(le32(data, 4 * k) == ((b3 * 256 + b2) * 256 + b1) * 256 + b0);
    lemma_bits_of_len(b0, 8);
    lemma_bits_of_len(b1, 8);
    lemma_bits_of_len(b2, 8);
    lemma_bits_of_len(b3, 8);
    let all = bits_of(b3, 8) + bits_of(b2, 8) + bits_of(b1, 8) + bits_of(b0, 8);
    assert forall|i: int| 0 <= i < 32 implies #[trigger] msb32_bits(data)[32 * k + i]
        == all[i] by {
        let at = 4 * k + 3 - i / 8;
        assert((32 * k + i) / 32 == k && (32 * k + i) % 32 == i && (32 * k + i) % 8 == i % 8);
        lemma_bit_of_byte(data[at], (i % 8) as nat);
    }
    assert(msb32_bits(data).len() == 32 * ((data.len() + 3) / 4));
    assert forall|i: int| 0 <= i < 32 implies #[trigger] msb32_bits(data).subrange(
        32 * k,
        32 * k + 32,
    )[i] == all[i] by {
        assert(msb32_bits(data)[32 * k + i] == all[i]);
    }
    assert(msb32_bits(data).subrange(32 * k, 32 * k + 32) =~= all);
}

/// The first `a` of `a + b` bits are the number without its last `b`.
pub proof fn lemma_top_bits(value: int, a: nat, b: nat)
    requires
        0 <= value,
    ensures
        bits_of(value, a + b).take(a as int) == bits_of(value / pow2(b) as int, a),
    decreases b,
{
    lemma2_to64();
    lemma_bits_of_len(value, a + b);
    if b == 0 {
        assert(bits_of(value, a).take(a as int) =~= bits_of(value, a));
    } else {
        let c = (b - 1) as nat;
        lemma_top_bits(value / 2, a, c);
        lemma_pow2_unfold(b);
        lemma_pow2_pos(c);
        vstd::arithmetic::div_mod::lemma_div_denominator(value, 2, pow2(c) as int);
        lemma_bits_of_len(value / 2, a + c);
        assert(bits_of(value, a + b).take(a as int) =~= bits_of(value / 2, a + c).take(a as int));
    }
}

/// A window of `m` bits that begins with a code of `n` lies among those
/// that do.
pub proof fn lemma_window(code: int, n: nat, m: nat, tail: Seq<bool>)
    requires
        0 <= code < pow2(n),
        n <= m,
    ensures
        code * pow2((m - n) as nat) <= word(bits_of(code, n) + tail, m) < code * pow2(
            (m - n) as nat,
        ) + pow2((m - n) as nat),
{
    law_numbers_are_read_back(code, n, tail);
    lemma_word_split(bits_of(code, n) + tail, n, (m - n) as nat);
    lemma_word_bound(tail, (m - n) as nat);
}

/// A number of `a + b` bits from the bottom is its lower `b` bits and then
/// its upper `a`.
pub proof fn lemma_low_bits_of_parts(high: int, low: int, a: nat, b: nat)
    requires
        0 <= low < pow2(b),
        0 <= high,
    ensures
        low_bits_of(high * pow2(b) + low, a + b) == low_bits_of(low, b) + low_bits_of(high, a),
    decreases b,
{
    lemma2_to64();
    if b == 0 {
        assert(high * pow2(b) + low == high);
        assert(low_bits_of(low, b) + low_bits_of(high, a) =~= low_bits_of(high, a));
    } else {
        let c = (b - 1) as nat;
        let p = pow2(c);
        lemma_pow2_unfold(b);
        assert(high * (2 * p) == 2 * (high * p)) by (nonlinear_arith);
        let v = high * pow2(b) + low;
        assert(v / 2 == high * p + low / 2 && v % 2 == low % 2);
        lemma_low_bits_of_parts(high, low / 2, a, c);
        assert(low_bits_of(low, b) + low_bits_of(high, a) =~= seq![low % 2 == 1] + (low_bits_of(
            low / 2,
            c,
        ) + low_bits_of(high, a)));
    }
}

} // verus!
