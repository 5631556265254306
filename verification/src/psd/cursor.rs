//! Bounds-checked big-endian cursor over an input slice.
//!
//! Every read returns `Result`: the reader must never panic on malformed
//! input. Sub-cursors confine section parsers to their declared length, so
//! a bad inner length can never walk past its section.

use crate::bytes::{
    be16, be32, bytes_for, holds_number, law_numbers_are_read_from_their_bytes, signed16, signed32,
};
use crate::psd::{PsdError, PsdFault, PsdOutcome, PsdResult};
use byteorder::{BigEndian, ByteOrder};
use vstd::prelude::*;
use vstd::slice::slice_subrange;

verus! {

/// The 64-bit number of eight bytes, the first most significant.
pub open spec fn be64(data: Seq<u8>, at: int) -> int {
    be32(data, at) * 0x1_0000_0000 + be32(data, at + 4)
}

/// The number that the first two bytes stand for, read by byteorder's
/// `BigEndian::read_u16`: the first byte is the more significant.
#[verifier::external_body]
fn read_u16(bytes: &[u8]) -> (v: u16)
    requires
        bytes@.len() >= 2,
    ensures
        v == be16(bytes@, 0),
{
    BigEndian::read_u16(bytes)
}

/// The number that the first two bytes stand for, read by byteorder's
/// `BigEndian::read_i16`: as above, in two's complement.
#[verifier::external_body]
fn read_i16(bytes: &[u8]) -> (v: i16)
    requires
        bytes@.len() >= 2,
    ensures
        v == signed16(be16(bytes@, 0)),
{
    BigEndian::read_i16(bytes)
}

/// The number that the first four bytes stand for, read by byteorder's
/// `BigEndian::read_u32`: the first byte is the most significant.
#[verifier::external_body]
fn read_u32(bytes: &[u8]) -> (v: u32)
    requires
        bytes@.len() >= 4,
    ensures
        v == be32(bytes@, 0),
{
    BigEndian::read_u32(bytes)
}

/// The number that the first four bytes stand for, read by byteorder's
/// `BigEndian::read_i32`: as above, in two's complement.
#[verifier::external_body]
fn read_i32(bytes: &[u8]) -> (v: i32)
    requires
        bytes@.len() >= 4,
    ensures
        v == signed32(be32(bytes@, 0)),
{
    BigEndian::read_i32(bytes)
}

/// The number that the first eight bytes stand for, read by byteorder's
/// `BigEndian::read_u64`: the first byte is the most significant.
#[verifier::external_body]
fn read_u64(bytes: &[u8]) -> (v: u64)
    requires
        bytes@.len() >= 8,
    ensures
        v == be64(bytes@, 0),
{
    BigEndian::read_u64(bytes)
}

/// A cursor as a mathematical value: the bytes it reads and how many of
/// them lie behind it.
pub struct Reader {
    pub data: Seq<u8>,
    pub pos: int,
}

impl Reader {
    /// A cursor at the start of some bytes.
    pub open spec fn start(data: Seq<u8>) -> Reader {
        Reader { data, pos: 0 }
    }

    /// A cursor somewhere in some bytes.
    pub open spec fn at(data: Seq<u8>, pos: int) -> Reader {
        Reader { data, pos }
    }

    /// How many bytes are left.
    pub open spec fn left(self) -> int {
        self.data.len() - self.pos
    }

    /// The bytes that are left.
    pub open spec fn rest(self) -> Seq<u8> {
        self.data.skip(self.pos)
    }

    /// The cursor `n` bytes on.
    pub open spec fn past(self, n: int) -> Reader {
        Reader { pos: self.pos + n, ..self }
    }

    /// The error of a read of `n` bytes that are not there.
    pub open spec fn short(self, n: int) -> PsdFault {
        PsdFault::Truncated { offset: self.pos, needed: n - self.left() }
    }

    /// The next `n` bytes.
    pub open spec fn next(self, n: int) -> PsdOutcome<Seq<u8>> {
        if self.left() >= n {
            Ok(self.data.subrange(self.pos, self.pos + n))
        } else {
            Err(self.short(n))
        }
    }

    /// Where a read of `n` bytes leaves the cursor: past them, or where it
    /// was.
    pub open spec fn after(self, n: int) -> Reader {
        if self.left() >= n {
            self.past(n)
        } else {
            self
        }
    }

    /// The number of the next `n` bytes, for `n` of one, two, four or
    /// eight.
    pub open spec fn number(self, n: int) -> PsdOutcome<int> {
        if self.left() >= n {
            Ok(
                if n == 1 {
                    self.data[self.pos] as int
                } else if n == 2 {
                    be16(self.data, self.pos)
                } else if n == 4 {
                    be32(self.data, self.pos)
                } else {
                    be64(self.data, self.pos)
                },
            )
        } else {
            Err(self.short(n))
        }
    }
}

/// A cursor over a slice.
#[derive(Clone, Copy)]
pub struct Cursor<'a> {
    data: &'a [u8],
    pos: usize,
}

impl<'a> View for Cursor<'a> {
    type V = Reader;

    closed spec fn view(&self) -> Reader {
        Reader { data: self.data@, pos: self.pos as int }
    }
}

impl<'a> Cursor<'a> {
    #[verifier::type_invariant]
    spec fn inside(self) -> bool {
        self.pos <= self.data@.len()
    }

    /// A cursor at the start of `data`.
    pub fn new(data: &'a [u8]) -> (cursor: Cursor<'a>)
        ensures
            cursor@ == Reader::start(data@),
    {
        Cursor { data, pos: 0 }
    }

    /// How many bytes are left.
    pub fn remaining(&self) -> (n: usize)
        ensures
            n == self@.left(),
            0 <= self@.pos <= self@.data.len() <= usize::MAX,
    {
        proof {
            use_type_invariant(self);
            assert(self.data@.len() == self.data.len());
        }
        self.data.len() - self.pos
    }

    /// Whether nothing is left.
    pub fn is_empty(&self) -> (r: bool)
        ensures
            r == (self@.left() == 0),
    {
        self.remaining() == 0
    }

    fn truncated(&self, needed: usize) -> (e: PsdError)
        ensures
            e@ == (PsdFault::Truncated { offset: self@.pos, needed: needed as int }),
    {
        PsdError::Truncated { offset: self.pos, needed }
    }

    /// The next `n` bytes.
    pub fn take(&mut self, n: usize) -> (r: PsdResult<&'a [u8]>)
        ensures
            final(self)@ == old(self)@.after(n as int),
            0 <= old(self)@.pos <= old(self)@.data.len() <= usize::MAX,
            match r {
                Ok(bytes) => old(self)@.next(n as int) == PsdOutcome::<Seq<u8>>::Ok(bytes@)
                    && bytes@.len() == n,
                Err(e) => old(self)@.next(n as int) == PsdOutcome::<Seq<u8>>::Err(e@),
            },
    {
        let left: usize = self.remaining();
        if left < n {
            return Err(self.truncated(n - left));
        }
        let out = slice_subrange(self.data, self.pos, self.pos + n);
        let next: usize = self.pos + n;
        *self = Cursor { data: self.data, pos: next };
        Ok(out)
    }

    /// Passes over `n` bytes.
    pub fn skip(&mut self, n: usize) -> (r: PsdResult<()>)
        ensures
            final(self)@ == old(self)@.after(n as int),
            match r {
                Ok(_) => old(self)@.left() >= n,
                Err(e) => old(self)@.next(n as int) == PsdOutcome::<Seq<u8>>::Err(e@),
            },
    {
        match self.take(n) {
            Ok(_) => Ok(()),
            Err(e) => Err(e),
        }
    }

    /// A cursor over the next `n` bytes; this one passes over them.
    pub fn sub(&mut self, n: usize) -> (r: PsdResult<Cursor<'a>>)
        ensures
            final(self)@ == old(self)@.after(n as int),
            match r {
                Ok(cursor) => old(self)@.next(n as int) == PsdOutcome::<Seq<u8>>::Ok(
                    cursor@.data,
                ) && cursor@.pos == 0,
                Err(e) => old(self)@.next(n as int) == PsdOutcome::<Seq<u8>>::Err(e@),
            },
    {
        match self.take(n) {
            Ok(bytes) => Ok(Cursor::new(bytes)),
            Err(e) => Err(e),
        }
    }

    /// The next byte.
    pub fn u8(&mut self) -> (r: PsdResult<u8>)
        ensures
            final(self)@ == old(self)@.after(1),
            0 <= old(self)@.pos <= old(self)@.data.len() <= usize::MAX,
            match r {
                Ok(v) => old(self)@.number(1) == PsdOutcome::<int>::Ok(v as int),
                Err(e) => old(self)@.number(1) == PsdOutcome::<int>::Err(e@),
            },
    {
        match self.take(1) {
            Ok(bytes) => Ok(bytes[0]),
            Err(e) => Err(e),
        }
    }

    /// The next two bytes as a number.
    pub fn u16(&mut self) -> (r: PsdResult<u16>)
        ensures
            final(self)@ == old(self)@.after(2),
            match r {
                Ok(v) => old(self)@.number(2) == PsdOutcome::<int>::Ok(v as int),
                Err(e) => old(self)@.number(2) == PsdOutcome::<int>::Err(e@),
            },
    {
        match self.take(2) {
            Ok(bytes) => Ok(read_u16(bytes)),
            Err(e) => Err(e),
        }
    }

    /// The next two bytes as a signed number.
    pub fn i16(&mut self) -> (r: PsdResult<i16>)
        ensures
            final(self)@ == old(self)@.after(2),
            match r {
                Ok(v) => old(self)@.number(2) is Ok && v == signed16(old(self)@.number(2)->Ok_0),
                Err(e) => old(self)@.number(2) == PsdOutcome::<int>::Err(e@),
            },
    {
        match self.take(2) {
            Ok(bytes) => Ok(read_i16(bytes)),
            Err(e) => Err(e),
        }
    }

    /// The next four bytes as a number.
    pub fn u32(&mut self) -> (r: PsdResult<u32>)
        ensures
            final(self)@ == old(self)@.after(4),
            match r {
                Ok(v) => old(self)@.number(4) == PsdOutcome::<int>::Ok(v as int),
                Err(e) => old(self)@.number(4) == PsdOutcome::<int>::Err(e@),
            },
    {
        match self.take(4) {
            Ok(bytes) => Ok(read_u32(bytes)),
            Err(e) => Err(e),
        }
    }

    /// The next four bytes as a signed number.
    pub fn i32(&mut self) -> (r: PsdResult<i32>)
        ensures
            final(self)@ == old(self)@.after(4),
            match r {
                Ok(v) => old(self)@.number(4) is Ok && v == signed32(old(self)@.number(4)->Ok_0),
                Err(e) => old(self)@.number(4) == PsdOutcome::<int>::Err(e@),
            },
    {
        match self.take(4) {
            Ok(bytes) => Ok(read_i32(bytes)),
            Err(e) => Err(e),
        }
    }

    /// The next eight bytes as a number.
    pub fn u64(&mut self) -> (r: PsdResult<u64>)
        ensures
            final(self)@ == old(self)@.after(8),
            match r {
                Ok(v) => old(self)@.number(8) == PsdOutcome::<int>::Ok(v as int),
                Err(e) => old(self)@.number(8) == PsdOutcome::<int>::Err(e@),
            },
    {
        match self.take(8) {
            Ok(bytes) => Ok(read_u64(bytes)),
            Err(e) => Err(e),
        }
    }

    /// The next four bytes.
    pub fn sig4(&mut self) -> (r: PsdResult<[u8; 4]>)
        ensures
            0 <= old(self)@.pos <= old(self)@.data.len() <= usize::MAX,
            final(self)@ == old(self)@.after(4),
            match r {
                Ok(sig) => old(self)@.next(4) == PsdOutcome::<Seq<u8>>::Ok(sig@),
                Err(e) => old(self)@.next(4) == PsdOutcome::<Seq<u8>>::Err(e@),
            },
    {
        match self.take(4) {
            Ok(bytes) => {
                let sig: [u8; 4] = [bytes[0], bytes[1], bytes[2], bytes[3]];
                assert(sig@ =~= bytes@);
                Ok(sig)
            },
            Err(e) => Err(e),
        }
    }

    /// A length field that is four bytes in PSD and eight in PSB.
    pub fn len_psb(&mut self, psb: bool) -> (r: PsdResult<u64>)
        ensures
            ({
                let n: int = if psb {
                    8
                } else {
                    4
                };
                &&& final(self)@ == old(self)@.after(n)
                &&& match r {
                    Ok(v) => old(self)@.number(n) == PsdOutcome::<int>::Ok(v as int),
                    Err(e) => old(self)@.number(n) == PsdOutcome::<int>::Err(e@),
                }
            }),
    {
        if psb {
            self.u64()
        } else {
            match self.u32() {
                Ok(v) => Ok(v as u64),
                Err(e) => Err(e),
            }
        }
    }

    /// A row's byte count, two bytes in PSD and four in PSB.
    pub fn len_rle_row(&mut self, psb: bool) -> (r: PsdResult<u32>)
        ensures
            ({
                let n: int = if psb {
                    4
                } else {
                    2
                };
                &&& final(self)@ == old(self)@.after(n)
                &&& match r {
                    Ok(v) => old(self)@.number(n) == PsdOutcome::<int>::Ok(v as int),
                    Err(e) => old(self)@.number(n) == PsdOutcome::<int>::Err(e@),
                }
            }),
    {
        if psb {
            self.u32()
        } else {
            match self.u16() {
                Ok(v) => Ok(v as u32),
                Err(e) => Err(e),
            }
        }
    }

    /// A length as one that can be sliced with, unless it is more than is
    /// left. What is missing is counted in the machine's word.
    pub fn checked_len(&self, len: u64) -> (r: PsdResult<usize>)
        ensures
            0 <= self@.pos <= self@.data.len() <= usize::MAX,
            match r {
                Ok(n) => n == len && len <= self@.left(),
                Err(e) => len > self@.left() && e@ == (PsdFault::Truncated {
                    offset: self@.pos,
                    needed: (len - self@.left()) % (usize::MAX + 1),
                }),
            },
    {
        let left: usize = self.remaining();
        if len > left as u64 {
            let missing: u64 = len - left as u64;
            let needed: usize = word_of(missing);
            Err(self.truncated(needed))
        } else {
            Ok(len as usize)
        }
    }
}

fn word_of(n: u64) -> (r: usize)
    ensures
        r == n as int % (usize::MAX + 1),
{
    if n <= usize::MAX as u64 {
        proof {
            vstd::arithmetic::div_mod::lemma_small_mod(n as nat, (usize::MAX + 1) as nat);
        }
        n as usize
    } else {
        let modulus: u64 = usize::MAX as u64 + 1;
        (n % modulus) as usize
    }
}

proof fn lemma_bytes_for_parts(value: int, n: nat)
    ensures
        bytes_for(value, n + 4, false) == bytes_for(value / 0x1_0000_0000, n, false) + bytes_for(
            value,
            4,
            false,
        ),
        bytes_for(value, n, false).len() == n,
    decreases n,
{
    let top = bytes_for(value / 0x1_0000_0000, n, false);
    assert(value / 256 / 256 / 256 / 256 == value / 0x1_0000_0000);
    let v = value;
    let b0 = bytes_for(v / 256 / 256 / 256 / 256, 0, false);
    let b1 = bytes_for(v / 256 / 256 / 256, 1, false);
    let b2 = bytes_for(v / 256 / 256, 2, false);
    let b3 = bytes_for(v / 256, 3, false);
    let c1 = bytes_for(v / 256 / 256 / 256, n + 1, false);
    let c2 = bytes_for(v / 256 / 256, n + 2, false);
    let c3 = bytes_for(v / 256, n + 3, false);
    assert(b1 =~= seq![(v / 256 / 256 / 256 % 256) as u8]);
    assert(c1 == top.push((v / 256 / 256 / 256 % 256) as u8));
    assert(c1 =~= top + b1);
    assert(c2 == c1.push((v / 256 / 256 % 256) as u8));
    assert(b2 == b1.push((v / 256 / 256 % 256) as u8));
    assert(c2 =~= top + b2);
    assert(c3 == c2.push((v / 256 % 256) as u8));
    assert(b3 == b2.push((v / 256 % 256) as u8));
    assert(c3 =~= top + b3);
    assert(bytes_for(v, n + 4, false) == c3.push((v % 256) as u8));
    assert(bytes_for(v, 4, false) == b3.push((v % 256) as u8));
    assert(bytes_for(v, n + 4, false) =~= top + bytes_for(v, 4, false));
    if n > 0 {
        lemma_bytes_for_parts(value / 256, (n - 1) as nat);
    }
}

/// A number of one, two, four or eight bytes is read from where a cursor
/// stands, the first byte most significant, and a read that goes past the
/// end says how many bytes are missing.
pub proof fn law_cursors_read_numbers(r: Reader, value: int, n: int)
    requires
        n == 1 || n == 2 || n == 4 || n == 8,
        0 <= r.pos <= r.data.len(),
        n == 1 ==> 0 <= value < 0x100,
        n == 2 ==> 0 <= value < 0x1_0000,
        n == 4 ==> 0 <= value < 0x1_0000_0000,
        n == 8 ==> 0 <= value < 0x1_0000_0000_0000_0000,
    ensures
        holds_number(r.data, r.pos, value, n as nat, false) ==> r.number(n) == PsdOutcome::<
            int,
        >::Ok(value),
        r.pos + n > r.data.len() ==> r.number(n) == PsdOutcome::<int>::Err(
            PsdFault::Truncated { offset: r.pos, needed: r.pos + n - r.data.len() },
        ),
{
    if holds_number(r.data, r.pos, value, n as nat, false) {
        let part = r.data.subrange(r.pos, r.pos + n);
        law_numbers_are_read_from_their_bytes(r.data, r.pos, value, false);
        if n == 1 {
            assert(bytes_for(value / 256, 0, false) =~= Seq::empty());
            assert(part =~= seq![(value % 256) as u8]);
            assert(part[0] == r.data[r.pos]);
        } else if n == 8 {
            let high = value / 0x1_0000_0000;
            lemma_bytes_for_parts(value, 4);
            lemma_bytes_for_parts(high, 4);
            assert(r.data.subrange(r.pos, r.pos + 4) =~= part.take(4));
            assert(part.take(4) =~= bytes_for(high, 4, false));
            assert(r.data.subrange(r.pos + 4, r.pos + 8) =~= part.skip(4));
            assert(part.skip(4) =~= bytes_for(value, 4, false));
            law_numbers_are_read_from_their_bytes(r.data, r.pos, high, false);
            lemma_low_half(r.data, r.pos + 4, value);
        }
    }
}

proof fn lemma_low_half(data: Seq<u8>, at: int, value: int)
    requires
        0 <= at,
        at + 4 <= data.len(),
        data.subrange(at, at + 4) == bytes_for(value, 4, false),
    ensures
        be32(data, at) == value - 0x1_0000_0000 * (value / 0x1_0000_0000),
{
    lemma_four_digits(value);
    let four = data.subrange(at, at + 4);
    assert(four[0] == data[at] && four[1] == data[at + 1] && four[2] == data[at + 2] && four[3]
        == data[at + 3]);
    let (b, c, d) = (value / 256, value / 256 / 256, value / 256 / 256 / 256);
    let e = d / 256;
    assert(value == 256 * b + value % 256);
    assert(b == 256 * c + b % 256);
    assert(c == 256 * d + c % 256);
    assert(d == 256 * e + d % 256);
    assert(e == value / 0x1_0000_0000);
}

proof fn lemma_four_digits(v: int)
    ensures
        bytes_for(v, 4, false) == seq![
            (v / 256 / 256 / 256 % 256) as u8,
            (v / 256 / 256 % 256) as u8,
            (v / 256 % 256) as u8,
            (v % 256) as u8,
        ],
{
    let b0 = bytes_for(v / 256 / 256 / 256 / 256, 0, false);
    let b1 = bytes_for(v / 256 / 256 / 256, 1, false);
    let b2 = bytes_for(v / 256 / 256, 2, false);
    let b3 = bytes_for(v / 256, 3, false);
    assert(b0 =~= Seq::empty());
    assert(b1 =~= seq![(v / 256 / 256 / 256 % 256) as u8]);
    assert(b2 == b1.push((v / 256 / 256 % 256) as u8));
    assert(b3 == b2.push((v / 256 % 256) as u8));
    assert(bytes_for(v, 4, false) == b3.push((v % 256) as u8));
}

} // verus!
