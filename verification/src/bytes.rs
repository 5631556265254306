//! Whole numbers out of bytes.

use vstd::prelude::*;

verus! {

/// A 16-bit number read in two's complement.
pub open spec fn signed16(n: int) -> int {
    if n < 0x8000 {
        n
    } else {
        n - 0x1_0000
    }
}

/// A 32-bit number read in two's complement.
pub open spec fn signed32(n: int) -> int {
    if n < 0x8000_0000 {
        n
    } else {
        n - 0x1_0000_0000
    }
}

/// The big-endian 16-bit number at `at`.
pub open spec fn be16(data: Seq<u8>, at: int) -> int {
    0x100 * data[at] + data[at + 1]
}

/// The big-endian 32-bit number at `at`.
pub open spec fn be32(data: Seq<u8>, at: int) -> int {
    0x1_0000 * be16(data, at) + be16(data, at + 2)
}

/// The little-endian 16-bit number at `at`.
pub open spec fn le16(data: Seq<u8>, at: int) -> int {
    data[at] + 0x100 * data[at + 1]
}

/// The little-endian 32-bit number at `at`.
pub open spec fn le32(data: Seq<u8>, at: int) -> int {
    le16(data, at) + 0x1_0000 * le16(data, at + 2)
}

/// The 16-bit number at `at` in either order.
pub open spec fn word16(data: Seq<u8>, at: int, little: bool) -> int {
    if little {
        le16(data, at)
    } else {
        be16(data, at)
    }
}

/// The 32-bit number at `at` in either order.
pub open spec fn word32(data: Seq<u8>, at: int, little: bool) -> int {
    if little {
        le32(data, at)
    } else {
        be32(data, at)
    }
}

/// Whether `n` bytes lie at `at`.
pub open spec fn holds(data: Seq<u8>, at: int, n: int) -> bool {
    0 <= at && at + n <= data.len()
}

/// Reads the big-endian 16-bit number at `at`.
pub fn read_be16(data: &[u8], at: usize) -> (value: u16)
    requires
        at + 2 <= data@.len(),
    ensures
        value == be16(data@, at as int),
{
    0x100 * (data[at] as u16) + data[at + 1] as u16
}

/// Reads the big-endian 32-bit number at `at`.
pub fn read_be32(data: &[u8], at: usize) -> (value: u32)
    requires
        at + 4 <= data@.len(),
    ensures
        value == be32(data@, at as int),
{
    assert(data@.len() == data.len());
    0x1_0000 * (read_be16(data, at) as u32) + read_be16(data, at + 2) as u32
}

/// Reads the little-endian 16-bit number at `at`.
pub fn read_le16(data: &[u8], at: usize) -> (value: u16)
    requires
        at + 2 <= data@.len(),
    ensures
        value == le16(data@, at as int),
{
    data[at] as u16 + 0x100 * (data[at + 1] as u16)
}

/// Reads the little-endian 32-bit number at `at`.
pub fn read_le32(data: &[u8], at: usize) -> (value: u32)
    requires
        at + 4 <= data@.len(),
    ensures
        value == le32(data@, at as int),
{
    assert(data@.len() == data.len());
    read_le16(data, at) as u32 + 0x1_0000 * (read_le16(data, at + 2) as u32)
}

/// Whether `n` bytes lie at `at`.
pub fn fits(data: &[u8], at: usize, n: usize) -> (r: bool)
    ensures
        r == holds(data@, at as int, n as int),
{
    n <= data.len() && at <= data.len() - n
}

/// Whether the characters of `text`, one byte each, lie at `at`.
pub open spec fn tagged(data: Seq<u8>, at: int, text: Seq<char>) -> bool {
    &&& holds(data, at, text.len() as int)
    &&& forall|i: int| 0 <= i < text.len() ==> #[trigger] text[i] as u32 == data[at + i] as u32
}

/// Whether the characters of `text`, one byte each, lie at `at`.
pub fn has_tag(data: &[u8], at: usize, text: &str) -> (r: bool)
    ensures
        r == tagged(data@, at as int, text@),
{
    let n: usize = text.unicode_len();
    if !fits(data, at, n) {
        return false;
    }
    let mut i: usize = 0;
    while i < n
        invariant
            n == text@.len(),
            at + n <= data@.len(),
            i <= n,
            forall|j: int| 0 <= j < i ==> #[trigger] text@[j] as u32 == data@[at + j] as u32,
        decreases n - i,
    {
        assert(data@.len() == data.len());
        if text.get_char(i) as u32 != data[at + i] as u32 {
            return false;
        }
        i = i + 1;
    }
    true
}

/// The 16-bit number at `at`, if it is there.
pub open spec fn word16_in(data: Seq<u8>, at: int, little: bool) -> Option<int> {
    if holds(data, at, 2) {
        Some(word16(data, at, little))
    } else {
        None
    }
}

/// The 32-bit number at `at`, if it is there.
pub open spec fn word32_in(data: Seq<u8>, at: int, little: bool) -> Option<int> {
    if holds(data, at, 4) {
        Some(word32(data, at, little))
    } else {
        None
    }
}

/// Reads the 16-bit number at `at`, if it is there.
pub fn find_word16(data: &[u8], at: u64, little: bool) -> (r: Option<u16>)
    ensures
        match r {
            Some(value) => word16_in(data@, at as int, little) == Some(value as int),
            None => word16_in(data@, at as int, little) is None,
        },
{
    if data.len() >= 2 && at <= (data.len() - 2) as u64 {
        let i: usize = at as usize;
        if little {
            Some(read_le16(data, i))
        } else {
            Some(read_be16(data, i))
        }
    } else {
        None
    }
}

/// Reads the 32-bit number at `at`, if it is there.
pub fn find_word32(data: &[u8], at: u64, little: bool) -> (r: Option<u32>)
    ensures
        match r {
            Some(value) => word32_in(data@, at as int, little) == Some(value as int),
            None => word32_in(data@, at as int, little) is None,
        },
{
    if data.len() >= 4 && at <= (data.len() - 4) as u64 {
        let i: usize = at as usize;
        if little {
            Some(read_le32(data, i))
        } else {
            Some(read_be32(data, i))
        }
    } else {
        None
    }
}

/// A copy of a slice.
pub fn owned(data: &[u8]) -> (copy: Vec<u8>)
    ensures
        copy@ == data@,
{
    let mut copy: Vec<u8> = Vec::new();
    let mut i: usize = 0;
    while i < data.len()
        invariant
            i <= data@.len(),
            copy@ == data@.take(i as int),
        decreases data@.len() - i,
    {
        copy.push(data[i]);
        i = i + 1;
        assert(copy@ =~= data@.take(i as int));
    }
    assert(data@.take(i as int) =~= data@);
    copy
}

/// Where the part that begins at `at` ends: at the next NUL, or at the
/// end.
pub open spec fn part_end(bytes: Seq<u8>, at: int) -> int
    decreases bytes.len() - at,
{
    if at < 0 || at >= bytes.len() || bytes[at] == 0 {
        at
    } else {
        part_end(bytes, at + 1)
    }
}

/// Where the part that begins at `from` ends.
pub fn find_part_end(bytes: &[u8], from: usize) -> (end: usize)
    requires
        from <= bytes@.len(),
    ensures
        end == part_end(bytes@, from as int),
        from <= end <= bytes@.len(),
{
    assert(bytes@.len() == bytes.len());
    let mut at: usize = from;
    while at < bytes.len() && bytes[at] != 0
        invariant
            from <= at <= bytes@.len(),
            bytes@.len() == bytes.len(),
            part_end(bytes@, from as int) == part_end(bytes@, at as int),
        decreases bytes@.len() - at,
    {
        at = at + 1;
    }
    at
}

// ------------------------------------------------------------- writing

/// A number in `n` bytes, the least significant first or last.
pub open spec fn bytes_for(value: int, n: nat, little: bool) -> Seq<u8>
    decreases n,
{
    if n == 0 {
        Seq::empty()
    } else if little {
        seq![(value % 256) as u8] + bytes_for(value / 256, (n - 1) as nat, little)
    } else {
        bytes_for(value / 256, (n - 1) as nat, little).push((value % 256) as u8)
    }
}

/// Whether a number in `n` bytes lies at `at`.
pub open spec fn holds_number(data: Seq<u8>, at: int, value: int, n: nat, little: bool) -> bool {
    holds(data, at, n as int) && data.subrange(at, at + n) == bytes_for(value, n, little)
}

/// A number is read back from its bytes, in either order.
pub proof fn law_numbers_are_read_from_their_bytes(
    data: Seq<u8>,
    at: int,
    value: int,
    little: bool,
)
    ensures
        0 <= value < 0x1_0000 && holds_number(data, at, value, 2, little) ==> word16(
            data,
            at,
            little,
        ) == value,
        0 <= value < 0x1_0000_0000 && holds_number(data, at, value, 4, little) ==> word32(
            data,
            at,
            little,
        ) == value,
        holds_number(data, at, value, 2, true) ==> le16(data, at) == value % 0x1_0000,
        holds_number(data, at, value, 2, false) ==> be16(data, at) == value % 0x1_0000,
{
    lemma_two_bytes_for(value, little);
    lemma_four_bytes_for(value, little);
    lemma_two_bytes_for(value, true);
    lemma_two_bytes_for(value, false);
    if holds(data, at, 2) {
        let two = data.subrange(at, at + 2);
        assert(two[0] == data[at] && two[1] == data[at + 1]);
    }
    if holds(data, at, 4) {
        let four = data.subrange(at, at + 4);
        assert(four[0] == data[at] && four[1] == data[at + 1] && four[2] == data[at + 2] && four[3]
            == data[at + 3]);
    }
}

proof fn lemma_two_bytes_for(value: int, little: bool)
    ensures
        bytes_for(value, 2, little) == if little {
            seq![(value % 256) as u8, (value / 256 % 256) as u8]
        } else {
            seq![(value / 256 % 256) as u8, (value % 256) as u8]
        },
{
    let upper = bytes_for(value / 256, 1, little);
    assert(bytes_for(value / 256 / 256, 0, little) =~= Seq::empty());
    assert(upper =~= seq![(value / 256 % 256) as u8]);
    assert(bytes_for(value, 2, little) =~= if little {
        seq![(value % 256) as u8] + upper
    } else {
        upper.push((value % 256) as u8)
    });
}

proof fn lemma_four_bytes_for(value: int, little: bool)
    ensures
        bytes_for(value, 4, little) == if little {
            seq![
                (value % 256) as u8,
                (value / 256 % 256) as u8,
                (value / 256 / 256 % 256) as u8,
                (value / 256 / 256 / 256 % 256) as u8,
            ]
        } else {
            seq![
                (value / 256 / 256 / 256 % 256) as u8,
                (value / 256 / 256 % 256) as u8,
                (value / 256 % 256) as u8,
                (value % 256) as u8,
            ]
        },
{
    lemma_two_bytes_for(value / 256 / 256, little);
    let two = bytes_for(value / 256 / 256, 2, little);
    let three = bytes_for(value / 256, 3, little);
    assert(three == if little {
        seq![(value / 256 % 256) as u8] + two
    } else {
        two.push((value / 256 % 256) as u8)
    });
    assert(bytes_for(value, 4, little) =~= if little {
        seq![(value % 256) as u8] + three
    } else {
        three.push((value % 256) as u8)
    });
}

/// A number below zero is written as its distance from the next power of
/// two, and read back from it.
pub proof fn law_signed_numbers_are_read_back(value: int)
    ensures
        -0x8000 <= value < 0x8000 ==> signed16(value % 0x1_0000) == value,
        -0x8000_0000 <= value < 0x8000_0000 ==> signed32(value % 0x1_0000_0000) == value,
{
}

/// A part ends at the first NUL from its start on, or with the bytes.
pub proof fn law_parts_end_at_their_nul(bytes: Seq<u8>, at: int)
    requires
        0 <= at <= bytes.len(),
    ensures
        at <= part_end(bytes, at) <= bytes.len(),
        forall|i: int| at <= i < part_end(bytes, at) ==> #[trigger] bytes[i] != 0,
        part_end(bytes, at) < bytes.len() ==> bytes[part_end(bytes, at)] == 0,
    decreases bytes.len() - at,
{
    if at < bytes.len() && bytes[at] != 0 {
        law_parts_end_at_their_nul(bytes, at + 1);
    }
}

} // verus!
