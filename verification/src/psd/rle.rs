//! PackBits, the run-length code of channel data.
//!
//! Per channel there is first a table of the rows' compressed byte counts
//! (two bytes each in PSD, four in PSB), then the compressed rows back to
//! back. A packet's header byte is a signed number: 0 to 127 says how many
//! bytes follow less one, -127 to -1 repeats the next byte, -128 is
//! filler.

use crate::psd::cursor::{Cursor, Reader};
use crate::psd::{corrupt, deep_psd_outcome, PsdFault, PsdOutcome, PsdResult};
use vstd::prelude::*;

verus! {

/// What decoding a row came to: the error if there was one, the bytes
/// decoded so far, and where the cursor is.
pub struct RowRun {
    pub fault: Option<PsdFault>,
    pub filled: Seq<u8>,
    pub at: Reader,
}

/// A byte over and over.
pub open spec fn repeated(value: u8, count: int) -> Seq<u8> {
    Seq::new(count as nat, |i: int| value)
}

/// A row of `len` bytes, decoded from a cursor after the bytes that are
/// already filled.
pub open spec fn unpacked(r: Reader, filled: Seq<u8>, len: int) -> RowRun
    decreases r.left(),
{
    if filled.len() >= len {
        RowRun { fault: None, filled, at: r }
    } else if r.left() < 1 {
        RowRun { fault: Some(r.short(1)), filled, at: r }
    } else {
        let n = r.data[r.pos] as int;
        let a = r.past(1);
        if n == 128 {
            unpacked(a, filled, len)
        } else if n < 128 {
            let count = n + 1;
            if filled.len() + count > len {
                RowRun {
                    fault: Some(PsdFault::Corrupt("RLE literal packet overruns row"@)),
                    filled,
                    at: a,
                }
            } else if a.left() < count {
                RowRun { fault: Some(a.short(count)), filled, at: a }
            } else {
                unpacked(a.past(count), filled + a.data.subrange(a.pos, a.pos + count), len)
            }
        } else {
            let count = 257 - n;
            if filled.len() + count > len {
                RowRun {
                    fault: Some(PsdFault::Corrupt("RLE repeat packet overruns row"@)),
                    filled,
                    at: a,
                }
            } else if a.left() < 1 {
                RowRun { fault: Some(a.short(1)), filled, at: a }
            } else {
                unpacked(a.past(1), filled + repeated(a.data[a.pos], count), len)
            }
        }
    }
}

/// The run of a whole row.
pub open spec fn row_run(r: Reader, len: int) -> RowRun {
    unpacked(r, Seq::empty(), len)
}

/// Decodes one row into exactly `out.len()` bytes.
///
/// Errors if the packets overrun the expected row length or the source
/// runs dry before the row is complete; what was decoded by then stays in
/// `out`.
pub fn unpack_row(src: &mut Cursor, out: &mut [u8]) -> (r: PsdResult<()>)
    ensures
        ({
            let run = row_run(old(src)@, old(out)@.len() as int);
            &&& final(src)@ == run.at
            &&& run.filled.len() <= old(out)@.len()
            &&& final(out)@ == run.filled + old(out)@.skip(run.filled.len() as int)
            &&& match r {
                Ok(_) => run.fault is None && run.filled.len() == old(out)@.len(),
                Err(e) => run.fault == Some(e@),
            }
        }),
{
    let ghost before = out@;
    let ghost goal = row_run(src@, before.len() as int);
    assert(out@.len() == out.len());
    let mut filled: usize = 0;
    assert(before.take(0) =~= Seq::<u8>::empty());
    assert(out@ =~= Seq::<u8>::empty() + before.skip(0));
    while filled < out.len()
        invariant
            out@.len() == out.len(),
            out@.len() == before.len(),
            filled <= out@.len(),
            before == old(out)@,
            goal == row_run(old(src)@, before.len() as int),
            out@.skip(filled as int) == before.skip(filled as int),
            unpacked(src@, out@.take(filled as int), before.len() as int) == goal,
        decreases out@.len() - filled, src@.left(),
    {
        let ghost done = out@.take(filled as int);
        let ghost at = src@;
        assert(out@ =~= done + before.skip(filled as int));
        let n: u8 = match src.u8() {
            Ok(n) => n,
            Err(e) => {
                return Err(e);
            },
        };
        let ghost a = src@;
        if n == 128 {
            continue ;
        }
        if n < 128 {
            let count: usize = n as usize + 1;
            if count > out.len() - filled {
                return Err(corrupt("RLE literal packet overruns row"));
            }
            let bytes = match src.take(count) {
                Ok(bytes) => bytes,
                Err(e) => {
                    return Err(e);
                },
            };
            let mut k: usize = 0;
            while k < count
                invariant
                    out@.len() == out.len(),
                    out@.len() == before.len(),
                    filled + count <= out@.len(),
                    bytes@.len() == count,
                    k <= count,
                    out@ == done + bytes@.take(k as int) + before.skip(filled + k),
                    done.len() == filled,
                decreases count - k,
            {
                out[filled + k] = bytes[k];
                k = k + 1;
                assert(out@ =~= done + bytes@.take(k as int) + before.skip(filled + k));
            }
            filled = filled + count;
            assert(bytes@.take(k as int) =~= a.data.subrange(a.pos, a.pos + count));
            assert(out@.take(filled as int) =~= done + a.data.subrange(a.pos, a.pos + count));
            assert(out@.skip(filled as int) =~= before.skip(filled as int));
        } else {
            let count: usize = 257 - n as usize;
            if count > out.len() - filled {
                return Err(corrupt("RLE repeat packet overruns row"));
            }
            let value: u8 = match src.u8() {
                Ok(value) => value,
                Err(e) => {
                    return Err(e);
                },
            };
            let mut k: usize = 0;
            while k < count
                invariant
                    out@.len() == out.len(),
                    out@.len() == before.len(),
                    filled + count <= out@.len(),
                    k <= count,
                    out@ == done + repeated(value, k as int) + before.skip(filled + k),
                    done.len() == filled,
                decreases count - k,
            {
                out[filled + k] = value;
                k = k + 1;
                assert(out@ =~= done + repeated(value, k as int) + before.skip(filled + k));
            }
            filled = filled + count;
            assert(out@.take(filled as int) =~= done + repeated(value, count as int));
            assert(out@.skip(filled as int) =~= before.skip(filled as int));
        }
    }
    assert(out@.take(filled as int) =~= out@);
    assert(out@ =~= goal.filled + before.skip(goal.filled.len() as int));
    Ok(())
}

/// How many bytes of a table a byte count takes.
pub open spec fn count_size(psb: bool) -> int {
    if psb {
        4
    } else {
        2
    }
}

/// The first `rows` entries of a table of byte counts, and where reading
/// them leaves the cursor.
pub open spec fn counts_at(r: Reader, rows: int, psb: bool) -> (PsdOutcome<Seq<int>>, Reader)
    decreases rows,
{
    if rows <= 0 {
        (Ok(Seq::empty()), r)
    } else {
        let size = count_size(psb);
        let (before, at) = counts_at(r, rows - 1, psb);
        match before {
            Err(fault) => (Err(fault), at),
            Ok(counts) => match at.number(size) {
                Err(fault) => (Err(fault), at),
                Ok(count) => (Ok(counts.push(count)), at.past(size)),
            },
        }
    }
}

/// The first `rows` rows of a channel, each in as many bytes as the table
/// says, and where decoding them leaves the cursor.
pub open spec fn rows_at(r: Reader, counts: Seq<int>, from: int, rows: int, row_bytes: int) -> (
    PsdOutcome<Seq<u8>>,
    Reader,
)
    decreases rows,
{
    if rows <= 0 {
        (Ok(Seq::empty()), r)
    } else {
        let (before, at) = rows_at(r, counts, from, rows - 1, row_bytes);
        match before {
            Err(fault) => (Err(fault), at),
            Ok(done) => match at.next(counts[from + rows - 1]) {
                Err(fault) => (Err(fault), at),
                Ok(source) => {
                    let run = row_run(Reader::start(source), row_bytes);
                    (
                        match run.fault {
                            Some(fault) => Err(fault),
                            None => Ok(done + run.filled),
                        },
                        at.past(counts[from + rows - 1]),
                    )
                },
            },
        }
    }
}

proof fn lemma_counts_fault(r: Reader, some: int, rows: int, psb: bool)
    requires
        some <= rows,
        counts_at(r, some, psb).0 is Err,
    ensures
        counts_at(r, rows, psb) == counts_at(r, some, psb),
    decreases rows - some,
{
    if some < rows {
        lemma_counts_fault(r, some, rows - 1, psb);
    }
}

proof fn lemma_rows_fault(
    r: Reader,
    counts: Seq<int>,
    from: int,
    some: int,
    rows: int,
    row_bytes: int,
)
    requires
        some <= rows,
        rows_at(r, counts, from, some, row_bytes).0 is Err,
    ensures
        rows_at(r, counts, from, rows, row_bytes) == rows_at(r, counts, from, some, row_bytes),
    decreases rows - some,
{
    if some < rows {
        lemma_rows_fault(r, counts, from, some, rows - 1, row_bytes);
    }
}

/// Reads a table of byte counts.
pub fn read_counts(cur: &mut Cursor, rows: usize, psb: bool) -> (r: PsdResult<Vec<u32>>)
    ensures
        final(cur)@ == counts_at(old(cur)@, rows as int, psb).1,
        match r {
            Ok(counts) => counts_at(old(cur)@, rows as int, psb).0 == PsdOutcome::<Seq<int>>::Ok(
                numbers(counts@),
            ) && counts@.len() == rows,
            Err(e) => counts_at(old(cur)@, rows as int, psb).0 == PsdOutcome::<Seq<int>>::Err(e@),
        },
{
    let ghost start = cur@;
    let mut counts: Vec<u32> = Vec::new();
    let mut k: usize = 0;
    assert(numbers(counts@) =~= Seq::<int>::empty());
    while k < rows
        invariant
            start == old(cur)@,
            k <= rows,
            counts@.len() == k,
            counts_at(start, k as int, psb) == (
                PsdOutcome::<Seq<int>>::Ok(numbers(counts@)),
                cur@,
            ),
        decreases rows - k,
    {
        let ghost at = cur@;
        match cur.len_rle_row(psb) {
            Ok(count) => {
                let ghost before = numbers(counts@);
                counts.push(count);
                assert(numbers(counts@) =~= before.push(count as int));
            },
            Err(e) => {
                proof {
                    lemma_counts_fault(start, k + 1, rows as int, psb);
                }
                return Err(e);
            },
        }
        k = k + 1;
    }
    Ok(counts)
}

/// Numbers without their machine type.
pub open spec fn numbers(counts: Seq<u32>) -> Seq<int> {
    Seq::new(counts.len(), |i: int| counts[i] as int)
}

/// Decodes rows that lie back to back, `counts[from..]` bytes each.
pub fn unpack_rows(cur: &mut Cursor, counts: &[u32], from: usize, rows: usize, row_bytes: usize) -> (r:
    PsdResult<Vec<u8>>)
    requires
        from + rows <= counts@.len(),
        rows * row_bytes <= usize::MAX,
    ensures
        final(cur)@ == rows_at(
            old(cur)@,
            numbers(counts@),
            from as int,
            rows as int,
            row_bytes as int,
        ).1,
        match r {
            Ok(out) => rows_at(
                old(cur)@,
                numbers(counts@),
                from as int,
                rows as int,
                row_bytes as int,
            ).0 == PsdOutcome::<Seq<u8>>::Ok(out@) && out@.len() == rows * row_bytes,
            Err(e) => rows_at(
                old(cur)@,
                numbers(counts@),
                from as int,
                rows as int,
                row_bytes as int,
            ).0 == PsdOutcome::<Seq<u8>>::Err(e@),
        },
{
    assert(counts@.len() == counts.len());
    let ghost start = cur@;
    let ghost table = numbers(counts@);
    let mut out: Vec<u8> = Vec::new();
    let mut k: usize = 0;
    while k < rows
        invariant
            start == old(cur)@,
            counts@.len() == counts.len(),
            from + rows <= counts@.len(),
            k <= rows,
            table == numbers(counts@),
            out@.len() == k * row_bytes,
            rows_at(start, table, from as int, k as int, row_bytes as int) == (
                PsdOutcome::<Seq<u8>>::Ok(out@),
                cur@,
            ),
        decreases rows - k,
    {
        let ghost at = cur@;
        let count: u32 = counts[from + k];
        assert(table[from + k] == count);
        // A count that no word of the machine holds is more than is left.
        let n: usize = match cur.checked_len(count as u64) {
            Ok(n) => n,
            Err(e) => {
                proof {
                    lemma_short_count(at, count);
                    lemma_rows_fault(start, table, from as int, k + 1, rows as int, row_bytes as int);
                }
                return Err(e);
            },
        };
        let mut source = match cur.sub(n) {
            Ok(source) => source,
            Err(e) => {
                proof {
                    lemma_rows_fault(start, table, from as int, k + 1, rows as int, row_bytes as int);
                }
                return Err(e);
            },
        };
        let mut row: Vec<u8> = vec![0u8; row_bytes];
        match unpack_row(&mut source, row.as_mut_slice()) {
            Ok(_) => {},
            Err(e) => {
                proof {
                    lemma_rows_fault(start, table, from as int, k + 1, rows as int, row_bytes as int);
                }
                return Err(e);
            },
        }
        let ghost filled = row_run(Reader::start(at.next(count as int)->Ok_0), row_bytes as int).filled;
        assert(row@ =~= filled);
        let ghost done = out@;
        out.append(&mut row);
        assert(out@ =~= done + filled);
        proof {
            assert((k + 1) * row_bytes == k * row_bytes + row_bytes) by (nonlinear_arith);
        }
        k = k + 1;
    }
    Ok(out)
}

proof fn lemma_short_count(r: Reader, count: u32)
    requires
        0 <= r.pos <= r.data.len() <= usize::MAX,
        count > r.left(),
    ensures
        (count - r.left()) % (usize::MAX + 1) == count - r.left(),
{
    vstd::arithmetic::div_mod::lemma_small_mod(
        (count - r.left()) as nat,
        (usize::MAX + 1) as nat,
    );
}

/// A whole compressed channel, and where decoding it leaves the cursor.
pub open spec fn channel_at(r: Reader, rows: int, row_bytes: int, psb: bool) -> (
    PsdOutcome<Seq<u8>>,
    Reader,
) {
    if rows * row_bytes > usize::MAX {
        (Err(PsdFault::Corrupt("RLE channel size overflows"@)), r)
    } else {
        let (counts, at) = counts_at(r, rows, psb);
        match counts {
            Err(fault) => (Err(fault), at),
            Ok(counts) => rows_at(at, counts, 0, rows, row_bytes),
        }
    }
}

/// Decodes a whole compressed channel: `rows` rows of `row_bytes` each,
/// from a cursor at the table of byte counts. A corrupt row cannot consume
/// its neighbours.
pub fn unpack_channel(cur: &mut Cursor, rows: usize, row_bytes: usize, psb: bool) -> (r: PsdResult<
    Vec<u8>,
>)
    ensures
        deep_psd_outcome(r) == channel_at(old(cur)@, rows as int, row_bytes as int, psb).0,
        final(cur)@ == channel_at(old(cur)@, rows as int, row_bytes as int, psb).1,
        r is Ok ==> r->Ok_0@.len() == rows * row_bytes,
{
    if rows.checked_mul(row_bytes).is_none() {
        return Err(corrupt("RLE channel size overflows"));
    }
    let counts = match read_counts(cur, rows, psb) {
        Ok(counts) => counts,
        Err(e) => return Err(e),
    };
    unpack_rows(cur, counts.as_slice(), 0, rows, row_bytes)
}

// ------------------------------------------------------------ encoding

/// How long the run of equal bytes at `i` is, given that the first `k` are
/// equal: at most 128.
pub open spec fn run_from(s: Seq<u8>, i: int, k: int) -> int
    decreases 128 - k,
{
    if k < 128 && 0 <= i + k < s.len() && s[i + k] == s[i] {
        run_from(s, i, k + 1)
    } else {
        k
    }
}

/// Whether three equal bytes begin at `i`.
pub open spec fn triple(s: Seq<u8>, i: int) -> bool {
    i + 2 < s.len() && s[i] == s[i + 1] && s[i] == s[i + 2]
}

/// How many bytes from `i` on are written out as they are, given that the
/// first `k` are: up to where three equal bytes begin, at most 128.
pub open spec fn literal_from(s: Seq<u8>, i: int, k: int) -> int
    decreases 128 - k,
{
    if k < 128 && i + k < s.len() && !triple(s, i + k) {
        literal_from(s, i, k + 1)
    } else {
        k
    }
}

/// A row from byte `i` on, encoded: runs of three or more as a count and
/// the byte, everything else as a count and the bytes.
pub open spec fn packed_from(s: Seq<u8>, i: int) -> Seq<u8>
    decreases s.len() - i,
{
    if i < 0 || i >= s.len() {
        Seq::empty()
    } else {
        proof {
            lemma_run(s, i, 1);
            lemma_literal(s, i, 0);
        }
        let run = run_from(s, i, 1);
        if run >= 3 {
            seq![(257 - run) as u8, s[i]] + packed_from(s, i + run)
        } else {
            let literal = literal_from(s, i, 0);
            if literal <= 0 {
                Seq::empty()
            } else {
                seq![(literal - 1) as u8] + s.subrange(i, i + literal) + packed_from(
                    s,
                    i + literal,
                )
            }
        }
    }
}

/// A run stays inside the row and is what it says.
pub proof fn lemma_run(s: Seq<u8>, i: int, k: int)
    requires
        0 <= i < s.len(),
        1 <= k <= 128,
        i + k <= s.len(),
        forall|j: int| i <= j < i + k ==> #[trigger] s[j] == s[i],
    ensures
        k <= run_from(s, i, k) <= 128,
        i + run_from(s, i, k) <= s.len(),
        forall|j: int| i <= j < i + run_from(s, i, k) ==> #[trigger] s[j] == s[i],
        run_from(s, i, k) < 3 && k <= 3 ==> !triple(s, i),
    decreases 128 - k,
{
    if k < 128 && i + k < s.len() && s[i + k] == s[i] {
        lemma_run(s, i, k + 1);
    }
}

/// A literal stays inside the row and ends where a run of three begins.
pub proof fn lemma_literal(s: Seq<u8>, i: int, k: int)
    requires
        0 <= i,
        0 <= k <= 128,
        i + k <= s.len(),
    ensures
        k <= literal_from(s, i, k) <= 128,
        i + literal_from(s, i, k) <= s.len(),
        k < 128 && i + k < s.len() && !triple(s, i + k) ==> literal_from(s, i, k) > k,
        literal_from(s, i, k) < 128 && i + literal_from(s, i, k) < s.len() ==> triple(
            s,
            i + literal_from(s, i, k),
        ),
    decreases 128 - k,
{
    if k < 128 && i + k < s.len() && !triple(s, i + k) {
        lemma_literal(s, i, k + 1);
    }
}

/// A row that is encoded and then decoded is the row again, and decoding
/// stops exactly where its encoding ends, whatever follows.
pub proof fn law_unpack_undoes_pack(row: Seq<u8>, tail: Seq<u8>)
    ensures
        ({
            let run = row_run(Reader::start(packed_from(row, 0) + tail), row.len() as int);
            &&& run.fault is None
            &&& run.filled == row
            &&& run.at.pos == packed_from(row, 0).len()
        }),
{
    let data = packed_from(row, 0) + tail;
    assert(row.take(0) =~= Seq::<u8>::empty());
    assert(data.subrange(0, packed_from(row, 0).len() as int) =~= packed_from(row, 0));
    lemma_round_trip(row, 0, data, 0);
}

proof fn lemma_round_trip(row: Seq<u8>, i: int, data: Seq<u8>, pos: int)
    requires
        0 <= i <= row.len(),
        0 <= pos,
        pos + packed_from(row, i).len() <= data.len(),
        data.subrange(pos, pos + packed_from(row, i).len()) == packed_from(row, i),
    ensures
        ({
            let run = unpacked(Reader { data, pos }, row.take(i), row.len() as int);
            &&& run.fault is None
            &&& run.filled == row
            &&& run.at == Reader { data, pos: pos + packed_from(row, i).len() }
        }),
    decreases row.len() - i,
{
    let r = Reader { data, pos };
    if i >= row.len() {
        assert(row.take(i) =~= row);
    } else {
        let code = packed_from(row, i);
        lemma_run(row, i, 1);
        let run = run_from(row, i, 1);
        if run >= 3 {
            let rest = packed_from(row, i + run);
            assert(code == seq![(257 - run) as u8, row[i]] + rest);
            assert(data[pos] == code[0]) by {
                assert(data.subrange(pos, pos + code.len())[0] == code[0]);
            }
            assert(data[pos + 1] == code[1]) by {
                assert(data.subrange(pos, pos + code.len())[1] == code[1]);
            }
            assert(data.subrange(pos + 2, pos + 2 + rest.len()) =~= rest) by {
                assert forall|j: int| 0 <= j < rest.len() implies data[pos + 2 + j] == #[trigger] rest[j] by {
                    assert(data.subrange(pos, pos + code.len())[2 + j] == code[2 + j]);
                }
            }
            assert(row.take(i) + repeated(row[i], run) =~= row.take(i + run));
            lemma_round_trip(row, i + run, data, pos + 2);
            assert(unpacked(r, row.take(i), row.len() as int) == unpacked(
                r.past(1).past(1),
                row.take(i) + repeated(row[i], run),
                row.len() as int,
            ));
        } else {
            lemma_literal(row, i, 0);
            let n = literal_from(row, i, 0);
            let rest = packed_from(row, i + n);
            let bytes = row.subrange(i, i + n);
            assert(code == seq![(n - 1) as u8] + bytes + rest);
            assert(data[pos] == code[0]) by {
                assert(data.subrange(pos, pos + code.len())[0] == code[0]);
            }
            assert(data.subrange(pos + 1, pos + 1 + n) =~= bytes) by {
                assert forall|j: int| 0 <= j < n implies data[pos + 1 + j] == #[trigger] bytes[j] by {
                    assert(data.subrange(pos, pos + code.len())[1 + j] == code[1 + j]);
                }
            }
            assert(data.subrange(pos + 1 + n, pos + 1 + n + rest.len()) =~= rest) by {
                assert forall|j: int| 0 <= j < rest.len() implies data[pos + 1 + n + j]
                    == #[trigger] rest[j] by {
                    assert(data.subrange(pos, pos + code.len())[1 + n + j] == code[1 + n + j]);
                }
            }
            assert(row.take(i) + bytes =~= row.take(i + n));
            lemma_round_trip(row, i + n, data, pos + 1 + n);
            assert(unpacked(r, row.take(i), row.len() as int) == unpacked(
                r.past(1).past(n),
                row.take(i) + bytes,
                row.len() as int,
            ));
        }
    }
}

/// Encoding never adds more than one byte for every 128, and one.
pub proof fn law_packing_hardly_grows(row: Seq<u8>)
    ensures
        packed_from(row, 0).len() <= row.len() + row.len() as int / 128 + 1,
{
    lemma_growth(row, 0);
}

proof fn lemma_growth(s: Seq<u8>, i: int)
    requires
        0 <= i <= s.len(),
    ensures
        ({
            let m = s.len() - i;
            &&& packed_from(s, i).len() <= m + m / 128 + 1
            &&& triple(s, i) ==> packed_from(s, i).len() <= m + m / 128
        }),
    decreases s.len() - i,
{
    if i < s.len() {
        lemma_run(s, i, 1);
        let run = run_from(s, i, 1);
        if run >= 3 {
            lemma_growth(s, i + run);
        } else {
            lemma_literal(s, i, 0);
            lemma_growth(s, i + literal_from(s, i, 0));
        }
    }
}

// --------------------------------------------------- whole channels back

/// A byte count as a table has it: two bytes in PSD, four in PSB, the
/// first most significant.
pub open spec fn count_bytes(n: int, psb: bool) -> Seq<u8> {
    let low = seq![(n / 0x100 % 0x100) as u8, (n % 0x100) as u8];
    if psb {
        seq![(n / 0x100_0000 % 0x100) as u8, (n / 0x1_0000 % 0x100) as u8] + low
    } else {
        low
    }
}

/// Whether a table has room for a byte count.
pub open spec fn countable(n: int, psb: bool) -> bool {
    if psb {
        0 <= n <= 0xffff_ffff
    } else {
        0 <= n <= 0xffff
    }
}

/// A table of byte counts.
pub open spec fn count_table(counts: Seq<int>, psb: bool) -> Seq<u8>
    decreases counts.len(),
{
    if counts.len() == 0 {
        Seq::empty()
    } else {
        count_table(counts.drop_last(), psb) + count_bytes(counts.last(), psb)
    }
}

/// Byte strings one behind the other.
pub open spec fn back_to_back(parts: Seq<Seq<u8>>) -> Seq<u8>
    decreases parts.len(),
{
    if parts.len() == 0 {
        Seq::empty()
    } else {
        back_to_back(parts.drop_last()) + parts.last()
    }
}

/// How long each of some byte strings is.
pub open spec fn lengths(parts: Seq<Seq<u8>>) -> Seq<int> {
    Seq::new(parts.len(), |i: int| parts[i].len() as int)
}

/// Rows encoded, each with some bytes behind its encoding.
pub open spec fn padded_rows(rows: Seq<Seq<u8>>, pads: Seq<Seq<u8>>) -> Seq<Seq<u8>> {
    Seq::new(rows.len(), |i: int| packed_from(rows[i], 0) + pads[i])
}

/// Whether some bytes have others at `pos`.
pub open spec fn held(data: Seq<u8>, pos: int, part: Seq<u8>) -> bool {
    &&& 0 <= pos
    &&& pos + part.len() <= data.len()
    &&& forall|i: int| #![trigger part[i]] 0 <= i < part.len() ==> data[pos + i] == part[i]
}

/// What holds two byte strings in a row holds both.
pub proof fn lemma_held_parts(data: Seq<u8>, pos: int, a: Seq<u8>, b: Seq<u8>)
    requires
        held(data, pos, a + b),
    ensures
        held(data, pos, a),
        held(data, pos + a.len(), b),
{
    let whole = a + b;
    assert forall|i: int| #![trigger a[i]] 0 <= i < a.len() implies data[pos + i] == a[i] by {
        assert(whole[i] == a[i]);
    }
    assert forall|i: int| #![trigger b[i]] 0 <= i < b.len() implies data[pos + a.len() + i]
        == b[i] by {
        assert(whole[a.len() + i] == b[i]);
    }
}

proof fn lemma_count_read(data: Seq<u8>, pos: int, n: int, psb: bool)
    requires
        countable(n, psb),
        held(data, pos, count_bytes(n, psb)),
    ensures
        Reader::at(data, pos).number(count_size(psb)) == PsdOutcome::<int>::Ok(n),
        count_bytes(n, psb).len() == count_size(psb),
{
    let code = count_bytes(n, psb);
    assert(data[pos] == code[0] && data[pos + 1] == code[1]);
    if psb {
        assert(data[pos + 2] == code[2] && data[pos + 3] == code[3]);
    }
}

/// A table of byte counts is read back as the counts.
pub proof fn lemma_table_read(data: Seq<u8>, pos: int, counts: Seq<int>, psb: bool)
    requires
        forall|i: int| 0 <= i < counts.len() ==> countable(#[trigger] counts[i], psb),
        held(data, pos, count_table(counts, psb)),
    ensures
        counts_at(Reader::at(data, pos), counts.len() as int, psb) == (
            PsdOutcome::<Seq<int>>::Ok(counts),
            Reader::at(data, pos + count_table(counts, psb).len()),
        ),
    decreases counts.len(),
{
    if counts.len() == 0 {
        assert(counts =~= Seq::empty());
    } else {
        let (most, last) = (counts.drop_last(), counts.last());
        let table = count_table(most, psb);
        lemma_held_parts(data, pos, table, count_bytes(last, psb));
        lemma_table_read(data, pos, most, psb);
        lemma_count_read(data, pos + table.len(), last, psb);
        assert(most.push(last) =~= counts);
    }
}

/// Encoded rows are read back as the rows, by a table of byte counts that
/// has theirs from `from` on.
pub proof fn lemma_rows_read(
    data: Seq<u8>,
    pos: int,
    counts: Seq<int>,
    from: int,
    rows: Seq<Seq<u8>>,
    pads: Seq<Seq<u8>>,
    row_bytes: int,
)
    requires
        forall|i: int| 0 <= i < rows.len() ==> (#[trigger] rows[i]).len() == row_bytes,
        forall|i: int|
            0 <= i < rows.len() ==> counts[from + i] == (#[trigger] padded_rows(
                rows,
                pads,
            )[i]).len(),
        held(data, pos, back_to_back(padded_rows(rows, pads))),
    ensures
        rows_at(Reader::at(data, pos), counts, from, rows.len() as int, row_bytes) == (
            PsdOutcome::<Seq<u8>>::Ok(back_to_back(rows)),
            Reader::at(data, pos + back_to_back(padded_rows(rows, pads)).len()),
        ),
    decreases rows.len(),
{
    if rows.len() > 0 {
        let bodies = padded_rows(rows, pads);
        let (most, last) = (rows.drop_last(), rows.last());
        let fewer = padded_rows(most, pads);
        assert(fewer =~= bodies.drop_last());
        assert forall|i: int| 0 <= i < most.len() implies counts[from + i] == (
        #[trigger] fewer[i]).len() by {
            assert(fewer[i] == bodies[i]);
        }
        let front = back_to_back(fewer);
        let body = bodies.last();
        lemma_held_parts(data, pos, front, body);
        lemma_rows_read(data, pos, counts, from, most, pads, row_bytes);
        let k = rows.len() - 1;
        assert(counts[from + k] == bodies[k].len());
        let at = pos + front.len();
        assert(data.subrange(at, at + body.len()) =~= packed_from(last, 0) + pads[k]);
        law_unpack_undoes_pack(last, pads[k]);
    }
}

/// Rows of one length together are that long times their number.
pub proof fn lemma_rows_length(rows: Seq<Seq<u8>>, row_bytes: int)
    requires
        forall|i: int| 0 <= i < rows.len() ==> (#[trigger] rows[i]).len() == row_bytes,
    ensures
        back_to_back(rows).len() == rows.len() * row_bytes,
    decreases rows.len(),
{
    if rows.len() > 0 {
        lemma_rows_length(rows.drop_last(), row_bytes);
        assert((rows.len() - 1) * row_bytes + row_bytes == rows.len() * row_bytes)
            by (nonlinear_arith);
    } else {
        assert(rows.len() * row_bytes == 0) by (nonlinear_arith)
            requires
                rows.len() == 0,
        ;
    }
}

/// A channel of encoded rows decodes to the rows, one behind the other:
/// whatever is in front of its table of byte counts, behind its last row,
/// or behind the encoding inside a row's own bytes, which the table counts
/// in. The cursor is then past the last row.
pub proof fn law_a_packed_channel_unpacks(
    front: Seq<u8>,
    rows: Seq<Seq<u8>>,
    pads: Seq<Seq<u8>>,
    tail: Seq<u8>,
    row_bytes: int,
    psb: bool,
)
    requires
        rows.len() * row_bytes <= usize::MAX,
        pads.len() == rows.len(),
        forall|i: int| 0 <= i < rows.len() ==> (#[trigger] rows[i]).len() == row_bytes,
        forall|i: int|
            0 <= i < rows.len() ==> countable(
                (#[trigger] padded_rows(rows, pads)[i]).len() as int,
                psb,
            ),
    ensures
        ({
            let bodies = padded_rows(rows, pads);
            let channel = count_table(lengths(bodies), psb) + back_to_back(bodies);
            let data = front + channel + tail;
            &&& channel_at(
                Reader::at(data, front.len() as int),
                rows.len() as int,
                row_bytes,
                psb,
            ) == (
                PsdOutcome::<Seq<u8>>::Ok(back_to_back(rows)),
                Reader::at(data, (front.len() + channel.len()) as int),
            )
            &&& back_to_back(rows).len() == rows.len() * row_bytes
        }),
{
    let bodies = padded_rows(rows, pads);
    let counts = lengths(bodies);
    let table = count_table(counts, psb);
    let channel = table + back_to_back(bodies);
    let data = front + channel + tail;
    let pos = front.len() as int;
    assert(held(data, pos, channel));
    lemma_held_parts(data, pos, table, back_to_back(bodies));
    assert forall|i: int| 0 <= i < counts.len() implies countable(#[trigger] counts[i], psb) by {
        assert(counts[i] == bodies[i].len());
    }
    lemma_table_read(data, pos, counts, psb);
    lemma_rows_read(data, pos + table.len(), counts, 0, rows, pads, row_bytes);
    lemma_rows_length(rows, row_bytes);
}

/// Encoding shrinks a row to a sixty-fourth at most.
pub proof fn law_packing_shrinks_no_further(row: Seq<u8>)
    ensures
        row.len() <= 64 * packed_from(row, 0).len(),
{
    lemma_shrinks(row, 0);
}

proof fn lemma_shrinks(s: Seq<u8>, i: int)
    requires
        0 <= i <= s.len(),
    ensures
        s.len() - i <= 64 * packed_from(s, i).len(),
    decreases s.len() - i,
{
    if i < s.len() {
        lemma_run(s, i, 1);
        let run = run_from(s, i, 1);
        if run >= 3 {
            lemma_shrinks(s, i + run);
        } else {
            lemma_literal(s, i, 0);
            lemma_shrinks(s, i + literal_from(s, i, 0));
        }
    }
}

/// What is behind one another can be put together in two steps.
pub proof fn lemma_back_to_back_splits(a: Seq<Seq<u8>>, b: Seq<Seq<u8>>)
    ensures
        back_to_back(a + b) == back_to_back(a) + back_to_back(b),
    decreases b.len(),
{
    if b.len() == 0 {
        assert(a + b =~= a);
    } else {
        lemma_back_to_back_splits(a, b.drop_last());
        assert((a + b).drop_last() =~= a + b.drop_last());
        assert((a + b).last() == b.last());
        assert(back_to_back(a) + back_to_back(b.drop_last()) + b.last() =~= back_to_back(a) + (
        back_to_back(b.drop_last()) + b.last()));
    }
}

/// Rows encoded.
pub open spec fn packed_rows(rows: Seq<Seq<u8>>) -> Seq<Seq<u8>> {
    Seq::new(rows.len(), |i: int| packed_from(rows[i], 0))
}

/// Encoding shrinks rows to a sixty-fourth at most, taken together too.
pub proof fn lemma_rows_shrink(rows: Seq<Seq<u8>>)
    ensures
        back_to_back(rows).len() <= 64 * back_to_back(packed_rows(rows)).len(),
    decreases rows.len(),
{
    if rows.len() > 0 {
        lemma_rows_shrink(rows.drop_last());
        assert(packed_rows(rows).drop_last() =~= packed_rows(rows.drop_last()));
        law_packing_shrinks_no_further(rows.last());
    }
}

/// Encodes one row.
pub fn pack_row(src: &[u8]) -> (out: Vec<u8>)
    ensures
        out@ == packed_from(src@, 0),
{
    assert(src@.len() == src.len());
    let ghost goal = packed_from(src@, 0);
    let mut out: Vec<u8> = Vec::new();
    let mut i: usize = 0;
    assert(out@ + packed_from(src@, 0) =~= goal);
    while i < src.len()
        invariant
            src@.len() == src.len(),
            i <= src@.len(),
            out@ + packed_from(src@, i as int) == goal,
        decreases src@.len() - i,
    {
        let ghost before = out@;
        let mut run: usize = 1;
        proof {
            lemma_run(src@, i as int, 1);
        }
        while run < 128 && run < src.len() - i && src[i + run] == src[i]
            invariant
                src@.len() == src.len(),
                i < src@.len(),
                1 <= run <= 128,
                i + run <= src@.len(),
                run_from(src@, i as int, 1) == run_from(src@, i as int, run as int),
            decreases 128 - run,
        {
            run = run + 1;
        }
        assert(run == run_from(src@, i as int, 1));
        if run >= 3 {
            out.push((257 - run) as u8);
            out.push(src[i]);
            let ghost rest = packed_from(src@, i + run);
            assert(out@ + rest =~= before + (seq![(257 - run) as u8, src@[i as int]] + rest));
            i = i + run;
        } else {
            proof {
                lemma_literal(src@, i as int, 0);
            }
            let literal: usize = literal_length(src, i);
            out.push((literal - 1) as u8);
            let mut k: usize = 0;
            while k < literal
                invariant
                    src@.len() == src.len(),
                    i + literal <= src@.len(),
                    k <= literal,
                    out@ == before + seq![(literal - 1) as u8] + src@.subrange(i as int, i + k),
                decreases literal - k,
            {
                out.push(src[i + k]);
                k = k + 1;
                assert(out@ =~= before + seq![(literal - 1) as u8] + src@.subrange(
                    i as int,
                    i + k,
                ));
            }
            let ghost rest = packed_from(src@, i + literal);
            assert(out@ + rest =~= before + (seq![(literal - 1) as u8] + src@.subrange(
                i as int,
                i + literal,
            ) + rest));
            i = i + literal;
        }
    }
    assert(out@ =~= goal);
    out
}

fn literal_length(src: &[u8], i: usize) -> (n: usize)
    requires
        i < src@.len(),
    ensures
        n == literal_from(src@, i as int, 0),
{
    assert(src@.len() == src.len());
    let mut k: usize = 0;
    while k < 128 && k < src.len() - i
        invariant
            src@.len() == src.len(),
            i < src@.len(),
            k <= 128,
            i + k <= src@.len(),
            literal_from(src@, i as int, 0) == literal_from(src@, i as int, k as int),
        decreases 128 - k,
    {
        let at: usize = i + k;
        if src.len() - at > 2 && src[at] == src[at + 1] && src[at] == src[at + 2] {
            return k;
        }
        k = k + 1;
    }
    k
}

} // verus!
