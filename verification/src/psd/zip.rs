//! Zip-compressed channel data.
//!
//! One method is plain zlib. The other adds prediction: before
//! compressing, each row is delta-encoded so that runs of similar values
//! become runs of near-zero bytes. Bytes and 16-bit samples delta along
//! the row; 32-bit floats are first split into four planes of bytes,
//! because the exponent bytes of adjacent floats are far more alike than
//! the floats are.

use crate::bytes::{be16, owned, read_be16};
use crate::color::Depth;
use crate::psd::{corrupt, deep_psd_outcome, PsdError, PsdFault, PsdOutcome, PsdResult};
use crate::grid::{lemma_place_inverse, place};
use crate::text::{decimal, push_decimal};
use vstd::prelude::*;
use vstd::slice::slice_subrange;

verus! {

// ---------------------------------------------------------- prediction

/// The bytes of a row up to `i`, added up in a byte.
pub open spec fn sum_to(row: Seq<u8>, i: int) -> int
    decreases i,
{
    if i <= 0 {
        row[0] as int
    } else {
        (sum_to(row, i - 1) + row[i]) % 256
    }
}

/// A row of differences added up again.
pub open spec fn added_up(row: Seq<u8>) -> Seq<u8> {
    Seq::new(row.len(), |i: int| sum_to(row, i) as u8)
}

/// A row as differences, each byte less the one before it.
pub open spec fn differences(row: Seq<u8>) -> Seq<u8> {
    Seq::new(
        row.len(),
        |i: int|
            if i == 0 {
                row[0]
            } else {
                ((row[i] - row[i - 1]) % 256) as u8
            },
    )
}

/// The 16-bit samples of a row up to `i`, added up in 16 bits.
pub open spec fn wide_sum_to(row: Seq<u8>, i: int) -> int
    decreases i,
{
    if i <= 0 {
        be16(row, 0)
    } else {
        (wide_sum_to(row, i - 1) + be16(row, 2 * i)) % 0x1_0000
    }
}

/// The difference of sample `i` from the one before it, in 16 bits.
pub open spec fn wide_difference(row: Seq<u8>, i: int) -> int {
    if i == 0 {
        be16(row, 0)
    } else {
        (be16(row, 2 * i) - be16(row, 2 * i - 2)) % 0x1_0000
    }
}

/// A row of 16-bit differences added up again. A last odd byte stays.
pub open spec fn wide_added_up(row: Seq<u8>) -> Seq<u8> {
    Seq::new(
        row.len(),
        |j: int|
            if j >= row.len() as int / 2 * 2 {
                row[j]
            } else if j % 2 == 0 {
                (wide_sum_to(row, j / 2) / 256) as u8
            } else {
                (wide_sum_to(row, j / 2) % 256) as u8
            },
    )
}

/// A row of 16-bit samples as differences. A last odd byte stays.
pub open spec fn wide_differences(row: Seq<u8>) -> Seq<u8> {
    Seq::new(
        row.len(),
        |j: int|
            if j >= row.len() as int / 2 * 2 {
                row[j]
            } else if j % 2 == 0 {
                (wide_difference(row, j / 2) / 256) as u8
            } else {
                (wide_difference(row, j / 2) % 256) as u8
            },
    )
}

/// A row of four-byte samples as four planes of bytes. Bytes past the last
/// whole sample stay.
pub open spec fn split(row: Seq<u8>) -> Seq<u8> {
    let n = row.len() as int / 4;
    Seq::new(
        row.len(),
        |j: int|
            if j < 4 * n {
                row[j % n * 4 + j / n]
            } else {
                row[j]
            },
    )
}

/// Four planes of bytes as a row of four-byte samples.
pub open spec fn woven(row: Seq<u8>) -> Seq<u8> {
    let n = row.len() as int / 4;
    Seq::new(
        row.len(),
        |j: int|
            if j < 4 * n {
                row[j % 4 * n + j / 4]
            } else {
                row[j]
            },
    )
}

/// One row, predicted.
pub open spec fn predicted_row(row: Seq<u8>, depth: Depth) -> Seq<u8> {
    match depth {
        Depth::Eight => differences(row),
        Depth::Sixteen => wide_differences(row),
        Depth::ThirtyTwo => differences(split(row)),
    }
}

/// One row, with its prediction undone.
pub open spec fn unpredicted_row(row: Seq<u8>, depth: Depth) -> Seq<u8> {
    match depth {
        Depth::Eight => added_up(row),
        Depth::Sixteen => wide_added_up(row),
        Depth::ThirtyTwo => woven(added_up(row)),
    }
}

/// Row `r` of a plane.
pub open spec fn plane_row(plane: Seq<u8>, row_bytes: int, r: int) -> Seq<u8> {
    plane.subrange(r * row_bytes, r * row_bytes + row_bytes)
}

/// A plane with every row predicted.
pub open spec fn predicted_plane(plane: Seq<u8>, rows: int, row_bytes: int, depth: Depth) -> Seq<
    u8,
> {
    Seq::new(
        plane.len(),
        |i: int|
            if i < rows * row_bytes {
                predicted_row(plane_row(plane, row_bytes, i / row_bytes), depth)[i % row_bytes]
            } else {
                plane[i]
            },
    )
}

/// A plane with the prediction of every row undone.
pub open spec fn unpredicted_plane(plane: Seq<u8>, rows: int, row_bytes: int, depth: Depth) -> Seq<
    u8,
> {
    Seq::new(
        plane.len(),
        |i: int|
            if i < rows * row_bytes {
                unpredicted_row(plane_row(plane, row_bytes, i / row_bytes), depth)[i % row_bytes]
            } else {
                plane[i]
            },
    )
}

proof fn lemma_byte_wrap(a: int, b: int)
    requires
        0 <= a < 256,
        0 <= b < 256,
    ensures
        (b + (a - b) % 256) % 256 == a,
        ((b + a) % 256 - b) % 256 == a,
{
}

proof fn lemma_word_wrap(a: int, b: int)
    requires
        0 <= a < 0x1_0000,
        0 <= b < 0x1_0000,
    ensures
        (b + (a - b) % 0x1_0000) % 0x1_0000 == a,
        ((b + a) % 0x1_0000 - b) % 0x1_0000 == a,
{
}

proof fn lemma_sums_of_differences(row: Seq<u8>, i: int)
    requires
        0 <= i < row.len(),
    ensures
        sum_to(differences(row), i) == row[i],
    decreases i,
{
    if i > 0 {
        lemma_sums_of_differences(row, i - 1);
        lemma_byte_wrap(row[i] as int, row[i - 1] as int);
    }
}

proof fn lemma_sum_bound(row: Seq<u8>, i: int)
    requires
        0 <= i < row.len(),
    ensures
        0 <= sum_to(row, i) < 256,
    decreases i,
{
}

proof fn lemma_wide_sum_bound(row: Seq<u8>, i: int)
    requires
        0 <= i,
        2 * i + 1 < row.len(),
    ensures
        0 <= wide_sum_to(row, i) < 0x1_0000,
    decreases i,
{
}

proof fn lemma_wide_difference_at(row: Seq<u8>, i: int)
    requires
        0 <= i,
        2 * i + 1 < row.len(),
    ensures
        be16(wide_differences(row), 2 * i) == wide_difference(row, i),
        0 <= wide_difference(row, i) < 0x1_0000,
{
    let d = wide_differences(row);
    assert((2 * i) / 2 == i && (2 * i) % 2 == 0);
    assert((2 * i + 1) / 2 == i && (2 * i + 1) % 2 == 1);
    assert(d[2 * i] == (wide_difference(row, i) / 256) as u8);
    assert(d[2 * i + 1] == (wide_difference(row, i) % 256) as u8);
}

proof fn lemma_wide_sum_at(row: Seq<u8>, i: int)
    requires
        0 <= i,
        2 * i + 1 < row.len(),
    ensures
        be16(wide_added_up(row), 2 * i) == wide_sum_to(row, i),
{
    let d = wide_added_up(row);
    lemma_wide_sum_bound(row, i);
    assert((2 * i) / 2 == i && (2 * i) % 2 == 0);
    assert((2 * i + 1) / 2 == i && (2 * i + 1) % 2 == 1);
    assert(d[2 * i] == (wide_sum_to(row, i) / 256) as u8);
    assert(d[2 * i + 1] == (wide_sum_to(row, i) % 256) as u8);
}

proof fn lemma_wide_sums_of_differences(row: Seq<u8>, i: int)
    requires
        0 <= i,
        2 * i + 1 < row.len(),
    ensures
        wide_sum_to(wide_differences(row), i) == be16(row, 2 * i),
    decreases i,
{
    lemma_wide_difference_at(row, i);
    let d = wide_differences(row);
    if i > 0 {
        lemma_wide_sums_of_differences(row, i - 1);
        assert(2 * (i - 1) == 2 * i - 2);
        lemma_word_wrap(be16(row, 2 * i), be16(row, 2 * i - 2));
        assert(wide_sum_to(d, i) == (wide_sum_to(d, i - 1) + be16(d, 2 * i)) % 0x1_0000);
    } else {
        assert(wide_sum_to(d, 0) == be16(d, 0));
    }
}

proof fn lemma_split_index(n: int, j: int)
    requires
        n > 0,
        0 <= j < 4 * n,
    ensures
        0 <= j % 4 * n + j / 4 < 4 * n,
        (j % 4 * n + j / 4) % n == j / 4,
        (j % 4 * n + j / 4) / n == j % 4,
        0 <= j % n * 4 + j / n < 4 * n,
        (j % n * 4 + j / n) % 4 == j / n,
        (j % n * 4 + j / n) / 4 == j % n,
        j / 4 * 4 + j % 4 == j,
        j / n * n + j % n == j,
{
    assert(0 <= j / 4 < n);
    lemma_place_inverse(n, j % 4, j / 4);
    assert(place(n, j % 4, j / 4) == j % 4 * n + j / 4);
    assert(j % 4 * n + j / 4 < 4 * n) by (nonlinear_arith)
        requires
            0 <= j % 4 <= 3,
            0 <= j / 4 < n,
            n > 0,
    ;
    assert(0 <= j % 4 * n) by (nonlinear_arith)
        requires
            0 <= j % 4,
            n > 0,
    ;
    vstd::arithmetic::div_mod::lemma_fundamental_div_mod(j, n);
    vstd::arithmetic::div_mod::lemma_mod_bound(j, n);
    assert(0 <= j / n < 4) by (nonlinear_arith)
        requires
            j == n * (j / n) + j % n,
            0 <= j % n < n,
            0 <= j < 4 * n,
            n > 0,
    ;
    assert(j / n * n == n * (j / n)) by (nonlinear_arith);
}

/// Undoing the prediction of a predicted row gives the row, and predicting
/// a row whose prediction was undone gives it too.
pub proof fn law_prediction_is_reversible(row: Seq<u8>, depth: Depth)
    ensures
        unpredicted_row(predicted_row(row, depth), depth) == row,
        predicted_row(unpredicted_row(row, depth), depth) == row,
{
    match depth {
        Depth::Eight => {
            lemma_differences_invert(row);
        },
        Depth::Sixteen => {
            lemma_wide_differences_invert(row);
        },
        Depth::ThirtyTwo => {
            lemma_differences_invert(split(row));
            lemma_split_inverts(row);
            lemma_split_inverts(added_up(row));
            lemma_differences_invert(row);
        },
    }
}

proof fn lemma_split_inverts(row: Seq<u8>)
    ensures
        woven(split(row)) == row,
        split(woven(row)) == row,
{
    let n = row.len() as int / 4;
    assert forall|j: int| 0 <= j < row.len() implies #[trigger] woven(split(row))[j] == row[j] by {
        if j < 4 * n {
            lemma_split_index(n, j);
        }
    }
    assert(woven(split(row)) =~= row);
    assert forall|j: int| 0 <= j < row.len() implies #[trigger] split(woven(row))[j] == row[j] by {
        if j < 4 * n {
            lemma_split_index(n, j);
        }
    }
    assert(split(woven(row)) =~= row);
}

proof fn lemma_wide_differences_invert(row: Seq<u8>)
    ensures
        wide_added_up(wide_differences(row)) == row,
        wide_differences(wide_added_up(row)) == row,
{
    let d = wide_differences(row);
    let u = wide_added_up(row);
    assert forall|j: int| 0 <= j < row.len() implies #[trigger] wide_added_up(d)[j] == row[j] by {
        if j < row.len() as int / 2 * 2 {
            lemma_wide_sums_of_differences(row, j / 2);
            lemma_halves(row, j);
        }
    }
    assert(wide_added_up(d) =~= row);
    assert forall|j: int| 0 <= j < row.len() implies #[trigger] wide_differences(u)[j] == row[j] by {
        if j < row.len() as int / 2 * 2 {
            lemma_difference_of_sums(row, j / 2);
            lemma_halves(row, j);
        }
    }
    assert(wide_differences(u) =~= row);
}

proof fn lemma_halves(row: Seq<u8>, j: int)
    requires
        0 <= j < row.len() as int / 2 * 2,
    ensures
        row[j] == if j % 2 == 0 {
            be16(row, 2 * (j / 2)) / 256
        } else {
            be16(row, 2 * (j / 2)) % 256
        },
{
    let i = 2 * (j / 2);
    assert(be16(row, i) == row[i] * 256 + row[i + 1]);
}

proof fn lemma_difference_of_sums(row: Seq<u8>, i: int)
    requires
        0 <= i,
        2 * i + 1 < row.len(),
    ensures
        wide_difference(wide_added_up(row), i) == be16(row, 2 * i),
{
    let u = wide_added_up(row);
    lemma_wide_sum_at(row, i);
    if i > 0 {
        assert(2 * (i - 1) == 2 * i - 2);
        lemma_wide_sum_at(row, i - 1);
        lemma_wide_sum_bound(row, i - 1);
        lemma_word_wrap(be16(row, 2 * i), wide_sum_to(row, i - 1));
        assert(wide_sum_to(row, i) == (wide_sum_to(row, i - 1) + be16(row, 2 * i)) % 0x1_0000);
    } else {
        assert(wide_sum_to(row, 0) == be16(row, 0));
    }
}

proof fn lemma_differences_invert(row: Seq<u8>)
    ensures
        added_up(differences(row)) == row,
        differences(added_up(row)) == row,
{
    assert forall|i: int| 0 <= i < row.len() implies #[trigger] added_up(differences(row))[i]
        == row[i] by {
        lemma_sums_of_differences(row, i);
    }
    assert(added_up(differences(row)) =~= row);
    assert forall|i: int| 0 <= i < row.len() implies #[trigger] differences(added_up(row))[i]
        == row[i] by {
        lemma_byte_difference(row, i);
    }
    assert(differences(added_up(row)) =~= row);
}

proof fn lemma_byte_difference(row: Seq<u8>, i: int)
    requires
        0 <= i < row.len(),
    ensures
        differences(added_up(row))[i] == row[i],
{
    let u = added_up(row);
    lemma_sum_bound(row, i);
    assert(u[i] == sum_to(row, i));
    if i > 0 {
        lemma_sum_bound(row, i - 1);
        assert(u[i - 1] == sum_to(row, i - 1));
        lemma_byte_wrap(row[i] as int, sum_to(row, i - 1));
        assert(sum_to(row, i) == (sum_to(row, i - 1) + row[i]) % 256);
    } else {
        assert(sum_to(row, 0) == row[0]);
    }
}

/// Undoing the prediction of a predicted plane gives the plane.
pub proof fn law_plane_prediction_is_reversible(
    plane: Seq<u8>,
    rows: int,
    row_bytes: int,
    depth: Depth,
)
    requires
        0 <= rows,
        0 <= row_bytes,
        rows * row_bytes <= plane.len(),
    ensures
        unpredicted_plane(predicted_plane(plane, rows, row_bytes, depth), rows, row_bytes, depth)
            == plane,
{
    let p = predicted_plane(plane, rows, row_bytes, depth);
    let u = unpredicted_plane(p, rows, row_bytes, depth);
    assert forall|i: int| 0 <= i < plane.len() implies #[trigger] u[i] == plane[i] by {
        if i < rows * row_bytes {
            lemma_row_of(rows, row_bytes, i);
            let r = i / row_bytes;
            let row = plane_row(plane, row_bytes, r);
            lemma_predicted_row_at(plane, rows, row_bytes, depth, r);
            law_prediction_is_reversible(row, depth);
            assert(row[i % row_bytes] == plane[i]);
        }
    }
    assert(u =~= plane);
}

proof fn lemma_row_of(rows: int, row_bytes: int, i: int)
    requires
        0 <= rows,
        0 <= row_bytes,
        0 <= i < rows * row_bytes,
    ensures
        row_bytes > 0,
        0 <= i / row_bytes < rows,
        0 <= i % row_bytes < row_bytes,
        i == i / row_bytes * row_bytes + i % row_bytes,
        i / row_bytes * row_bytes + row_bytes <= rows * row_bytes,
{
    assert(row_bytes > 0) by (nonlinear_arith)
        requires
            0 <= row_bytes,
            0 <= rows,
            0 <= i < rows * row_bytes,
    ;
    vstd::arithmetic::div_mod::lemma_fundamental_div_mod(i, row_bytes);
    vstd::arithmetic::div_mod::lemma_mod_bound(i, row_bytes);
    vstd::arithmetic::div_mod::lemma_div_pos_is_pos(i, row_bytes);
    let r = i / row_bytes;
    assert(r * row_bytes == row_bytes * r) by (nonlinear_arith);
    assert(r < rows) by (nonlinear_arith)
        requires
            row_bytes * r <= i,
            i < rows * row_bytes,
            row_bytes > 0,
    ;
    assert(r * row_bytes + row_bytes <= rows * row_bytes) by (nonlinear_arith)
        requires
            r + 1 <= rows,
            row_bytes > 0,
    ;
}

proof fn lemma_predicted_row_at(
    plane: Seq<u8>,
    rows: int,
    row_bytes: int,
    depth: Depth,
    r: int,
)
    requires
        0 <= r < rows,
        0 < row_bytes,
        rows * row_bytes <= plane.len(),
    ensures
        0 <= r * row_bytes,
        r * row_bytes + row_bytes <= rows * row_bytes,
        plane_row(predicted_plane(plane, rows, row_bytes, depth), row_bytes, r) == predicted_row(
            plane_row(plane, row_bytes, r),
            depth,
        ),
{
    assert(0 <= r * row_bytes) by (nonlinear_arith)
        requires
            0 <= r,
            0 < row_bytes,
    ;
    assert(r * row_bytes + row_bytes <= rows * row_bytes) by (nonlinear_arith)
        requires
            r + 1 <= rows,
            row_bytes > 0,
    ;
    let p = predicted_plane(plane, rows, row_bytes, depth);
    let row = plane_row(plane, row_bytes, r);
    assert(predicted_row(row, depth).len() == row_bytes);
    assert forall|k: int| 0 <= k < row_bytes implies #[trigger] plane_row(p, row_bytes, r)[k]
        == predicted_row(row, depth)[k] by {
        lemma_place_inverse(row_bytes, r, k);
        assert(place(row_bytes, r, k) == r * row_bytes + k);
    }
    assert(plane_row(p, row_bytes, r) =~= predicted_row(row, depth));
}

fn difference_bytes(row: &[u8]) -> (out: Vec<u8>)
    ensures
        out@ == differences(row@),
{
    assert(row@.len() == row.len());
    let mut out: Vec<u8> = Vec::new();
    let mut i: usize = 0;
    while i < row.len()
        invariant
            row@.len() == row.len(),
            i <= row@.len(),
            out@ == differences(row@).take(i as int),
        decreases row@.len() - i,
    {
        if i == 0 {
            out.push(row[0]);
        } else {
            let d: u16 = (row[i] as u16 + 256 - row[i - 1] as u16) % 256;
            assert(d == (row@[i as int] - row@[i - 1]) % 256);
            out.push(d as u8);
        }
        i = i + 1;
        assert(out@ =~= differences(row@).take(i as int));
    }
    assert(out@ =~= differences(row@));
    out
}

fn add_up_bytes(row: &[u8]) -> (out: Vec<u8>)
    ensures
        out@ == added_up(row@),
{
    assert(row@.len() == row.len());
    let mut out: Vec<u8> = Vec::new();
    let mut sum: u8 = 0;
    let mut i: usize = 0;
    while i < row.len()
        invariant
            row@.len() == row.len(),
            i <= row@.len(),
            i > 0 ==> sum == sum_to(row@, i - 1),
            out@ == added_up(row@).take(i as int),
        decreases row@.len() - i,
    {
        if i == 0 {
            sum = row[0];
        } else {
            sum = ((sum as u16 + row[i] as u16) % 256) as u8;
        }
        assert(sum == sum_to(row@, i as int));
        out.push(sum);
        i = i + 1;
        assert(out@ =~= added_up(row@).take(i as int));
    }
    assert(out@ =~= added_up(row@));
    out
}

fn difference_words(row: &[u8]) -> (out: Vec<u8>)
    ensures
        out@ == wide_differences(row@),
{
    assert(row@.len() == row.len());
    let n: usize = row.len() / 2;
    let mut out: Vec<u8> = Vec::new();
    let mut i: usize = 0;
    while i < n
        invariant
            row@.len() == row.len(),
            n == row@.len() as int / 2,
            i <= n,
            out@ == wide_differences(row@).take(2 * i as int),
        decreases n - i,
    {
        let now: u16 = read_be16(row, 2 * i);
        let d: u32 = if i == 0 {
            now as u32
        } else {
            (now as u32 + 0x1_0000 - read_be16(row, 2 * i - 2) as u32) % 0x1_0000
        };
        assert(d == wide_difference(row@, i as int));
        proof {
            assert((2 * i) / 2 == i && (2 * i) % 2 == 0);
            assert((2 * i + 1) / 2 == i && (2 * i + 1) % 2 == 1);
        }
        out.push((d / 256) as u8);
        out.push((d % 256) as u8);
        i = i + 1;
        assert(out@ =~= wide_differences(row@).take(2 * i as int));
    }
    if row.len() % 2 == 1 {
        out.push(row[row.len() - 1]);
    }
    assert(out@ =~= wide_differences(row@));
    out
}

fn add_up_words(row: &[u8]) -> (out: Vec<u8>)
    ensures
        out@ == wide_added_up(row@),
{
    assert(row@.len() == row.len());
    let n: usize = row.len() / 2;
    let mut out: Vec<u8> = Vec::new();
    let mut sum: u16 = 0;
    let mut i: usize = 0;
    while i < n
        invariant
            row@.len() == row.len(),
            n == row@.len() as int / 2,
            i <= n,
            i > 0 ==> sum == wide_sum_to(row@, i - 1),
            out@ == wide_added_up(row@).take(2 * i as int),
        decreases n - i,
    {
        let now: u16 = read_be16(row, 2 * i);
        if i == 0 {
            sum = now;
        } else {
            sum = ((sum as u32 + now as u32) % 0x1_0000) as u16;
        }
        assert(sum == wide_sum_to(row@, i as int));
        proof {
            assert((2 * i) / 2 == i && (2 * i) % 2 == 0);
            assert((2 * i + 1) / 2 == i && (2 * i + 1) % 2 == 1);
        }
        out.push((sum / 256) as u8);
        out.push((sum % 256) as u8);
        i = i + 1;
        assert(out@ =~= wide_added_up(row@).take(2 * i as int));
    }
    if row.len() % 2 == 1 {
        out.push(row[row.len() - 1]);
    }
    assert(out@ =~= wide_added_up(row@));
    out
}

fn split_bytes(row: &[u8]) -> (out: Vec<u8>)
    ensures
        out@ == split(row@),
{
    assert(row@.len() == row.len());
    let n: usize = row.len() / 4;
    let mut out: Vec<u8> = Vec::new();
    let mut j: usize = 0;
    while j < row.len()
        invariant
            row@.len() == row.len(),
            n == row@.len() as int / 4,
            j <= row@.len(),
            out@ == split(row@).take(j as int),
        decreases row@.len() - j,
    {
        if j < 4 * n {
            proof {
                lemma_split_index(n as int, j as int);
            }
            let from: usize = j % n * 4 + j / n;
            out.push(row[from]);
        } else {
            out.push(row[j]);
        }
        j = j + 1;
        assert(out@ =~= split(row@).take(j as int));
    }
    assert(out@ =~= split(row@));
    out
}

fn weave_bytes(row: &[u8]) -> (out: Vec<u8>)
    ensures
        out@ == woven(row@),
{
    assert(row@.len() == row.len());
    let n: usize = row.len() / 4;
    let mut out: Vec<u8> = Vec::new();
    let mut j: usize = 0;
    while j < row.len()
        invariant
            row@.len() == row.len(),
            n == row@.len() as int / 4,
            j <= row@.len(),
            out@ == woven(row@).take(j as int),
        decreases row@.len() - j,
    {
        if j < 4 * n {
            proof {
                lemma_split_index(n as int, j as int);
                assert(0 <= j as int % 4 * n <= 4 * n) by (nonlinear_arith)
                    requires
                        0 <= j as int % 4 <= 3,
                        n >= 0,
                ;
            }
            let from: usize = j % 4 * n + j / 4;
            out.push(row[from]);
        } else {
            out.push(row[j]);
        }
        j = j + 1;
        assert(out@ =~= woven(row@).take(j as int));
    }
    assert(out@ =~= woven(row@));
    out
}

fn predict_row(row: &[u8], depth: Depth) -> (out: Vec<u8>)
    ensures
        out@ == predicted_row(row@, depth),
        out@.len() == row@.len(),
{
    match depth {
        Depth::Eight => difference_bytes(row),
        Depth::Sixteen => difference_words(row),
        Depth::ThirtyTwo => difference_bytes(split_bytes(row).as_slice()),
    }
}

fn unpredict_row(row: &[u8], depth: Depth) -> (out: Vec<u8>)
    ensures
        out@ == unpredicted_row(row@, depth),
        out@.len() == row@.len(),
{
    match depth {
        Depth::Eight => add_up_bytes(row),
        Depth::Sixteen => add_up_words(row),
        Depth::ThirtyTwo => weave_bytes(add_up_bytes(row).as_slice()),
    }
}

/// Puts a row back where it came from.
fn replace(buf: &mut [u8], at: usize, row: &[u8])
    requires
        at + row@.len() <= old(buf)@.len(),
    ensures
        final(buf)@.len() == old(buf)@.len(),
        forall|i: int|
            0 <= i < final(buf)@.len() ==> #[trigger] final(buf)@[i] == if at <= i < at
                + row@.len() {
                row@[i - at]
            } else {
                old(buf)@[i]
            },
{
    let ghost before = buf@;
    assert(row@.len() == row.len());
    let mut k: usize = 0;
    while k < row.len()
        invariant
            before == old(buf)@,
            row@.len() == row.len(),
            k <= row@.len(),
            buf@.len() == before.len(),
            at + row@.len() <= buf@.len(),
            forall|i: int|
                0 <= i < buf@.len() ==> #[trigger] buf@[i] == if at <= i < at + k {
                    row@[i - at]
                } else {
                    before[i]
                },
        decreases row@.len() - k,
    {
        assert(buf@.len() == buf.len());
        buf[at + k] = row[k];
        k = k + 1;
    }
}

/// Delta-encodes every row, in place.
pub fn predict(buf: &mut [u8], rows: usize, row_bytes: usize, depth: Depth)
    requires
        rows * row_bytes <= old(buf)@.len(),
    ensures
        final(buf)@ == predicted_plane(old(buf)@, rows as int, row_bytes as int, depth),
{
    let ghost before = buf@;
    let ghost goal = predicted_plane(before, rows as int, row_bytes as int, depth);
    let mut r: usize = 0;
    while r < rows
        invariant
            before == old(buf)@,
            goal == predicted_plane(before, rows as int, row_bytes as int, depth),
            rows * row_bytes <= before.len(),
            r <= rows,
            buf@.len() == before.len(),
            0 <= r * row_bytes,
            forall|i: int| 0 <= i < r * row_bytes ==> #[trigger] buf@[i] == goal[i],
            forall|i: int| r * row_bytes <= i < buf@.len() ==> #[trigger] buf@[i] == before[i],
        decreases rows - r,
    {
        assert(buf@.len() == buf.len());
        proof {
            assert(r * row_bytes + row_bytes <= rows * row_bytes) by (nonlinear_arith)
                requires
                    r + 1 <= rows,
            ;
            assert((r + 1) * row_bytes == r * row_bytes + row_bytes) by (nonlinear_arith);
        }
        let at: usize = r * row_bytes;
        let row = predict_row(slice_subrange(buf, at, at + row_bytes), depth);
        assert(buf@.subrange(at as int, at + row_bytes) =~= plane_row(
            before,
            row_bytes as int,
            r as int,
        ));
        replace(buf, at, row.as_slice());
        assert forall|i: int| 0 <= i < (r + 1) * row_bytes implies #[trigger] buf@[i] == goal[i] by {
            if i >= at {
                lemma_place_inverse(row_bytes as int, r as int, i - at);
                assert(place(row_bytes as int, r as int, i - at) == i);
            }
        }
        r = r + 1;
    }
    assert(buf@ =~= goal);
}

/// Undoes the delta encoding of every row, in place.
pub fn unpredict(buf: &mut [u8], rows: usize, row_bytes: usize, depth: Depth)
    requires
        rows * row_bytes <= old(buf)@.len(),
        depth == Depth::Sixteen && rows > 0 ==> row_bytes >= 2,
    ensures
        final(buf)@ == unpredicted_plane(old(buf)@, rows as int, row_bytes as int, depth),
{
    let ghost before = buf@;
    let ghost goal = unpredicted_plane(before, rows as int, row_bytes as int, depth);
    let mut r: usize = 0;
    while r < rows
        invariant
            before == old(buf)@,
            goal == unpredicted_plane(before, rows as int, row_bytes as int, depth),
            rows * row_bytes <= before.len(),
            r <= rows,
            buf@.len() == before.len(),
            0 <= r * row_bytes,
            forall|i: int| 0 <= i < r * row_bytes ==> #[trigger] buf@[i] == goal[i],
            forall|i: int| r * row_bytes <= i < buf@.len() ==> #[trigger] buf@[i] == before[i],
        decreases rows - r,
    {
        assert(buf@.len() == buf.len());
        proof {
            assert(r * row_bytes + row_bytes <= rows * row_bytes) by (nonlinear_arith)
                requires
                    r + 1 <= rows,
            ;
            assert((r + 1) * row_bytes == r * row_bytes + row_bytes) by (nonlinear_arith);
        }
        let at: usize = r * row_bytes;
        let row = unpredict_row(slice_subrange(buf, at, at + row_bytes), depth);
        assert(buf@.subrange(at as int, at + row_bytes) =~= plane_row(
            before,
            row_bytes as int,
            r as int,
        ));
        replace(buf, at, row.as_slice());
        assert forall|i: int| 0 <= i < (r + 1) * row_bytes implies #[trigger] buf@[i] == goal[i] by {
            if i >= at {
                lemma_place_inverse(row_bytes as int, r as int, i - at);
                assert(place(row_bytes as int, r as int, i - at) == i);
            }
        }
        r = r + 1;
    }
    assert(buf@ =~= goal);
}

// --------------------------------------------------------- compression

/// What inflating came to, as a mathematical value: the bytes, or what is
/// wrong with the stream, in words.
pub type Inflated = core::result::Result<Seq<u8>, Seq<char>>;

/// A stream's result as a mathematical value.
pub open spec fn stream_outcome(r: core::result::Result<Vec<u8>, String>) -> Inflated {
    match r {
        Ok(out) => Ok(out@),
        Err(text) => Err(text@),
    }
}

/// What a zlib stream inflates to when at most `limit` bytes may come out.
pub uninterp spec fn inflated(data: Seq<u8>, limit: int) -> Inflated;

/// The zlib stream that some bytes deflate to at a level.
pub uninterp spec fn deflated(data: Seq<u8>, level: int) -> Seq<u8>;

/// Whether a stream inflates to some bytes wherever they fit the limit.
pub open spec fn gives_back(stream: Seq<u8>, data: Seq<u8>) -> bool {
    forall|limit: int|
        1 <= limit <= usize::MAX && data.len() <= limit ==> #[trigger] inflated(stream, limit)
            == Inflated::Ok(data)
}

/// Inflates a zlib stream with miniz_oxide's
/// `decompress_to_vec_zlib_with_limit`. The result depends on the stream
/// and the limit alone, and is never longer than the limit. An error is
/// given as its debug text.
#[verifier::external_body]
fn inflate_stream(data: &[u8], limit: usize) -> (r: core::result::Result<Vec<u8>, String>)
    ensures
        stream_outcome(r) == inflated(data@, limit as int),
        r matches Ok(out) ==> out@.len() <= limit,
{
    miniz_oxide::inflate::decompress_to_vec_zlib_with_limit(data, limit).map_err(|e| format!("{e:?}"))
}

/// Deflates bytes into a zlib stream with miniz_oxide's
/// `compress_to_vec_zlib`. The stream depends on the bytes and the level
/// alone, and inflates to the bytes again wherever they fit the limit.
#[verifier::external_body]
fn deflate_stream(data: &[u8], level: u8) -> (out: Vec<u8>)
    requires
        level <= 10,
    ensures
        out@ == deflated(data@, level as int),
        gives_back(out@, data@),
{
    miniz_oxide::deflate::compress_to_vec_zlib(data, level)
}

/// The channel that an inflated stream holds: as many bytes as are
/// expected, with the prediction undone.
pub open spec fn channel_of(
    stream: Inflated,
    rows: int,
    row_bytes: int,
    depth: Depth,
    predicted: bool,
) -> PsdOutcome<Seq<u8>> {
    let expected = rows * row_bytes;
    match stream {
        Err(text) => Err(PsdFault::Corrupt("zip channel: "@ + text)),
        Ok(out) => if out.len() < expected {
            Err(
                PsdFault::Corrupt(
                    "zip channel decompressed to "@ + decimal(out.len() as int)
                        + " bytes, expected "@ + decimal(expected),
                ),
            )
        } else if predicted {
            Ok(unpredicted_plane(out.take(expected), rows, row_bytes, depth))
        } else {
            Ok(out.take(expected))
        },
    }
}

/// How many bytes a channel may inflate to.
pub open spec fn channel_limit(rows: int, row_bytes: int) -> int {
    if rows * row_bytes > 1 {
        rows * row_bytes
    } else {
        1
    }
}

/// The channel at the end of inflating, from what inflating came to.
pub fn finish_channel(
    stream: core::result::Result<Vec<u8>, String>,
    rows: usize,
    row_bytes: usize,
    depth: Depth,
    predicted: bool,
) -> (r: PsdResult<Vec<u8>>)
    requires
        rows * row_bytes <= usize::MAX,
        predicted && depth == Depth::Sixteen && rows > 0 ==> row_bytes >= 2,
    ensures
        deep_psd_outcome(r) == channel_of(
            stream_outcome(stream),
            rows as int,
            row_bytes as int,
            depth,
            predicted,
        ),
{
    let expected: usize = rows * row_bytes;
    match stream {
        Err(why) => {
            let mut text = "zip channel: ".to_string();
            text.append(why.as_str());
            Err(PsdError::Corrupt(text))
        },
        Ok(out) => {
            if out.len() < expected {
                let mut text = "zip channel decompressed to ".to_string();
                push_decimal(&mut text, out.len() as u64);
                text.append(" bytes, expected ");
                push_decimal(&mut text, expected as u64);
                return Err(PsdError::Corrupt(text));
            }
            let mut out = out;
            out.truncate(expected);
            if predicted {
                unpredict(out.as_mut_slice(), rows, row_bytes, depth);
            }
            Ok(out)
        },
    }
}

/// Decodes one channel stored with one of the two zip methods.
///
/// `row_bytes` is the width in bytes of one row for this depth.
pub fn decode_channel(
    data: &[u8],
    rows: usize,
    row_bytes: usize,
    depth: Depth,
    predicted: bool,
) -> (r: PsdResult<Vec<u8>>)
    requires
        predicted && depth == Depth::Sixteen && rows > 0 ==> row_bytes >= 2,
    ensures
        deep_psd_outcome(r) == if rows * row_bytes > usize::MAX {
            PsdOutcome::<Seq<u8>>::Err(PsdFault::Corrupt("zip channel size overflows"@))
        } else {
            channel_of(
                inflated(data@, channel_limit(rows as int, row_bytes as int)),
                rows as int,
                row_bytes as int,
                depth,
                predicted,
            )
        },
{
    let expected: usize = match rows.checked_mul(row_bytes) {
        Some(expected) => expected,
        None => return Err(corrupt("zip channel size overflows")),
    };
    let limit: usize = if expected > 1 {
        expected
    } else {
        1
    };
    finish_channel(inflate_stream(data, limit), rows, row_bytes, depth, predicted)
}

/// Encodes one channel with one of the two zip methods. Decoding what
/// comes out gives a plane of whole rows back.
pub fn encode_channel(plane: &[u8], rows: usize, row_bytes: usize, depth: Depth, predicted: bool) -> (out:
    Vec<u8>)
    requires
        predicted ==> rows * row_bytes <= plane@.len(),
    ensures
        out@ == deflated(
            if predicted {
                predicted_plane(plane@, rows as int, row_bytes as int, depth)
            } else {
                plane@
            },
            6,
        ),
        plane@.len() == rows * row_bytes ==> channel_of(
            inflated(out@, channel_limit(rows as int, row_bytes as int)),
            rows as int,
            row_bytes as int,
            depth,
            predicted,
        ) == PsdOutcome::<Seq<u8>>::Ok(plane@),
{
    assert(plane@.len() == plane.len());
    let mut buf = owned(plane);
    if predicted {
        predict(buf.as_mut_slice(), rows, row_bytes, depth);
    }
    let out = deflate_stream(buf.as_slice(), 6);
    proof {
        if plane@.len() == rows * row_bytes {
            assert(buf@.take(rows * row_bytes) =~= buf@);
            assert(plane@.take(rows * row_bytes) =~= plane@);
            if predicted {
                law_plane_prediction_is_reversible(
                    plane@,
                    rows as int,
                    row_bytes as int,
                    depth,
                );
            }
        }
    }
    out
}

} // verus!
