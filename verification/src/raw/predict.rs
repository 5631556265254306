//! The predictor of the codecs that keep two colours a row: each pixel
//! continues the pixel two to its left, and the first two pixels of a row
//! continue those of the row two above.

use crate::raw::bits::wrapped;
use vstd::prelude::*;

verus! {

/// What the predictor remembers: the totals that start the rows, by row
/// parity and then by column, and the last two samples of the row at hand.
#[verifier::ext_equal]
pub struct ParityModel {
    pub vertical: Seq<Seq<u16>>,
    pub horizontal: Seq<u16>,
}

/// `value + diff`, in sixteen bits.
pub open spec fn sum16(value: u16, diff: int) -> u16 {
    ((value + diff) % 0x1_0000) as u16
}

impl ParityModel {
    /// The predictor before the first pixel: every row starts from `seed`.
    pub open spec fn seeded(seed: u16) -> ParityModel {
        ParityModel {
            vertical: seq![seq![seed, seed], seq![seed, seed]],
            horizontal: seq![0u16, 0u16],
        }
    }

    /// The sample in column `col` of row `row`, from its difference.
    pub open spec fn sample(self, row: int, col: int, diff: int) -> u16 {
        if col < 2 {
            sum16(self.vertical[row % 2][col], diff)
        } else {
            sum16(self.horizontal[col % 2], diff)
        }
    }

    /// The predictor after that sample.
    pub open spec fn after(self, row: int, col: int, diff: int) -> ParityModel {
        let value = self.sample(row, col, diff);
        ParityModel {
            vertical: if col < 2 {
                self.vertical.update(row % 2, self.vertical[row % 2].update(col, value))
            } else {
                self.vertical
            },
            horizontal: self.horizontal.update(col % 2, value),
        }
    }
}

/// The predictor of a codec that keeps two colours a row.
pub struct Parity {
    seeds: [u16; 4],
    even: u16,
    odd: u16,
}

impl View for Parity {
    type V = ParityModel;

    closed spec fn view(&self) -> ParityModel {
        ParityModel {
            vertical: seq![
                seq![self.seeds[0], self.seeds[1]],
                seq![self.seeds[2], self.seeds[3]],
            ],
            horizontal: seq![self.even, self.odd],
        }
    }
}

impl Parity {
    /// A predictor whose rows start from `seed`.
    pub fn new(seed: u16) -> (parity: Parity)
        ensures
            parity@ == ParityModel::seeded(seed),
    {
        Parity { seeds: [seed, seed, seed, seed], even: 0, odd: 0 }
    }

    /// The sample in column `col` of row `row`.
    pub fn step(&mut self, row: usize, col: usize, diff: i32) -> (value: u16)
        requires
            -0x1_0000 <= diff <= 0x1_0000,
        ensures
            value == old(self)@.sample(row as int, col as int, diff as int),
            final(self)@ == old(self)@.after(row as int, col as int, diff as int),
    {
        let value: u16;
        if col < 2 {
            let slot: usize = (row % 2) * 2 + col;
            value = wrapped(self.seeds[slot] as i32 + diff);
            self.seeds[slot] = value;
        } else if col % 2 == 0 {
            value = wrapped(self.even as i32 + diff);
        } else {
            value = wrapped(self.odd as i32 + diff);
        }
        if col % 2 == 0 {
            self.even = value;
        } else {
            self.odd = value;
        }
        proof {
            let next = old(self)@.after(row as int, col as int, diff as int);
            assert(self@.vertical =~~= next.vertical);
            assert(self@.horizontal =~= next.horizontal);
        }
        value
    }
}

// ------------------------------------------------------------- writing

/// What a pixel of a plane is written as a difference from: the pixel two
/// to its left; in the first two columns the one two rows above; in those
/// of the first two rows the seed.
pub open spec fn continued(plane: Seq<u16>, cols: int, seed: u16, row: int, col: int) -> int {
    if col >= 2 {
        plane[row * cols + col - 2] as int
    } else if row >= 2 {
        plane[(row - 2) * cols + col] as int
    } else {
        seed as int
    }
}

/// The last pixel of column `col` before row `row` whose row has parity
/// `parity`, or the seed.
spec fn last_above(plane: Seq<u16>, cols: int, seed: u16, row: int, col: int, parity: int) -> u16 {
    let above = if row % 2 == parity {
        row - 2
    } else {
        row - 1
    };
    if above >= 0 {
        plane[above * cols + col]
    } else {
        seed
    }
}

impl ParityModel {
    /// Whether the predictor has seen the pixels of a plane before the one
    /// at `row`, `col`.
    pub closed spec fn has_seen(
        self,
        plane: Seq<u16>,
        cols: int,
        seed: u16,
        row: int,
        col: int,
    ) -> bool {
        &&& self.vertical.len() == 2
        &&& self.vertical[0].len() == 2
        &&& self.vertical[1].len() == 2
        &&& self.horizontal.len() == 2
        &&& forall|p: int, c: int|
            0 <= p < 2 && 0 <= c < 2 && c < cols ==> #[trigger] self.vertical[p][c] == if row % 2
                == p && c < col {
                plane[row * cols + c]
            } else {
                last_above(plane, cols, seed, row, c, p)
            }
        &&& col >= 1 ==> self.horizontal[(col - 1) % 2] == plane[row * cols + col - 1]
        &&& col >= 2 ==> self.horizontal[col % 2] == plane[row * cols + col - 2]
    }

    pub proof fn lemma_seeded(plane: Seq<u16>, cols: int, seed: u16)
        ensures
            ParityModel::seeded(seed).has_seen(plane, cols, seed, 0, 0),
    {
    }

    /// A pixel's own difference gives the pixel.
    pub proof fn lemma_step(
        self,
        plane: Seq<u16>,
        cols: int,
        seed: u16,
        row: int,
        col: int,
        diff: int,
    )
        requires
            self.has_seen(plane, cols, seed, row, col),
            0 <= row,
            0 <= col < cols,
            (continued(plane, cols, seed, row, col) + diff) % 0x1_0000 == plane[row * cols + col],
        ensures
            self.sample(row, col, diff) == plane[row * cols + col],
            col + 1 < cols ==> self.after(row, col, diff).has_seen(
                plane,
                cols,
                seed,
                row,
                col + 1,
            ),
            col + 1 == cols ==> self.after(row, col, diff).has_seen(plane, cols, seed, row + 1, 0),
    {
        let next = self.after(row, col, diff);
        if col < 2 {
            assert(self.vertical[row % 2][col] == last_above(
                plane,
                cols,
                seed,
                row,
                col,
                row % 2,
            ));
        }
        assert(self.sample(row, col, diff) == plane[row * cols + col]);
        assert((row + 1) % 2 != row % 2);
        assert((col + 1) % 2 != col % 2);
        assert((col - 1) % 2 == (col + 1) % 2);
        assert forall|p: int, c: int| 0 <= p < 2 && 0 <= c < 2 && c < cols implies (
        #[trigger] next.vertical[p][c] == if row % 2 == p && c < col + 1 {
            plane[row * cols + c]
        } else {
            last_above(plane, cols, seed, row, c, p)
        }) by {
            assert(self.vertical[p][c] == if row % 2 == p && c < col {
                plane[row * cols + c]
            } else {
                last_above(plane, cols, seed, row, c, p)
            });
        }
        if col + 1 == cols {
            assert forall|p: int, c: int| 0 <= p < 2 && 0 <= c < 2 && c < cols implies
                #[trigger] next.vertical[p][c] == last_above(plane, cols, seed, row + 1, c, p) by {
            }
        }
    }
}

} // verus!
