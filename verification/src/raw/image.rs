//! What a decoded raw is made of: the filter array over the sensor and the
//! way the camera was held.

use vstd::prelude::*;

verus! {

/// One colour of a filter array.
#[derive(Debug, Clone, Copy, PartialEq, Eq, Hash, Structural)]
pub enum CfaColor {
    Red,
    Green,
    Blue,
    /// A second, separately balanced green; treat as green when in doubt.
    Green2,
    /// Cyan, magenta, yellow: old CMYG sensors.
    Cyan,
    Magenta,
    Yellow,
    /// Emerald, on four-colour sensors.
    Emerald,
}

/// The colour filter array over the sensor, as a repeating pattern anchored
/// at the top-left of the *uncropped* data.
#[derive(Debug, Clone, PartialEq, Eq)]
pub enum Cfa {
    /// Three samples a pixel already: no array at all.
    Linear,
    /// A 2x2 Bayer pattern, row-major.
    Bayer([CfaColor; 4]),
    /// Fujifilm X-Trans, 6x6 row-major.
    XTrans([[CfaColor; 6]; 6]),
    /// Anything else: `width` x `height` row-major.
    Pattern { width: usize, height: usize, colors: Vec<CfaColor> },
}

/// The shapes of filter array.
pub enum CfaKind {
    Linear,
    Bayer,
    XTrans,
    Pattern,
}

/// A [`Cfa`] as a mathematical value: its cell, row by row.
#[verifier::ext_equal]
pub struct CfaModel {
    pub kind: CfaKind,
    pub width: nat,
    pub height: nat,
    pub colors: Seq<CfaColor>,
}

impl CfaModel {
    /// The colour under a sensor pixel.
    pub open spec fn color(self, x: int, y: int) -> Option<CfaColor> {
        if self.width == 0 || self.height == 0 {
            None
        } else {
            let at = (y % self.height as int) * self.width + x % self.width as int;
            if at < self.colors.len() {
                Some(self.colors[at])
            } else {
                None
            }
        }
    }

    /// Whether the pattern describes itself consistently: non-zero
    /// dimensions and one colour per cell.
    pub open spec fn well_formed(self) -> bool {
        self.kind is Linear || (self.width > 0 && self.height > 0 && self.colors.len() == self.width
            * self.height)
    }

    /// The same pattern with its origin moved; a malformed one unchanged.
    pub open spec fn shifted(self, dx: int, dy: int) -> CfaModel {
        if self.kind is Linear || !self.well_formed() {
            self
        } else {
            CfaModel {
                colors: Seq::new(
                    self.width * self.height,
                    |i: int|
                        self.color(dx + i % self.width as int, dy + i / self.width as int).unwrap(),
                ),
                ..self
            }
        }
    }
}

impl View for Cfa {
    type V = CfaModel;

    open spec fn view(&self) -> CfaModel {
        match self {
            Cfa::Linear => CfaModel {
                kind: CfaKind::Linear,
                width: 0,
                height: 0,
                colors: Seq::empty(),
            },
            Cfa::Bayer(p) => CfaModel { kind: CfaKind::Bayer, width: 2, height: 2, colors: p@ },
            Cfa::XTrans(p) => CfaModel {
                kind: CfaKind::XTrans,
                width: 6,
                height: 6,
                colors: Seq::new(36, |i: int| p[i / 6][i % 6]),
            },
            Cfa::Pattern { width, height, colors } => CfaModel {
                kind: CfaKind::Pattern,
                width: *width as nat,
                height: *height as nat,
                colors: colors@,
            },
        }
    }
}

fn bayer(a: CfaColor, b: CfaColor, c: CfaColor, d: CfaColor) -> (cfa: Cfa)
    ensures
        cfa@ == (CfaModel {
            kind: CfaKind::Bayer,
            width: 2,
            height: 2,
            colors: seq![a, b, c, d],
        }),
        cfa is Bayer,
{
    let cfa = Cfa::Bayer([a, b, c, d]);
    assert(cfa@.colors =~= seq![a, b, c, d]);
    cfa
}

/// No filter array.
pub open spec fn no_array() -> CfaModel {
    CfaModel { kind: CfaKind::Linear, width: 0, height: 0, colors: Seq::empty() }
}

/// A Bayer array as a mathematical value.
pub open spec fn bayer_model(a: CfaColor, b: CfaColor, c: CfaColor, d: CfaColor) -> CfaModel {
    CfaModel { kind: CfaKind::Bayer, width: 2, height: 2, colors: seq![a, b, c, d] }
}

/// Red, green over green, blue.
pub open spec fn rggb() -> CfaModel {
    bayer_model(CfaColor::Red, CfaColor::Green, CfaColor::Green, CfaColor::Blue)
}

/// Blue, green over green, red.
pub open spec fn bggr() -> CfaModel {
    bayer_model(CfaColor::Blue, CfaColor::Green, CfaColor::Green, CfaColor::Red)
}

/// Green, red over blue, green.
pub open spec fn grbg() -> CfaModel {
    bayer_model(CfaColor::Green, CfaColor::Red, CfaColor::Blue, CfaColor::Green)
}

/// Green, blue over red, green.
pub open spec fn gbrg() -> CfaModel {
    bayer_model(CfaColor::Green, CfaColor::Blue, CfaColor::Red, CfaColor::Green)
}

impl Cfa {
    /// Red, green over green, blue.
    pub fn rggb() -> (cfa: Cfa)
        ensures
            cfa@ == rggb(),
    {
        bayer(CfaColor::Red, CfaColor::Green, CfaColor::Green, CfaColor::Blue)
    }

    /// Blue, green over green, red.
    pub fn bggr() -> (cfa: Cfa)
        ensures
            cfa@ == bggr(),
    {
        bayer(CfaColor::Blue, CfaColor::Green, CfaColor::Green, CfaColor::Red)
    }

    /// Green, red over blue, green.
    pub fn grbg() -> (cfa: Cfa)
        ensures
            cfa@ == grbg(),
    {
        bayer(CfaColor::Green, CfaColor::Red, CfaColor::Blue, CfaColor::Green)
    }

    /// Green, blue over red, green.
    pub fn gbrg() -> (cfa: Cfa)
        ensures
            cfa@ == gbrg(),
    {
        bayer(CfaColor::Green, CfaColor::Blue, CfaColor::Red, CfaColor::Green)
    }

    /// The colour under sensor pixel (`x`, `y`) of the uncropped data.
    pub fn color_at(&self, x: usize, y: usize) -> (color: Option<CfaColor>)
        ensures
            color == self@.color(x as int, y as int),
    {
        match self {
            Cfa::Linear => None,
            Cfa::Bayer(p) => {
                let at: usize = bayer_place(x, y);
                Some(p[at])
            },
            Cfa::XTrans(p) => {
                let row: usize = y % 6;
                let col: usize = x % 6;
                proof {
                    lemma_six(row as int, col as int);
                }
                Some(p[row][col])
            },
            Cfa::Pattern { width, height, colors } => {
                if *width == 0 || *height == 0 {
                    return None;
                }
                pattern_color(colors, *width, *height, x, y)
            },
        }
    }

    /// Whether the pattern describes itself consistently: non-zero
    /// dimensions and one colour per cell.
    pub fn is_well_formed(&self) -> (r: bool)
        ensures
            r == self@.well_formed(),
    {
        match self {
            Cfa::Pattern { width, height, colors } => {
                if *width == 0 || *height == 0 {
                    return false;
                }
                cells_match(*width, *height, colors.len())
            },
            Cfa::Linear => true,
            Cfa::Bayer(_) => {
                assert(self@.width * self@.height == 2 * 2);
                true
            },
            Cfa::XTrans(_) => {
                assert(self@.width * self@.height == 6 * 6);
                true
            },
        }
    }

    /// A copy.
    pub fn copied(&self) -> (copy: Cfa)
        ensures
            copy@ == self@,
    {
        match self {
            Cfa::Linear => Cfa::Linear,
            Cfa::Bayer(p) => Cfa::Bayer(*p),
            Cfa::XTrans(p) => Cfa::XTrans(*p),
            Cfa::Pattern { width, height, colors } => {
                let mut cells: Vec<CfaColor> = Vec::new();
                let mut i: usize = 0;
                while i < colors.len()
                    invariant
                        i <= colors@.len(),
                        cells@ == colors@.take(i as int),
                    decreases colors@.len() - i,
                {
                    cells.push(colors[i]);
                    i = i + 1;
                    assert(cells@ =~= colors@.take(i as int));
                }
                assert(cells@ =~= colors@);
                Cfa::Pattern { width: *width, height: *height, colors: cells }
            },
        }
    }

    /// The same pattern with its origin moved by (`dx`, `dy`) pixels, for
    /// describing a crop of the data. A malformed pattern comes back
    /// unchanged.
    pub fn shifted(&self, dx: usize, dy: usize) -> (moved: Cfa)
        ensures
            moved@ == self@.shifted(dx as int, dy as int),
    {
        if !self.is_well_formed() {
            return self.copied();
        }
        match self {
            Cfa::Linear => Cfa::Linear,
            Cfa::Bayer(_) => {
                let moved = Cfa::Bayer(
                    [
                        self.cell(2, 2, dx, dy, 0),
                        self.cell(2, 2, dx, dy, 1),
                        self.cell(2, 2, dx, dy, 2),
                        self.cell(2, 2, dx, dy, 3),
                    ],
                );
                assert(moved@.colors =~= self@.shifted(dx as int, dy as int).colors);
                moved
            },
            Cfa::XTrans(_) => {
                let moved = Cfa::XTrans(
                    [
                        self.xtrans_row(dx, dy, 0),
                        self.xtrans_row(dx, dy, 1),
                        self.xtrans_row(dx, dy, 2),
                        self.xtrans_row(dx, dy, 3),
                        self.xtrans_row(dx, dy, 4),
                        self.xtrans_row(dx, dy, 5),
                    ],
                );
                assert(moved@.colors =~= self@.shifted(dx as int, dy as int).colors) by {
                    assert forall|i: int| 0 <= i < 36 implies moved@.colors[i] == self@.shifted(
                        dx as int,
                        dy as int,
                    ).colors[i] by {
                        let (row, col) = (i / 6, i % 6);
                        assert(i == row * 6 + col);
                    }
                }
                moved
            },
            Cfa::Pattern { width, height, colors } => {
                let mut cells: Vec<CfaColor> = Vec::new();
                let mut i: usize = 0;
                let ghost goal = self@.shifted(dx as int, dy as int).colors;
                while i < colors.len()
                    invariant
                        i <= colors@.len(),
                        self@.well_formed(),
                        self@.kind is Pattern,
                        *width == self@.width,
                        *height == self@.height,
                        colors@ == self@.colors,
                        goal == self@.shifted(dx as int, dy as int).colors,
                        cells@ == goal.take(i as int),
                    decreases colors@.len() - i,
                {
                    cells.push(self.cell(*width, *height, dx, dy, i));
                    i = i + 1;
                    assert(cells@ =~= goal.take(i as int));
                }
                assert(cells@ =~= goal);
                Cfa::Pattern { width: *width, height: *height, colors: cells }
            },
        }
    }

    /// Cell `i` of the pattern moved by (`dx`, `dy`).
    fn cell(&self, width: usize, height: usize, dx: usize, dy: usize, i: usize) -> (color: CfaColor)
        requires
            self@.well_formed(),
            !(self@.kind is Linear),
            width == self@.width,
            height == self@.height,
            i < self@.width * self@.height,
        ensures
            Some(color) == self@.color(
                dx + i as int % width as int,
                dy + i as int / width as int,
            ),
    {
        proof {
            crate::grid::lemma_place_of(width as int, height as int, i as int);
        }
        let x: usize = wrap_sum(dx, i % width, width);
        let y: usize = wrap_sum(dy, i / width, height);
        proof {
            let (w, h) = (width as int, height as int);
            vstd::arithmetic::div_mod::lemma_small_mod(y as nat, h as nat);
            vstd::arithmetic::div_mod::lemma_small_mod(x as nat, w as nat);
            crate::grid::lemma_place(w, h, y as int, x as int);
        }
        match self.color_at(x, y) {
            Some(color) => color,
            None => CfaColor::Green,
        }
    }

    fn xtrans_row(&self, dx: usize, dy: usize, row: usize) -> (colors: [CfaColor; 6])
        requires
            self@.kind is XTrans,
            self@.well_formed(),
            self@.width == 6,
            self@.height == 6,
            row < 6,
        ensures
            forall|col: int|
                0 <= col < 6 ==> Some(#[trigger] colors[col]) == self@.color(dx + col, dy + row),
    {
        let first: usize = row * 6;
        proof {
            lemma_six(row as int, 0);
            lemma_six(row as int, 1);
            lemma_six(row as int, 2);
            lemma_six(row as int, 3);
            lemma_six(row as int, 4);
            lemma_six(row as int, 5);
        }
        [
            self.cell(6, 6, dx, dy, first),
            self.cell(6, 6, dx, dy, first + 1),
            self.cell(6, 6, dx, dy, first + 2),
            self.cell(6, 6, dx, dy, first + 3),
            self.cell(6, 6, dx, dy, first + 4),
            self.cell(6, 6, dx, dy, first + 5),
        ]
    }

    /// Whether two arrays are the same.
    pub fn same_as(&self, other: &Cfa) -> (r: bool)
        ensures
            r == (self@ == other@),
    {
        match (self, other) {
            (Cfa::Linear, Cfa::Linear) => true,
            (Cfa::Bayer(_), Cfa::Bayer(_)) => self.same_cells(other, 4),
            (Cfa::XTrans(_), Cfa::XTrans(_)) => self.same_cells(other, 36),
            (
                Cfa::Pattern { width: w1, height: h1, colors: c1 },
                Cfa::Pattern { width: w2, height: h2, colors: c2 },
            ) => {
                *w1 == *w2 && *h1 == *h2 && c1.len() == c2.len() && self.same_cells(other, c1.len())
            },
            _ => false,
        }
    }

    fn same_cells(&self, other: &Cfa, n: usize) -> (r: bool)
        requires
            self@.kind == other@.kind,
            self@.width == other@.width,
            self@.height == other@.height,
            self@.colors.len() == n,
            other@.colors.len() == n,
        ensures
            r == (self@ == other@),
    {
        let mut i: usize = 0;
        while i < n
            invariant
                i <= n,
                self@.colors.len() == n,
                other@.colors.len() == n,
                forall|j: int| 0 <= j < i ==> self@.colors[j] == other@.colors[j],
            decreases n - i,
        {
            if self.stored(i) != other.stored(i) {
                return false;
            }
            i = i + 1;
        }
        assert(self@ =~= other@);
        true
    }

    fn stored(&self, i: usize) -> (color: CfaColor)
        requires
            i < self@.colors.len(),
        ensures
            color == self@.colors[i as int],
    {
        match self {
            Cfa::Linear => CfaColor::Green,
            Cfa::Bayer(p) => p[i],
            Cfa::XTrans(p) => p[i / 6][i % 6],
            Cfa::Pattern { width: _, height: _, colors } => colors[i],
        }
    }
}

fn bayer_place(x: usize, y: usize) -> (at: usize)
    ensures
        at == (y as int % 2) * 2 + x as int % 2,
        at < 4,
{
    (y % 2) * 2 + x % 2
}

fn pattern_color(colors: &Vec<CfaColor>, width: usize, height: usize, x: usize, y: usize) -> (color:
    Option<CfaColor>)
    requires
        0 < width,
        0 < height,
    ensures
        ({
            let at = (y as int % height as int) * width + x as int % width as int;
            color == if at < colors@.len() {
                Some(colors@[at])
            } else {
                None
            }
        }),
{
    let row: usize = y % height;
    let col: usize = x % width;
    proof {
        assert(0 <= row * width <= 0xffff_ffff_ffff_ffff * 0xffff_ffff_ffff_ffff)
            by (nonlinear_arith)
            requires
                0 <= row <= 0xffff_ffff_ffff_ffff,
                0 <= width <= 0xffff_ffff_ffff_ffff,
        ;
    }
    let at: u128 = row as u128 * width as u128 + col as u128;
    if at < colors.len() as u128 {
        Some(colors[at as usize])
    } else {
        None
    }
}

fn cells_match(width: usize, height: usize, n: usize) -> (r: bool)
    ensures
        r == (n == width * height),
{
    match width.checked_mul(height) {
        Some(cells) => n == cells,
        None => false,
    }
}

proof fn lemma_six(row: int, col: int)
    requires
        0 <= row,
        0 <= col < 6,
    ensures
        (row * 6 + col) / 6 == row,
        (row * 6 + col) % 6 == col,
{
}

/// `(a + b) % m`, however large the sum.
fn wrap_sum(a: usize, b: usize, m: usize) -> (r: usize)
    requires
        b < m,
    ensures
        r < m,
        r == (a + b) % (m as int),
{
    let left: usize = a % m;
    proof {
        vstd::arithmetic::div_mod::lemma_add_mod_noop(a as int, b as int, m as int);
        vstd::arithmetic::div_mod::lemma_small_mod(b as nat, m as nat);
    }
    if left >= m - b {
        proof {
            vstd::arithmetic::div_mod::lemma_mod_add_multiples_vanish(left + b - m, m as int);
            vstd::arithmetic::div_mod::lemma_small_mod((left + b - m) as nat, m as nat);
        }
        left - (m - b)
    } else {
        proof {
            vstd::arithmetic::div_mod::lemma_small_mod((left + b) as nat, m as nat);
        }
        left + b
    }
}

/// A filter array repeats: its cell is the first `height` rows of `width`
/// filters, and every other pixel has the filter of the pixel a whole cell
/// away.
pub proof fn law_arrays_repeat_their_cell(cfa: CfaModel, x: int, y: int)
    requires
        !(cfa.kind is Linear),
        cfa.well_formed(),
    ensures
        0 <= x < cfa.width && 0 <= y < cfa.height ==> cfa.color(x, y) == Some(
            cfa.colors[y * cfa.width + x],
        ),
        cfa.color(x + cfa.width, y) == cfa.color(x, y),
        cfa.color(x, y + cfa.height) == cfa.color(x, y),
{
    let (w, h) = (cfa.width as int, cfa.height as int);
    vstd::arithmetic::div_mod::lemma_mod_add_multiples_vanish(x, w);
    vstd::arithmetic::div_mod::lemma_mod_add_multiples_vanish(y, h);
    if 0 <= x < w && 0 <= y < h {
        vstd::arithmetic::div_mod::lemma_small_mod(x as nat, w as nat);
        vstd::arithmetic::div_mod::lemma_small_mod(y as nat, h as nat);
        crate::grid::lemma_place(w, h, y, x);
    }
}

/// The four Bayer arrays by their first pixels: each is green on one
/// diagonal, and red and blue face each other on the other.
pub proof fn law_bayer_arrays_are_as_they_are_called(x: int, y: int)
    ensures
        ({
            let (even, odd) = (x % 2 == 0 && y % 2 == 0, x % 2 == 1 && y % 2 == 1);
            let (right, below) = (x % 2 == 1 && y % 2 == 0, x % 2 == 0 && y % 2 == 1);
            let (red, green, blue) = (
                Some(CfaColor::Red),
                Some(CfaColor::Green),
                Some(CfaColor::Blue),
            );
            &&& even ==> rggb().color(x, y) == red
            &&& odd ==> rggb().color(x, y) == blue
            &&& right || below ==> rggb().color(x, y) == green
            &&& even ==> bggr().color(x, y) == blue
            &&& odd ==> bggr().color(x, y) == red
            &&& right || below ==> bggr().color(x, y) == green
            &&& right ==> grbg().color(x, y) == red
            &&& below ==> grbg().color(x, y) == blue
            &&& even || odd ==> grbg().color(x, y) == green
            &&& right ==> gbrg().color(x, y) == blue
            &&& below ==> gbrg().color(x, y) == red
            &&& even || odd ==> gbrg().color(x, y) == green
        }),
{
    let (red, green, blue) = (CfaColor::Red, CfaColor::Green, CfaColor::Blue);
    lemma_bayer_color(red, green, green, blue, x, y);
    lemma_bayer_color(blue, green, green, red, x, y);
    lemma_bayer_color(green, red, blue, green, x, y);
    lemma_bayer_color(green, blue, red, green, x, y);
}

proof fn lemma_bayer_color(
    a: CfaColor,
    b: CfaColor,
    c: CfaColor,
    d: CfaColor,
    x: int,
    y: int,
)
    ensures
        bayer_model(a, b, c, d).color(x, y) == Some(
            if y % 2 == 0 {
                if x % 2 == 0 {
                    a
                } else {
                    b
                }
            } else if x % 2 == 0 {
                c
            } else {
                d
            },
        ),
{
    let cfa = bayer_model(a, b, c, d);
    let row = y % 2;
    assert(row * cfa.width == 2 * row) by (nonlinear_arith)
        requires
            cfa.width == 2,
    ;
}

/// A pattern moved by (`dx`, `dy`) shows at (`x`, `y`) what the unmoved one
/// shows at (`x + dx`, `y + dy`).
pub proof fn law_shifted_colors(cfa: CfaModel, dx: int, dy: int, x: int, y: int)
    requires
        cfa.well_formed(),
        0 <= dx,
        0 <= dy,
        0 <= x,
        0 <= y,
    ensures
        !(cfa.kind is Linear) ==> cfa.shifted(dx, dy).color(x, y) == cfa.color(x + dx, y + dy),
        cfa.shifted(dx, dy).well_formed(),
{
    if !(cfa.kind is Linear) {
        let (w, h) = (cfa.width as int, cfa.height as int);
        vstd::arithmetic::div_mod::lemma_mod_bound(x, w);
        vstd::arithmetic::div_mod::lemma_mod_bound(y, h);
        let (col, row) = (x % w, y % h);
        crate::grid::lemma_place(w, h, row, col);
        crate::grid::lemma_place_inverse(w, row, col);
        let i = row * w + col;
        assert(i < w * h);
        vstd::arithmetic::div_mod::lemma_add_mod_noop(x, dx, w);
        vstd::arithmetic::div_mod::lemma_add_mod_noop(y, dy, h);
        vstd::arithmetic::div_mod::lemma_add_mod_noop(col, dx, w);
        vstd::arithmetic::div_mod::lemma_add_mod_noop(row, dy, h);
        vstd::arithmetic::div_mod::lemma_small_mod(col as nat, w as nat);
        vstd::arithmetic::div_mod::lemma_small_mod(row as nat, h as nat);
        vstd::arithmetic::div_mod::lemma_mod_bound(dx + col, w);
        vstd::arithmetic::div_mod::lemma_mod_bound(dy + row, h);
        crate::grid::lemma_place(w, h, (dy + row) % h, (dx + col) % w);
    }
}

/// The camera's orientation tag.
#[derive(Debug, Clone, Copy, PartialEq, Eq, Structural)]
pub enum Orientation {
    Normal,
    MirrorHorizontal,
    Rotate180,
    MirrorVertical,
    /// Mirror horizontal then rotate 270 degrees clockwise.
    Transpose,
    Rotate90CW,
    /// Mirror horizontal then rotate 90 degrees clockwise.
    Transverse,
    Rotate270CW,
}

impl Default for Orientation {
    fn default() -> (orientation: Orientation)
        ensures
            orientation == Orientation::Normal,
    {
        Orientation::Normal
    }
}

/// The orientation that a tag value stands for; anything out of range is
/// normal.
pub open spec fn exif_orientation(value: int) -> Orientation {
    if value == 2 {
        Orientation::MirrorHorizontal
    } else if value == 3 {
        Orientation::Rotate180
    } else if value == 4 {
        Orientation::MirrorVertical
    } else if value == 5 {
        Orientation::Transpose
    } else if value == 6 {
        Orientation::Rotate90CW
    } else if value == 7 {
        Orientation::Transverse
    } else if value == 8 {
        Orientation::Rotate270CW
    } else {
        Orientation::Normal
    }
}

impl Orientation {
    /// The orientation that a tag value stands for.
    pub fn from_exif(value: u32) -> (orientation: Orientation)
        ensures
            orientation == exif_orientation(value as int),
    {
        match value {
            2 => Orientation::MirrorHorizontal,
            3 => Orientation::Rotate180,
            4 => Orientation::MirrorVertical,
            5 => Orientation::Transpose,
            6 => Orientation::Rotate90CW,
            7 => Orientation::Transverse,
            8 => Orientation::Rotate270CW,
            _ => Orientation::Normal,
        }
    }

    /// Whether width and height swap when applied.
    pub open spec fn swaps(self) -> bool {
        self is Transpose || self is Rotate90CW || self is Transverse || self is Rotate270CW
    }

    /// Whether width and height swap when applied.
    pub fn transposes(self) -> (r: bool)
        ensures
            r == self.swaps(),
    {
        match self {
            Orientation::Transpose => true,
            Orientation::Rotate90CW => true,
            Orientation::Transverse => true,
            Orientation::Rotate270CW => true,
            _ => false,
        }
    }
}

/// The last four tag values are those that swap width and height.
pub proof fn law_orientations_past_four_swap(value: int)
    ensures
        exif_orientation(value).swaps() <==> 5 <= value <= 8,
{
}

} // verus!
