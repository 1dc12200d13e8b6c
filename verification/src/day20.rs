//! Trench map: repeatedly enhancing an infinite image, where each output
//! pixel is looked up from the 3-by-3 neighbourhood around it.
use vstd::prelude::*;

verus! {

use crate::parse::{line_ranges, split_lines, token_view};

/// The image: the explicit grid, and the pixel the infinite surroundings
/// hold.
#[derive(Debug, Clone, PartialEq, Eq)]
pub struct Image {
    pub grid: Vec<Vec<char>>,
    pub infinite_fill: char,
}

/// Every row of the grid is as wide as the first, and there is at least
/// one row.
pub open spec fn img_wf(img: Image) -> bool {
    &&& img.grid@.len() > 0
    &&& forall|y: int| 0 <= y < img.grid@.len() ==> (#[trigger] img.grid@[y])@.len()
        == img.grid@[0]@.len()
}

/// The pixel at `(x, y)`: the grid's where it covers the plane, the
/// infinite fill everywhere else.
pub open spec fn pixel_at(img: Image, x: int, y: int) -> char {
    if 0 <= y < img.grid@.len() && 0 <= x < img.grid@[0]@.len() {
        img.grid@[y]@[x]
    } else {
        img.infinite_fill
    }
}

/// The 3-by-3 neighbourhood of `(x, y)`, row by row.
pub open spec fn neigh(img: Image, x: int, y: int) -> Seq<char> {
    seq![
        pixel_at(img, x - 1, y - 1),
        pixel_at(img, x, y - 1),
        pixel_at(img, x + 1, y - 1),
        pixel_at(img, x - 1, y),
        pixel_at(img, x, y),
        pixel_at(img, x + 1, y),
        pixel_at(img, x - 1, y + 1),
        pixel_at(img, x, y + 1),
        pixel_at(img, x + 1, y + 1),
    ]
}

/// The binary number a pixel run spells, `#` as one, anything else zero.
pub open spec fn bits_val(pixels: Seq<char>) -> int
    decreases pixels.len(),
{
    if pixels.len() == 0 {
        0
    } else {
        2 * bits_val(pixels.drop_last()) + if pixels.last() == '#' {
            1int
        } else {
            0int
        }
    }
}

spec fn pow2_s(n: int) -> int
    decreases n,
{
    if n <= 0 {
        1
    } else {
        2 * pow2_s(n - 1)
    }
}

proof fn lemma_bits_val_bound(pixels: Seq<char>)
    ensures
        0 <= bits_val(pixels) < pow2_s(pixels.len() as int),
    decreases pixels.len(),
{
    if pixels.len() > 0 {
        lemma_bits_val_bound(pixels.drop_last());
    }
}

proof fn lemma_bits_val_prefix(pixels: Seq<char>, j: int)
    requires
        0 <= j <= pixels.len(),
    ensures
        0 <= bits_val(pixels.take(j)) <= bits_val(pixels),
    decreases pixels.len() - j,
{
    if j == pixels.len() {
        assert(pixels.take(j) =~= pixels);
        lemma_bits_val_bound(pixels);
    } else {
        lemma_bits_val_prefix(pixels, j + 1);
        assert(pixels.take(j + 1).drop_last() =~= pixels.take(j));
        lemma_bits_val_bound(pixels.take(j));
    }
}

/// How many pixels of a row are lit.
pub open spec fn row_lit(row: Seq<char>) -> int
    decreases row.len(),
{
    if row.len() == 0 {
        0
    } else {
        row_lit(row.drop_last()) + if row.last() == '#' {
            1int
        } else {
            0int
        }
    }
}

/// How many pixels of the whole grid are lit.
pub open spec fn grid_lit(rows: Seq<Seq<char>>) -> int
    decreases rows.len(),
{
    if rows.len() == 0 {
        0
    } else {
        grid_lit(rows.drop_last()) + row_lit(rows.last())
    }
}

pub open spec fn grid_view(g: Seq<Vec<char>>) -> Seq<Seq<char>> {
    g.map_values(|r: Vec<char>| r@)
}

proof fn lemma_row_lit_prefix(row: Seq<char>, j: int)
    requires
        0 <= j <= row.len(),
    ensures
        0 <= row_lit(row.take(j)) <= row_lit(row),
    decreases row.len() - j,
{
    if j == row.len() {
        assert(row.take(j) =~= row);
        lemma_row_lit_nonneg(row);
    } else {
        lemma_row_lit_prefix(row, j + 1);
        assert(row.take(j + 1).drop_last() =~= row.take(j));
        lemma_row_lit_nonneg(row.take(j));
    }
}

proof fn lemma_row_lit_nonneg(row: Seq<char>)
    ensures
        row_lit(row) >= 0,
    decreases row.len(),
{
    if row.len() > 0 {
        lemma_row_lit_nonneg(row.drop_last());
    }
}

proof fn lemma_grid_lit_prefix(rows: Seq<Seq<char>>, j: int)
    requires
        0 <= j <= rows.len(),
    ensures
        0 <= grid_lit(rows.take(j)) <= grid_lit(rows),
    decreases rows.len() - j,
{
    if j == rows.len() {
        assert(rows.take(j) =~= rows);
        lemma_grid_lit_nonneg(rows);
    } else {
        lemma_grid_lit_prefix(rows, j + 1);
        assert(rows.take(j + 1).drop_last() =~= rows.take(j));
        lemma_grid_lit_nonneg(rows.take(j));
        lemma_row_lit_nonneg(rows[j]);
    }
}

proof fn lemma_grid_lit_nonneg(rows: Seq<Seq<char>>)
    ensures
        grid_lit(rows) >= 0,
    decreases rows.len(),
{
    if rows.len() > 0 {
        lemma_grid_lit_nonneg(rows.drop_last());
        lemma_row_lit_nonneg(rows.last());
    }
}

impl Image {
    /// An image over the given grid, dark to infinity.
    pub fn new(grid: Vec<Vec<char>>) -> (img: Image)
        ensures
            img.grid == grid,
            img.infinite_fill == '.',
    {
        Image { grid, infinite_fill: '.' }
    }

    /// Reads the explicit grid, one row per line.
    pub fn parse(input: &str) -> (img: Image)
        ensures
            img.infinite_fill == '.',
            ({
                let ls = line_ranges(input@);
                &&& img.grid@.len() == ls.len()
                &&& forall|y: int| 0 <= y < ls.len() ==> (#[trigger] img.grid@[y])@ == token_view(
                    input@,
                    ls[y],
                )
            }),
    {
        let ghost ls = line_ranges(input@);
        let lines = split_lines(input);
        let mut grid: Vec<Vec<char>> = Vec::new();
        let mut y: usize = 0;
        while y < lines.len()
            invariant
                0 <= y <= lines@.len(),
                ls == line_ranges(input@),
                lines@.map_values(|b: (usize, usize)| (b.0 as int, b.1 as int)) == ls,
                forall|k: int| 0 <= k < lines@.len() ==> (#[trigger] lines@[k]).0 <= lines@[k].1
                    <= input@.len(),
                grid@.len() == y,
                forall|k: int| 0 <= k < y ==> (#[trigger] grid@[k])@ == token_view(input@, ls[k]),
            decreases lines@.len() - y,
        {
            let (from, to) = lines[y];
            proof {
                assert(ls[y as int] == (from as int, to as int));
            }
            let mut row: Vec<char> = Vec::new();
            let mut k: usize = from;
            while k < to
                invariant
                    from <= k <= to <= input@.len(),
                    row@.len() == k - from,
                    forall|j: int| 0 <= j < row@.len() ==> #[trigger] row@[j] == input@[from + j],
                decreases to - k,
            {
                row.push(input.get_char(k));
                k = k + 1;
            }
            proof {
                assert(row@ =~= token_view(input@, ls[y as int]));
            }
            grid.push(row);
            y = y + 1;
        }
        Image::new(grid)
    }

    /// The grid's width and height.
    pub fn size(&self) -> (s: (usize, usize))
        requires
            self.grid@.len() > 0,
        ensures
            s.0 == self.grid@[0]@.len(),
            s.1 == self.grid@.len(),
    {
        (self.grid[0].len(), self.grid.len())
    }

    /// The pixel at `(x, y)`, the infinite fill outside the grid.
    pub fn get_pixel(&self, x: isize, y: isize) -> (c: char)
        requires
            img_wf(*self),
        ensures
            c == pixel_at(*self, x as int, y as int),
    {
        if x >= 0 && (x as usize) < self.grid[0].len() && y >= 0 && (y as usize)
            < self.grid.len() {
            return self.grid[y as usize][x as usize];
        }
        self.infinite_fill
    }

    /// The 3-by-3 neighbourhood of `(x, y)`, row by row.
    pub fn adjacent(&self, x: isize, y: isize) -> (r: Vec<char>)
        requires
            img_wf(*self),
            -100_000 <= x <= 100_000,
            -100_000 <= y <= 100_000,
        ensures
            r@ == neigh(*self, x as int, y as int),
    {
        let mut r: Vec<char> = Vec::new();
        r.push(self.get_pixel(x - 1, y - 1));
        r.push(self.get_pixel(x, y - 1));
        r.push(self.get_pixel(x + 1, y - 1));
        r.push(self.get_pixel(x - 1, y));
        r.push(self.get_pixel(x, y));
        r.push(self.get_pixel(x + 1, y));
        r.push(self.get_pixel(x - 1, y + 1));
        r.push(self.get_pixel(x, y + 1));
        r.push(self.get_pixel(x + 1, y + 1));
        proof {
            assert(r@ =~= neigh(*self, x as int, y as int));
        }
        r
    }

    /// How many grid pixels are lit.
    pub fn lit(&self) -> (r: usize)
        requires
            grid_lit(grid_view(self.grid@)) <= usize::MAX as int,
        ensures
            r as int == grid_lit(grid_view(self.grid@)),
    {
        let ghost g = grid_view(self.grid@);
        let mut r: usize = 0;
        let mut y: usize = 0;
        while y < self.grid.len()
            invariant
                0 <= y <= self.grid@.len(),
                g == grid_view(self.grid@),
                grid_lit(g) <= usize::MAX as int,
                r as int == grid_lit(g.take(y as int)),
            decreases self.grid@.len() - y,
        {
            let row = &self.grid[y];
            let ghost rv = row@;
            proof {
                assert(g[y as int] == rv);
                assert(g.take(y + 1).drop_last() =~= g.take(y as int));
                assert(g.take(y + 1).last() == rv);
                lemma_grid_lit_prefix(g, y + 1);
                lemma_grid_lit_prefix(g, y as int);
                lemma_row_lit_nonneg(rv);
            }
            let mut x: usize = 0;
            while x < row.len()
                invariant
                    0 <= x <= rv.len(),
                    rv == row@,
                    grid_lit(g.take(y as int)) + row_lit(rv) <= usize::MAX as int,
                    grid_lit(g.take(y as int)) >= 0,
                    r as int == grid_lit(g.take(y as int)) + row_lit(rv.take(x as int)),
                decreases rv.len() - x,
            {
                proof {
                    lemma_row_lit_prefix(rv, x + 1);
                    assert(rv.take(x + 1).drop_last() =~= rv.take(x as int));
                    assert(rv.take(x + 1).last() == rv[x as int]);
                }
                if row[x] == '#' {
                    r = r + 1;
                }
                x = x + 1;
            }
            proof {
                assert(rv.take(rv.len() as int) =~= rv);
            }
            y = y + 1;
        }
        proof {
            assert(g.take(g.len() as int) =~= g);
        }
        r
    }
}

/// The number a pixel run spells in binary, `#` as one.
pub fn convert(pixels: &Vec<char>) -> (r: usize)
    requires
        bits_val(pixels@) <= usize::MAX as int,
    ensures
        r as int == bits_val(pixels@),
{
    let mut r: usize = 0;
    let mut k: usize = 0;
    while k < pixels.len()
        invariant
            0 <= k <= pixels@.len(),
            bits_val(pixels@) <= usize::MAX as int,
            r as int == bits_val(pixels@.take(k as int)),
        decreases pixels@.len() - k,
    {
        proof {
            lemma_bits_val_prefix(pixels@, k + 1);
            assert(pixels@.take(k + 1).drop_last() =~= pixels@.take(k as int));
            assert(pixels@.take(k + 1).last() == pixels@[k as int]);
        }
        let bit: usize = if pixels[k] == '#' {
            1
        } else {
            0
        };
        r = r * 2 + bit;
        k = k + 1;
    }
    proof {
        assert(pixels@.take(pixels@.len() as int) =~= pixels@);
    }
    r
}

/// One enhancement round: every pixel of the grown grid is looked up from
/// its old neighbourhood, and the infinite surroundings blink when the
/// algorithm maps dark to lit and lit to dark.
pub fn enhance(algorithm: &Vec<char>, image: &mut Image, round: u32) -> (r: Image)
    requires
        algorithm@.len() == 512,
        img_wf(*old(image)),
        old(image).grid@.len() <= 50_000,
        old(image).grid@[0]@.len() <= 50_000,
    ensures
        final(image).grid == old(image).grid,
        final(image).infinite_fill == if algorithm@[0] == '#' && algorithm@[511] == '.' {
            if round % 2 == 1 {
                '#'
            } else {
                '.'
            }
        } else {
            old(image).infinite_fill
        },
        r.infinite_fill == '.',
        r.grid@.len() == old(image).grid@.len() + 2,
        forall|y: int| 0 <= y < r.grid@.len() ==> (#[trigger] r.grid@[y])@.len()
            == old(image).grid@[0]@.len() + 2,
        forall|y: int, x: int|
            0 <= y < r.grid@.len() && 0 <= x < r.grid@[y]@.len() ==> (#[trigger] r.grid@[y]@[x])
                == algorithm@[bits_val(neigh(*final(image), x - 1, y - 1))],
{
    let (xsize, ysize) = image.size();
    let first = algorithm[0];
    let last = algorithm[511];
    if first == '#' && last == '.' {
        image.infinite_fill = if round % 2 == 1 {
            '#'
        } else {
            '.'
        };
    }
    let ghost img = *image;
    let mut result: Vec<Vec<char>> = Vec::new();
    let mut y: usize = 0;
    while y < ysize + 2
        invariant
            0 <= y <= ysize + 2,
            img == *image,
            img_wf(img),
            xsize == img.grid@[0]@.len(),
            ysize == img.grid@.len(),
            xsize <= 50_000,
            ysize <= 50_000,
            algorithm@.len() == 512,
            result@.len() == y,
            forall|j: int| 0 <= j < y ==> (#[trigger] result@[j])@.len() == xsize + 2,
            forall|j: int, x: int|
                0 <= j < y && 0 <= x < xsize + 2 ==> (#[trigger] result@[j]@[x]) == algorithm@[
                    bits_val(neigh(img, x - 1, j - 1))],
        decreases ysize + 2 - y,
    {
        let mut row: Vec<char> = Vec::new();
        let mut x: usize = 0;
        while x < xsize + 2
            invariant
                0 <= x <= xsize + 2,
                0 <= y < ysize + 2,
                img == *image,
                img_wf(img),
                xsize == img.grid@[0]@.len(),
                ysize == img.grid@.len(),
                xsize <= 50_000,
                ysize <= 50_000,
                algorithm@.len() == 512,
                row@.len() == x,
                forall|i: int| 0 <= i < x ==> (#[trigger] row@[i]) == algorithm@[bits_val(
                    neigh(img, i - 1, y - 1),
                )],
            decreases xsize + 2 - x,
        {
            let pixels = image.adjacent(x as isize - 1, y as isize - 1);
            proof {
                lemma_bits_val_bound(pixels@);
                reveal_with_fuel(pow2_s, 10);
                assert(pow2_s(9) == 512);
            }
            let idx = convert(&pixels);
            row.push(algorithm[idx]);
            x = x + 1;
        }
        result.push(row);
        y = y + 1;
    }
    Image::new(result)
}

} // verus!
