//! Hydrothermal vents: lines of vents on an integer grid, and how many
//! cells at least two lines cover.
use vstd::prelude::*;

verus! {

use crate::day7::dist;
use crate::parse::{
    lemma_split_from_wf, pair_of, parse_pair_range, split_ranges, token_view, tokens,
};

/// One line of vents, from `start` to `end` inclusive; always horizontal,
/// vertical or at 45 degrees.
#[derive(Debug, Copy, Clone, PartialEq, Eq)]
pub struct VentLine {
    pub start: (usize, usize),
    pub end: (usize, usize),
}

/// What a vent line record such as `242,601 -> 242,18` holds.
pub open spec fn ventline_of(s: Seq<char>) -> Option<((int, int), (int, int))> {
    let bs = tokens(s, ' ');
    if bs.len() == 3 && token_view(s, bs[1]) == "->"@ && pair_of(token_view(s, bs[0])) is Some
        && pair_of(token_view(s, bs[2])) is Some {
        Some((pair_of(token_view(s, bs[0]))->0, pair_of(token_view(s, bs[2]))->0))
    } else {
        None
    }
}

/// The cells a vent line covers: a full range on each axis it moves along,
/// the two walked in step on a diagonal (`diagonal` false drops diagonal
/// lines entirely).
pub open spec fn points_of(v: VentLine, diagonal: bool) -> Seq<(int, int)> {
    let x0 = v.start.0 as int;
    let y0 = v.start.1 as int;
    let x1 = v.end.0 as int;
    let y1 = v.end.1 as int;
    if x0 == x1 {
        Seq::new((dist(y0, y1) + 1) as nat, |i: int| (x0, if y0 <= y1 { y0 + i } else { y0 - i }))
    } else if y0 == y1 {
        Seq::new((dist(x0, x1) + 1) as nat, |i: int| (if x0 <= x1 { x0 + i } else { x0 - i }, y0))
    } else if diagonal {
        let n = if dist(x0, x1) <= dist(y0, y1) {
            dist(x0, x1)
        } else {
            dist(y0, y1)
        };
        Seq::new(
            (n + 1) as nat,
            |i: int|
                (if x0 <= x1 { x0 + i } else { x0 - i }, if y0 <= y1 { y0 + i } else { y0 - i }),
        )
    } else {
        Seq::empty()
    }
}

impl VentLine {
    /// Reads a vent line record such as `242,601 -> 242,18`.
    pub fn parse(line: &str) -> (v: VentLine)
        requires
            ventline_of(line@) is Some,
        ensures
            ({
                let t = ventline_of(line@)->0;
                v.start.0 as int == t.0.0 && v.start.1 as int == t.0.1 && v.end.0 as int == t.1.0
                    && v.end.1 as int == t.1.1
            }),
    {
        proof {
            lemma_split_from_wf(line@, ' ', 0, 0);
        }
        let rs = split_ranges(line, ' ');
        let ghost bs = tokens(line@, ' ');
        proof {
            assert(rs@.map_values(|b: (usize, usize)| (b.0 as int, b.1 as int))[0] == bs[0]);
            assert(rs@.map_values(|b: (usize, usize)| (b.0 as int, b.1 as int))[2] == bs[2]);
        }
        let r0 = rs[0];
        let r2 = rs[2];
        let a = parse_pair_range(line, r0.0, r0.1);
        let b = parse_pair_range(line, r2.0, r2.1);
        VentLine::new(a, b)
    }

    pub fn new(start: (usize, usize), end: (usize, usize)) -> (v: VentLine)
        ensures
            v.start == start,
            v.end == end,
    {
        VentLine { start, end }
    }

    /// All values from `a` to `b` inclusive, walking from `a` toward `b`.
    pub fn get_range(a: usize, b: usize) -> (r: Vec<usize>)
        requires
            a != b,
        ensures
            r@.len() == dist(a as int, b as int) + 1,
            forall|i: int| 0 <= i < r@.len() ==> #[trigger] r@[i] as int == if a <= b {
                a + i
            } else {
                a - i
            },
    {
        let mut r: Vec<usize> = Vec::new();
        if a < b {
            let mut v: usize = a;
            while v < b
                invariant
                    a <= v <= b,
                    r@.len() == v - a,
                    forall|i: int| 0 <= i < r@.len() ==> #[trigger] r@[i] as int == a + i,
                decreases b - v,
            {
                r.push(v);
                v = v + 1;
            }
            r.push(b);
        } else {
            let mut v: usize = a;
            while v > b
                invariant
                    b <= v <= a,
                    r@.len() == a - v,
                    forall|i: int| 0 <= i < r@.len() ==> #[trigger] r@[i] as int == a - i,
                decreases v - b,
            {
                r.push(v);
                v = v - 1;
            }
            r.push(b);
        }
        r
    }

    /// The cells this line covers, as [`points_of`] describes them.
    pub fn get_points(&self, diagonal: bool) -> (r: Vec<(usize, usize)>)
        requires
            self.start != self.end,
        ensures
            r@.map_values(|p: (usize, usize)| (p.0 as int, p.1 as int)) == points_of(
                *self,
                diagonal,
            ),
    {
        let ghost goal = points_of(*self, diagonal);
        let mut r: Vec<(usize, usize)> = Vec::new();
        if self.start.0 == self.end.0 {
            let ys = VentLine::get_range(self.start.1, self.end.1);
            let mut k: usize = 0;
            while k < ys.len()
                invariant
                    0 <= k <= ys.len(),
                    ys@.len() == goal.len(),
                    goal == points_of(*self, diagonal),
                    self.start.0 == self.end.0,
                    forall|i: int| 0 <= i < ys@.len() ==> #[trigger] ys@[i] as int == goal[i].1,
                    r@.len() == k,
                    forall|i: int| 0 <= i < k ==> #[trigger] r@[i].0 as int == goal[i].0
                        && r@[i].1 as int == goal[i].1,
                decreases ys.len() - k,
            {
                r.push((self.start.0, ys[k]));
                proof {
                    assert(ys@[k as int] as int == goal[k as int].1);
                    assert(goal[k as int].0 == self.start.0 as int);
                }
                k = k + 1;
            }
        } else if self.start.1 == self.end.1 {
            let xs = VentLine::get_range(self.start.0, self.end.0);
            let mut k: usize = 0;
            while k < xs.len()
                invariant
                    0 <= k <= xs.len(),
                    xs@.len() == goal.len(),
                    goal == points_of(*self, diagonal),
                    self.start.0 != self.end.0,
                    self.start.1 == self.end.1,
                    forall|i: int| 0 <= i < xs@.len() ==> #[trigger] xs@[i] as int == goal[i].0,
                    r@.len() == k,
                    forall|i: int| 0 <= i < k ==> #[trigger] r@[i].0 as int == goal[i].0
                        && r@[i].1 as int == goal[i].1,
                decreases xs.len() - k,
            {
                r.push((xs[k], self.start.1));
                proof {
                    assert(xs@[k as int] as int == goal[k as int].0);
                    assert(goal[k as int].1 == self.start.1 as int);
                }
                k = k + 1;
            }
        } else if diagonal {
            let xs = VentLine::get_range(self.start.0, self.end.0);
            let ys = VentLine::get_range(self.start.1, self.end.1);
            let n = if xs.len() <= ys.len() {
                xs.len()
            } else {
                ys.len()
            };
            let mut k: usize = 0;
            while k < n
                invariant
                    0 <= k <= n,
                    n == goal.len(),
                    goal == points_of(*self, diagonal),
                    self.start.0 != self.end.0,
                    self.start.1 != self.end.1,
                    diagonal,
                    n <= xs@.len(),
                    n <= ys@.len(),
                    forall|i: int| 0 <= i < n ==> #[trigger] xs@[i] as int == goal[i].0,
                    forall|i: int| 0 <= i < n ==> #[trigger] ys@[i] as int == goal[i].1,
                    r@.len() == k,
                    forall|i: int| 0 <= i < k ==> #[trigger] r@[i].0 as int == goal[i].0
                        && r@[i].1 as int == goal[i].1,
                decreases n - k,
            {
                r.push((xs[k], ys[k]));
                proof {
                    assert(xs@[k as int] as int == goal[k as int].0);
                    assert(ys@[k as int] as int == goal[k as int].1);
                }
                k = k + 1;
            }
        }
        proof {
            assert(r@.map_values(|p: (usize, usize)| (p.0 as int, p.1 as int)) =~= goal);
        }
        r
    }
}

/// How many entries of `ps` are the cell `p`.
pub open spec fn occ_pt(ps: Seq<(int, int)>, p: (int, int)) -> int
    decreases ps.len(),
{
    if ps.len() == 0 {
        0
    } else {
        occ_pt(ps.drop_last(), p) + if ps.last() == p {
            1int
        } else {
            0int
        }
    }
}

/// How often the vent lines cover the cell `p`.
pub open spec fn cover(lines: Seq<VentLine>, diagonal: bool, p: (int, int)) -> int
    decreases lines.len(),
{
    if lines.len() == 0 {
        0
    } else {
        cover(lines.drop_last(), diagonal, p) + occ_pt(points_of(lines.last(), diagonal), p)
    }
}

/// The largest x coordinate any line's endpoints use.
pub open spec fn xmax(lines: Seq<VentLine>) -> int
    decreases lines.len(),
{
    if lines.len() == 0 {
        0
    } else {
        let m = xmax(lines.drop_last());
        let v = lines.last();
        let e = if v.start.0 >= v.end.0 {
            v.start.0 as int
        } else {
            v.end.0 as int
        };
        if e >= m {
            e
        } else {
            m
        }
    }
}

/// The largest y coordinate any line's endpoints use.
pub open spec fn ymax(lines: Seq<VentLine>) -> int
    decreases lines.len(),
{
    if lines.len() == 0 {
        0
    } else {
        let m = ymax(lines.drop_last());
        let v = lines.last();
        let e = if v.start.1 >= v.end.1 {
            v.start.1 as int
        } else {
            v.end.1 as int
        };
        if e >= m {
            e
        } else {
            m
        }
    }
}

/// Every cell of a line lies within its endpoints' bounding box.
proof fn lemma_points_bounded(v: VentLine, diagonal: bool, i: int)
    requires
        0 <= i < points_of(v, diagonal).len(),
    ensures
        ({
            let p = points_of(v, diagonal)[i];
            let xm = if v.start.0 >= v.end.0 {
                v.start.0 as int
            } else {
                v.end.0 as int
            };
            let ym = if v.start.1 >= v.end.1 {
                v.start.1 as int
            } else {
                v.end.1 as int
            };
            0 <= p.0 <= xm && 0 <= p.1 <= ym
        }),
{
}

/// The grid of cover counts over the bounding box of a set of vent lines.
#[derive(Debug, Clone, PartialEq, Eq)]
pub struct VentMap {
    pub counts: Vec<Vec<u32>>,
}

/// The cover counts of a well-shaped map: one row per y, one cell per x,
/// each holding how often the lines cover it.
pub open spec fn map_exact(m: VentMap, lines: Seq<VentLine>, diagonal: bool) -> bool {
    &&& m.counts@.len() == ymax(lines) + 1
    &&& forall|y: int| 0 <= y < m.counts@.len() ==> (#[trigger] m.counts@[y])@.len() == xmax(lines)
        + 1
    &&& forall|y: int, x: int|
        0 <= y <= ymax(lines) && 0 <= x <= xmax(lines) ==> (#[trigger] m.counts@[y]@[x]) as int
            == cover(lines, diagonal, (x, y))
}

proof fn lemma_xmax_line(lines: Seq<VentLine>, k: int)
    requires
        0 <= k < lines.len(),
    ensures
        lines[k].start.0 <= xmax(lines),
        lines[k].end.0 <= xmax(lines),
        lines[k].start.1 <= ymax(lines),
        lines[k].end.1 <= ymax(lines),
        xmax(lines) >= 0,
        ymax(lines) >= 0,
    decreases lines.len(),
{
    if k == lines.len() - 1 {
        lemma_maxes_nonneg(lines.drop_last());
    } else {
        assert(lines.drop_last()[k] == lines[k]);
        lemma_xmax_line(lines.drop_last(), k);
    }
}

proof fn lemma_maxes_nonneg(lines: Seq<VentLine>)
    ensures
        xmax(lines) >= 0,
        ymax(lines) >= 0,
    decreases lines.len(),
{
    if lines.len() > 0 {
        lemma_maxes_nonneg(lines.drop_last());
    }
}

impl VentMap {
    /// Builds the cover-count grid of a set of vent lines over their
    /// bounding box.
    pub fn new(ventlines: &Vec<VentLine>, diagonal: bool) -> (m: VentMap)
        requires
            ventlines@.len() >= 1,
            forall|k: int| 0 <= k < ventlines@.len() ==> (#[trigger] ventlines@[k]).start
                != ventlines@[k].end,
            xmax(ventlines@) < usize::MAX as int,
            ymax(ventlines@) < usize::MAX as int,
            forall|x: int, y: int| 0 <= x && 0 <= y ==> cover(ventlines@, diagonal, (x, y))
                <= u32::MAX as int,
        ensures
            map_exact(m, ventlines@, diagonal),
    {
        let lines = ventlines;
        let ghost lv = lines@;
        let n = lines.len();
        let mut xm: usize = 0;
        let mut ym: usize = 0;
        let mut k: usize = 0;
        while k < n
            invariant
                0 <= k <= n,
                n == lv.len(),
                lv == lines@,
                xmax(lv) < usize::MAX as int,
                ymax(lv) < usize::MAX as int,
                xm as int == xmax(lv.take(k as int)),
                ym as int == ymax(lv.take(k as int)),
            decreases n - k,
        {
            proof {
                assert(lv.take(k + 1).drop_last() =~= lv.take(k as int));
                assert(lv.take(k + 1).last() == lv[k as int]);
                lemma_xmax_line(lv, k as int);
                lemma_prefix_maxes(lv, k + 1);
            }
            let v = &lines[k];
            let ex = if v.start.0 >= v.end.0 {
                v.start.0
            } else {
                v.end.0
            };
            let ey = if v.start.1 >= v.end.1 {
                v.start.1
            } else {
                v.end.1
            };
            if ex > xm {
                xm = ex;
            }
            if ey > ym {
                ym = ey;
            }
            k = k + 1;
        }
        proof {
            assert(lv.take(n as int) =~= lv);
        }
        let width = xm + 1;
        let height = ym + 1;
        let mut counts: Vec<Vec<u32>> = Vec::new();
        let mut y: usize = 0;
        while y < height
            invariant
                0 <= y <= height,
                counts@.len() == y,
                forall|j: int| 0 <= j < y ==> (#[trigger] counts@[j])@.len() == width,
                forall|j: int, x: int| 0 <= j < y && 0 <= x < width ==> (#[trigger] counts@[j]@[x])
                    == 0,
            decreases height - y,
        {
            let mut row: Vec<u32> = Vec::new();
            let mut x: usize = 0;
            while x < width
                invariant
                    0 <= x <= width,
                    row@.len() == x,
                    forall|i: int| 0 <= i < x ==> (#[trigger] row@[i]) == 0,
                decreases width - x,
            {
                row.push(0);
                x = x + 1;
            }
            counts.push(row);
            y = y + 1;
        }
        proof {
            assert forall|px: int, py: int| 0 <= py <= ym && 0 <= px <= xm implies (
            #[trigger] counts@[py]@[px]) as int == cover(lv.take(0), diagonal, (px, py)) by {}
        }
        let mut m = VentMap { counts };
        let mut k: usize = 0;
        while k < n
            invariant
                0 <= k <= n,
                n == lv.len(),
                lv == lines@,
                forall|j: int| 0 <= j < lv.len() ==> (#[trigger] lv[j]).start != lv[j].end,
                xm as int == xmax(lv),
                ym as int == ymax(lv),
                xm < usize::MAX,
                ym < usize::MAX,
                forall|x: int, y: int| 0 <= x && 0 <= y ==> cover(lv, diagonal, (x, y))
                    <= u32::MAX as int,
                m.counts@.len() == ym + 1,
                forall|j: int| 0 <= j < m.counts@.len() ==> (#[trigger] m.counts@[j])@.len() == xm
                    + 1,
                forall|px: int, py: int| 0 <= py <= ym && 0 <= px <= xm ==> (
                #[trigger] m.counts@[py]@[px]) as int == cover(lv.take(k as int), diagonal, (px, py)),
            decreases n - k,
        {
            let pts = lines[k].get_points(diagonal);
            let ghost pv = pts@.map_values(|p: (usize, usize)| (p.0 as int, p.1 as int));
            proof {
                assert(pv == points_of(lv[k as int], diagonal));
            }
            let mut j: usize = 0;
            while j < pts.len()
                invariant
                    0 <= j <= pts.len(),
                    0 <= k < n,
                    n == lv.len(),
                    lv == lines@,
                    pv == points_of(lv[k as int], diagonal),
                    pv == pts@.map_values(|p: (usize, usize)| (p.0 as int, p.1 as int)),
                    xm as int == xmax(lv),
                    ym as int == ymax(lv),
                    xm < usize::MAX,
                    ym < usize::MAX,
                    forall|x: int, y: int| 0 <= x && 0 <= y ==> cover(lv, diagonal, (x, y))
                        <= u32::MAX as int,
                    m.counts@.len() == ym + 1,
                    forall|i: int| 0 <= i < m.counts@.len() ==> (#[trigger] m.counts@[i])@.len()
                        == xm + 1,
                    forall|px: int, py: int| 0 <= py <= ym && 0 <= px <= xm ==> (
                    #[trigger] m.counts@[py]@[px]) as int == cover(lv.take(k as int), diagonal, (px, py))
                        + occ_pt(pv.take(j as int), (px, py)),
                decreases pts.len() - j,
            {
                proof {
                    lemma_points_bounded(lv[k as int], diagonal, j as int);
                    lemma_xmax_line(lv, k as int);
                    assert(pv.take(j + 1).drop_last() =~= pv.take(j as int));
                    assert(pv.take(j + 1).last() == pv[j as int]);
                    lemma_cover_cell_bound(lv, diagonal, k as int, j + 1, pv);
                }
                let p = pts[j];
                let ghost cell = pv[j as int];
                let ghost before = m.counts@;
                let c = m.counts[p.1][p.0];
                proof {
                    assert(occ_pt(pv.take(j + 1), cell) == occ_pt(pv.take(j as int), cell) + 1);
                    assert(cover(lv.take(k as int), diagonal, cell) + occ_pt(pv.take(j + 1), cell)
                        <= cover(lv, diagonal, cell));
                    assert(c as int + 1 <= u32::MAX as int);
                }
                m.counts[p.1][p.0] = c + 1;
                proof {
                    assert forall|px: int, py: int| 0 <= py <= ym && 0 <= px <= xm implies (
                    #[trigger] m.counts@[py]@[px]) as int == cover(lv.take(k as int), diagonal, (px, py))
                        + occ_pt(pv.take(j + 1), (px, py)) by {
                        if px == p.0 as int && py == p.1 as int {
                        } else {
                            assert(m.counts@[py]@[px] == before[py]@[px]);
                            assert(occ_pt(pv.take(j + 1), (px, py)) == occ_pt(
                                pv.take(j as int),
                                (px, py),
                            ));
                        }
                    }
                }
                j = j + 1;
            }
            proof {
                assert(pv.take(pv.len() as int) =~= pv);
                assert(lv.take(k + 1).drop_last() =~= lv.take(k as int));
                assert(lv.take(k + 1).last() == lv[k as int]);
            }
            k = k + 1;
        }
        proof {
            assert(lv.take(n as int) =~= lv);
        }
        m
    }
}

/// How many cells of a row hold at least `m`.
pub open spec fn row_count_ge(row: Seq<u32>, m: int) -> int
    decreases row.len(),
{
    if row.len() == 0 {
        0
    } else {
        row_count_ge(row.drop_last(), m) + if row.last() >= m {
            1int
        } else {
            0int
        }
    }
}

/// How many cells of the whole grid hold at least `m`.
pub open spec fn grid_count_ge(rows: Seq<Seq<u32>>, m: int) -> int
    decreases rows.len(),
{
    if rows.len() == 0 {
        0
    } else {
        grid_count_ge(rows.drop_last(), m) + row_count_ge(rows.last(), m)
    }
}

/// The rows of the grid, as sequences.
pub open spec fn grid_view(counts: Seq<Vec<u32>>) -> Seq<Seq<u32>> {
    counts.map_values(|r: Vec<u32>| r@)
}

proof fn lemma_row_count_prefix(row: Seq<u32>, m: int, j: int)
    requires
        0 <= j <= row.len(),
    ensures
        0 <= row_count_ge(row.take(j), m) <= row_count_ge(row, m),
    decreases row.len() - j,
{
    if j == row.len() {
        assert(row.take(j) =~= row);
        lemma_row_count_nonneg(row, m);
    } else {
        lemma_row_count_prefix(row, m, j + 1);
        assert(row.take(j + 1).drop_last() =~= row.take(j));
        lemma_row_count_nonneg(row.take(j), m);
    }
}

proof fn lemma_row_count_nonneg(row: Seq<u32>, m: int)
    ensures
        row_count_ge(row, m) >= 0,
    decreases row.len(),
{
    if row.len() > 0 {
        lemma_row_count_nonneg(row.drop_last(), m);
    }
}

proof fn lemma_grid_count_prefix(rows: Seq<Seq<u32>>, m: int, j: int)
    requires
        0 <= j <= rows.len(),
    ensures
        0 <= grid_count_ge(rows.take(j), m) <= grid_count_ge(rows, m),
    decreases rows.len() - j,
{
    if j == rows.len() {
        assert(rows.take(j) =~= rows);
        lemma_grid_count_nonneg(rows, m);
    } else {
        lemma_grid_count_prefix(rows, m, j + 1);
        assert(rows.take(j + 1).drop_last() =~= rows.take(j));
        lemma_grid_count_nonneg(rows.take(j), m);
        lemma_row_count_nonneg(rows[j], m);
    }
}

proof fn lemma_grid_count_nonneg(rows: Seq<Seq<u32>>, m: int)
    ensures
        grid_count_ge(rows, m) >= 0,
    decreases rows.len(),
{
    if rows.len() > 0 {
        lemma_grid_count_nonneg(rows.drop_last(), m);
        lemma_row_count_nonneg(rows.last(), m);
    }
}

impl VentMap {
    /// How many cells at least `min_count` vent lines cover.
    pub fn overlapping_count(&self, min_count: u32) -> (r: usize)
        requires
            grid_count_ge(grid_view(self.counts@), min_count as int) <= usize::MAX as int,
        ensures
            r as int == grid_count_ge(grid_view(self.counts@), min_count as int),
    {
        let ghost g = grid_view(self.counts@);
        let mut r: usize = 0;
        let mut y: usize = 0;
        while y < self.counts.len()
            invariant
                0 <= y <= self.counts@.len(),
                g == grid_view(self.counts@),
                grid_count_ge(g, min_count as int) <= usize::MAX as int,
                r as int == grid_count_ge(g.take(y as int), min_count as int),
            decreases self.counts@.len() - y,
        {
            let row = &self.counts[y];
            let ghost rv = row@;
            proof {
                assert(g[y as int] == rv);
                assert(g.take(y + 1).drop_last() =~= g.take(y as int));
                assert(g.take(y + 1).last() == rv);
                lemma_grid_count_prefix(g, min_count as int, y + 1);
                lemma_row_count_nonneg(rv, min_count as int);
                lemma_grid_count_prefix(g, min_count as int, y as int);
            }
            let mut x: usize = 0;
            while x < row.len()
                invariant
                    0 <= x <= rv.len(),
                    rv == row@,
                    grid_count_ge(g.take(y as int), min_count as int) + row_count_ge(
                        rv,
                        min_count as int,
                    ) <= usize::MAX as int,
                    grid_count_ge(g.take(y as int), min_count as int) >= 0,
                    r as int == grid_count_ge(g.take(y as int), min_count as int) + row_count_ge(
                        rv.take(x as int),
                        min_count as int,
                    ),
                decreases rv.len() - x,
            {
                proof {
                    lemma_row_count_prefix(rv, min_count as int, x + 1);
                    assert(rv.take(x + 1).drop_last() =~= rv.take(x as int));
                    assert(rv.take(x + 1).last() == rv[x as int]);
                }
                if row[x] >= min_count {
                    r = r + 1;
                }
                x = x + 1;
            }
            proof {
                assert(rv.take(rv.len() as int) =~= rv);
            }
            y = y + 1;
        }
        proof {
            assert(g.take(g.len() as int) =~= g);
        }
        r
    }
}

proof fn lemma_prefix_maxes(lines: Seq<VentLine>, k: int)
    requires
        0 <= k <= lines.len(),
    ensures
        xmax(lines.take(k)) <= xmax(lines),
        ymax(lines.take(k)) <= ymax(lines),
    decreases lines.len() - k,
{
    if k == lines.len() {
        assert(lines.take(k) =~= lines);
    } else {
        lemma_prefix_maxes(lines, k + 1);
        assert(lines.take(k + 1).drop_last() =~= lines.take(k));
        lemma_maxes_nonneg(lines.take(k));
    }
}

/// The running count at a cell never exceeds the final cover count, so the
/// `u32` cells cannot overflow.
proof fn lemma_cover_cell_bound(
    lines: Seq<VentLine>,
    diagonal: bool,
    k: int,
    j: int,
    pv: Seq<(int, int)>,
)
    requires
        0 <= k < lines.len(),
        pv == points_of(lines[k], diagonal),
        0 <= j <= pv.len(),
    ensures
        forall|p: (int, int)| cover(lines.take(k), diagonal, p) + #[trigger] occ_pt(pv.take(j), p)
            <= cover(lines, diagonal, p),
{
    assert forall|p: (int, int)|
        cover(lines.take(k), diagonal, p) + #[trigger] occ_pt(pv.take(j), p) <= cover(
        lines,
        diagonal,
        p,
    ) by {
        lemma_occ_prefix(pv, j, p);
        lemma_cover_step(lines, diagonal, k, p);
    }
}

proof fn lemma_occ_prefix(pv: Seq<(int, int)>, j: int, p: (int, int))
    requires
        0 <= j <= pv.len(),
    ensures
        0 <= occ_pt(pv.take(j), p) <= occ_pt(pv, p),
    decreases pv.len() - j,
{
    if j == pv.len() {
        assert(pv.take(j) =~= pv);
        lemma_occ_nonneg(pv.take(j), p);
    } else {
        lemma_occ_prefix(pv, j + 1, p);
        assert(pv.take(j + 1).drop_last() =~= pv.take(j));
        lemma_occ_nonneg(pv.take(j), p);
    }
}

proof fn lemma_occ_nonneg(pv: Seq<(int, int)>, p: (int, int))
    ensures
        occ_pt(pv, p) >= 0,
    decreases pv.len(),
{
    if pv.len() > 0 {
        lemma_occ_nonneg(pv.drop_last(), p);
    }
}

/// Covering by a prefix of the lines, plus the whole of line `k`, is at
/// most covering by all the lines.
proof fn lemma_cover_step(lines: Seq<VentLine>, diagonal: bool, k: int, p: (int, int))
    requires
        0 <= k < lines.len(),
    ensures
        cover(lines.take(k), diagonal, p) + occ_pt(points_of(lines[k], diagonal), p) <= cover(
            lines,
            diagonal,
            p,
        ),
        cover(lines.take(k), diagonal, p) >= 0,
    decreases lines.len(),
{
    assert(lines.take(k + 1).drop_last() =~= lines.take(k));
    assert(lines.take(k + 1).last() == lines[k]);
    lemma_cover_prefix(lines, k + 1, p, diagonal);
    lemma_cover_nonneg(lines.take(k), p, diagonal);
}

proof fn lemma_cover_prefix(lines: Seq<VentLine>, j: int, p: (int, int), diagonal: bool)
    requires
        0 <= j <= lines.len(),
    ensures
        cover(lines.take(j), diagonal, p) <= cover(lines, diagonal, p),
    decreases lines.len() - j,
{
    if j == lines.len() {
        assert(lines.take(j) =~= lines);
    } else {
        lemma_cover_prefix(lines, j + 1, p, diagonal);
        assert(lines.take(j + 1).drop_last() =~= lines.take(j));
        lemma_occ_nonneg(points_of(lines[j], diagonal), p);
    }
}

proof fn lemma_cover_nonneg(lines: Seq<VentLine>, p: (int, int), diagonal: bool)
    ensures
        cover(lines, diagonal, p) >= 0,
    decreases lines.len(),
{
    if lines.len() > 0 {
        lemma_cover_nonneg(lines.drop_last(), p, diagonal);
        lemma_occ_nonneg(points_of(lines.last(), diagonal), p);
    }
}

} // verus!
