//! Smoke basins: a height grid, its low points, and the risk total of the
//! low points.
use vstd::prelude::*;

verus! {

use crate::parse::{digit_grid, digit_grid_ok, digit_val, line_ranges, token_view};

/// The height grid.
#[derive(Debug, Clone, PartialEq, Eq)]
pub struct HeightMap {
    pub map: Vec<Vec<u32>>,
}

/// Every row of the grid is as wide as the first.
pub open spec fn rect(g: Seq<Vec<u32>>) -> bool {
    forall|y: int| 0 <= y < g.len() ==> (#[trigger] g[y])@.len() == g[0]@.len()
}

/// The height at `(y, x)`, or nothing outside the grid.
pub open spec fn value_at(g: Seq<Vec<u32>>, y: int, x: int) -> Option<u32> {
    if 0 <= y < g.len() && 0 <= x < g[0]@.len() {
        Some(g[y]@[x])
    } else {
        None
    }
}

/// The defined orthogonal neighbour heights of `(y, x)`, probed right,
/// left, down, up.
pub open spec fn adjacent_of(g: Seq<Vec<u32>>, y: int, x: int) -> Seq<u32> {
    opt_seq(value_at(g, y, x + 1)) + opt_seq(value_at(g, y, x - 1)) + opt_seq(
        value_at(g, y + 1, x),
    ) + opt_seq(value_at(g, y - 1, x))
}

pub open spec fn opt_seq(o: Option<u32>) -> Seq<u32> {
    match o {
        Some(v) => seq![v],
        None => Seq::empty(),
    }
}

/// A low point: strictly lower than every defined neighbour.
pub open spec fn is_low(g: Seq<Vec<u32>>, y: int, x: int) -> bool {
    forall|k: int| 0 <= k < adjacent_of(g, y, x).len() ==> (#[trigger] adjacent_of(g, y, x)[k])
        > g[y]@[x]
}

/// The low points of row `y` from column `x` on, in column order.
pub open spec fn row_lows(g: Seq<Vec<u32>>, y: int, x: int) -> Seq<(int, int)>
    decreases g[0]@.len() - x,
{
    if x < 0 || x >= g[0]@.len() {
        Seq::empty()
    } else {
        let rest = row_lows(g, y, x + 1);
        if is_low(g, y, x) {
            seq![(y, x)] + rest
        } else {
            rest
        }
    }
}

/// The low points of the grid from row `y` on, in row-major order.
pub open spec fn all_lows(g: Seq<Vec<u32>>, y: int) -> Seq<(int, int)>
    decreases g.len() - y,
{
    if y < 0 || y >= g.len() {
        Seq::empty()
    } else {
        row_lows(g, y, 0) + all_lows(g, y + 1)
    }
}

/// The risk total of a list of low points: each height plus one.
pub open spec fn risk_sum(g: Seq<Vec<u32>>, ps: Seq<(int, int)>) -> int
    decreases ps.len(),
{
    if ps.len() == 0 {
        0
    } else {
        g[ps.first().0]@[ps.first().1] + 1 + risk_sum(g, ps.drop_first())
    }
}

impl HeightMap {
    pub fn new(map: Vec<Vec<u32>>) -> (m: HeightMap)
        ensures
            m.map == map,
    {
        HeightMap { map }
    }

    /// Reads the height grid, one digit per cell.
    pub fn parse(input: &str) -> (m: HeightMap)
        requires
            digit_grid_ok(input@),
        ensures
            ({
                let ls = line_ranges(input@);
                &&& m.map@.len() == ls.len()
                &&& forall|y: int| 0 <= y < ls.len() ==> (#[trigger] m.map@[y])@.len() == ls[y].1
                    - ls[y].0
                &&& forall|y: int, j: int|
                    0 <= y < ls.len() && 0 <= j < m.map@[y]@.len() ==> (#[trigger] m.map@[y]@[j])
                        as int == digit_val(token_view(input@, ls[y])[j])
            }),
    {
        HeightMap::new(digit_grid(input))
    }

    /// The grid's height and width.
    pub fn size(&self) -> (s: (usize, usize))
        requires
            self.map@.len() > 0,
        ensures
            s.0 == self.map@.len(),
            s.1 == self.map@[0]@.len(),
    {
        (self.map.len(), self.map[0].len())
    }

    /// The height at `(y, x)`, or `None` outside the grid.
    pub fn value(&self, y: isize, x: isize) -> (r: Option<u32>)
        requires
            self.map@.len() > 0,
            rect(self.map@),
        ensures
            r == value_at(self.map@, y as int, x as int),
    {
        let (my, mx) = self.size();
        if y >= 0 && x >= 0 && (y as usize) < my && (x as usize) < mx {
            return Some(self.map[y as usize][x as usize]);
        }
        None
    }

    /// The heights of the defined orthogonal neighbours of `(y, x)`.
    pub fn adjacent(&self, y: isize, x: isize) -> (r: Vec<u32>)
        requires
            self.map@.len() > 0,
            rect(self.map@),
            -100_000 <= y <= 100_000,
            -100_000 <= x <= 100_000,
        ensures
            r@ == adjacent_of(self.map@, y as int, x as int),
    {
        let mut r: Vec<u32> = Vec::new();
        if let Some(v) = self.value(y, x + 1) {
            r.push(v);
        }
        if let Some(v) = self.value(y, x - 1) {
            r.push(v);
        }
        if let Some(v) = self.value(y + 1, x) {
            r.push(v);
        }
        if let Some(v) = self.value(y - 1, x) {
            r.push(v);
        }
        proof {
            assert(r@ =~= adjacent_of(self.map@, y as int, x as int));
        }
        r
    }

    /// Whether `(y, x)` is strictly lower than every defined neighbour.
    fn low_at(&self, y: usize, x: usize) -> (r: bool)
        requires
            self.map@.len() > 0,
            rect(self.map@),
            y < self.map@.len(),
            x < self.map@[0]@.len(),
            self.map@.len() <= 100_000,
            self.map@[0]@.len() <= 100_000,
        ensures
            r == is_low(self.map@, y as int, x as int),
    {
        let adj = self.adjacent(y as isize, x as isize);
        let v = self.map[y][x];
        let mut k: usize = 0;
        while k < adj.len()
            invariant
                0 <= k <= adj@.len(),
                adj@ == adjacent_of(self.map@, y as int, x as int),
                v == self.map@[y as int]@[x as int],
                forall|j: int| 0 <= j < k ==> (#[trigger] adj@[j]) > v,
            decreases adj@.len() - k,
        {
            if adj[k] <= v {
                return false;
            }
            k = k + 1;
        }
        true
    }

    /// The low points of the grid, in row-major order.
    pub fn low_points(&self) -> (r: Vec<(isize, isize)>)
        requires
            self.map@.len() > 0,
            rect(self.map@),
            self.map@.len() <= 100_000,
            self.map@[0]@.len() <= 100_000,
        ensures
            r@.map_values(|p: (isize, isize)| (p.0 as int, p.1 as int)) == all_lows(self.map@, 0),
    {
        let (my, mx) = self.size();
        let mut r: Vec<(isize, isize)> = Vec::new();
        let ghost g = self.map@;
        let mut y: usize = 0;
        while y < my
            invariant
                0 <= y <= my,
                g == self.map@,
                my == g.len(),
                mx == g[0]@.len(),
                0 < my <= 100_000,
                mx <= 100_000,
                rect(g),
                r@.map_values(|p: (isize, isize)| (p.0 as int, p.1 as int)) + all_lows(
                    g,
                    y as int,
                ) == all_lows(g, 0),
            decreases my - y,
        {
            let mut x: usize = 0;
            while x < mx
                invariant
                    0 <= x <= mx,
                    0 <= y < my,
                    g == self.map@,
                    my == g.len(),
                    mx == g[0]@.len(),
                    0 < my <= 100_000,
                    mx <= 100_000,
                    rect(g),
                    r@.map_values(|p: (isize, isize)| (p.0 as int, p.1 as int)) + row_lows(
                        g,
                        y as int,
                        x as int,
                    ) + all_lows(g, y + 1) == all_lows(g, 0),
                decreases mx - x,
            {
                let ghost before = r@.map_values(|p: (isize, isize)| (p.0 as int, p.1 as int));
                if self.low_at(y, x) {
                    r.push((y as isize, x as isize));
                    proof {
                        assert(r@.map_values(|p: (isize, isize)| (p.0 as int, p.1 as int)) =~=
                            before.push((y as int, x as int)));
                        assert(before.push((y as int, x as int)) + row_lows(g, y as int, x + 1)
                            =~= before + (seq![(y as int, x as int)] + row_lows(
                            g,
                            y as int,
                            x + 1,
                        )));
                    }
                }
                x = x + 1;
            }
            proof {
                assert(row_lows(g, y as int, mx as int) =~= Seq::<(int, int)>::empty());
                assert(r@.map_values(|p: (isize, isize)| (p.0 as int, p.1 as int)) + all_lows(
                    g,
                    y + 1,
                ) =~= r@.map_values(|p: (isize, isize)| (p.0 as int, p.1 as int)) + (row_lows(
                    g,
                    y as int,
                    mx as int,
                ) + all_lows(g, y + 1)));
            }
            y = y + 1;
        }
        proof {
            assert(all_lows(g, my as int) =~= Seq::<(int, int)>::empty());
            assert(r@.map_values(|p: (isize, isize)| (p.0 as int, p.1 as int)) + Seq::<
                (int, int),
            >::empty() =~= r@.map_values(|p: (isize, isize)| (p.0 as int, p.1 as int)));
        }
        r
    }
}

/// The risk total of the grid's low points: each low height plus one.
pub fn part1(hm: &HeightMap) -> (r: u32)
    requires
        hm.map@.len() > 0,
        rect(hm.map@),
        hm.map@.len() <= 100_000,
        hm.map@[0]@.len() <= 100_000,
        risk_sum(hm.map@, all_lows(hm.map@, 0)) <= u32::MAX as int,
    ensures
        r as int == risk_sum(hm.map@, all_lows(hm.map@, 0)),
{
    let ghost g = hm.map@;
    let ghost lows = all_lows(g, 0);
    proof {
        lemma_all_lows_in_grid(g, 0);
    }
    let pts = hm.low_points();
    let ghost pv = pts@.map_values(|p: (isize, isize)| (p.0 as int, p.1 as int));
    let mut r: u32 = 0;
    let mut k: usize = 0;
    proof {
        assert(lows.skip(0) =~= lows);
    }
    while k < pts.len()
        invariant
            0 <= k <= pts@.len(),
            g == hm.map@,
            g.len() > 0,
            rect(g),
            lows == all_lows(g, 0),
            pv == lows,
            pv == pts@.map_values(|p: (isize, isize)| (p.0 as int, p.1 as int)),
            risk_sum(g, lows) <= u32::MAX as int,
            r as int + risk_sum(g, lows.skip(k as int)) == risk_sum(g, lows),
            forall|j: int| 0 <= j < pv.len() ==> 0 <= (#[trigger] pv[j]).0 < g.len() && 0
                <= pv[j].1 < g[0]@.len(),
        decreases pts@.len() - k,
    {
        proof {
            assert(lows.skip(k as int).first() == pv[k as int]);
            assert(lows.skip(k as int).drop_first() =~= lows.skip(k + 1));
            lemma_risk_sum_nonneg(g, lows.skip(k + 1));
        }
        let p = pts[k];
        r = r + self_value(hm, p.0 as usize, p.1 as usize) + 1;
        k = k + 1;
    }
    proof {
        assert(lows.skip(pv.len() as int) =~= Seq::<(int, int)>::empty());
    }
    r
}

/// The height at an in-grid cell.
fn self_value(hm: &HeightMap, y: usize, x: usize) -> (v: u32)
    requires
        rect(hm.map@),
        y < hm.map@.len(),
        x < hm.map@[0]@.len(),
    ensures
        v == hm.map@[y as int]@[x as int],
{
    hm.map[y][x]
}

proof fn lemma_row_lows_in_grid(g: Seq<Vec<u32>>, y: int, x: int)
    ensures
        forall|j: int| 0 <= j < row_lows(g, y, x).len() ==> (#[trigger] row_lows(g, y, x)[j]).0
            == y && 0 <= row_lows(g, y, x)[j].1 < g[0]@.len(),
    decreases g[0]@.len() - x,
{
    if 0 <= x < g[0]@.len() {
        lemma_row_lows_in_grid(g, y, x + 1);
        let rest = row_lows(g, y, x + 1);
        if is_low(g, y, x) {
            assert forall|j: int| 0 <= j < row_lows(g, y, x).len() implies (#[trigger] row_lows(
                g,
                y,
                x,
            )[j]).0 == y && 0 <= row_lows(g, y, x)[j].1 < g[0]@.len() by {
                if j > 0 {
                    assert(row_lows(g, y, x)[j] == rest[j - 1]);
                }
            }
        }
    }
}

proof fn lemma_all_lows_in_grid(g: Seq<Vec<u32>>, y: int)
    ensures
        forall|j: int| 0 <= j < all_lows(g, y).len() ==> 0 <= (#[trigger] all_lows(g, y)[j]).0
            < g.len() && 0 <= all_lows(g, y)[j].1 < g[0]@.len(),
    decreases g.len() - y,
{
    if 0 <= y < g.len() {
        lemma_all_lows_in_grid(g, y + 1);
        lemma_row_lows_in_grid(g, y, 0);
        let row = row_lows(g, y, 0);
        let rest = all_lows(g, y + 1);
        assert forall|j: int| 0 <= j < all_lows(g, y).len() implies 0 <= (#[trigger] all_lows(
            g,
            y,
        )[j]).0 < g.len() && 0 <= all_lows(g, y)[j].1 < g[0]@.len() by {
            if j < row.len() {
                assert(all_lows(g, y)[j] == row[j]);
            } else {
                assert(all_lows(g, y)[j] == rest[j - row.len()]);
            }
        }
    }
}

proof fn lemma_risk_sum_nonneg(g: Seq<Vec<u32>>, ps: Seq<(int, int)>)
    ensures
        risk_sum(g, ps) >= 0,
    decreases ps.len(),
{
    if ps.len() > 0 {
        lemma_risk_sum_nonneg(g, ps.drop_first());
    }
}

} // verus!
