//! Dumbo octopuses: a grid of energy levels that flash in cascades; this
//! module holds the grid value type and its neighbourhood geometry.
use vstd::prelude::*;

verus! {

use crate::parse::{digit_grid, digit_grid_ok, digit_val, line_ranges, token_view};

/// The grid of octopus energy levels, and how many flashes have happened.
#[derive(Debug, Clone, PartialEq, Eq)]
pub struct EnergyMap {
    pub map: Vec<Vec<u32>>,
    pub flashes: usize,
}

/// The eight neighbours of `(y, x)` that lie inside a `my` by `mx` grid,
/// in the fixed probe order.
pub open spec fn adjacent_of(y: int, x: int, my: int, mx: int) -> Seq<(int, int)> {
    let offsets = seq![
        (0int, 1int),
        (0int, -1int),
        (1int, 0int),
        (-1int, 0int),
        (1int, 1int),
        (1int, -1int),
        (-1int, 1int),
        (-1int, -1int),
    ];
    offsets.map_values(|d: (int, int)| (y + d.0, x + d.1)).filter(
        |p: (int, int)| 0 <= p.0 < my && 0 <= p.1 < mx,
    )
}

impl EnergyMap {
    pub fn new(map: Vec<Vec<u32>>) -> (m: EnergyMap)
        ensures
            m.map == map,
            m.flashes == 0,
    {
        EnergyMap { map, flashes: 0 }
    }

    /// Reads the energy grid, one digit per octopus.
    pub fn parse(input: &str) -> (m: EnergyMap)
        requires
            digit_grid_ok(input@),
        ensures
            m.flashes == 0,
            ({
                let ls = line_ranges(input@);
                &&& m.map@.len() == ls.len()
                &&& forall|y: int| 0 <= y < ls.len() ==> (#[trigger] m.map@[y])@.len() == ls[y].1
                    - ls[y].0
                &&& forall|y: int, j: int|
                    0 <= y < ls.len() && 0 <= j < m.map@[y]@.len() ==> (#[trigger] m.map@[y]@[j])
                        as int == digit_val(token_view(input@, ls[y])[j])
            }),
    {
        EnergyMap::new(digit_grid(input))
    }

    /// The grid's height and width.
    pub fn size(&self) -> (s: (usize, usize))
        requires
            self.map@.len() > 0,
        ensures
            s.0 == self.map@.len(),
            s.1 == self.map@[0]@.len(),
    {
        (self.map.len(), self.map[0].len())
    }

    /// The in-grid neighbours of `(y, x)`, diagonals included.
    pub fn adjacent(&self, y: isize, x: isize) -> (r: Vec<(isize, isize)>)
        requires
            self.map@.len() > 0,
            -100_000 <= y <= 100_000,
            -100_000 <= x <= 100_000,
            self.map@.len() <= 100_000,
            self.map@[0]@.len() <= 100_000,
        ensures
            r@.map_values(|p: (isize, isize)| (p.0 as int, p.1 as int)) == adjacent_of(
                y as int,
                x as int,
                self.map@.len() as int,
                self.map@[0]@.len() as int,
            ),
    {
        let (my, mx) = self.size();
        let ghost goal = adjacent_of(y as int, x as int, my as int, mx as int);
        let mut r: Vec<(isize, isize)> = Vec::new();
        let dys: [isize; 8] = [0, 0, 1, -1, 1, 1, -1, -1];
        let dxs: [isize; 8] = [1, -1, 0, 0, 1, -1, 1, -1];
        let mut k: usize = 0;
        while k < 8
            invariant
                0 <= k <= 8,
                -100_000 <= y <= 100_000,
                -100_000 <= x <= 100_000,
                0 < my <= 100_000,
                0 <= mx <= 100_000,
                dys@ =~= seq![0isize, 0isize, 1isize, -1isize, 1isize, 1isize, -1isize, -1isize],
                dxs@ =~= seq![1isize, -1isize, 0isize, 0isize, 1isize, -1isize, 1isize, -1isize],
                goal == adjacent_of(y as int, x as int, my as int, mx as int),
                r@.map_values(|p: (isize, isize)| (p.0 as int, p.1 as int)) =~= adjacent_prefix(
                    y as int,
                    x as int,
                    my as int,
                    mx as int,
                    k as int,
                ),
            decreases 8 - k,
        {
            let ny = y + dys[k];
            let nx = x + dxs[k];
            proof {
                lemma_adjacent_prefix_step(y as int, x as int, my as int, mx as int, k as int);
            }
            if ny >= 0 && nx >= 0 && (ny as usize) < my && (nx as usize) < mx {
                r.push((ny, nx));
            }
            k = k + 1;
        }
        proof {
            lemma_adjacent_prefix_full(y as int, x as int, my as int, mx as int);
        }
        r
    }
}

/// The probe offsets, in order.
pub open spec fn probe_offsets() -> Seq<(int, int)> {
    seq![
        (0int, 1int),
        (0int, -1int),
        (1int, 0int),
        (-1int, 0int),
        (1int, 1int),
        (1int, -1int),
        (-1int, 1int),
        (-1int, -1int),
    ]
}

/// The first `k` probes around `(y, x)` that land inside the grid.
pub open spec fn adjacent_prefix(y: int, x: int, my: int, mx: int, k: int) -> Seq<(int, int)> {
    probe_offsets().take(k).map_values(|d: (int, int)| (y + d.0, x + d.1)).filter(
        |p: (int, int)| 0 <= p.0 < my && 0 <= p.1 < mx,
    )
}

proof fn lemma_adjacent_prefix_step(y: int, x: int, my: int, mx: int, k: int)
    requires
        0 <= k < 8,
    ensures
        ({
            let d = probe_offsets()[k];
            let p = (y + d.0, x + d.1);
            adjacent_prefix(y, x, my, mx, k + 1) == if 0 <= p.0 < my && 0 <= p.1 < mx {
                adjacent_prefix(y, x, my, mx, k).push(p)
            } else {
                adjacent_prefix(y, x, my, mx, k)
            }
        }),
{
    let off = probe_offsets();
    let f = |d: (int, int)| (y + d.0, x + d.1);
    let pred = |p: (int, int)| 0 <= p.0 < my && 0 <= p.1 < mx;
    assert(off.take(k + 1).map_values(f).drop_last() =~= off.take(k).map_values(f));
    assert(off.take(k + 1).map_values(f) =~= off.take(k).map_values(f).push(f(off[k])));
    reveal_with_fuel(Seq::filter, 2);
    assert(off.take(k + 1).map_values(f).filter(pred) == if pred(f(off[k])) {
        off.take(k).map_values(f).filter(pred).push(f(off[k]))
    } else {
        off.take(k).map_values(f).filter(pred)
    });
}

proof fn lemma_adjacent_prefix_full(y: int, x: int, my: int, mx: int)
    ensures
        adjacent_prefix(y, x, my, mx, 8) == adjacent_of(y, x, my, mx),
{
    assert(probe_offsets().take(8) =~= probe_offsets());
}

} // verus!
