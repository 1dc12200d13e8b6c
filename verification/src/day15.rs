//! Chiton cave: a risk grid and the geometry helpers of the path search,
//! plus the five-fold tiled map of the second part.
use vstd::prelude::*;

verus! {

/// The four orthogonal neighbours of `(y, x)`, unbounded.
pub open spec fn adjacent_of(y: int, x: int) -> Seq<(int, int)> {
    seq![(y, x + 1), (y, x - 1), (y + 1, x), (y - 1, x)]
}

/// The orthogonal neighbours of `(y, x)`, in the fixed probe order.
pub fn adjacent(y: isize, x: isize) -> (r: Vec<(isize, isize)>)
    requires
        -100_000 <= y <= 100_000,
        -100_000 <= x <= 100_000,
    ensures
        r@.map_values(|p: (isize, isize)| (p.0 as int, p.1 as int)) == adjacent_of(
            y as int,
            x as int,
        ),
{
    let r = vec![(y, x + 1), (y, x - 1), (y + 1, x), (y - 1, x)];
    proof {
        assert(r@.map_values(|p: (isize, isize)| (p.0 as int, p.1 as int)) =~= adjacent_of(
            y as int,
            x as int,
        ));
    }
    r
}

/// Every row of the grid is as wide as the first.
pub open spec fn rect(g: Seq<Vec<u32>>) -> bool {
    forall|y: int| 0 <= y < g.len() ==> (#[trigger] g[y])@.len() == g[0]@.len()
}

/// The risk at `(y, x)`, or the impassable sentinel outside the grid.
///
/// The bounds read crosswise: the height limit comes from the first row's
/// width and the width limit from the number of rows, so only square maps
/// are accepted.
pub open spec fn value_at(map: Seq<Vec<u32>>, y: int, x: int) -> u32 {
    if 0 <= y && 0 <= x && y < map[0]@.len() && x < map.len() {
        map[y]@[x]
    } else {
        u32::MAX
    }
}

/// The risk at `(y, x)`, or `u32::MAX` outside the grid.
pub fn get_value(map: &Vec<Vec<u32>>, y: isize, x: isize) -> (r: u32)
    requires
        map@.len() > 0,
        rect(map@),
        map@.len() == map@[0]@.len(),
    ensures
        r == value_at(map@, y as int, x as int),
{
    let my = map[0].len();
    let mx = map.len();
    if y >= 0 && x >= 0 && (y as usize) < my && (x as usize) < mx {
        return map[y as usize][x as usize];
    }
    u32::MAX
}

/// The five-by-five tiled map: each tile adds its taxicab distance from
/// the first tile, wrapping risks past nine back around to one.
pub fn part2_map(map: &Vec<Vec<u32>>) -> (r: Vec<Vec<u32>>)
    requires
        map@.len() > 0,
        rect(map@),
        map@.len() <= 10_000,
        0 < map@[0]@.len() <= 10_000,
        forall|y: int, x: int|
            0 <= y < map@.len() && 0 <= x < map@[0]@.len() ==> (#[trigger] map@[y]@[x]) <= 9,
    ensures
        r@.len() == 5 * map@.len(),
        forall|y: int| 0 <= y < r@.len() ==> (#[trigger] r@[y])@.len() == 5 * map@[0]@.len(),
        forall|y: int, x: int|
            0 <= y < r@.len() && 0 <= x < r@[y]@.len() ==> (#[trigger] r@[y]@[x]) as int == ({
                let h = map@.len() as int;
                let w = map@[0]@.len() as int;
                let n = map@[y % h]@[x % w] as int + y / h + x / w;
                if n > 9 {
                    n % 10 + 1
                } else {
                    n
                }
            }),
{
    let ysize = map.len();
    let xsize = map[0].len();
    let mut r: Vec<Vec<u32>> = Vec::new();
    let mut y: usize = 0;
    while y < 5 * ysize
        invariant
            0 <= y <= 5 * ysize,
            0 < ysize == map@.len() <= 10_000,
            0 < xsize == map@[0]@.len() <= 10_000,
            rect(map@),
            forall|j: int, x: int|
                0 <= j < ysize && 0 <= x < xsize ==> (#[trigger] map@[j]@[x]) <= 9,
            r@.len() == y,
            forall|j: int| 0 <= j < y ==> (#[trigger] r@[j])@.len() == 5 * xsize,
            forall|j: int, x: int|
                0 <= j < y && 0 <= x < 5 * xsize ==> (#[trigger] r@[j]@[x]) as int == ({
                    let n = map@[j % ysize as int]@[x % xsize as int] as int + j / (ysize as int)
                        + x / (xsize as int);
                    if n > 9 {
                        n % 10 + 1
                    } else {
                        n
                    }
                }),
        decreases 5 * ysize - y,
    {
        let mut row: Vec<u32> = Vec::new();
        let mut x: usize = 0;
        while x < 5 * xsize
            invariant
                0 <= x <= 5 * xsize,
                0 <= y < 5 * ysize,
                0 < ysize == map@.len() <= 10_000,
                0 < xsize == map@[0]@.len() <= 10_000,
                rect(map@),
                forall|j: int, i: int|
                    0 <= j < ysize && 0 <= i < xsize ==> (#[trigger] map@[j]@[i]) <= 9,
                row@.len() == x,
                forall|i: int| 0 <= i < x ==> (#[trigger] row@[i]) as int == ({
                    let n = map@[y as int % ysize as int]@[i % xsize as int] as int + y as int / (
                    ysize as int) + i / (xsize as int);
                    if n > 9 {
                        n % 10 + 1
                    } else {
                        n
                    }
                }),
            decreases 5 * xsize - x,
        {
            let v = map[y % ysize][x % xsize];
            let add = (y / ysize + x / xsize) as u32;
            let mut n = v + add;
            if n > 9 {
                n = n % 10 + 1;
            }
            row.push(n);
            x = x + 1;
        }
        r.push(row);
        y = y + 1;
    }
    r
}

} // verus!
