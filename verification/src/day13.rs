//! Transparent origami: dots on a sheet, folded along horizontal and
//! vertical lines until a code appears.
use vstd::prelude::*;

verus! {

use crate::parse::{line_ranges, pair_of, parse_pair_range, split_lines, str_eq, token_view};

/// The sheet: the marked dots, and the sheet's width and height.
#[derive(Debug, PartialEq, Eq)]
pub struct Paper {
    pub marked: Vec<(usize, usize)>,
    pub size: (usize, usize),
}

/// The dots of the marked-dot block: one `x,y` pair per line.
pub open spec fn dots_ok(s: Seq<char>) -> bool {
    let ls = line_ranges(s);
    &&& ls.len() >= 1
    &&& forall|k: int| 0 <= k < ls.len() ==> pair_of(token_view(s, #[trigger] ls[k])) is Some
}

pub open spec fn dot_at(s: Seq<char>, k: int) -> (int, int) {
    pair_of(token_view(s, line_ranges(s)[k]))->0
}

/// The largest first coordinate among the dots.
pub open spec fn dots_xmax(s: Seq<char>, n: int) -> int
    decreases n,
{
    if n <= 1 {
        dot_at(s, 0).0
    } else {
        let m = dots_xmax(s, n - 1);
        if dot_at(s, n - 1).0 >= m {
            dot_at(s, n - 1).0
        } else {
            m
        }
    }
}

/// The largest second coordinate among the dots.
pub open spec fn dots_ymax(s: Seq<char>, n: int) -> int
    decreases n,
{
    if n <= 1 {
        dot_at(s, 0).1
    } else {
        let m = dots_ymax(s, n - 1);
        if dot_at(s, n - 1).1 >= m {
            dot_at(s, n - 1).1
        } else {
            m
        }
    }
}

impl Paper {
    /// Reads the dot block; the sheet is sized to just hold the dots.
    pub fn parse(board: &str) -> (p: Paper)
        requires
            dots_ok(board@),
            dots_xmax(board@, line_ranges(board@).len() as int) < usize::MAX as int,
            dots_ymax(board@, line_ranges(board@).len() as int) < usize::MAX as int,
        ensures
            ({
                let n = line_ranges(board@).len() as int;
                &&& p.marked@.len() == n
                &&& forall|k: int| 0 <= k < n ==> ((#[trigger] p.marked@[k]).0 as int,
                    p.marked@[k].1 as int) == dot_at(board@, k)
                &&& p.size.0 as int == dots_xmax(board@, n) + 1
                &&& p.size.1 as int == dots_ymax(board@, n) + 1
            }),
    {
        let ghost ls = line_ranges(board@);
        let lines = split_lines(board);
        let mut marked: Vec<(usize, usize)> = Vec::new();
        let mut xm: usize = 0;
        let mut ym: usize = 0;
        let mut k: usize = 0;
        while k < lines.len()
            invariant
                0 <= k <= lines@.len(),
                dots_ok(board@),
                ls == line_ranges(board@),
                lines@.map_values(|b: (usize, usize)| (b.0 as int, b.1 as int)) == ls,
                forall|j: int| 0 <= j < lines@.len() ==> (#[trigger] lines@[j]).0 <= lines@[j].1
                    <= board@.len(),
                dots_xmax(board@, ls.len() as int) < usize::MAX as int,
                dots_ymax(board@, ls.len() as int) < usize::MAX as int,
                marked@.len() == k,
                forall|j: int| 0 <= j < k ==> ((#[trigger] marked@[j]).0 as int,
                    marked@[j].1 as int) == dot_at(board@, j),
                k >= 1 ==> xm as int == dots_xmax(board@, k as int),
                k >= 1 ==> ym as int == dots_ymax(board@, k as int),
                k == 0 ==> xm == 0 && ym == 0,
            decreases lines@.len() - k,
        {
            let (from, to) = lines[k];
            proof {
                assert(ls[k as int] == (from as int, to as int));
                assert(pair_of(token_view(board@, ls[k as int])) is Some);
                lemma_dots_max_prefix(board@, k + 1, ls.len() as int);
            }
            let d = parse_pair_range(board, from, to);
            marked.push(d);
            if k == 0 || d.0 > xm {
                xm = d.0;
            }
            if k == 0 || d.1 > ym {
                ym = d.1;
            }
            k = k + 1;
        }
        Paper { marked, size: (xm + 1, ym + 1) }
    }

    pub fn new(marked: Vec<(usize, usize)>, size: (usize, usize)) -> (p: Paper)
        ensures
            p.marked == marked,
            p.size == size,
    {
        Paper { marked, size }
    }

    /// The sheet as a grid of booleans, true where a dot is marked.
    pub fn map(&self) -> (g: Vec<Vec<bool>>)
        requires
            forall|j: int| 0 <= j < self.marked@.len() ==> (#[trigger] self.marked@[j]).0
                < self.size.0 && self.marked@[j].1 < self.size.1,
        ensures
            g@.len() == self.size.1,
            forall|y: int| 0 <= y < g@.len() ==> (#[trigger] g@[y])@.len() == self.size.0,
            forall|y: int, x: int|
                0 <= y < self.size.1 && 0 <= x < self.size.0 ==> (#[trigger] g@[y]@[x])
                    == self.marked@.contains((x as usize, y as usize)),
    {
        let (xsize, ysize) = self.size;
        let mut g: Vec<Vec<bool>> = Vec::new();
        let mut y: usize = 0;
        while y < ysize
            invariant
                0 <= y <= ysize,
                g@.len() == y,
                forall|j: int| 0 <= j < y ==> (#[trigger] g@[j])@.len() == xsize,
                forall|j: int, x: int| 0 <= j < y && 0 <= x < xsize ==> (#[trigger] g@[j]@[x])
                    == false,
            decreases ysize - y,
        {
            let mut row: Vec<bool> = Vec::new();
            let mut x: usize = 0;
            while x < xsize
                invariant
                    0 <= x <= xsize,
                    row@.len() == x,
                    forall|i: int| 0 <= i < x ==> (#[trigger] row@[i]) == false,
                decreases xsize - x,
            {
                row.push(false);
                x = x + 1;
            }
            g.push(row);
            y = y + 1;
        }
        let mv = &self.marked;
        let mut k: usize = 0;
        while k < mv.len()
            invariant
                0 <= k <= mv@.len(),
                mv@ == self.marked@,
                forall|j: int| 0 <= j < mv@.len() ==> (#[trigger] mv@[j]).0 < xsize && mv@[j].1
                    < ysize,
                (xsize, ysize) == self.size,
                g@.len() == ysize,
                forall|j: int| 0 <= j < g@.len() ==> (#[trigger] g@[j])@.len() == xsize,
                forall|y: int, x: int|
                    0 <= y < ysize && 0 <= x < xsize ==> (#[trigger] g@[y]@[x]) == mv@.take(
                        k as int,
                    ).contains((x as usize, y as usize)),
            decreases mv@.len() - k,
        {
            let m = mv[k];
            let ghost before = g@;
            g[m.1][m.0] = true;
            proof {
                assert forall|y: int, x: int|
                    0 <= y < ysize && 0 <= x < xsize implies (#[trigger] g@[y]@[x]) == mv@.take(
                    k + 1,
                ).contains((x as usize, y as usize)) by {
                    let q = (x as usize, y as usize);
                    assert(mv@.take(k + 1).drop_last() =~= mv@.take(k as int));
                    assert(mv@.take(k + 1) =~= mv@.take(k as int).push(mv@[k as int]));
                    lemma_pair_push_contains(mv@.take(k as int), mv@[k as int], q);
                    if y == m.1 as int && x == m.0 as int {
                        assert(mv@.take(k + 1).contains(q));
                    } else {
                        assert(g@[y]@[x] == before[y]@[x]);
                    }
                }
            }
            k = k + 1;
        }
        proof {
            assert(mv@.take(mv@.len() as int) =~= mv@);
        }
        g
    }
}

proof fn lemma_pair_push_contains(c: Seq<(usize, usize)>, s: (usize, usize), q: (usize, usize))
    ensures
        c.push(s).contains(q) <==> c.contains(q) || q == s,
{
    if c.push(s).contains(q) {
        let k = choose|k: int| 0 <= k < c.push(s).len() && c.push(s)[k] == q;
        if k < c.len() {
            assert(c[k] == q);
        }
    }
    if c.contains(q) {
        let k = choose|k: int| 0 <= k < c.len() && c[k] == q;
        assert(c.push(s)[k] == q);
    }
    if q == s {
        assert(c.push(s)[c.len() as int] == q);
    }
}

proof fn lemma_dots_max_prefix(s: Seq<char>, k: int, n: int)
    requires
        1 <= k <= n,
    ensures
        dots_xmax(s, k) <= dots_xmax(s, n),
        dots_ymax(s, k) <= dots_ymax(s, n),
    decreases n - k,
{
    if k < n {
        lemma_dots_max_prefix(s, k + 1, n);
    }
}

/// A fold instruction: the axis letter and the line's offset.
#[derive(Debug, Clone, PartialEq, Eq)]
pub struct Fold {
    pub axis: String,
    pub offset: usize,
}

/// Dots reflected across the vertical line `x = fold`.
pub fn fold_x(marked: &Vec<(usize, usize)>, fold: usize) -> (r: Vec<(usize, usize)>)
    requires
        2 * fold <= usize::MAX,
        forall|j: int| 0 <= j < marked@.len() ==> (#[trigger] marked@[j]).0 <= 2 * fold,
    ensures
        r@.len() == marked@.len(),
        forall|j: int| 0 <= j < marked@.len() ==> #[trigger] r@[j] == if marked@[j].0 < fold {
            marked@[j]
        } else {
            ((2 * fold - marked@[j].0) as usize, marked@[j].1)
        },
{
    let mut r: Vec<(usize, usize)> = Vec::new();
    let mut k: usize = 0;
    while k < marked.len()
        invariant
            0 <= k <= marked@.len(),
            2 * fold <= usize::MAX,
            forall|j: int| 0 <= j < marked@.len() ==> (#[trigger] marked@[j]).0 <= 2 * fold,
            r@.len() == k,
            forall|j: int| 0 <= j < k ==> #[trigger] r@[j] == if marked@[j].0 < fold {
                marked@[j]
            } else {
                ((2 * fold - marked@[j].0) as usize, marked@[j].1)
            },
        decreases marked@.len() - k,
    {
        let m = marked[k];
        if m.0 < fold {
            r.push(m);
        } else {
            r.push((fold * 2 - m.0, m.1));
        }
        k = k + 1;
    }
    r
}

/// Dots reflected across the horizontal line `y = fold`.
pub fn fold_y(marked: &Vec<(usize, usize)>, fold: usize) -> (r: Vec<(usize, usize)>)
    requires
        2 * fold <= usize::MAX,
        forall|j: int| 0 <= j < marked@.len() ==> (#[trigger] marked@[j]).1 <= 2 * fold,
    ensures
        r@.len() == marked@.len(),
        forall|j: int| 0 <= j < marked@.len() ==> #[trigger] r@[j] == if marked@[j].1 < fold {
            marked@[j]
        } else {
            (marked@[j].0, (2 * fold - marked@[j].1) as usize)
        },
{
    let mut r: Vec<(usize, usize)> = Vec::new();
    let mut k: usize = 0;
    while k < marked.len()
        invariant
            0 <= k <= marked@.len(),
            2 * fold <= usize::MAX,
            forall|j: int| 0 <= j < marked@.len() ==> (#[trigger] marked@[j]).1 <= 2 * fold,
            r@.len() == k,
            forall|j: int| 0 <= j < k ==> #[trigger] r@[j] == if marked@[j].1 < fold {
                marked@[j]
            } else {
                (marked@[j].0, (2 * fold - marked@[j].1) as usize)
            },
        decreases marked@.len() - k,
    {
        let m = marked[k];
        if m.1 < fold {
            r.push(m);
        } else {
            r.push((m.0, fold * 2 - m.1));
        }
        k = k + 1;
    }
    r
}

/// One fold applied to the sheet: the dots reflect and the sheet shortens
/// along the folded axis.
pub fn fold_paper(paper: &Paper, fold: &Fold) -> (r: Paper)
    requires
        fold.axis@ == "x"@ || fold.axis@ == "y"@,
        2 * fold.offset <= usize::MAX,
        fold.axis@ == "x"@ ==> forall|j: int| 0 <= j < paper.marked@.len() ==> (
        #[trigger] paper.marked@[j]).0 <= 2 * fold.offset,
        fold.axis@ == "y"@ ==> forall|j: int| 0 <= j < paper.marked@.len() ==> (
        #[trigger] paper.marked@[j]).1 <= 2 * fold.offset,
    ensures
        fold.axis@ == "x"@ ==> r.size == ((fold.offset, paper.size.1)) && r.marked@.len()
            == paper.marked@.len() && (forall|j: int| 0 <= j < paper.marked@.len() ==> #[trigger]
        r.marked@[j] == if paper.marked@[j].0 < fold.offset {
            paper.marked@[j]
        } else {
            ((2 * fold.offset - paper.marked@[j].0) as usize, paper.marked@[j].1)
        }),
        fold.axis@ == "y"@ ==> r.size == ((paper.size.0, fold.offset)) && r.marked@.len()
            == paper.marked@.len() && (forall|j: int| 0 <= j < paper.marked@.len() ==> #[trigger]
        r.marked@[j] == if paper.marked@[j].1 < fold.offset {
            paper.marked@[j]
        } else {
            (paper.marked@[j].0, (2 * fold.offset - paper.marked@[j].1) as usize)
        }),
{
    proof {
        reveal_strlit("x");
        reveal_strlit("y");
        assert("x"@[0] == 'x' && "y"@[0] == 'y');
    }
    if str_eq(fold.axis.as_str(), "x") {
        Paper::new(fold_x(&paper.marked, fold.offset), (fold.offset, paper.size.1))
    } else {
        Paper::new(fold_y(&paper.marked, fold.offset), (paper.size.0, fold.offset))
    }
}

} // verus!
