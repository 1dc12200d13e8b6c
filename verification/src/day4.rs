//! Bingo: five-by-five boards, numbers drawn and marked, rows or columns
//! completed, and a winning board's score.
use vstd::prelude::*;

verus! {

use crate::parse::{
    digits_val, fields, line_ranges, parse_uint_tok, parse_usize_range, split_fields, split_lines,
    token_view,
};

/// An unsigned decimal token whose value fits a `u32`.
pub open spec fn valid_u32_tok(t: Seq<char>) -> bool {
    parse_uint_tok(t) is Some && digits_val(t) <= u32::MAX as int
}

/// The five numbers a board line holds, when it holds exactly five valid
/// ones.
pub open spec fn line_numbers(s: Seq<char>, b: (int, int)) -> Option<Seq<int>> {
    let line = token_view(s, b);
    let fs = fields(line);
    if fs.len() == 5 && (forall|x: int| 0 <= x < 5 ==> valid_u32_tok(
        token_view(line, #[trigger] fs[x]),
    )) {
        Some(Seq::new(5, |x: int| digits_val(token_view(line, fs[x]))))
    } else {
        None
    }
}

/// What a board block holds: five lines of five space-separated numbers,
/// each fitting a `u32`.
pub open spec fn board_of(s: Seq<char>) -> Option<Seq<Seq<int>>> {
    let ls = line_ranges(s);
    if ls.len() == 5 && (forall|y: int| 0 <= y < 5 ==> line_numbers(s, #[trigger] ls[y]) is Some) {
        Some(Seq::new(5, |y: int| line_numbers(s, ls[y])->0))
    } else {
        None
    }
}

/// A board: a five-by-five grid of numbers, each with its marked flag.
#[derive(Debug, Clone, PartialEq, Eq)]
pub struct BingoBoard {
    pub numbers: Vec<Vec<(u32, bool)>>,
}

/// The board is five rows of five cells.
pub open spec fn board_wf(g: Seq<Vec<(u32, bool)>>) -> bool {
    &&& g.len() == 5
    &&& forall|y: int| 0 <= y < 5 ==> (#[trigger] g[y])@.len() == 5
}

/// The first column of row `row` at or after `x` holding `n`.
pub open spec fn row_first(row: Seq<(u32, bool)>, n: u32, x: int) -> Option<int>
    decreases row.len() - x,
{
    if x < 0 || x >= row.len() {
        None
    } else if row[x].0 == n {
        Some(x)
    } else {
        row_first(row, n, x + 1)
    }
}

/// The first cell, in row-major order from row `y` on, holding `n`.
pub open spec fn grid_first(g: Seq<Vec<(u32, bool)>>, n: u32, y: int) -> Option<(int, int)>
    decreases g.len() - y,
{
    if y < 0 || y >= g.len() {
        None
    } else {
        match row_first(g[y]@, n, 0) {
            Some(x) => Some((y, x)),
            None => grid_first(g, n, y + 1),
        }
    }
}

/// Every cell of row `y` is marked.
pub open spec fn row_all_marked(g: Seq<Vec<(u32, bool)>>, y: int) -> bool {
    forall|x: int| 0 <= x < g[y]@.len() ==> (#[trigger] g[y]@[x]).1
}

/// Every cell of column `x` is marked.
pub open spec fn col_all_marked(g: Seq<Vec<(u32, bool)>>, x: int) -> bool {
    forall|y: int| 0 <= y < g.len() ==> (#[trigger] g[y]@[x]).1
}

/// A winning board: some row, or some column, fully marked.
pub open spec fn winner(g: Seq<Vec<(u32, bool)>>) -> bool {
    ||| exists|y: int| 0 <= y < g.len() && #[trigger] row_all_marked(g, y)
    ||| exists|x: int| 0 <= x < g.len() && #[trigger] col_all_marked(g, x)
}

/// The sum of a row's unmarked numbers from column `x` on.
pub open spec fn row_unmarked(row: Seq<(u32, bool)>, x: int) -> int
    decreases row.len() - x,
{
    if x < 0 || x >= row.len() {
        0
    } else {
        (if !row[x].1 {
            row[x].0 as int
        } else {
            0int
        }) + row_unmarked(row, x + 1)
    }
}

/// The sum of the board's unmarked numbers from row `y` on.
pub open spec fn board_unmarked(g: Seq<Vec<(u32, bool)>>, y: int) -> int
    decreases g.len() - y,
{
    if y < 0 || y >= g.len() {
        0
    } else {
        row_unmarked(g[y]@, 0) + board_unmarked(g, y + 1)
    }
}

proof fn lemma_row_unmarked_nonneg(row: Seq<(u32, bool)>, x: int)
    ensures
        row_unmarked(row, x) >= 0,
    decreases row.len() - x,
{
    if 0 <= x < row.len() {
        lemma_row_unmarked_nonneg(row, x + 1);
    }
}

proof fn lemma_board_unmarked_nonneg(g: Seq<Vec<(u32, bool)>>, y: int)
    ensures
        board_unmarked(g, y) >= 0,
    decreases g.len() - y,
{
    if 0 <= y < g.len() {
        lemma_row_unmarked_nonneg(g[y]@, 0);
        lemma_board_unmarked_nonneg(g, y + 1);
    }
}

impl BingoBoard {
    /// Reads a board block: five lines of five numbers, nothing marked.
    pub fn parse(board: &str) -> (b: BingoBoard)
        requires
            board_of(board@) is Some,
        ensures
            board_wf(b.numbers@),
            forall|y: int, x: int|
                0 <= y < 5 && 0 <= x < 5 ==> (#[trigger] b.numbers@[y]@[x]).0 as int == (board_of(
                    board@,
                )->0)[y][x] && !b.numbers@[y]@[x].1,
    {
        let ghost goal = board_of(board@)->0;
        let lines = split_lines(board);
        let ghost ls = line_ranges(board@);
        let mut numbers: Vec<Vec<u32>> = Vec::new();
        let mut y: usize = 0;
        while y < 5
            invariant
                0 <= y <= 5,
                board_of(board@) is Some,
                goal == board_of(board@)->0,
                ls == line_ranges(board@),
                ls.len() == 5,
                lines@.map_values(|p: (usize, usize)| (p.0 as int, p.1 as int)) == ls,
                forall|k: int| 0 <= k < lines@.len() ==> (#[trigger] lines@[k]).0 <= lines@[k].1
                    <= board@.len(),
                numbers@.len() == y,
                forall|j: int| 0 <= j < y ==> (#[trigger] numbers@[j])@.len() == 5,
                forall|j: int, x: int|
                    0 <= j < y && 0 <= x < 5 ==> (#[trigger] numbers@[j]@[x]) as int == goal[j][x],
            decreases 5 - y,
        {
            let (from, to) = lines[y];
            proof {
                assert(ls[y as int] == (from as int, to as int));
                assert(line_numbers(board@, ls[y as int]) is Some);
            }
            let ghost line = token_view(board@, ls[y as int]);
            let sub = board.substring_char(from, to);
            let fs = split_fields(sub);
            let ghost fv = fields(line);
            proof {
                assert(sub@ == line);
                assert(fs@.map_values(|p: (usize, usize)| (p.0 as int, p.1 as int)) == fv);
                assert(fv.len() == 5);
            }
            let mut row: Vec<u32> = Vec::new();
            let mut x: usize = 0;
            while x < 5
                invariant
                    0 <= x <= 5,
                    0 <= y < 5,
                    goal == board_of(board@)->0,
                    board_of(board@) is Some,
                    ls == line_ranges(board@),
                    ls.len() == 5,
                    line == token_view(board@, ls[y as int]),
                    line_numbers(board@, ls[y as int]) is Some,
                    sub@ == line,
                    fv == fields(line),
                    fv.len() == 5,
                    fs@.map_values(|p: (usize, usize)| (p.0 as int, p.1 as int)) == fv,
                    forall|k: int| 0 <= k < fs@.len() ==> (#[trigger] fs@[k]).0 <= fs@[k].1
                        <= sub@.len(),
                    row@.len() == x,
                    forall|i: int| 0 <= i < x ==> (#[trigger] row@[i]) as int == goal[y as int][i],
                decreases 5 - x,
            {
                let f = fs[x];
                proof {
                    assert(fv[x as int] == (f.0 as int, f.1 as int));
                    assert(valid_u32_tok(token_view(line, fv[x as int])));
                    assert(sub@.subrange(f.0 as int, f.1 as int) == token_view(
                        line,
                        fv[x as int],
                    ));
                    assert(goal[y as int][x as int] == digits_val(token_view(line, fv[x as int])));
                }
                let v = parse_usize_range(sub, f.0, f.1);
                row.push(v as u32);
                x = x + 1;
            }
            numbers.push(row);
            y = y + 1;
        }
        BingoBoard::new(numbers)
    }

    /// A fresh board over the given numbers, nothing marked yet.
    pub fn new(numbers: Vec<Vec<u32>>) -> (b: BingoBoard)
        requires
            numbers@.len() == 5,
            forall|y: int| 0 <= y < 5 ==> (#[trigger] numbers@[y])@.len() == 5,
        ensures
            board_wf(b.numbers@),
            forall|y: int, x: int|
                0 <= y < 5 && 0 <= x < 5 ==> (#[trigger] b.numbers@[y]@[x]).0 == numbers@[y]@[x]
                    && !b.numbers@[y]@[x].1,
    {
        let mut grid: Vec<Vec<(u32, bool)>> = Vec::new();
        let mut y: usize = 0;
        while y < 5
            invariant
                0 <= y <= 5,
                numbers@.len() == 5,
                forall|j: int| 0 <= j < 5 ==> (#[trigger] numbers@[j])@.len() == 5,
                grid@.len() == y,
                forall|j: int| 0 <= j < y ==> (#[trigger] grid@[j])@.len() == 5,
                forall|j: int, x: int|
                    0 <= j < y && 0 <= x < 5 ==> (#[trigger] grid@[j]@[x]).0 == numbers@[j]@[x]
                        && !grid@[j]@[x].1,
            decreases 5 - y,
        {
            let src = &numbers[y];
            let mut row: Vec<(u32, bool)> = Vec::new();
            let mut x: usize = 0;
            while x < 5
                invariant
                    0 <= x <= 5,
                    src@.len() == 5,
                    src@ == numbers@[y as int]@,
                    0 <= y < 5,
                    row@.len() == x,
                    forall|i: int| 0 <= i < x ==> (#[trigger] row@[i]).0 == src@[i]
                        && !row@[i].1,
                decreases 5 - x,
            {
                row.push((src[x], false));
                x = x + 1;
            }
            grid.push(row);
            y = y + 1;
        }
        BingoBoard { numbers: grid }
    }

    /// Marks the first cell holding `number`, if any, and reports whether
    /// the board has won.
    pub fn mark(&mut self, number: u32) -> (won: bool)
        requires
            board_wf(old(self).numbers@),
        ensures
            board_wf(final(self).numbers@),
            match grid_first(old(self).numbers@, number, 0) {
                None => *final(self) == *old(self),
                Some(p) => {
                    &&& final(self).numbers@[p.0]@ == old(self).numbers@[p.0]@.update(
                        p.1,
                        (number, true),
                    )
                    &&& forall|y: int|
                        0 <= y < 5 && y != p.0 ==> (#[trigger] final(self).numbers@[y]) == old(
                            self,
                        ).numbers@[y]
                },
            },
            won == winner(final(self).numbers@),
    {
        let ghost g0 = self.numbers@;
        let mut y: usize = 0;
        while y < 5
            invariant
                0 <= y <= 5,
                g0 == self.numbers@,
                *self == *old(self),
                board_wf(g0),
                grid_first(g0, number, 0) == grid_first(g0, number, y as int),
            decreases 5 - y,
        {
            let mut x: usize = 0;
            while x < 5
                invariant
                    0 <= x <= 5,
                    0 <= y < 5,
                    g0 == self.numbers@,
                    *self == *old(self),
                    board_wf(g0),
                    grid_first(g0, number, 0) == grid_first(g0, number, y as int),
                    row_first(g0[y as int]@, number, 0) == row_first(
                        g0[y as int]@,
                        number,
                        x as int,
                    ),
                decreases 5 - x,
            {
                if self.numbers[y][x].0 == number {
                    proof {
                        assert(row_first(g0[y as int]@, number, x as int) == Some(x as int));
                        assert(grid_first(g0, number, 0) == Some((y as int, x as int)));
                    }
                    self.numbers[y][x] = (number, true);
                    proof {
                        assert(self.numbers@[y as int]@ =~= g0[y as int]@.update(
                            x as int,
                            (number, true),
                        ));
                        assert(forall|j: int|
                            0 <= j < 5 && j != y as int ==> (#[trigger] self.numbers@[j])
                                == g0[j]);
                        assert(board_wf(self.numbers@)) by {
                            assert(forall|j: int|
                                0 <= j < 5 ==> (#[trigger] self.numbers@[j])@.len() == 5);
                        }
                    }
                    return self.is_winner();
                }
                x = x + 1;
            }
            proof {
                assert(row_first(g0[y as int]@, number, 5) is None);
            }
            y = y + 1;
        }
        proof {
            assert(grid_first(g0, number, 5) is None);
        }
        self.is_winner()
    }

    /// Whether some row or some column is fully marked.
    pub fn is_winner(&self) -> (r: bool)
        requires
            board_wf(self.numbers@),
        ensures
            r == winner(self.numbers@),
    {
        let ghost g = self.numbers@;
        let mut y: usize = 0;
        while y < 5
            invariant
                0 <= y <= 5,
                g == self.numbers@,
                board_wf(g),
                forall|j: int| 0 <= j < y ==> !(#[trigger] row_all_marked(g, j)),
            decreases 5 - y,
        {
            let mut x: usize = 0;
            let mut full: bool = true;
            while x < 5
                invariant
                    0 <= x <= 5,
                    0 <= y < 5,
                    g == self.numbers@,
                    board_wf(g),
                    full ==> forall|i: int| 0 <= i < x ==> (#[trigger] g[y as int]@[i]).1,
                    !full ==> exists|i: int| 0 <= i < 5 && !(#[trigger] g[y as int]@[i]).1,
                decreases 5 - x,
            {
                if !self.numbers[y][x].1 {
                    full = false;
                }
                x = x + 1;
            }
            if full {
                assert(row_all_marked(g, y as int));
                return true;
            }
            assert(!row_all_marked(g, y as int));
            y = y + 1;
        }
        let mut c: usize = 0;
        while c < 5
            invariant
                0 <= c <= 5,
                g == self.numbers@,
                board_wf(g),
                forall|j: int| 0 <= j < 5 ==> !(#[trigger] row_all_marked(g, j)),
                forall|j: int| 0 <= j < c ==> !(#[trigger] col_all_marked(g, j)),
            decreases 5 - c,
        {
            let mut y: usize = 0;
            let mut full: bool = true;
            while y < 5
                invariant
                    0 <= y <= 5,
                    0 <= c < 5,
                    g == self.numbers@,
                    board_wf(g),
                    full ==> forall|i: int| 0 <= i < y ==> (#[trigger] g[i]@[c as int]).1,
                    !full ==> exists|i: int| 0 <= i < 5 && !(#[trigger] g[i]@[c as int]).1,
                decreases 5 - y,
            {
                if !self.numbers[y][c].1 {
                    full = false;
                }
                y = y + 1;
            }
            if full {
                assert(col_all_marked(g, c as int));
                return true;
            }
            assert(!col_all_marked(g, c as int));
            c = c + 1;
        }
        false
    }

    /// A winning board's score: the unmarked total times the number just
    /// drawn; a board that has not won has no score.
    pub fn score(&self, number: u32) -> (r: Option<u32>)
        requires
            board_wf(self.numbers@),
            board_unmarked(self.numbers@, 0) <= u32::MAX as int,
            board_unmarked(self.numbers@, 0) * number <= u32::MAX as int,
        ensures
            r == if winner(self.numbers@) {
                Some((board_unmarked(self.numbers@, 0) * number) as u32)
            } else {
                Option::<u32>::None
            },
    {
        if !self.is_winner() {
            return None;
        }
        let ghost g = self.numbers@;
        let mut sum: u32 = 0;
        let mut y: usize = 0;
        while y < 5
            invariant
                0 <= y <= 5,
                g == self.numbers@,
                board_wf(g),
                board_unmarked(g, 0) <= u32::MAX as int,
                sum as int + board_unmarked(g, y as int) == board_unmarked(g, 0),
            decreases 5 - y,
        {
            proof {
                lemma_board_unmarked_nonneg(g, y + 1);
                lemma_row_unmarked_nonneg(g[y as int]@, 0);
            }
            let mut x: usize = 0;
            while x < 5
                invariant
                    0 <= x <= 5,
                    0 <= y < 5,
                    g == self.numbers@,
                    board_wf(g),
                    board_unmarked(g, 0) <= u32::MAX as int,
                    board_unmarked(g, y + 1) >= 0,
                    sum as int + row_unmarked(g[y as int]@, x as int) + board_unmarked(g, y + 1)
                        == board_unmarked(g, 0),
                decreases 5 - x,
            {
                proof {
                    lemma_row_unmarked_nonneg(g[y as int]@, x + 1);
                }
                let cell = self.numbers[y][x];
                if !cell.1 {
                    sum = sum + cell.0;
                }
                x = x + 1;
            }
            y = y + 1;
        }
        Some(sum * number)
    }
}

} // verus!
