//! Diagnostic report: a grid of binary digits; the gamma rate takes each
//! column's majority bit, and the epsilon rate its complement.
use vstd::prelude::*;

verus! {

#[verifier::external_type_specification]
#[verifier::external_body]
#[verifier::reject_recursive_types(T)]
pub struct ExArray2D<T>(array2d::Array2D<T>);

/// The rows a report array holds.
pub uninterp spec fn array_rows(a: array2d::Array2D<u32>) -> Seq<Seq<u32>>;

/// How many columns a report array has.
pub uninterp spec fn array_num_columns(a: array2d::Array2D<u32>) -> int;

/// Relies on `array2d::Array2D::from_rows`: with rows of equal length it
/// builds the array holding exactly those rows.
#[verifier::external_body]
fn array_from_rows(rows: &Vec<Vec<u32>>) -> (a: array2d::Array2D<u32>)
    requires
        forall|i: int| 0 <= i < rows@.len() ==> (#[trigger] rows@[i])@.len() == rows@[0]@.len(),
    ensures
        array_rows(a) == rows@.map_values(|r: Vec<u32>| r@),
        array_num_columns(a) == if rows@.len() > 0 {
            rows@[0]@.len() as int
        } else {
            0int
        },
{
    array2d::Array2D::from_rows(rows.as_slice()).unwrap()
}

/// Relies on `array2d::Array2D::num_rows`: the number of rows held.
#[verifier::external_body]
fn array_num_rows(a: &array2d::Array2D<u32>) -> (r: usize)
    ensures
        r == array_rows(*a).len(),
{
    a.num_rows()
}

/// Relies on `array2d::Array2D::as_columns`: the same elements, gathered
/// column by column.
#[verifier::external_body]
fn array_as_columns(a: &array2d::Array2D<u32>) -> (c: Vec<Vec<u32>>)
    ensures
        c@.len() == array_num_columns(*a),
        forall|j: int| 0 <= j < c@.len() ==> (#[trigger] c@[j])@.len() == array_rows(*a).len(),
        forall|j: int, i: int|
            0 <= j < c@.len() && 0 <= i < array_rows(*a).len() ==> (#[trigger] c@[j]@[i])
                == array_rows(*a)[i][j],
{
    a.as_columns()
}

/// Which life-support rating is being filtered for.
#[derive(Debug, Copy, Clone, PartialEq, Eq, Structural)]
pub enum Rating {
    OxygenGenerator,
    CO2Scrubber,
}

/// The sum of column `j` over the rows from `i` down.
pub open spec fn col_sum(g: Seq<Seq<u32>>, j: int, i: int) -> int
    decreases g.len() - i,
{
    if i < 0 || i >= g.len() {
        0
    } else {
        g[i][j] + col_sum(g, j, i + 1)
    }
}

/// The majority bit of column `j`: one when ones outnumber zeros.
pub open spec fn majority_bit(g: Seq<Seq<u32>>, j: int) -> int {
    if col_sum(g, j, 0) > g.len() - col_sum(g, j, 0) {
        1
    } else {
        0
    }
}

/// The gamma rate over the first `n` columns, most significant first.
pub open spec fn gamma_bits(g: Seq<Seq<u32>>, n: int) -> int
    decreases n,
{
    if n <= 0 {
        0
    } else {
        2 * gamma_bits(g, n - 1) + majority_bit(g, n - 1)
    }
}

pub open spec fn pow2_s(n: int) -> int
    decreases n,
{
    if n <= 0 {
        1
    } else {
        2 * pow2_s(n - 1)
    }
}

/// Every entry of the report is a binary digit.
pub open spec fn all_binary(g: Seq<Seq<u32>>) -> bool {
    forall|i: int, j: int| 0 <= i < g.len() && 0 <= j < g[i].len() ==> (#[trigger] g[i][j]) <= 1
}

proof fn lemma_col_sum_bounds(g: Seq<Seq<u32>>, j: int, i: int, w: int)
    requires
        all_binary(g),
        forall|k: int| 0 <= k < g.len() ==> (#[trigger] g[k]).len() == w,
        0 <= j < w,
        0 <= i <= g.len(),
    ensures
        0 <= col_sum(g, j, i) <= g.len() - i,
    decreases g.len() - i,
{
    if i < g.len() {
        lemma_col_sum_bounds(g, j, i + 1, w);
        assert(g[i][j] <= 1);
    }
}

proof fn lemma_gamma_bound(g: Seq<Seq<u32>>, n: int)
    requires
        n >= 0,
    ensures
        0 <= gamma_bits(g, n) < pow2_s(n),
    decreases n,
{
    if n > 0 {
        lemma_gamma_bound(g, n - 1);
    }
}

proof fn lemma_pow2_pos(n: int)
    ensures
        pow2_s(n) >= 1,
    decreases n,
{
    if n > 0 {
        lemma_pow2_pos(n - 1);
    }
}

proof fn lemma_pow2_mono(a: int, b: int)
    requires
        0 <= a <= b,
    ensures
        pow2_s(a) <= pow2_s(b),
    decreases b - a,
{
    lemma_pow2_pos(a);
    if a < b {
        lemma_pow2_mono(a + 1, b);
    }
}

/// The zero and one counts at bit `j` of the report.
pub fn value_counts(entries: &Vec<Vec<u32>>, bit: usize) -> (r: (u32, u32))
    requires
        all_binary(grid(entries@)),
        forall|k: int| 0 <= k < entries@.len() ==> bit < (#[trigger] entries@[k])@.len(),
        entries@.len() <= u32::MAX,
    ensures
        r.1 == col_sum(grid(entries@), bit as int, 0),
        r.0 == entries@.len() - r.1,
{
    let ghost g = grid(entries@);
    let n = entries.len();
    let mut ones: u32 = 0;
    let mut i: usize = 0;
    while i < n
        invariant
            0 <= i <= n,
            n == entries@.len(),
            n <= u32::MAX,
            g == grid(entries@),
            all_binary(g),
            forall|k: int| 0 <= k < n ==> bit < (#[trigger] entries@[k])@.len(),
            ones as int + col_sum(g, bit as int, i as int) == col_sum(g, bit as int, 0),
            ones <= i,
        decreases n - i,
    {
        proof {
            assert(g[i as int][bit as int] <= 1);
            lemma_col_sum_partial(g, bit as int, i as int);
        }
        ones = ones + entries[i][bit];
        i = i + 1;
    }
    (n as u32 - ones, ones)
}

proof fn lemma_col_sum_partial(g: Seq<Seq<u32>>, j: int, i: int)
    requires
        0 <= i < g.len(),
    ensures
        col_sum(g, j, i) == g[i][j] + col_sum(g, j, i + 1),
{
}

/// The report's rows, as sequences.
pub open spec fn grid(entries: Seq<Vec<u32>>) -> Seq<Seq<u32>> {
    entries.map_values(|r: Vec<u32>| r@)
}

/// The power-consumption product: the gamma rate, of the columns' majority
/// bits, times the epsilon rate, its bitwise complement.
pub fn part1(entries: &Vec<Vec<u32>>) -> (r: u32)
    requires
        entries@.len() >= 1,
        entries@.len() <= 65_535,
        forall|i: int| 0 <= i < entries@.len() ==> (#[trigger] entries@[i])@.len()
            == entries@[0]@.len(),
        1 <= entries@[0]@.len() <= 16,
        all_binary(grid(entries@)),
    ensures
        ({
            let g = grid(entries@);
            let w = entries@[0]@.len() as int;
            let gamma = gamma_bits(g, w);
            r == gamma * (pow2_s(w) - 1 - gamma)
        }),
{
    let ghost g = grid(entries@);
    let ghost w = entries@[0]@.len() as int;
    let e = array_from_rows(entries);
    let columns = array_as_columns(&e);
    let num_rows = array_num_rows(&e);
    proof {
        assert(array_rows(e) == g);
        assert(columns@.len() == w);
        assert(forall|k: int| 0 <= k < g.len() ==> (#[trigger] g[k]).len() == w);
    }
    let mut gamma: u32 = 0;
    let mut j: usize = 0;
    while j < columns.len()
        invariant
            0 <= j <= columns@.len(),
            columns@.len() == w,
            1 <= w <= 16,
            g == array_rows(e),
            g.len() == entries@.len(),
            num_rows == g.len(),
            1 <= g.len() <= 65_535,
            all_binary(g),
            forall|k: int| 0 <= k < g.len() ==> (#[trigger] g[k]).len() == w,
            forall|q: int| 0 <= q < w ==> (#[trigger] columns@[q])@.len() == g.len(),
            forall|q: int, i: int|
                0 <= q < w && 0 <= i < g.len() ==> (#[trigger] columns@[q]@[i]) == g[i][q],
            gamma as int == gamma_bits(g, j as int),
        decreases columns@.len() - j,
    {
        let col = &columns[j];
        let ghost cv = col@;
        let mut s: u32 = 0;
        let mut i: usize = 0;
        while i < col.len()
            invariant
                0 <= i <= cv.len(),
                cv == col@,
                cv.len() == g.len(),
                g.len() <= 65_535,
                all_binary(g),
                0 <= j < w,
                forall|k: int| 0 <= k < g.len() ==> (#[trigger] g[k]).len() == w,
                forall|q: int| 0 <= q < cv.len() ==> (#[trigger] cv[q]) == g[q][j as int],
                s as int + col_sum(g, j as int, i as int) == col_sum(g, j as int, 0),
                s <= i,
            decreases cv.len() - i,
        {
            proof {
                assert(g[i as int][j as int] <= 1);
                lemma_col_sum_partial(g, j as int, i as int);
            }
            s = s + col[i];
            i = i + 1;
        }
        proof {
            lemma_col_sum_bounds(g, j as int, 0, w);
            lemma_gamma_bound(g, j + 1);
            lemma_pow2_mono(j + 1, 16);
            reveal_with_fuel(pow2_s, 17);
        }
        let bit: u32 = if s > (num_rows as u32) - s {
            1
        } else {
            0
        };
        gamma = gamma * 2 + bit;
        j = j + 1;
    }
    let mut mask: u32 = 0;
    let mut k: usize = 0;
    while k < columns.len()
        invariant
            0 <= k <= columns@.len(),
            columns@.len() == w,
            1 <= w <= 16,
            mask as int == pow2_s(k as int) - 1,
        decreases columns@.len() - k,
    {
        proof {
            lemma_pow2_mono(k + 1, 16);
            reveal_with_fuel(pow2_s, 17);
        }
        mask = mask * 2 + 1;
        k = k + 1;
    }
    proof {
        lemma_gamma_bound(g, w);
        lemma_pow2_mono(w, 16);
        reveal_with_fuel(pow2_s, 17);
        assert(gamma as int * (mask as int - gamma as int) <= 65_535 * 65_535) by (nonlinear_arith)
            requires
                0 <= gamma as int <= 65_535,
                0 <= mask as int - gamma as int <= 65_535,
        ;
    }
    let epsilon = mask - gamma;
    gamma * epsilon
}

} // verus!
