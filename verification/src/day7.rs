//! Crab alignment: fuel costs for moving a line of crabs to one position,
//! under constant and increasing per-step cost rules.
use vstd::prelude::*;

verus! {

/// Distance between two non-negative positions.
pub open spec fn dist(a: int, b: int) -> int {
    if a >= b {
        a - b
    } else {
        b - a
    }
}

/// The `n`th triangular number: the cost of a move of length `n` when each
/// further step costs one more than the last.
pub open spec fn tri(n: int) -> int
    decreases n,
{
    if n <= 0 {
        0
    } else {
        tri(n - 1) + n
    }
}

/// Total constant-rate fuel for moving every crab to `position`.
pub open spec fn cost1_spec(crab: Seq<usize>, position: int) -> int
    decreases crab.len(),
{
    if crab.len() == 0 {
        0
    } else {
        cost1_spec(crab.drop_last(), position) + dist(crab.last() as int, position)
    }
}

/// Total increasing-rate fuel for moving every crab to `position`.
pub open spec fn cost2_spec(crab: Seq<usize>, position: int) -> int
    decreases crab.len(),
{
    if crab.len() == 0 {
        0
    } else {
        cost2_spec(crab.drop_last(), position) + tri(dist(crab.last() as int, position))
    }
}

proof fn lemma_cost1_prefix(crab: Seq<usize>, position: int, j: int)
    requires
        0 <= j <= crab.len(),
    ensures
        0 <= cost1_spec(crab.take(j), position) <= cost1_spec(crab, position),
    decreases crab.len() - j,
{
    if j == crab.len() {
        assert(crab.take(j) =~= crab);
        lemma_cost1_nonneg(crab.take(j), position);
    } else {
        lemma_cost1_prefix(crab, position, j + 1);
        assert(crab.take(j + 1).drop_last() =~= crab.take(j));
        lemma_cost1_nonneg(crab.take(j), position);
    }
}

proof fn lemma_cost1_nonneg(crab: Seq<usize>, position: int)
    ensures
        cost1_spec(crab, position) >= 0,
    decreases crab.len(),
{
    if crab.len() > 0 {
        lemma_cost1_nonneg(crab.drop_last(), position);
    }
}

proof fn lemma_cost2_prefix(crab: Seq<usize>, position: int, j: int)
    requires
        0 <= j <= crab.len(),
    ensures
        0 <= cost2_spec(crab.take(j), position) <= cost2_spec(crab, position),
    decreases crab.len() - j,
{
    if j == crab.len() {
        assert(crab.take(j) =~= crab);
        lemma_cost2_nonneg(crab.take(j), position);
    } else {
        lemma_cost2_prefix(crab, position, j + 1);
        assert(crab.take(j + 1).drop_last() =~= crab.take(j));
        lemma_cost2_nonneg(crab.take(j), position);
        lemma_tri_nonneg(dist(crab.take(j + 1).last() as int, position));
    }
}

proof fn lemma_cost2_nonneg(crab: Seq<usize>, position: int)
    ensures
        cost2_spec(crab, position) >= 0,
    decreases crab.len(),
{
    if crab.len() > 0 {
        lemma_cost2_nonneg(crab.drop_last(), position);
        lemma_tri_nonneg(dist(crab.last() as int, position));
    }
}

proof fn lemma_tri_nonneg(n: int)
    ensures
        tri(n) >= 0,
        n >= 0 ==> tri(n) >= n,
    decreases n,
{
    if n > 0 {
        lemma_tri_nonneg(n - 1);
    }
}

/// How far apart two positions are.
pub fn delta(a: usize, b: usize) -> (d: usize)
    ensures
        d == dist(a as int, b as int),
{
    if a >= b {
        a - b
    } else {
        b - a
    }
}

/// Fuel to bring every crab to `position` at one unit per step.
pub fn cost1(crab: &Vec<usize>, position: usize) -> (c: usize)
    requires
        cost1_spec(crab@, position as int) <= usize::MAX as int,
    ensures
        c == cost1_spec(crab@, position as int),
{
    let mut c: usize = 0;
    let mut k: usize = 0;
    while k < crab.len()
        invariant
            0 <= k <= crab.len(),
            cost1_spec(crab@, position as int) <= usize::MAX as int,
            c == cost1_spec(crab@.take(k as int), position as int),
        decreases crab.len() - k,
    {
        proof {
            lemma_cost1_prefix(crab@, position as int, k + 1);
            assert(crab@.take(k + 1).drop_last() =~= crab@.take(k as int));
        }
        c = c + delta(crab[k], position);
        k = k + 1;
    }
    proof {
        assert(crab@.take(crab@.len() as int) =~= crab@);
    }
    c
}

/// The increasing-rate cost of one move of length `d`.
fn tri_exec(d: usize) -> (t: usize)
    requires
        tri(d as int) <= usize::MAX as int,
    ensures
        t == tri(d as int),
{
    let mut t: usize = 0;
    let mut k: usize = 0;
    while k < d
        invariant
            0 <= k <= d,
            tri(d as int) <= usize::MAX as int,
            t == tri(k as int),
        decreases d - k,
    {
        proof {
            lemma_tri_mono(k + 1, d as int);
        }
        k = k + 1;
        t = t + k;
    }
    t
}

proof fn lemma_tri_mono(a: int, b: int)
    requires
        0 <= a <= b,
    ensures
        tri(a) <= tri(b),
    decreases b - a,
{
    if a < b {
        lemma_tri_mono(a + 1, b);
        lemma_tri_nonneg(a);
    }
}

/// Fuel to bring every crab to `position` when each further step of a move
/// costs one more than the last.
pub fn cost2(crab: &Vec<usize>, position: usize) -> (c: usize)
    requires
        cost2_spec(crab@, position as int) <= usize::MAX as int,
    ensures
        c == cost2_spec(crab@, position as int),
{
    let mut c: usize = 0;
    let mut k: usize = 0;
    while k < crab.len()
        invariant
            0 <= k <= crab.len(),
            cost2_spec(crab@, position as int) <= usize::MAX as int,
            c == cost2_spec(crab@.take(k as int), position as int),
        decreases crab.len() - k,
    {
        proof {
            lemma_cost2_prefix(crab@, position as int, k + 1);
            assert(crab@.take(k + 1).drop_last() =~= crab@.take(k as int));
            lemma_tri_nonneg(dist(crab@[k as int] as int, position as int));
        }
        let d = delta(crab[k], position);
        c = c + tri_exec(d);
        k = k + 1;
    }
    proof {
        assert(crab@.take(crab@.len() as int) =~= crab@);
    }
    c
}

} // verus!
