//! Lanternfish: each fish spawns on a fixed cycle, and the school is
//! counted after a number of days.
use vstd::prelude::*;

verus! {

/// One fish, as the days left until it next spawns.
#[derive(Debug, Copy, Clone, PartialEq, Eq, Structural)]
pub struct Lanternfish {
    pub timer: u32,
}

impl Lanternfish {
    pub fn new(timer: u32) -> (f: Lanternfish)
        ensures
            f.timer == timer,
    {
        Lanternfish { timer }
    }

    /// One day passes: the timer counts down, and at zero the fish resets
    /// and spawns a new fish.
    pub fn next_day(&mut self) -> (spawn: Option<Lanternfish>)
        ensures
            old(self).timer == 0 ==> final(self).timer == 6 && spawn == Some(
                Lanternfish { timer: 8 },
            ),
            old(self).timer > 0 ==> final(self).timer == old(self).timer - 1 && spawn is None,
    {
        if self.timer == 0 {
            self.timer = 6;
            return Some(Lanternfish::new(8));
        }
        self.timer = self.timer - 1;
        None
    }
}

/// How many fish a single fish with `timer` days on its clock becomes
/// after `days` days, counting itself.
pub open spec fn lantern_spec(timer: int, days: int) -> int
    recommends
        timer >= 0,
    decreases lantern_measure(timer, days), 1int,
    when timer >= 0
{
    1 + lantern_sum(timer, days)
}

/// The descendants spawned at `timer`, `timer + 7`, ... before `days`.
pub open spec fn lantern_sum(t: int, days: int) -> int
    recommends
        t >= 0,
    decreases lantern_measure(t, days), 0int,
    when t >= 0
{
    if t >= days {
        0
    } else {
        lantern_spec(9, days - t) + lantern_sum(t + 7, days)
    }
}

/// A termination measure for the spawn recursion: spawning always moves
/// either to a later start day or to a strictly shorter horizon.
pub open spec fn lantern_measure(t: int, days: int) -> int {
    if 2 * days >= t {
        2 * days - t
    } else {
        0
    }
}

proof fn lemma_lantern_nonneg(t: int, days: int)
    requires
        t >= 0,
    ensures
        lantern_sum(t, days) >= 0,
        lantern_spec(t, days) >= 1,
    decreases lantern_measure(t, days), 2int,
{
    if t < days {
        lemma_lantern_nonneg(9, days - t);
        lemma_lantern_nonneg(t + 7, days);
    }
}

/// Counts the school grown from one fish with `timer` days on its clock,
/// after `days` days.
pub fn lantern_count(timer: u32, days: u32) -> (r: usize)
    requires
        lantern_spec(timer as int, days as int) <= usize::MAX as int,
    ensures
        r as int == lantern_spec(timer as int, days as int),
    decreases lantern_measure(timer as int, days as int),
{
    let mut r: usize = 1;
    let mut t: u64 = timer as u64;
    let d: u64 = days as u64;
    while t < d
        invariant
            timer as int <= t as int,
            d == days as int,
            lantern_spec(timer as int, days as int) <= usize::MAX as int,
            r as int + lantern_sum(t as int, days as int) == lantern_spec(
                timer as int,
                days as int,
            ),
        decreases d + 7 - t,
    {
        proof {
            lemma_lantern_nonneg(9, d as int - t as int);
            lemma_lantern_nonneg(t as int + 7, d as int);
            assert(lantern_measure(9, d as int - t as int) < lantern_measure(
                timer as int,
                days as int,
            ));
        }
        let sub = lantern_count(9, (d - t) as u32);
        r = r + sub;
        t = t + 7;
    }
    r
}

} // verus!
