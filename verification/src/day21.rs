//! Dirac dice warm-up: players walk a circular ten-space board and bank
//! the space they land on.
use vstd::prelude::*;

verus! {

/// A player: position on the board (1 to 10) and banked score.
#[derive(Debug, Copy, Clone, PartialEq, Eq, Structural)]
pub struct Player {
    pub id: usize,
    pub position: usize,
    pub score: usize,
}

impl Player {
    pub fn new(id: usize, position: usize) -> (p: Player)
        ensures
            p == (Player { id, position, score: 0 }),
    {
        Player { id, position, score: 0 }
    }

    /// Moves the player `value` spaces around the board and banks the
    /// space landed on; reports whether that wins.
    pub fn forward(&mut self, value: usize) -> (won: bool)
        requires
            old(self).position + value <= usize::MAX,
            old(self).score + 10 <= usize::MAX,
        ensures
            final(self).id == old(self).id,
            final(self).position == if (old(self).position + value) % 10 == 0 {
                10int
            } else {
                ((old(self).position + value) % 10) as int
            },
            final(self).score == old(self).score + final(self).position,
            won == (final(self).score >= 1000),
    {
        let p = (self.position + value) % 10;
        if p == 0 {
            self.position = 10;
        } else {
            self.position = p;
        }
        self.score = self.score + self.position;
        self.is_winner()
    }

    /// Whether the player has banked a winning score.
    pub fn is_winner(&self) -> (r: bool)
        ensures
            r == (self.score >= 1000),
    {
        self.score >= 1000
    }
}

/// One move applied to a player at the mathematical level: walk `v`
/// spaces, bank the space landed on.
pub open spec fn forward_spec(p: Player, v: int) -> Player {
    let np = if (p.position + v) % 10 == 0 {
        10int
    } else {
        (p.position + v) % 10
    };
    Player { position: np as usize, score: (p.score + np) as usize, ..p }
}

/// How far the table still is from someone winning.
pub open spec fn deficit(players: Seq<Player>, i: int) -> int
    decreases players.len() - i,
{
    if i < 0 || i >= players.len() {
        0
    } else {
        (if players[i].score >= 1000 {
            0int
        } else {
            1000 - players[i].score
        }) + deficit(players, i + 1)
    }
}

/// Nobody has banked a winning score yet.
pub open spec fn no_winner(players: Seq<Player>) -> bool {
    forall|k: int| 0 <= k < players.len() ==> (#[trigger] players[k]).score < 1000
}

/// All positions lie on the board.
pub open spec fn on_board(players: Seq<Player>) -> bool {
    forall|k: int| 0 <= k < players.len() ==> 1 <= (#[trigger] players[k]).position <= 10
}

/// The game played to its end from player `idx`'s turn, with the next die
/// value `dice`: the final table, the die after the last roll, and the
/// winner's index.
pub open spec fn play_from(players: Seq<Player>, dice: int, idx: int) -> (Seq<Player>, int, int)
    recommends
        players.len() >= 1,
        0 <= idx < players.len(),
        no_winner(players),
    decreases deficit(players, 0), players.len() - idx,
    when players.len() >= 1 && 0 <= idx < players.len() && no_winner(players) && dice >= 1
    via play_from_dec
{
    let sum = 3 * dice + 3;
    let moved = forward_spec(players[idx], sum);
    let next = players.update(idx, moved);
    if moved.score >= 1000 {
        (next, dice + 3, idx)
    } else if idx + 1 < players.len() {
        play_from(next, dice + 3, idx + 1)
    } else {
        play_from(next, dice + 3, 0)
    }
}

#[via_fn]
proof fn play_from_dec(players: Seq<Player>, dice: int, idx: int) {
    if players.len() >= 1 && 0 <= idx < players.len() && no_winner(players) && dice >= 1 {
        let sum = 3 * dice + 3;
        let moved = forward_spec(players[idx], sum);
        let next = players.update(idx, moved);
        if moved.score < 1000 {
            lemma_deficit_update(players, idx, moved);
            lemma_deficit_nonneg(next, 0);
        }
    }
}

proof fn lemma_deficit_nonneg(players: Seq<Player>, i: int)
    ensures
        deficit(players, i) >= 0,
    decreases players.len() - i,
{
    if 0 <= i < players.len() {
        lemma_deficit_nonneg(players, i + 1);
    }
}

/// A turn of a not-yet-winning player strictly lowers the table's deficit.
proof fn lemma_deficit_update(players: Seq<Player>, idx: int, moved: Player)
    requires
        0 <= idx < players.len(),
        players[idx].score < 1000,
        moved.score > players[idx].score,
    ensures
        deficit(players.update(idx, moved), 0) < deficit(players, 0),
    decreases players.len(),
{
    lemma_deficit_update_from(players, idx, moved, 0);
}

proof fn lemma_deficit_update_from(players: Seq<Player>, idx: int, moved: Player, i: int)
    requires
        0 <= i <= idx < players.len(),
        players[idx].score < 1000,
        moved.score > players[idx].score,
    ensures
        deficit(players.update(idx, moved), i) < deficit(players, i),
    decreases players.len() - i,
{
    let upd = players.update(idx, moved);
    if i < idx {
        lemma_deficit_update_from(players, idx, moved, i + 1);
    } else {
        assert(forall|k: int| idx < k < players.len() ==> upd[k] == players[k]);
        lemma_deficit_frame(players, upd, idx + 1);
    }
}

proof fn lemma_deficit_frame(a: Seq<Player>, b: Seq<Player>, i: int)
    requires
        a.len() == b.len(),
        forall|k: int| i <= k < a.len() ==> (#[trigger] a[k]) == b[k],
    ensures
        deficit(a, i) == deficit(b, i),
    decreases a.len() - i,
{
    if 0 <= i < a.len() {
        lemma_deficit_frame(a, b, i + 1);
    }
}

/// The first player other than the winner, read off the final table.
pub open spec fn losing_score(players: Seq<Player>, winner_id: int) -> int
    decreases players.len(),
{
    losing_score_from(players, winner_id, 0)
}

pub open spec fn losing_score_from(players: Seq<Player>, winner_id: int, i: int) -> int
    decreases players.len() - i,
{
    if i < 0 || i >= players.len() {
        0
    } else if players[i].id != winner_id {
        players[i].score as int
    } else {
        losing_score_from(players, winner_id, i + 1)
    }
}

/// The table's deficit never exceeds a thousand points per player.
proof fn lemma_deficit_upper(players: Seq<Player>, i: int)
    requires
        0 <= i <= players.len(),
    ensures
        deficit(players, i) <= 1000 * (players.len() - i),
    decreases players.len() - i,
{
    if i < players.len() {
        lemma_deficit_upper(players, i + 1);
    }
}

/// Plays the deterministic-dice game to its end and returns the number of
/// rolls times the losing player's score.
pub fn part1(players: Vec<Player>) -> (r: usize)
    requires
        2 <= players@.len() <= 10,
        no_winner(players@),
        on_board(players@),
        forall|k: int, j: int|
            0 <= k < j < players@.len() ==> (#[trigger] players@[k]).id != (
            #[trigger] players@[j]).id,
    ensures
        ({
            let outcome = play_from(players@, 1, 0);
            r == (outcome.1 - 1) * losing_score(outcome.0, outcome.0[outcome.2].id as int)
        }),
{
    let ghost init = players@;
    let ghost outcome = play_from(init, 1, 0);
    let n = players.len();
    let mut players = players;
    let mut dice: usize = 1;
    let mut idx: usize = 0;
    let mut winner: Option<usize> = None;
    proof {
        lemma_deficit_nonneg(init, 0);
        lemma_deficit_upper(init, 0);
        assert(players@ == init);
        assert(deficit(players@, 0) <= 1000 * n);
        assert(deficit(players@, 0) <= 10000);
    }
    while winner.is_none()
        invariant
            n == players@.len(),
            2 <= n <= 10,
            outcome == play_from(init, 1, 0),
            forall|k: int, j: int|
                0 <= k < j < players@.len() ==> (#[trigger] players@[k]).id != (
                #[trigger] players@[j]).id,
            1 <= dice,
            dice as int + 3 * deficit(players@, 0) <= 30001,
            match winner {
                None => {
                    &&& 0 <= idx < n
                    &&& no_winner(players@)
                    &&& on_board(players@)
                    &&& play_from(players@, dice as int, idx as int) == outcome
                },
                Some(w) => {
                    &&& 0 <= w < n
                    &&& players@ == outcome.0
                    &&& dice == outcome.1
                    &&& w == outcome.2
                    &&& forall|k: int|
                        0 <= k < n && k != w ==> (#[trigger] players@[k]).score < 1000
                },
            },
        decreases deficit(players@, 0), (if winner is None {
            1int
        } else {
            0int
        }), n - idx,
    {
        let ghost before = players@;
        let ghost dice0 = dice as int;
        proof {
            lemma_deficit_nonneg(before, 0);
        }
        let sum = 3 * dice + 3;
        let mut p = players[idx];
        let won = p.forward(sum);
        players[idx] = p;
        let ghost moved = forward_spec(before[idx as int], 3 * dice0 + 3);
        proof {
            assert(players@ =~= before.update(idx as int, moved));
            lemma_deficit_update(before, idx as int, moved);
            lemma_deficit_nonneg(players@, 0);
        }
        dice = dice + 3;
        if won {
            winner = Some(idx);
            proof {
                assert(play_from(before, dice0, idx as int) == (
                    players@,
                    dice0 + 3,
                    idx as int,
                ));
            }
        } else {
            proof {
                assert(forall|k: int|
                    0 <= k < n && k != idx as int ==> players@[k] == before[k]);
                if idx + 1 < n {
                    assert(play_from(before, dice0, idx as int) == play_from(
                        players@,
                        dice0 + 3,
                        idx as int + 1,
                    ));
                } else {
                    assert(play_from(before, dice0, idx as int) == play_from(
                        players@,
                        dice0 + 3,
                        0,
                    ));
                }
            }
            if idx + 1 < n {
                idx = idx + 1;
            } else {
                idx = 0;
            }
        }
    }
    let rolls = dice - 1;
    let widx = match winner {
        Some(w) => w,
        None => 0,
    };
    let winner_id = players[widx].id;
    proof {
        lemma_deficit_nonneg(players@, 0);
    }
    let mut li: usize = 0;
    let mut losing: usize = 0;
    let mut found: bool = false;
    while li < n
        invariant
            0 <= li <= n,
            n == players@.len(),
            widx == outcome.2,
            0 <= widx < n,
            players@ == outcome.0,
            winner_id == players@[widx as int].id,
            forall|k: int, j: int|
                0 <= k < j < players@.len() ==> (#[trigger] players@[k]).id != (
                #[trigger] players@[j]).id,
            forall|k: int| 0 <= k < n && k != widx as int ==> (#[trigger] players@[k]).score
                < 1000,
            !found ==> losing == 0 && losing_score_from(players@, winner_id as int, li as int)
                == losing_score(players@, winner_id as int),
            found ==> losing as int == losing_score(players@, winner_id as int) && losing < 1000,
        decreases n - li,
    {
        if !found {
            if players[li].id != winner_id {
                proof {
                    assert(li as int != widx as int);
                    assert(players@[li as int].score < 1000);
                }
                losing = players[li].score;
                found = true;
            }
        }
        li = li + 1;
    }
    proof {
        if !found {
            assert(losing_score_from(players@, winner_id as int, n as int) == 0);
        }
        assert(rolls <= 30000);
        assert(losing < 1000);
        assert(rolls * losing < 30001 * 1000) by (nonlinear_arith)
            requires
                0 <= rolls <= 30000,
                0 <= losing < 1000,
        ;
    }
    rolls * losing
}

} // verus!
