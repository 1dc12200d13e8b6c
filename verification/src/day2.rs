//! Submarine piloting: a course of textual commands moves the submarine
//! horizontally and vertically, under two readings of the command set.
use vstd::prelude::*;

verus! {

use crate::parse::{
    digits_val, lemma_split_from_wf, parse_uint_tok, parse_usize_range, split_ranges, str_eq,
    token_view, tokens,
};

/// Which reading of the commands is in force.
#[derive(Debug, Copy, Clone, PartialEq, Eq, Structural)]
pub enum Part {
    Part1,
    Part2,
}

/// One course command: a movement word and an amount.
#[derive(Debug, Clone, PartialEq, Eq)]
pub struct Command {
    pub movement: String,
    pub amount: usize,
}

/// What a command line holds: a movement word, a space, and an unsigned
/// amount (further space-separated tokens are ignored).
pub open spec fn command_of(s: Seq<char>) -> Option<(Seq<char>, int)> {
    let bs = tokens(s, ' ');
    if bs.len() >= 2 && parse_uint_tok(token_view(s, bs[1])) is Some && digits_val(
        token_view(s, bs[1]),
    ) <= usize::MAX as int {
        Some((token_view(s, bs[0]), digits_val(token_view(s, bs[1]))))
    } else {
        None
    }
}

impl Command {
    pub fn new(movement: String, amount: usize) -> (c: Command)
        ensures
            c.movement == movement,
            c.amount == amount,
    {
        Command { movement, amount }
    }

    /// Reads a command from a line such as `forward 5`.
    pub fn parse(command: &str) -> (c: Command)
        requires
            command_of(command@) is Some,
        ensures
            ({
                let t = command_of(command@)->0;
                c.movement@ == t.0 && c.amount as int == t.1
            }),
    {
        proof {
            lemma_split_from_wf(command@, ' ', 0, 0);
        }
        let rs = split_ranges(command, ' ');
        let ghost bs = tokens(command@, ' ');
        proof {
            assert(rs@.map_values(|b: (usize, usize)| (b.0 as int, b.1 as int))[0] == bs[0]);
            assert(rs@.map_values(|b: (usize, usize)| (b.0 as int, b.1 as int))[1] == bs[1]);
        }
        let r0 = rs[0];
        let r1 = rs[1];
        let mvt = command.substring_char(r0.0, r0.1).to_owned();
        let amt = parse_usize_range(command, r1.0, r1.1);
        Command::new(mvt, amt)
    }
}

/// The submarine's navigation state.
#[derive(Debug, Clone, PartialEq, Eq)]
pub struct Submarine {
    pub part: Part,
    pub horizontal: usize,
    pub depth: usize,
    pub aim: usize,
}

/// One command applied to a submarine state; `None` when the movement word
/// is unknown or the arithmetic would leave `usize`.
pub open spec fn step_spec(s: Submarine, cmd: Command) -> Option<Submarine> {
    let a = cmd.amount as int;
    match s.part {
        Part::Part1 => {
            if cmd.movement@ == "forward"@ {
                if s.horizontal + a <= usize::MAX {
                    Some(Submarine { horizontal: (s.horizontal + a) as usize, ..s })
                } else {
                    None
                }
            } else if cmd.movement@ == "down"@ {
                if s.depth + a <= usize::MAX {
                    Some(Submarine { depth: (s.depth + a) as usize, ..s })
                } else {
                    None
                }
            } else if cmd.movement@ == "up"@ {
                if s.depth - a >= 0 {
                    Some(Submarine { depth: (s.depth - a) as usize, ..s })
                } else {
                    None
                }
            } else {
                None
            }
        },
        Part::Part2 => {
            if cmd.movement@ == "forward"@ {
                if s.horizontal + a <= usize::MAX && s.depth + s.aim * a <= usize::MAX {
                    Some(
                        Submarine {
                            horizontal: (s.horizontal + a) as usize,
                            depth: (s.depth + s.aim * a) as usize,
                            ..s
                        },
                    )
                } else {
                    None
                }
            } else if cmd.movement@ == "down"@ {
                if s.aim + a <= usize::MAX {
                    Some(Submarine { aim: (s.aim + a) as usize, ..s })
                } else {
                    None
                }
            } else if cmd.movement@ == "up"@ {
                if s.aim - a >= 0 {
                    Some(Submarine { aim: (s.aim - a) as usize, ..s })
                } else {
                    None
                }
            } else {
                None
            }
        },
    }
}

/// A whole course applied to a submarine state, command by command.
pub open spec fn run_spec(s: Submarine, cmds: Seq<Command>) -> Option<Submarine>
    decreases cmds.len(),
{
    if cmds.len() == 0 {
        Some(s)
    } else {
        match step_spec(s, cmds.first()) {
            None => None,
            Some(s2) => run_spec(s2, cmds.drop_first()),
        }
    }
}

impl Submarine {
    pub fn new(part: Part) -> (s: Submarine)
        ensures
            s == (Submarine { part, horizontal: 0, depth: 0, aim: 0 }),
    {
        Submarine { part, horizontal: 0, depth: 0, aim: 0 }
    }

    /// Applies one command to the submarine.
    pub fn execute(&mut self, cmd: &Command)
        requires
            step_spec(*old(self), *cmd) is Some,
        ensures
            *final(self) == step_spec(*old(self), *cmd)->0,
    {
        let forward = str_eq(cmd.movement.as_str(), "forward");
        let down = str_eq(cmd.movement.as_str(), "down");
        let up = str_eq(cmd.movement.as_str(), "up");
        match self.part {
            Part::Part1 => {
                if forward {
                    self.horizontal = self.horizontal + cmd.amount;
                } else if down {
                    self.depth = self.depth + cmd.amount;
                } else {
                    assert(up);
                    self.depth = self.depth - cmd.amount;
                }
            },
            Part::Part2 => {
                if forward {
                    self.horizontal = self.horizontal + cmd.amount;
                    self.depth = self.depth + self.aim * cmd.amount;
                } else if down {
                    self.aim = self.aim + cmd.amount;
                } else {
                    assert(up);
                    self.aim = self.aim - cmd.amount;
                }
            },
        }
    }

    /// Applies a whole course and reports the answer product.
    pub fn execute_many(&mut self, cmds: &Vec<Command>) -> (r: usize)
        requires
            run_spec(*old(self), cmds@) is Some,
            ({
                let f = run_spec(*old(self), cmds@)->0;
                f.horizontal * f.depth <= usize::MAX
            }),
        ensures
            *final(self) == run_spec(*old(self), cmds@)->0,
            r == final(self).horizontal * final(self).depth,
    {
        let ghost s0 = *self;
        proof {
            assert(cmds@.skip(0) =~= cmds@);
        }
        let mut k: usize = 0;
        while k < cmds.len()
            invariant
                0 <= k <= cmds.len(),
                run_spec(s0, cmds@) is Some,
                run_spec(*self, cmds@.skip(k as int)) == run_spec(s0, cmds@),
            decreases cmds.len() - k,
        {
            proof {
                assert(cmds@.skip(k as int).first() == cmds@[k as int]);
                assert(cmds@.skip(k as int).drop_first() =~= cmds@.skip(k + 1));
            }
            self.execute(&cmds[k]);
            k = k + 1;
        }
        proof {
            assert(cmds@.skip(cmds@.len() as int) =~= Seq::<Command>::empty());
        }
        self.answer()
    }

    /// The answer product: horizontal position times depth.
    pub fn answer(&self) -> (r: usize)
        requires
            self.horizontal * self.depth <= usize::MAX,
        ensures
            r == self.horizontal * self.depth,
    {
        self.horizontal * self.depth
    }
}

} // verus!
