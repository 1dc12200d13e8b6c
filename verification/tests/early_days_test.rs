use aoc21::day1::find;
use aoc21::day2::{Command, Part, Submarine};
use aoc21::day4::BingoBoard;
use aoc21::day6::{lantern_count, Lanternfish};
use aoc21::day21::Player;
use aoc21::day3::{part1, value_counts};
use aoc21::day7::{cost1, cost2, delta};

#[test]
fn sweep_counts_increases() {
    let depths = vec![199, 200, 208, 210, 200, 207, 240, 269, 260, 263];
    assert_eq!(find(&depths, 1), 7);
    assert_eq!(find(&depths, 3), 5);
}

#[test]
fn sweep_short_input() {
    let depths = vec![5, 6];
    assert_eq!(find(&depths, 3), 0);
    assert_eq!(find(&depths, 1), 1);
}

#[test]
fn command_parses() {
    let c = Command::parse("forward 5");
    assert_eq!(c.movement, "forward");
    assert_eq!(c.amount, 5);
}

fn example_course() -> Vec<Command> {
    ["forward 5", "down 5", "forward 8", "up 3", "down 8", "forward 2"]
        .iter()
        .map(|l| Command::parse(l))
        .collect()
}

#[test]
fn submarine_part1_course() {
    let mut sub = Submarine::new(Part::Part1);
    assert_eq!(sub.execute_many(&example_course()), 150);
    assert_eq!(sub.horizontal, 15);
    assert_eq!(sub.depth, 10);
}

#[test]
fn submarine_part2_course() {
    let mut sub = Submarine::new(Part::Part2);
    assert_eq!(sub.execute_many(&example_course()), 900);
    assert_eq!(sub.horizontal, 15);
    assert_eq!(sub.depth, 60);
}

fn example_board() -> BingoBoard {
    BingoBoard::new(vec![
        vec![14, 21, 17, 24, 4],
        vec![10, 16, 15, 9, 19],
        vec![18, 8, 23, 26, 20],
        vec![22, 11, 13, 6, 5],
        vec![2, 0, 12, 3, 7],
    ])
}

#[test]
fn bingo_board_wins_and_scores() {
    let mut b = example_board();
    assert_eq!(b.score(24), None);
    let draws = [7u32, 4, 9, 5, 11, 17, 23, 2, 0, 14, 21];
    for d in draws.iter() {
        assert!(!b.mark(*d));
    }
    assert!(b.mark(24));
    assert!(b.is_winner());
    assert_eq!(b.score(24), Some(4512));
}

#[test]
fn bingo_mark_unknown_number_changes_nothing() {
    let mut b = example_board();
    let before = b.clone();
    assert!(!b.mark(99));
    assert_eq!(b, before);
}

#[test]
fn lanternfish_cycle() {
    let mut f = Lanternfish::new(1);
    assert_eq!(f.next_day(), None);
    assert_eq!(f.timer, 0);
    let spawn = f.next_day();
    assert_eq!(spawn, Some(Lanternfish::new(8)));
    assert_eq!(f.timer, 6);
}

#[test]
fn lantern_count_example() {
    assert_eq!(lantern_count(3, 18), 5);
    let timers = [3u32, 4, 3, 1, 2];
    let after18: usize = timers.iter().map(|&t| lantern_count(t, 18)).sum();
    assert_eq!(after18, 26);
    let after80: usize = timers.iter().map(|&t| lantern_count(t, 80)).sum();
    assert_eq!(after80, 5934);
}

#[test]
fn crab_costs() {
    let crabs = vec![16, 1, 2, 0, 4, 2, 7, 1, 2, 14];
    assert_eq!(delta(16, 2), 14);
    assert_eq!(delta(2, 16), 14);
    assert_eq!(cost1(&crabs, 2), 37);
    assert_eq!(cost2(&crabs, 5), 168);
    assert_eq!(cost2(&crabs, 2), 206);
}

#[test]
fn dirac_player_moves() {
    let mut p = Player::new(1, 4);
    assert!(!p.forward(6));
    assert_eq!(p.position, 10);
    assert_eq!(p.score, 10);
    assert!(!p.forward(24));
    assert_eq!(p.position, 4);
    assert_eq!(p.score, 14);
    assert!(!p.is_winner());
    p.score = 999;
    assert!(!p.is_winner());
    assert!(p.forward(7));
}

#[test]
fn diagnostic_power_consumption() {
    let entries: Vec<Vec<u32>> = [
        "00100", "11110", "10110", "10111", "10101", "01111", "00111", "11100", "10000", "11001",
        "00010", "01010",
    ]
    .iter()
    .map(|l| l.chars().map(|c| c.to_digit(10).unwrap()).collect())
    .collect();
    let (zeros, ones) = value_counts(&entries, 0);
    assert_eq!((zeros, ones), (5, 7));
    assert_eq!(part1(&entries), 198);
}

#[test]
fn bingo_board_parses() {
    let b = BingoBoard::parse("14 21 17 24  4\n10 16 15  9 19\n18  8 23 26 20\n22 11 13  6  5\n 2  0 12  3  7");
    assert_eq!(b, example_board());
}

#[test]
fn dirac_example_game() {
    let players = vec![Player::new(1, 4), Player::new(2, 8)];
    assert_eq!(aoc21::day21::part1(players), 739785);
}
