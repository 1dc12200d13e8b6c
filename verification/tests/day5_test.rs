use aoc21::day5::{VentLine, VentMap};

#[test]
fn day5_parse_line() {
    let l = VentLine::parse(&String::from("242,601 -> 242,18"));
    assert_eq!(l.start, (242, 601));
    assert_eq!(l.end, (242, 18));
}

#[test]
fn get_range_walks_both_ways() {
    assert_eq!(VentLine::get_range(2, 5), vec![2, 3, 4, 5]);
    assert_eq!(VentLine::get_range(5, 2), vec![5, 4, 3, 2]);
}

#[test]
fn get_points_horizontal_vertical_diagonal() {
    let v = VentLine::new((1, 1), (1, 3));
    assert_eq!(v.get_points(false), vec![(1, 1), (1, 2), (1, 3)]);
    let h = VentLine::new((9, 7), (7, 7));
    assert_eq!(h.get_points(false), vec![(9, 7), (8, 7), (7, 7)]);
    let d = VentLine::new((1, 1), (3, 3));
    assert_eq!(d.get_points(false), Vec::<(usize, usize)>::new());
    assert_eq!(d.get_points(true), vec![(1, 1), (2, 2), (3, 3)]);
    let d2 = VentLine::new((9, 7), (7, 9));
    assert_eq!(d2.get_points(true), vec![(9, 7), (8, 8), (7, 9)]);
}

fn example_lines() -> Vec<VentLine> {
    [
        ((0, 9), (5, 9)),
        ((8, 0), (0, 8)),
        ((9, 4), (3, 4)),
        ((2, 2), (2, 1)),
        ((7, 0), (7, 4)),
        ((6, 4), (2, 0)),
        ((0, 9), (2, 9)),
        ((3, 4), (1, 4)),
        ((0, 0), (8, 8)),
        ((5, 5), (8, 2)),
    ]
    .iter()
    .map(|&(s, e)| VentLine::new(s, e))
    .collect()
}

#[test]
fn ventmap_counts_overlaps() {
    let lines = example_lines();
    let m = VentMap::new(&lines, false);
    assert_eq!(m.overlapping_count(2), 5);
    let m2 = VentMap::new(&lines, true);
    assert_eq!(m2.overlapping_count(2), 12);
}
