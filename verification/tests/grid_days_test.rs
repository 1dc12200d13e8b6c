use aoc21::day11::EnergyMap;
use aoc21::day12::Cave;
use aoc21::day13::{fold_paper, fold_x, fold_y, Fold, Paper};
use aoc21::day15::{adjacent, get_value, part2_map};
use aoc21::day16::{bits_to_value, hex_to_bits, parse_literal};
use aoc21::day22::{RebootStep, Region};
use aoc21::day23::Diagram;
use aoc21::day8::{Entry, SevenSegment};
use aoc21::day17::{Probe, TargetArea};
use aoc21::day20::{convert, enhance, Image};
use aoc21::day9::{part1, HeightMap};

#[test]
fn heightmap_example_risk() {
    let input = "2199943210\n3987894921\n9856789892\n8767896789\n9899965678";
    let hm = HeightMap::parse(input);
    assert_eq!(hm.size(), (5, 10));
    assert_eq!(hm.value(0, 0), Some(2));
    assert_eq!(hm.value(-1, 0), None);
    assert_eq!(hm.value(0, 10), None);
    assert_eq!(hm.adjacent(0, 0), vec![1, 3]);
    assert_eq!(part1(&hm), 15);
}

#[test]
fn heightmap_low_points() {
    let input = "2199943210\n3987894921\n9856789892\n8767896789\n9899965678";
    let hm = HeightMap::parse(input);
    assert_eq!(hm.low_points(), vec![(0, 1), (0, 9), (2, 2), (4, 6)]);
}

#[test]
fn energymap_geometry() {
    let em = EnergyMap::parse("11111\n19991\n19191\n19991\n11111");
    assert_eq!(em.size(), (5, 5));
    assert_eq!(em.flashes, 0);
    assert_eq!(em.adjacent(0, 0).len(), 3);
    assert_eq!(em.adjacent(2, 2).len(), 8);
    assert_eq!(
        em.adjacent(0, 0),
        vec![(0, 1), (1, 0), (1, 1)]
    );
}

#[test]
fn caves_classify() {
    assert!(Cave::new("AB").is_big());
    assert!(!Cave::new("ab").is_big());
    assert!(Cave::start().is_start());
    assert!(!Cave::start().is_end());
    assert!(Cave::end().is_end());
    assert_eq!(Cave::new("start"), Cave::start());
}

fn example_paper() -> Paper {
    let dots = "6,10\n0,14\n9,10\n0,3\n10,4\n4,11\n6,0\n6,12\n4,1\n0,13\n10,12\n3,4\n3,0\n8,4\n1,10\n2,14\n8,10\n9,0";
    Paper::parse(dots)
}

#[test]
fn paper_parse_and_size() {
    let p = example_paper();
    assert_eq!(p.marked.len(), 18);
    assert_eq!(p.marked[0], (6, 10));
    assert_eq!(p.size, (11, 15));
}

#[test]
fn paper_fold_counts_dots() {
    let p = example_paper();
    let f = Fold { axis: String::from("y"), offset: 7 };
    let folded = fold_paper(&p, &f);
    assert_eq!(folded.size, (11, 7));
    let marked: usize = folded
        .map()
        .iter()
        .map(|row| row.iter().filter(|&&b| b).count())
        .sum();
    assert_eq!(marked, 17);
}

#[test]
fn fold_reflects_points() {
    assert_eq!(fold_x(&vec![(3, 1), (7, 2)], 5), vec![(3, 1), (3, 2)]);
    assert_eq!(fold_y(&vec![(1, 3), (2, 9)], 5), vec![(1, 3), (2, 1)]);
}

#[test]
fn probe_flight() {
    let target = TargetArea { x: (20, 30), y: (-10, -5) };
    let mut probe = Probe::new(7, 2);
    assert_eq!(probe.next(), (7, 2));
    assert_eq!(probe.next(), (13, 3));
    assert_eq!(probe.next(), (18, 3));
    assert_eq!(probe.next(), (22, 2));
    assert_eq!(probe.next(), (25, 0));
    assert_eq!(probe.next(), (27, -3));
    assert_eq!(probe.next(), (28, -7));
    assert!(target.in_target(28, -7));
    assert!(!target.missed_target(28, -7));
    assert!(target.missed_target(31, -7));
    assert!(target.missed_target(28, -11));
    assert_eq!(probe.maxy, 3);
}

#[test]
fn convert_reads_binary() {
    let pixels: Vec<char> = "...#...#.".chars().collect();
    assert_eq!(convert(&pixels), 34);
}

#[test]
fn image_pixels_and_lit() {
    let img = Image::parse("#.\n.#");
    assert_eq!(img.size(), (2, 2));
    assert_eq!(img.get_pixel(0, 0), '#');
    assert_eq!(img.get_pixel(1, 0), '.');
    assert_eq!(img.get_pixel(-1, 0), '.');
    assert_eq!(img.get_pixel(5, 5), '.');
    assert_eq!(img.lit(), 2);
    assert_eq!(
        img.adjacent(0, 0),
        vec!['.', '.', '.', '.', '#', '.', '.', '.', '#']
    );
}

#[test]
fn enhance_grows_image() {
    let algorithm: Vec<char> = (0..512).map(|i| if i % 3 == 0 { '#' } else { '.' }).collect();
    let mut img = Image::parse("#.\n.#");
    let out = enhance(&algorithm, &mut img, 0);
    assert_eq!(img.infinite_fill, '.');
    let rows: Vec<String> = out.grid.iter().map(|r| r.iter().collect()).collect();
    assert_eq!(rows, vec!["...#", "....", "....", "#..."]);
    assert_eq!(out.lit(), 2);
}

#[test]
fn hex_decodes_to_bits() {
    assert_eq!(hex_to_bits('0'), vec![false, false, false, false]);
    assert_eq!(hex_to_bits('D'), vec![true, true, false, true]);
    assert_eq!(hex_to_bits('F'), vec![true, true, true, true]);
}

#[test]
fn bits_spell_numbers() {
    let bits = vec![true, true, false];
    assert_eq!(bits_to_value(&bits), 6);
    assert_eq!(bits_to_value(&Vec::new()), 0);
}

#[test]
fn literal_packet_reads_groups() {
    // the packet D2FE28: after the six header bits, three five-bit groups
    // spell the literal 2021
    let bits: Vec<bool> = "D2FE28".chars().flat_map(hex_to_bits).collect();
    let body: Vec<bool> = bits[6..].to_vec();
    let (used, value) = parse_literal(&body);
    assert_eq!(used, 15);
    assert_eq!(value, 2021);
}

#[test]
fn chiton_geometry() {
    assert_eq!(adjacent(2, 3), vec![(2, 4), (2, 2), (3, 3), (1, 3)]);
    let map = vec![vec![1, 2], vec![3, 4]];
    assert_eq!(get_value(&map, 0, 1), 2);
    assert_eq!(get_value(&map, 1, 0), 3);
    assert_eq!(get_value(&map, -1, 0), u32::MAX);
    assert_eq!(get_value(&map, 0, 2), u32::MAX);
}

#[test]
fn chiton_tiled_map() {
    let map = vec![vec![8]];
    let tiled = part2_map(&map);
    let expect: Vec<Vec<u32>> = vec![
        vec![8, 9, 1, 2, 3],
        vec![9, 1, 2, 3, 4],
        vec![1, 2, 3, 4, 5],
        vec![2, 3, 4, 5, 6],
        vec![3, 4, 5, 6, 7],
    ];
    assert_eq!(tiled, expect);
}

#[test]
fn seven_segment_shapes() {
    let s = SevenSegment::new("ab");
    assert_eq!(s.len(), 2);
    assert!(s.is_unique());
    assert!(SevenSegment::new("dab").is_unique());
    assert!(SevenSegment::new("eafb").is_unique());
    assert!(SevenSegment::new("acedgfb").is_unique());
    assert!(!SevenSegment::new("cdfbe").is_unique());
}

#[test]
fn burrow_moves_and_goal() {
    let out = Diagram::get_move_from(vec!['.', 'B', 'A'], 'A');
    assert_eq!(out, Some(1));
    assert_eq!(Diagram::get_move_from(vec!['.', 'A', 'A'], 'A'), None);
    assert_eq!(Diagram::get_move_from(vec!['.', '.'], 'A'), None);
    let d = Diagram::new(
        vec!['.'; 11],
        vec![vec!['B', 'A'], vec!['B', 'B'], vec!['C', 'C'], vec!['D', 'D']],
        2,
    );
    assert_eq!(d.need_move(0), Some(0));
    assert_eq!(d.need_move(1), None);
    assert_eq!(d.get_room_hallway_position(3), 8);
    assert_eq!(Diagram::get_room_amphipod(2), 'C');
    assert_eq!(Diagram::cost_per_move('D'), 1000);
    assert!(!d.is_done());
    let done = Diagram::new(
        vec!['.'; 11],
        vec![vec!['A', 'A'], vec!['B', 'B'], vec!['C', 'C'], vec!['D', 'D']],
        2,
    );
    assert!(done.is_done());
}

#[test]
fn burrow_move_into_room() {
    let mut hallway = vec!['.'; 11];
    hallway[0] = 'A';
    let mut d = Diagram::new(
        hallway,
        vec![vec!['.', 'A'], vec!['B', 'B'], vec!['C', 'C'], vec!['D', 'D']],
        2,
    );
    let steps = d.move_into_room(0);
    assert_eq!(steps, Some(3));
    assert_eq!(d.rooms[0], vec!['A', 'A']);
    assert_eq!(d.hallway[0], '.');

    let mut hallway2 = vec!['.'; 11];
    hallway2[0] = 'A';
    hallway2[1] = 'B';
    let mut blocked = Diagram::new(
        hallway2.clone(),
        vec![vec!['.', 'A'], vec!['B', 'B'], vec!['C', 'C'], vec!['D', 'D']],
        2,
    );
    assert_eq!(blocked.move_into_room(0), None);
    assert_eq!(blocked.hallway, hallway2);

    let mut full = Diagram::new(
        {
            let mut h = vec!['.'; 11];
            h[5] = 'A';
            h
        },
        vec![vec!['A', 'A'], vec!['B', 'B'], vec!['C', 'C'], vec!['D', 'D']],
        2,
    );
    assert_eq!(full.move_into_room(5), None);
}

#[test]
fn burrow_available_positions() {
    let d = Diagram::new(
        vec!['.'; 11],
        vec![vec!['.', 'A'], vec!['B', 'B'], vec!['C', 'C'], vec!['D', 'D']],
        2,
    );
    assert_eq!(
        d.available_hallway_positions(1, 0),
        vec![(3, 2), (1, 4), (0, 5), (5, 2), (7, 4), (9, 6), (10, 7)]
    );
    let mut h = vec!['.'; 11];
    h[1] = 'D';
    let d2 = Diagram::new(
        h,
        vec![vec!['.', 'A'], vec!['B', 'B'], vec!['C', 'C'], vec!['D', 'D']],
        2,
    );
    assert_eq!(
        d2.available_hallway_positions(1, 1),
        vec![(3, 3), (5, 3), (7, 5), (9, 7), (10, 8)]
    );
}

#[test]
fn reactor_regions() {
    let a = Region { x: (10, 12), y: (10, 12), z: (10, 12) };
    let b = Region { x: (11, 13), y: (11, 13), z: (11, 13) };
    assert_eq!(a.cubes(), 27);
    assert_eq!(a.size(), (3, 3, 3));
    let u = a.union(&b);
    assert_eq!(u, Region { x: (11, 12), y: (11, 12), z: (11, 12) });
    assert_eq!(u.cubes(), 8);
    assert!(a.is_overlapping(&b));
    let far = Region { x: (100, 101), y: (100, 101), z: (100, 101) };
    assert!(!a.is_overlapping(&far));
    let step = RebootStep::new(true, a);
    assert!(step.on);
    assert_eq!(step.region, a);
}

#[test]
fn seven_segment_counts_and_unmapping() {
    let patterns = vec![
        SevenSegment::new("ab"),
        SevenSegment::new("abc"),
        SevenSegment::new("a"),
    ];
    assert_eq!(Entry::counts(&patterns, 'a'), 3);
    assert_eq!(Entry::counts(&patterns, 'b'), 2);
    assert_eq!(Entry::counts(&patterns, 'c'), 1);
    assert_eq!(Entry::counts(&patterns, 'z'), 0);
    let e = Entry {
        patterns,
        outputs: Vec::new(),
        mappings: vec![('a', 'x'), ('b', 'y')],
    };
    assert_eq!(e.unmap('x'), 'a');
    assert_eq!(e.unmap('y'), 'b');
    let fixed = e.fix(&SevenSegment::new("xy"));
    assert_eq!(fixed.segments, vec!['a', 'b']);
}

#[test]
fn seven_segment_digits() {
    assert_eq!(SevenSegment::get_number(SevenSegment::new("cf")), Some(1));
    assert_eq!(SevenSegment::get_number(SevenSegment::new("fc")), Some(1));
    assert_eq!(SevenSegment::get_number(SevenSegment::new("gfedcba")), Some(8));
    assert_eq!(SevenSegment::get_number(SevenSegment::new("cdfeb")), None);
    assert_eq!(SevenSegment::get_number(SevenSegment::new("dgebacf")), Some(8));
    assert_eq!(SevenSegment::get_number(SevenSegment::new("gfcabd")), Some(9));
}

#[test]
fn digits_concatenate() {
    assert_eq!(aoc21::day8::concat(&vec![1, 2, 3, 4]), 1234);
    assert_eq!(aoc21::day8::concat(&vec![0, 7]), 7);
    assert_eq!(aoc21::day8::concat(&Vec::new()), 0);
}

#[test]
fn seven_segment_output_number() {
    let identity: Vec<(char, char)> = "abcdefg".chars().map(|c| (c, c)).collect();
    let e = Entry {
        patterns: Vec::new(),
        outputs: vec![
            SevenSegment::new("cf"),
            SevenSegment::new("fca"),
            SevenSegment::new("dcbf"),
            SevenSegment::new("gfedcba"),
        ],
        mappings: identity,
    };
    assert_eq!(e.number(), 1748);
}

#[test]
fn seven_segment_deduction() {
    let patterns: Vec<SevenSegment> = "acedgfb cdfbe gcdfa fbcad dab cefabd cdfgeb eafb cagedb ab"
        .split(' ')
        .map(SevenSegment::new)
        .collect();
    let mappings = Entry::create_mapping(&patterns);
    assert_eq!(
        mappings,
        vec![
            ('f', 'b'),
            ('b', 'e'),
            ('e', 'g'),
            ('c', 'a'),
            ('a', 'd'),
            ('d', 'f'),
            ('g', 'c'),
        ]
    );
    let outputs: Vec<SevenSegment> = "cdfeb fcadb cdfeb cdbaf"
        .split(' ')
        .map(SevenSegment::new)
        .collect();
    let e = Entry { patterns, outputs, mappings };
    assert_eq!(e.number(), 5353);
}
