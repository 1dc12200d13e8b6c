use aoc21::day19::{Beacon, RegistrationStalled, Scanner, merge_clouds, max_manhatten, overlaps, register, reorient};

fn cloud(pts: &[(i32, i32, i32)]) -> Vec<Beacon> {
    pts.iter().map(|&(x, y, z)| Beacon { x, y, z }).collect()
}
fn sensor_data() -> Vec<Vec<Beacon>> {
    vec![
        cloud(&[(178, -524, -67), (451, -118, -345), (159, 541, -452), (814, -510, -569), (141, -128, -154), (984, -521, 519), (357, 541, 229), (401, 344, -61), (-37, -249, 235), (646, -6, -312), (390, 114, -421), (139, 203, -432), (-599, 63, 400), (-561, -371, 143), (29, -110, -482), (-107, 561, -439), (-425, 395, -459), (490, -343, -338), (373, 525, -262), (-58, 480, 266)]),
        cloud(&[(922, 7, 574), (649, 285, 168), (941, 392, -491), (286, 509, 560), (959, 94, 178), (116, -579, 571), (743, -289, -491), (699, 1, -294), (1137, -295, 299), (454, 252, 56), (710, 361, -64), (961, 372, -153), (-395, 69, -139), (252, -488, -375), (85, 449, -210), (-790, -130, -35), (-842, 468, 172), (247, 18, 99), (177, 404, 89), (-438, -318, -4), (-407, -148, 232), (-387, 64, 136), (194, -483, 215), (-161, -336, 231), (-152, -870, 598), (176, 156, 486), (156, -376, 1085), (-196, 135, 602), (193, -374, -11), (190, -540, 128), (-314, -272, 858), (340, -879, 645), (-478, -927, 612), (-252, -547, -45), (-116, -13, 701), (-418, 84, 140), (167, 189, -504), (-38, -164, -217)]),
        cloud(&[(337, -179, 151), (520, 52, -489), (-308, 513, -406), (-483, 808, -139), (-449, -252, 141), (422, 271, -321), (327, 326, -515), (111, 654, 369), (-389, 750, 10), (-389, -58, -236), (-115, 132, 62), (-436, 55, -729), (-324, 297, -459), (140, -353, 93), (557, -469, -92), (149, 534, 129), (480, -586, 455), (536, -132, 462), (-452, 76, 455)]),
        cloud(&[(69, 49, 126), (305, -508, 773), (140, 429, 606), (-35, -150, -269), (-242, 448, -321), (-169, -2, 768), (-159, 384, 698), (-66, -338, 83), (-302, -168, 114), (-206, 44, 134), (-285, -503, 715), (-301, -356, 360), (-30, -394, 113), (504, 330, 162), (580, -368, -569), (368, -233, 103), (-407, 402, 211), (125, -267, -282), (356, 490, -241), (-476, -224, 399)]),
        cloud(&[(210, -502, 202), (-816, -614, -126), (-284, -15, -106), (-795, -498, 246), (-286, -1111, -143), (-120, -972, -140), (-388, -242, 364), (219, -455, -290), (267, -488, 528), (-113, -1145, 302), (-647, -399, 166), (-744, -960, 468), (-237, 601, -829), (-420, -39, -598), (408, 44, -137), (583, 311, 158), (549, 591, -902), (-322, 129, -379), (-227, -65, -324), (-11, 819, 4), (489, 460, 100), (489, 214, -708), (215, 512, -518), (536, -279, -595), (-91, 377, 94), (498, 211, -208), (264, 313, 318), (347, 30, -225), (307, 446, -89), (-497, 400, 527)]),
    ]
}

fn cloud_a() -> Vec<Beacon> {
    cloud(&[(-137, -492, 8), (533, -702, -652), (297, -608, -52), (393, -682, 239), (-361, -724, -624), (88, 56, -657), (-308, -615, 328), (69, -679, 358), (-547, -343, 491), (484, 393, -674), (381, 399, 12), (-699, -348, -705), (340, -528, -207), (58, -505, 307), (-559, 369, -169), (347, 596, -430), (-589, 391, 369), (508, -416, -38), (-601, 321, 658), (-672, 355, -678), (467, -379, 216), (593, 288, 75), (791, -157, 153), (399, 128, -60), (-187, -292, -432), (631, 797, -301), (-633, 376, -186), (275, 213, -97), (693, 119, -211), (447, -651, -559)])
}

fn cloud_b11() -> Vec<Beacon> {
    cloud(&[(-137, -492, 8), (533, -702, -652), (297, -608, -52), (393, -682, 239), (-361, -724, -624), (88, 56, -657), (-308, -615, 328), (69, -679, 358), (-547, -343, 491), (484, 393, -674), (381, 399, 12), (50248, -39944, 29537), (50750, -40100, 29511), (50201, -39937, 29280), (50568, -40642, 30765), (50342, -39627, 29842), (49896, -39377, 29917), (50417, -39783, 30387), (50134, -40660, 29391), (49752, -39830, 30627)])
}

fn cloud_b12() -> Vec<Beacon> {
    cloud(&[(-137, -492, 8), (533, -702, -652), (297, -608, -52), (393, -682, 239), (-361, -724, -624), (88, 56, -657), (-308, -615, 328), (69, -679, 358), (-547, -343, 491), (484, 393, -674), (381, 399, 12), (-699, -348, -705), (50248, -39944, 29537), (50750, -40100, 29511), (50201, -39937, 29280), (50568, -40642, 30765), (50342, -39627, 29842), (49896, -39377, 29917), (50417, -39783, 30387), (50134, -40660, 29391)])
}

fn stall_data() -> Vec<Vec<Beacon>> {
    vec![cloud(&[(560, -667, -676), (697, 636, -166), (525, 383, 595), (112, -218, 667), (-10, 569, -90), (-754, 145, -73), (-456, 451, -561), (211, -680, -354), (773, -212, -536), (712, -293, 14), (0, 216, -635), (-460, 119, 22), (325, -231, -520), (81, 326, -230), (646, 50, -66), (598, -21, -328), (-491, -631, -440), (-491, -325, 548), (-323, -776, 193), (406, -427, -262)]), cloud(&[(567, -340, -876), (-736, -203, -366), (-483, -375, 395), (118, -788, 467), (-669, -910, -290), (-245, -1654, -273), (-551, -1356, -761), (580, -689, -554), (112, -127, -736), (193, -188, -186), (-316, -900, -835), (-219, -1360, -178), (396, -112, -251), (-147, 29, -22), (-179, 224, -74), (-307, -272, 127), (-270, 232, 292), (345, 357, 67), (-296, 398, 172), (-7, 1, 8)]), cloud(&[(70007, 59412, -49814), (70499, 60020, -50673), (69590, 59337, -50373), (70102, 59532, -50575), (69896, 60430, -50693), (69409, 59200, -49640), (69509, 60298, -50593), (69944, 60456, -50748), (69344, 59625, -49543), (69970, 59504, -49501), (69716, 59911, -49567), (69945, 60171, -50549), (69436, 60199, -49846), (70183, 60190, -50162), (69375, 59495, -50591)])]
}

#[test]
fn beacon_parse_line() {
    let b = Beacon::parse("404,-588,-901");
    assert_eq!(b, Beacon { x: 404, y: -588, z: -901 });
}

#[test]
fn beacon_delta_and_manhatten() {
    let a = Beacon { x: 1, y: 2, z: 3 };
    let b = Beacon { x: -4, y: 7, z: 1 };
    let d = Beacon::delta(&a, &b);
    assert_eq!(d, Beacon { x: -5, y: 5, z: -2 });
    assert_eq!(Beacon::manhatten(&a, &b), 12);
}

#[test]
fn orientations_are_distinct() {
    // the 24 orientations all differ on a generic witness point
    let mut seen: Vec<Beacon> = Vec::new();
    for r in 0..24 {
        let b = Beacon::orientation(1, 2, 3, r);
        assert!(!seen.contains(&b));
        seen.push(b);
    }
}

#[test]
fn orientations_have_inverses() {
    // applying an orientation and then some member of the set returns the
    // original point, so the set is closed under inversion
    let p = (7, -3, 11);
    for r in 0..24 {
        let b = Beacon::orientation(p.0, p.1, p.2, r);
        let mut found = false;
        for r2 in 0..24 {
            let back = Beacon::orientation(b.x, b.y, b.z, r2);
            if back == (Beacon { x: p.0, y: p.1, z: p.2 }) {
                found = true;
            }
        }
        assert!(found);
    }
}

#[test]
fn orientations_closed_under_composition() {
    // composing any two orientations acts like a single member of the set,
    // on a basis of three generic points
    let ps = [(1, 2, 3), (10, -20, 7), (-5, 4, -9)];
    for a in 0..24 {
        for b in 0..24 {
            let mut found = false;
            for c in 0..24 {
                let mut all = true;
                for &(x, y, z) in ps.iter() {
                    let inner = Beacon::orientation(x, y, z, b);
                    let two = Beacon::orientation(inner.x, inner.y, inner.z, a);
                    let one = Beacon::orientation(x, y, z, c);
                    if one != two {
                        all = false;
                    }
                }
                if all {
                    found = true;
                }
            }
            assert!(found);
        }
    }
}

#[test]
fn reorient_applies_to_every_point() {
    let pts = cloud(&[(1, 2, 3), (-4, 0, 9)]);
    let r = reorient(&pts, 1);
    assert_eq!(r[0], Beacon { x: 1, y: -2, z: -3 });
    assert_eq!(r[1], Beacon { x: -4, y: 0, z: -9 });
}

#[test]
fn eleven_shared_points_do_not_register() {
    let a = cloud_a();
    let b = cloud_b11();
    let (d, shifted) = overlaps(&a, &b);
    assert!(d.is_none());
    assert!(shifted.is_empty());
}

#[test]
fn twelve_shared_points_register() {
    let a = cloud_a();
    let b = cloud_b12();
    let (d, shifted) = overlaps(&a, &b);
    assert_eq!(d, Some(Beacon { x: 0, y: 0, z: 0 }));
    assert_eq!(shifted.len(), b.len());
}

#[test]
fn alignment_is_symmetric() {
    // when one direction aligns, so does the other
    let a = cloud_a();
    let b = cloud_b12();
    let (d_ab, _) = overlaps(&a, &b);
    let (d_ba, _) = overlaps(&b, &a);
    assert!(d_ab.is_some());
    assert!(d_ba.is_some());
}

#[test]
fn merge_is_idempotent() {
    let a = cloud_a();
    let extra = cloud_b12();
    let mut world = a.clone();
    merge_clouds(&mut world, &extra);
    let once = world.clone();
    merge_clouds(&mut world, &extra);
    assert_eq!(world, once);
}

#[test]
fn five_sensor_scenario() {
    let scanners: Vec<Scanner> = sensor_data()
        .into_iter()
        .enumerate()
        .map(|(id, beacons)| Scanner { id, beacons })
        .collect();
    let (world, positions) = register(&scanners).unwrap();
    assert_eq!(world.len(), 79);
    assert_eq!(positions.len(), 5);
    assert_eq!(positions[0], Beacon { x: 0, y: 0, z: 0 });
    assert_eq!(positions[1], Beacon { x: 1100, y: 50, z: -60 });
    assert_eq!(positions[2], Beacon { x: 400, y: -1500, z: 700 });
    assert_eq!(positions[3], Beacon { x: 1621, y: 120, z: -80 });
    assert_eq!(positions[4], Beacon { x: 1050, y: -1050, z: 600 });
    assert_eq!(max_manhatten(&positions), 3621);
}

#[test]
fn registration_is_deterministic() {
    let scanners: Vec<Scanner> = sensor_data()
        .into_iter()
        .enumerate()
        .map(|(id, beacons)| Scanner { id, beacons })
        .collect();
    let first = register(&scanners).unwrap();
    let second = register(&scanners).unwrap();
    assert_eq!(first.0, second.0);
    assert_eq!(first.1, second.1);
}

#[test]
fn registration_stalls_on_disconnected_sensor() {
    let scanners: Vec<Scanner> = stall_data()
        .into_iter()
        .enumerate()
        .map(|(id, beacons)| Scanner { id, beacons })
        .collect();
    assert_eq!(register(&scanners), Err(RegistrationStalled));
}
