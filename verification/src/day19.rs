//! Point-cloud registration: merging the reports of many sensors, each of
//! which sees nearby beacons only in its own (rotated, shifted) frame, into
//! one world-frame beacon map.
use vstd::prelude::*;

verus! {

use crate::parse::{
    lemma_split_from_wf, parse_i32_range, parse_int_tok, split_ranges, token_view, tokens,
};

/// A signed decimal token whose value fits an `i32`.
pub open spec fn valid_i32_tok(t: Seq<char>) -> bool {
    &&& parse_int_tok(t) is Some
    &&& ({
        let v = parse_int_tok(t)->0;
        (i32::MIN as int) < v && v <= i32::MAX as int
    })
}

/// What a beacon line holds: three (or more) comma-separated signed
/// integers, the first three of which are the coordinates.
pub open spec fn beacon_of(s: Seq<char>) -> Option<(int, int, int)> {
    let bs = tokens(s, ',');
    if bs.len() >= 3 && (forall|k: int| 0 <= k < bs.len() ==> valid_i32_tok(
        token_view(s, #[trigger] bs[k]),
    )) {
        Some(
            (
                parse_int_tok(token_view(s, bs[0]))->0,
                parse_int_tok(token_view(s, bs[1]))->0,
                parse_int_tok(token_view(s, bs[2]))->0,
            ),
        )
    } else {
        None
    }
}

/// A beacon observation: an exact 3-tuple of signed integer coordinates.
#[derive(Debug, Copy, Clone, PartialEq, Eq, Structural)]
pub struct Beacon {
    pub x: i32,
    pub y: i32,
    pub z: i32,
}

impl View for Beacon {
    type V = (int, int, int);

    open spec fn view(&self) -> (int, int, int) {
        (self.x as int, self.y as int, self.z as int)
    }
}

/// The number of proper rotations of the cube: the orientations a sensor
/// frame can take relative to the world frame.
pub const ROTATIONS: usize = 24;

/// Orientation `o` applied to a point, at the mathematical level.
///
/// The 24 cases are exactly the signed axis permutations of determinant +1
/// (the proper rotation group of the cube); reflections are excluded.
pub open spec fn rot(o: int, p: (int, int, int)) -> (int, int, int) {
    let (x, y, z) = p;
    if o == 0 { (x, y, z) }
    else if o == 1 { (x, -y, -z) }
    else if o == 2 { (-x, y, -z) }
    else if o == 3 { (-x, -y, z) }
    else if o == 4 { (x, z, -y) }
    else if o == 5 { (x, -z, y) }
    else if o == 6 { (-x, z, y) }
    else if o == 7 { (-x, -z, -y) }
    else if o == 8 { (y, x, -z) }
    else if o == 9 { (y, -x, z) }
    else if o == 10 { (-y, x, z) }
    else if o == 11 { (-y, -x, -z) }
    else if o == 12 { (y, z, x) }
    else if o == 13 { (y, -z, -x) }
    else if o == 14 { (-y, z, -x) }
    else if o == 15 { (-y, -z, x) }
    else if o == 16 { (z, x, y) }
    else if o == 17 { (z, -x, -y) }
    else if o == 18 { (-z, x, -y) }
    else if o == 19 { (-z, -x, y) }
    else if o == 20 { (z, y, -x) }
    else if o == 21 { (z, -y, x) }
    else if o == 22 { (-z, y, x) }
    else { (-z, -y, -x) }
}

/// Componentwise difference `b - a`.
pub open spec fn vsub(a: (int, int, int), b: (int, int, int)) -> (int, int, int) {
    (b.0 - a.0, b.1 - a.1, b.2 - a.2)
}

/// Componentwise sum.
pub open spec fn vadd(a: (int, int, int), d: (int, int, int)) -> (int, int, int) {
    (a.0 + d.0, a.1 + d.1, a.2 + d.2)
}

/// Manhattan distance between two points.
pub open spec fn manh(a: (int, int, int), b: (int, int, int)) -> int {
    abs_int(b.0 - a.0) + abs_int(b.1 - a.1) + abs_int(b.2 - a.2)
}

pub open spec fn abs_int(v: int) -> int {
    if v < 0 { -v } else { v }
}

/// All three coordinates of `p` lie within `b` of the origin.
pub open spec fn in_bounds(p: (int, int, int), b: int) -> bool {
    -b <= p.0 <= b && -b <= p.1 <= b && -b <= p.2 <= b
}

impl Beacon {
    /// Reads a beacon from a comma-separated coordinate line.
    pub fn parse(line: &str) -> (b: Beacon)
        requires
            beacon_of(line@) is Some,
        ensures
            b@ == beacon_of(line@)->0,
    {
        proof {
            lemma_split_from_wf(line@, ',', 0, 0);
        }
        let rs = split_ranges(line, ',');
        let ghost bs = tokens(line@, ',');
        proof {
            assert(rs@.map_values(|b: (usize, usize)| (b.0 as int, b.1 as int)).len() == bs.len());
            assert(rs@.map_values(|b: (usize, usize)| (b.0 as int, b.1 as int))[0] == bs[0]);
            assert(rs@.map_values(|b: (usize, usize)| (b.0 as int, b.1 as int))[1] == bs[1]);
            assert(rs@.map_values(|b: (usize, usize)| (b.0 as int, b.1 as int))[2] == bs[2]);
            assert(valid_i32_tok(token_view(line@, bs[0])));
            assert(valid_i32_tok(token_view(line@, bs[1])));
            assert(valid_i32_tok(token_view(line@, bs[2])));
        }
        let r0 = rs[0];
        let r1 = rs[1];
        let r2 = rs[2];
        let x = parse_i32_range(line, r0.0, r0.1);
        let y = parse_i32_range(line, r1.0, r1.1);
        let z = parse_i32_range(line, r2.0, r2.1);
        Beacon { x, y, z }
    }

    /// Applies orientation `r` to the point `(x, y, z)`.
    pub fn orientation(x: i32, y: i32, z: i32, r: usize) -> (n: Beacon)
        requires
            r < 24,
            x != i32::MIN,
            y != i32::MIN,
            z != i32::MIN,
        ensures
            n@ == rot(r as int, (x as int, y as int, z as int)),
    {
        let n: (i32, i32, i32) = match r {
            0 => (x, y, z),
            1 => (x, -y, -z),
            2 => (-x, y, -z),
            3 => (-x, -y, z),
            4 => (x, z, -y),
            5 => (x, -z, y),
            6 => (-x, z, y),
            7 => (-x, -z, -y),
            8 => (y, x, -z),
            9 => (y, -x, z),
            10 => (-y, x, z),
            11 => (-y, -x, -z),
            12 => (y, z, x),
            13 => (y, -z, -x),
            14 => (-y, z, -x),
            15 => (-y, -z, x),
            16 => (z, x, y),
            17 => (z, -x, -y),
            18 => (-z, x, -y),
            19 => (-z, -x, y),
            20 => (z, y, -x),
            21 => (z, -y, x),
            22 => (-z, y, x),
            _ => (-z, -y, -x),
        };
        Beacon { x: n.0, y: n.1, z: n.2 }
    }

    /// The translation taking `a` to `b`, componentwise.
    pub fn delta(a: &Beacon, b: &Beacon) -> (d: Beacon)
        requires
            i32::MIN <= b.x - a.x <= i32::MAX,
            i32::MIN <= b.y - a.y <= i32::MAX,
            i32::MIN <= b.z - a.z <= i32::MAX,
        ensures
            d@ == vsub(a@, b@),
    {
        Beacon { x: b.x - a.x, y: b.y - a.y, z: b.z - a.z }
    }

    /// Manhattan distance between `a` and `b`.
    pub fn manhatten(a: &Beacon, b: &Beacon) -> (m: i32)
        requires
            i32::MIN < b.x - a.x <= i32::MAX,
            i32::MIN < b.y - a.y <= i32::MAX,
            i32::MIN < b.z - a.z <= i32::MAX,
            abs_int(b.x - a.x) + abs_int(b.y - a.y) + abs_int(b.z - a.z) <= i32::MAX,
        ensures
            m == manh(a@, b@),
    {
        let d = Beacon::delta(a, b);
        let ax: i32 = if d.x < 0 { -d.x } else { d.x };
        let ay: i32 = if d.y < 0 { -d.y } else { d.y };
        let az: i32 = if d.z < 0 { -d.z } else { d.z };
        ax + ay + az
    }
}

/// The mathematical contents of a cloud: the coordinates of its points, in
/// report order.
pub open spec fn cview(s: Seq<Beacon>) -> Seq<(int, int, int)> {
    s.map_values(|b: Beacon| b@)
}

/// Every point of `c` lies within `b` of the origin.
pub open spec fn cloud_in_bounds(c: Seq<(int, int, int)>, b: int) -> bool {
    forall|k: int| 0 <= k < c.len() ==> in_bounds(#[trigger] c[k], b)
}

/// Orientation `o` applied to every point of `c`.
pub open spec fn orient_cloud(c: Seq<(int, int, int)>, o: int) -> Seq<(int, int, int)> {
    c.map_values(|p: (int, int, int)| rot(o, p))
}

/// Translation `d` applied to every point of `c`.
pub open spec fn shift_cloud(c: Seq<(int, int, int)>, d: (int, int, int)) -> Seq<(int, int, int)> {
    c.map_values(|p: (int, int, int)| vadd(p, d))
}

/// How many points of `c` (counted by index) are also points of `left`.
pub open spec fn match_count(left: Seq<(int, int, int)>, c: Seq<(int, int, int)>) -> int
    decreases c.len(),
{
    if c.len() == 0 {
        0
    } else {
        match_count(left, c.drop_last()) + if left.contains(c.last()) { 1int } else { 0int }
    }
}

/// The overlap threshold: an alignment is accepted only when at least this
/// many transformed candidate points land on points of the reference.
pub const THRESHOLD: usize = 12;

/// The candidate translation tried at search position `(o, l, i)`: the one
/// that carries the `i`th point of the oriented candidate onto the `l`th
/// point of the reference.
pub open spec fn delta_at(
    left: Seq<(int, int, int)>,
    right: Seq<(int, int, int)>,
    o: int,
    l: int,
    i: int,
) -> (int, int, int) {
    vsub(rot(o, right[i]), left[l])
}

/// The fully transformed candidate cloud at search position `(o, l, i)`.
pub open spec fn cand_at(
    left: Seq<(int, int, int)>,
    right: Seq<(int, int, int)>,
    o: int,
    l: int,
    i: int,
) -> Seq<(int, int, int)> {
    shift_cloud(orient_cloud(right, o), delta_at(left, right, o, l, i))
}

/// Search position `(o, l, i)` meets the overlap threshold.
pub open spec fn hit(
    left: Seq<(int, int, int)>,
    right: Seq<(int, int, int)>,
    o: int,
    l: int,
    i: int,
) -> bool {
    match_count(left, cand_at(left, right, o, l, i)) >= THRESHOLD
}

/// The first search position at or after `(o, l, i)` — in the fixed order:
/// orientation index, then reference index, then candidate index, all
/// ascending — that meets the threshold.
pub open spec fn first_hit_from(
    left: Seq<(int, int, int)>,
    right: Seq<(int, int, int)>,
    o: int,
    l: int,
    i: int,
) -> Option<(int, int, int)>
    recommends
        0 <= o,
        0 <= l,
        0 <= i,
    decreases 24 - o, left.len() - l, right.len() - i,
{
    if o >= 24 || left.len() == 0 || right.len() == 0 {
        None
    } else if l >= left.len() {
        first_hit_from(left, right, o + 1, 0, 0)
    } else if i >= right.len() {
        first_hit_from(left, right, o, l + 1, 0)
    } else if hit(left, right, o, l, i) {
        Some((o, l, i))
    } else {
        first_hit_from(left, right, o, l, i + 1)
    }
}

/// What the pairwise search returns: the translation and transformed cloud
/// of the first qualifying search position, if any position qualifies.
pub open spec fn align_spec(
    left: Seq<(int, int, int)>,
    right: Seq<(int, int, int)>,
) -> Option<((int, int, int), Seq<(int, int, int)>)> {
    match first_hit_from(left, right, 0, 0, 0) {
        None => None,
        Some((o, l, i)) => Some((delta_at(left, right, o, l, i), cand_at(left, right, o, l, i))),
    }
}

/// Whether `v` contains the point `b`.
pub fn cloud_contains(v: &Vec<Beacon>, b: &Beacon) -> (r: bool)
    ensures
        r == cview(v@).contains(b@),
{
    let mut k: usize = 0;
    while k < v.len()
        invariant
            0 <= k <= v.len(),
            forall|j: int| 0 <= j < k ==> cview(v@)[j] != b@,
        decreases v.len() - k,
    {
        if v[k].x == b.x && v[k].y == b.y && v[k].z == b.z {
            assert(cview(v@)[k as int] == b@);
            return true;
        }
        k = k + 1;
    }
    false
}

/// Applies orientation `o` to every point of `beacons`.
pub fn reorient(beacons: &Vec<Beacon>, o: usize) -> (r: Vec<Beacon>)
    requires
        o < 24,
        cloud_in_bounds(cview(beacons@), i32::MAX as int),
    ensures
        cview(r@) == orient_cloud(cview(beacons@), o as int),
{
    let mut r: Vec<Beacon> = Vec::new();
    let mut k: usize = 0;
    while k < beacons.len()
        invariant
            0 <= k <= beacons.len(),
            o < 24,
            cloud_in_bounds(cview(beacons@), i32::MAX as int),
            r@.len() == k,
            forall|j: int| 0 <= j < k ==> #[trigger] r@[j]@ == rot(o as int, beacons@[j]@),
        decreases beacons.len() - k,
    {
        let b = &beacons[k];
        assert(in_bounds(cview(beacons@)[k as int], i32::MAX as int));
        r.push(Beacon::orientation(b.x, b.y, b.z, o));
        k = k + 1;
    }
    assert(cview(r@) =~= orient_cloud(cview(beacons@), o as int));
    r
}

/// Coordinate bound accepted by the pairwise search; generous enough for any
/// merged world map, while keeping every intermediate `i32` sum in range.
pub const SEARCH_BOUND: i32 = 400_000_000;

/// Rotating a point never enlarges its coordinate bound.
pub proof fn lemma_rot_in_bounds(o: int, p: (int, int, int), b: int)
    requires
        in_bounds(p, b),
    ensures
        in_bounds(rot(o, p), b),
{
}

/// Bounds of the translation and transformed cloud produced at a search
/// position, in terms of the bounds of the two input clouds.
pub proof fn lemma_cand_bounds(
    left: Seq<(int, int, int)>,
    right: Seq<(int, int, int)>,
    o: int,
    l: int,
    i: int,
    bl: int,
    br: int,
)
    requires
        cloud_in_bounds(left, bl),
        cloud_in_bounds(right, br),
        0 <= l < left.len(),
        0 <= i < right.len(),
        0 <= bl,
        0 <= br,
    ensures
        in_bounds(delta_at(left, right, o, l, i), bl + br),
        cloud_in_bounds(cand_at(left, right, o, l, i), bl + 2 * br),
    decreases right.len(),
{
    lemma_rot_in_bounds(o, right[i], br);
    assert forall|k: int| 0 <= k < cand_at(left, right, o, l, i).len() implies in_bounds(
        #[trigger] cand_at(left, right, o, l, i)[k],
        bl + 2 * br,
    ) by {
        lemma_rot_in_bounds(o, right[k], br);
    }
}

/// Applies translation `d` to every point of `cand`.
fn shift(cand: &Vec<Beacon>, d: &Beacon) -> (r: Vec<Beacon>)
    requires
        cloud_in_bounds(cview(cand@), 2 * SEARCH_BOUND as int),
        in_bounds(d@, 2 * SEARCH_BOUND as int),
    ensures
        cview(r@) == shift_cloud(cview(cand@), d@),
{
    let mut r: Vec<Beacon> = Vec::new();
    let mut k: usize = 0;
    while k < cand.len()
        invariant
            0 <= k <= cand.len(),
            cloud_in_bounds(cview(cand@), 2 * SEARCH_BOUND as int),
            in_bounds(d@, 2 * SEARCH_BOUND as int),
            r@.len() == k,
            forall|j: int| 0 <= j < k ==> #[trigger] r@[j]@ == vadd(cview(cand@)[j], d@),
        decreases cand.len() - k,
    {
        assert(in_bounds(cview(cand@)[k as int], 2 * SEARCH_BOUND as int));
        let p = &cand[k];
        r.push(Beacon { x: p.x + d.x, y: p.y + d.y, z: p.z + d.z });
        k = k + 1;
    }
    assert(cview(r@) =~= shift_cloud(cview(cand@), d@));
    r
}

/// Counts how many points of `cand` are also points of `left`.
fn count_matches(left: &Vec<Beacon>, cand: &Vec<Beacon>) -> (c: usize)
    ensures
        c == match_count(cview(left@), cview(cand@)),
{
    let ghost cc = cview(cand@);
    let mut c: usize = 0;
    let mut k: usize = 0;
    while k < cand.len()
        invariant
            0 <= k <= cand.len(),
            c <= k,
            cc == cview(cand@),
            c == match_count(cview(left@), cc.take(k as int)),
        decreases cand.len() - k,
    {
        proof {
            assert(cc.take(k + 1).drop_last() =~= cc.take(k as int));
            assert(cc.take(k + 1).last() == cc[k as int]);
        }
        if cloud_contains(left, &cand[k]) {
            c = c + 1;
        }
        k = k + 1;
    }
    proof {
        assert(cc.take(cand.len() as int) =~= cc);
    }
    c
}

/// Searches all 24 orientations and all point-pairing translations for one
/// that lands at least [`THRESHOLD`] points of `right` onto points of
/// `left`; the first qualifying transform, in the fixed enumeration order,
/// is returned together with the transformed cloud.
pub fn overlaps(left: &Vec<Beacon>, right: &Vec<Beacon>) -> (r: (Option<Beacon>, Vec<Beacon>))
    requires
        cloud_in_bounds(cview(left@), SEARCH_BOUND as int),
        cloud_in_bounds(cview(right@), SEARCH_BOUND as int),
    ensures
        match align_spec(cview(left@), cview(right@)) {
            None => r.0 is None && r.1@.len() == 0,
            Some(dc) => r.0 is Some && r.0->0@ == dc.0 && cview(r.1@) == dc.1,
        },
{
    let ghost bl = SEARCH_BOUND as int;
    let ghost lv = cview(left@);
    let ghost rv = cview(right@);
    let mut o: usize = 0;
    while o < 24
        invariant
            0 <= o <= 24,
            lv == cview(left@),
            rv == cview(right@),
            cloud_in_bounds(lv, bl),
            cloud_in_bounds(rv, bl),
            bl == SEARCH_BOUND as int,
            first_hit_from(lv, rv, 0, 0, 0) == first_hit_from(lv, rv, o as int, 0, 0),
        decreases 24 - o,
    {
        let oriented = reorient(right, o);
        assert(cview(oriented@) == orient_cloud(rv, o as int));
        proof {
            assert forall|k: int| 0 <= k < rv.len() implies in_bounds(
                #[trigger] orient_cloud(rv, o as int)[k],
                bl,
            ) by {
                lemma_rot_in_bounds(o as int, rv[k], bl);
            }
        }
        let mut l: usize = 0;
        while l < left.len()
            invariant
                0 <= l <= left.len(),
                o < 24,
                lv == cview(left@),
                rv == cview(right@),
                cloud_in_bounds(lv, bl),
                cloud_in_bounds(rv, bl),
                bl == SEARCH_BOUND as int,
                cview(oriented@) == orient_cloud(rv, o as int),
                cloud_in_bounds(cview(oriented@), bl),
                first_hit_from(lv, rv, 0, 0, 0) == first_hit_from(lv, rv, o as int, l as int, 0),
            decreases left.len() - l,
        {
            let mut i: usize = 0;
            while i < oriented.len()
                invariant
                    0 <= i <= oriented.len(),
                    0 <= l < left.len(),
                    o < 24,
                    lv == cview(left@),
                    rv == cview(right@),
                    cloud_in_bounds(lv, bl),
                    cloud_in_bounds(rv, bl),
                    bl == SEARCH_BOUND as int,
                    cview(oriented@) == orient_cloud(rv, o as int),
                    cloud_in_bounds(cview(oriented@), bl),
                    first_hit_from(lv, rv, 0, 0, 0) == first_hit_from(
                        lv,
                        rv,
                        o as int,
                        l as int,
                        i as int,
                    ),
                decreases oriented.len() - i,
            {
                assert(in_bounds(cview(oriented@)[i as int], bl));
                assert(in_bounds(lv[l as int], bl));
                let d = Beacon::delta(&oriented[i], &left[l]);
                assert(d@ == delta_at(lv, rv, o as int, l as int, i as int));
                let shifted = shift(&oriented, &d);
                assert(cview(shifted@) == cand_at(lv, rv, o as int, l as int, i as int));
                let matches = count_matches(left, &shifted);
                if matches >= THRESHOLD {
                    assert(hit(lv, rv, o as int, l as int, i as int));
                    assert(first_hit_from(lv, rv, o as int, l as int, i as int) == Some(
                        (o as int, l as int, i as int),
                    ));
                    return (Some(d), shifted);
                }
                assert(!hit(lv, rv, o as int, l as int, i as int));
                i = i + 1;
            }
            l = l + 1;
        }
        o = o + 1;
    }
    assert(first_hit_from(lv, rv, 24, 0, 0) is None);
    (None, vec![])
}

/// A sensor: an identifier plus the beacons it reports in its own frame.
#[derive(Debug, Clone, PartialEq, Eq)]
pub struct Scanner {
    pub id: usize,
    pub beacons: Vec<Beacon>,
}

/// The one fatal outcome of registration: a full pass over the unplaced
/// sensors produced no new placement.
#[derive(Debug, Clone, Copy, PartialEq, Eq, Structural)]
pub struct RegistrationStalled;

/// `world` extended by the points of `cloud` that it does not already hold,
/// in their order in `cloud`.
pub open spec fn merge_seq(
    world: Seq<(int, int, int)>,
    cloud: Seq<(int, int, int)>,
) -> Seq<(int, int, int)>
    decreases cloud.len(),
{
    if cloud.len() == 0 {
        world
    } else {
        let m = merge_seq(world, cloud.drop_last());
        if m.contains(cloud.last()) {
            m
        } else {
            m.push(cloud.last())
        }
    }
}

/// Unions the points of `cloud` into `world`, keeping set semantics: a point
/// already present is not added again.
pub fn merge_clouds(world: &mut Vec<Beacon>, cloud: &Vec<Beacon>)
    ensures
        cview(final(world)@) == merge_seq(cview(old(world)@), cview(cloud@)),
{
    let ghost w0 = cview(old(world)@);
    let ghost cc = cview(cloud@);
    let mut k: usize = 0;
    while k < cloud.len()
        invariant
            0 <= k <= cloud.len(),
            cc == cview(cloud@),
            cview(world@) == merge_seq(w0, cc.take(k as int)),
        decreases cloud.len() - k,
    {
        proof {
            assert(cc.take(k + 1).drop_last() =~= cc.take(k as int));
            assert(cc.take(k + 1).last() == cc[k as int]);
        }
        let b = cloud[k];
        if !cloud_contains(world, &b) {
            let ghost before = cview(world@);
            world.push(b);
            proof {
                assert(cview(world@) =~= before.push(cc[k as int]));
            }
        }
        k = k + 1;
    }
    proof {
        assert(cc.take(cloud.len() as int) =~= cc);
    }
}

/// How many sensors are still unplaced.
pub open spec fn count_unplaced(placed: Seq<bool>) -> int
    decreases placed.len(),
{
    if placed.len() == 0 {
        0
    } else {
        count_unplaced(placed.drop_last()) + if placed.last() {
            0int
        } else {
            1int
        }
    }
}

pub open spec fn all_placed(placed: Seq<bool>) -> bool {
    forall|i: int| 0 <= i < placed.len() ==> placed[i]
}

pub proof fn lemma_count_unplaced_bounds(placed: Seq<bool>)
    ensures
        0 <= count_unplaced(placed) <= placed.len(),
        all_placed(placed) <==> count_unplaced(placed) == 0,
    decreases placed.len(),
{
    if placed.len() > 0 {
        lemma_count_unplaced_bounds(placed.drop_last());
        if count_unplaced(placed) == 0 {
            assert forall|i: int| 0 <= i < placed.len() implies placed[i] by {
                if i < placed.len() - 1 {
                    assert(placed.drop_last()[i]);
                }
            }
        }
        if all_placed(placed) {
            assert(forall|i: int| 0 <= i < placed.len() - 1 ==> placed.drop_last()[i]
                == placed[i]);
        }
    }
}

pub proof fn lemma_count_unplaced_update(placed: Seq<bool>, u: int)
    requires
        0 <= u < placed.len(),
        !placed[u],
    ensures
        count_unplaced(placed.update(u, true)) == count_unplaced(placed) - 1,
    decreases placed.len(),
{
    let upd = placed.update(u, true);
    if u == placed.len() - 1 {
        assert(upd.drop_last() =~= placed.drop_last());
    } else {
        assert(upd.drop_last() =~= placed.drop_last().update(u, true));
        lemma_count_unplaced_update(placed.drop_last(), u);
    }
}

/// The lowest sensor index at or after `u`, not yet placed, whose cloud the
/// pairwise search can align against the current world map.
pub open spec fn find_alignable(
    world: Seq<(int, int, int)>,
    sensors: Seq<Seq<(int, int, int)>>,
    placed: Seq<bool>,
    u: int,
) -> Option<int>
    recommends
        0 <= u,
    decreases sensors.len() - u,
{
    if u < 0 || u >= sensors.len() {
        None
    } else if !placed[u] && align_spec(world, sensors[u]) is Some {
        Some(u)
    } else {
        find_alignable(world, sensors, placed, u + 1)
    }
}

pub proof fn lemma_find_alignable_props(
    world: Seq<(int, int, int)>,
    sensors: Seq<Seq<(int, int, int)>>,
    placed: Seq<bool>,
    u0: int,
)
    requires
        0 <= u0,
        find_alignable(world, sensors, placed, u0) is Some,
    ensures
        ({
            let u = find_alignable(world, sensors, placed, u0)->0;
            &&& u0 <= u < sensors.len()
            &&& !placed[u]
            &&& align_spec(world, sensors[u]) is Some
        }),
    decreases sensors.len() - u0,
{
    if u0 < sensors.len() {
        if !(!placed[u0] && align_spec(world, sensors[u0]) is Some) {
            lemma_find_alignable_props(world, sensors, placed, u0 + 1);
        }
    }
}

/// The registration state machine, run to completion: repeatedly place the
/// lowest unplaced sensor that aligns against the world map, record its
/// translation, and union its transformed cloud in; `None` when unplaced
/// sensors remain but none aligns.
pub open spec fn register_rec(
    sensors: Seq<Seq<(int, int, int)>>,
    world: Seq<(int, int, int)>,
    positions: Seq<(int, int, int)>,
    placed: Seq<bool>,
) -> Option<(Seq<(int, int, int)>, Seq<(int, int, int)>)>
    recommends
        sensors.len() == placed.len(),
    decreases count_unplaced(placed),
    when sensors.len() == placed.len()
    via register_rec_dec
{
    if all_placed(placed) {
        Some((world, positions))
    } else {
        match find_alignable(world, sensors, placed, 0) {
            None => None,
            Some(u) => match align_spec(world, sensors[u]) {
                None => None,
                Some(dc) => register_rec(
                    sensors,
                    merge_seq(world, dc.1),
                    positions.update(u, dc.0),
                    placed.update(u, true),
                ),
            },
        }
    }
}

#[via_fn]
proof fn register_rec_dec(
    sensors: Seq<Seq<(int, int, int)>>,
    world: Seq<(int, int, int)>,
    positions: Seq<(int, int, int)>,
    placed: Seq<bool>,
) {
    lemma_count_unplaced_bounds(placed);
    if sensors.len() == placed.len() && !all_placed(placed) {
        if find_alignable(world, sensors, placed, 0) is Some {
            let u = find_alignable(world, sensors, placed, 0)->0;
            lemma_find_alignable_props(world, sensors, placed, 0);
            lemma_count_unplaced_update(placed, u);
            lemma_count_unplaced_bounds(placed.update(u, true));
        }
    }
}

/// The views of the sensors' clouds, in sensor order.
pub open spec fn sensor_views(scanners: Seq<Scanner>) -> Seq<Seq<(int, int, int)>> {
    scanners.map_values(|s: Scanner| cview(s.beacons@))
}

pub open spec fn initial_positions(n: int) -> Seq<(int, int, int)> {
    Seq::new(n as nat, |i: int| (0int, 0int, 0int))
}

pub open spec fn initial_placed(n: int) -> Seq<bool> {
    Seq::new(n as nat, |i: int| i == 0)
}

/// What registration returns on a given sensor list: sensor 0 seeds the
/// world map and sits at the origin, and the state machine runs from there.
pub open spec fn register_spec(scanners: Seq<Scanner>) -> Option<
    (Seq<(int, int, int)>, Seq<(int, int, int)>),
>
    recommends
        scanners.len() >= 1,
{
    register_rec(
        sensor_views(scanners),
        cview(scanners[0].beacons@),
        initial_positions(scanners.len() as int),
        initial_placed(scanners.len() as int),
    )
}

/// A bound on a cloud is also any larger bound.
pub proof fn lemma_cloud_bounds_widen(c: Seq<(int, int, int)>, b1: int, b2: int)
    requires
        cloud_in_bounds(c, b1),
        b1 <= b2,
    ensures
        cloud_in_bounds(c, b2),
{
    assert forall|k: int| 0 <= k < c.len() implies in_bounds(#[trigger] c[k], b2) by {
        assert(in_bounds(c[k], b1));
    }
}

/// A merged cloud stays within the bound of its two inputs.
pub proof fn lemma_merge_bounds(world: Seq<(int, int, int)>, cloud: Seq<(int, int, int)>, b: int)
    requires
        cloud_in_bounds(world, b),
        cloud_in_bounds(cloud, b),
    ensures
        cloud_in_bounds(merge_seq(world, cloud), b),
    decreases cloud.len(),
{
    if cloud.len() > 0 {
        assert(cloud_in_bounds(cloud.drop_last(), b)) by {
            assert(forall|k: int| 0 <= k < cloud.len() - 1 ==> cloud.drop_last()[k] == cloud[k]);
        }
        lemma_merge_bounds(world, cloud.drop_last(), b);
        assert(in_bounds(cloud.last(), b));
    }
}

/// The first qualifying search position, when there is one, is a real
/// position: all three indices in range, and the threshold met there.
pub proof fn lemma_first_hit_props(
    left: Seq<(int, int, int)>,
    right: Seq<(int, int, int)>,
    o: int,
    l: int,
    i: int,
)
    requires
        0 <= o,
        0 <= l,
        0 <= i,
        first_hit_from(left, right, o, l, i) is Some,
    ensures
        ({
            let t = first_hit_from(left, right, o, l, i)->0;
            &&& 0 <= t.0 < 24
            &&& 0 <= t.1 < left.len()
            &&& 0 <= t.2 < right.len()
            &&& hit(left, right, t.0, t.1, t.2)
        }),
    decreases 24 - o, left.len() - l, right.len() - i,
{
    if o >= 24 || left.len() == 0 || right.len() == 0 {
    } else if l >= left.len() {
        lemma_first_hit_props(left, right, o + 1, 0, 0);
    } else if i >= right.len() {
        lemma_first_hit_props(left, right, o, l + 1, 0);
    } else if hit(left, right, o, l, i) {
    } else {
        lemma_first_hit_props(left, right, o, l, i + 1);
    }
}

/// Exactly the sensor at index 0 starts out placed.
pub proof fn lemma_initial_placed_count(n: int)
    requires
        n >= 1,
    ensures
        count_unplaced(initial_placed(n)) == n - 1,
    decreases n,
{
    let s = initial_placed(n);
    assert(s.len() == n);
    if n == 1 {
        assert(s.last() == true);
        assert(s.drop_last() =~= Seq::<bool>::empty());
        assert(count_unplaced(Seq::<bool>::empty()) == 0);
        assert(count_unplaced(s) == 0);
    } else {
        assert(s.drop_last() =~= initial_placed(n - 1));
        assert(s.last() == false);
        lemma_initial_placed_count(n - 1);
        assert(count_unplaced(s) == count_unplaced(s.drop_last()) + 1);
    }
}

/// A copy of a cloud, point for point.
pub fn clone_beacons(v: &Vec<Beacon>) -> (r: Vec<Beacon>)
    ensures
        r@ == v@,
{
    let mut r: Vec<Beacon> = Vec::new();
    let mut k: usize = 0;
    while k < v.len()
        invariant
            0 <= k <= v.len(),
            r@ =~= v@.take(k as int),
        decreases v.len() - k,
    {
        r.push(v[k]);
        k = k + 1;
    }
    assert(v@.take(v@.len() as int) =~= v@);
    r
}

fn all_placed_exec(placed: &Vec<bool>) -> (r: bool)
    ensures
        r == all_placed(placed@),
{
    let mut k: usize = 0;
    while k < placed.len()
        invariant
            0 <= k <= placed.len(),
            forall|j: int| 0 <= j < k ==> placed@[j],
        decreases placed.len() - k,
    {
        if !placed[k] {
            return false;
        }
        k = k + 1;
    }
    true
}

/// Scans the unplaced sensors in ascending order and returns the first whose
/// cloud aligns against the world map, together with the recovered
/// translation and the transformed cloud.
fn find_alignable_exec(world: &Vec<Beacon>, scanners: &Vec<Scanner>, placed: &Vec<bool>) -> (r:
    Option<(usize, Beacon, Vec<Beacon>)>)
    requires
        placed@.len() == scanners@.len(),
        cloud_in_bounds(cview(world@), SEARCH_BOUND as int),
        forall|s: int| 0 <= s < scanners@.len() ==> cloud_in_bounds(
            #[trigger] sensor_views(scanners@)[s],
            SEARCH_BOUND as int,
        ),
    ensures
        match find_alignable(cview(world@), sensor_views(scanners@), placed@, 0) {
            None => r is None,
            Some(u) => match r {
                Some(t) => t.0 == u && align_spec(cview(world@), sensor_views(scanners@)[u])
                    == Some((t.1@, cview(t.2@))),
                None => false,
            },
        },
{
    let ghost wv = cview(world@);
    let ghost sv = sensor_views(scanners@);
    let n = scanners.len();
    let mut u: usize = 0;
    while u < n
        invariant
            0 <= u <= n,
            n == scanners@.len(),
            placed@.len() == n,
            wv == cview(world@),
            sv == sensor_views(scanners@),
            cloud_in_bounds(wv, SEARCH_BOUND as int),
            forall|s: int| 0 <= s < n ==> cloud_in_bounds(#[trigger] sv[s], SEARCH_BOUND as int),
            find_alignable(wv, sv, placed@, 0) == find_alignable(wv, sv, placed@, u as int),
        decreases n - u,
    {
        if !placed[u] {
            assert(cloud_in_bounds(sv[u as int], SEARCH_BOUND as int));
            assert(cview(scanners@[u as int].beacons@) == sv[u as int]);
            let (d, shifted) = overlaps(world, &scanners[u].beacons);
            if let Some(db) = d {
                assert(align_spec(wv, sv[u as int]) is Some);
                assert(find_alignable(wv, sv, placed@, u as int) == Some(u as int));
                return Some((u, db, shifted));
            }
            assert(align_spec(wv, sv[u as int]) is None);
        }
        u = u + 1;
    }
    None
}

/// The largest coordinate magnitude a sensor's own report may use; together
/// with [`MAX_SENSORS`] it keeps every world-frame coordinate, translation
/// and distance within `i32`.
pub const MAX_COORD: i32 = 100_000;

/// The largest number of sensors registration accepts.
pub const MAX_SENSORS: usize = 1000;

/// Registers every sensor against the growing world map, sensor 0 seeding
/// it, and returns the world-frame beacon set together with each sensor's
/// recovered position; fails when a full pass places no further sensor.
pub fn register(scanners: &Vec<Scanner>) -> (r: Result<
    (Vec<Beacon>, Vec<Beacon>),
    RegistrationStalled,
>)
    requires
        1 <= scanners@.len() <= MAX_SENSORS as int,
        forall|s: int| 0 <= s < scanners@.len() ==> cloud_in_bounds(
            #[trigger] sensor_views(scanners@)[s],
            MAX_COORD as int,
        ),
    ensures
        match r {
            Ok(wp) => {
                &&& register_spec(scanners@) == Some((cview(wp.0@), cview(wp.1@)))
                &&& wp.1@.len() == scanners@.len()
                &&& cloud_in_bounds(cview(wp.0@), 300_000_000)
                &&& cloud_in_bounds(cview(wp.1@), 300_000_000)
            },
            Err(_) => register_spec(scanners@) is None,
        },
{
    let ghost sv = sensor_views(scanners@);
    let n = scanners.len();
    assert(cview(scanners@[0].beacons@) == sv[0]);
    let mut world = clone_beacons(&scanners[0].beacons);
    let mut positions: Vec<Beacon> = Vec::new();
    let mut placed: Vec<bool> = Vec::new();
    let mut k: usize = 0;
    while k < n
        invariant
            0 <= k <= n,
            positions@.len() == k,
            placed@.len() == k,
            forall|j: int| 0 <= j < k ==> #[trigger] positions@[j]@ == (0int, 0int, 0int),
            forall|j: int| 0 <= j < k ==> #[trigger] placed@[j] == (j == 0),
        decreases n - k,
    {
        positions.push(Beacon { x: 0, y: 0, z: 0 });
        placed.push(k == 0);
        k = k + 1;
    }
    proof {
        assert(cview(positions@) =~= initial_positions(n as int));
        assert(placed@ =~= initial_placed(n as int));
        lemma_initial_placed_count(n as int);
        assert(cview(world@) == sensor_views(scanners@)[0]);
    }
    let ghost goal = register_spec(scanners@);
    loop
        invariant
            n == scanners@.len(),
            1 <= n <= MAX_SENSORS as int,
            sv == sensor_views(scanners@),
            forall|s: int| 0 <= s < n ==> cloud_in_bounds(#[trigger] sv[s], MAX_COORD as int),
            positions@.len() == n,
            placed@.len() == n,
            0 <= count_unplaced(placed@) <= n - 1,
            cloud_in_bounds(
                cview(world@),
                (2 * (n - count_unplaced(placed@)) - 1) * MAX_COORD as int,
            ),
            cloud_in_bounds(cview(positions@), 300_000_000),
            goal == register_spec(scanners@),
            register_rec(sv, cview(world@), cview(positions@), placed@) == goal,
        decreases count_unplaced(placed@),
    {
        let ghost unplaced = count_unplaced(placed@);
        let ghost wbound = (2 * (n - unplaced) - 1) * MAX_COORD as int;
        proof {
            assert(wbound <= (2 * n - 1) * MAX_COORD as int);
            lemma_cloud_bounds_widen(cview(world@), wbound, SEARCH_BOUND as int);
            assert forall|s: int| 0 <= s < n implies cloud_in_bounds(
                #[trigger] sv[s],
                SEARCH_BOUND as int,
            ) by {
                lemma_cloud_bounds_widen(sv[s], MAX_COORD as int, SEARCH_BOUND as int);
            }
        }
        if all_placed_exec(&placed) {
            proof {
                lemma_count_unplaced_bounds(placed@);
                lemma_cloud_bounds_widen(cview(world@), wbound, 300_000_000);
            }
            return Ok((world, positions));
        }
        match find_alignable_exec(&world, scanners, &placed) {
            None => {
                assert(find_alignable(cview(world@), sv, placed@, 0) is None);
                assert(goal is None);
                return Err(RegistrationStalled);
            },
            Some((u, d, shifted)) => {
                let ghost wv = cview(world@);
                let ghost pv = cview(positions@);
                let ghost plv = placed@;
                proof {
                    lemma_find_alignable_props(wv, sv, plv, 0);
                    assert(find_alignable(wv, sv, plv, 0) == Some(u as int));
                    assert(!plv[u as int]);
                    assert(align_spec(wv, sv[u as int]) == Some((d@, cview(shifted@))));
                    lemma_first_hit_props(wv, sv[u as int], 0, 0, 0);
                    let t = first_hit_from(wv, sv[u as int], 0, 0, 0)->0;
                    lemma_cand_bounds(wv, sv[u as int], t.0, t.1, t.2, wbound, MAX_COORD as int);
                    assert(in_bounds(d@, wbound + MAX_COORD as int));
                    assert(cloud_in_bounds(cview(shifted@), wbound + 2 * MAX_COORD as int));
                    lemma_cloud_bounds_widen(wv, wbound, wbound + 2 * MAX_COORD as int);
                    lemma_merge_bounds(wv, cview(shifted@), wbound + 2 * MAX_COORD as int);
                    lemma_count_unplaced_update(plv, u as int);
                    lemma_count_unplaced_bounds(plv.update(u as int, true));
                }
                merge_clouds(&mut world, &shifted);
                positions[u] = d;
                placed[u] = true;
                proof {
                    assert(cview(positions@) =~= pv.update(u as int, d@));
                    assert(placed@ =~= plv.update(u as int, true));
                    assert(register_rec(sv, cview(world@), cview(positions@), placed@) == goal);
                    assert(cloud_in_bounds(
                        cview(world@),
                        (2 * (n - count_unplaced(placed@)) - 1) * MAX_COORD as int,
                    ));
                    assert forall|j: int| 0 <= j < n implies in_bounds(
                        #[trigger] cview(positions@)[j],
                        300_000_000,
                    ) by {
                        if j == u as int {
                            assert(in_bounds(d@, wbound + MAX_COORD as int));
                        } else {
                            assert(in_bounds(pv[j], 300_000_000));
                        }
                    }
                }
            },
        }
    }
}

/// `m` is the Manhattan distance of some pair of points of `c`, and no pair
/// lies further apart.
pub open spec fn is_max_manh(c: Seq<(int, int, int)>, m: int) -> bool {
    &&& exists|i: int, j: int| 0 <= i < j < c.len() && manh(c[i], c[j]) == m
    &&& forall|i: int, j: int| 0 <= i < j < c.len() ==> manh(c[i], c[j]) <= m
}

/// The largest Manhattan distance between any two recovered sensor
/// positions.
pub fn max_manhatten(positions: &Vec<Beacon>) -> (m: i32)
    requires
        positions@.len() >= 2,
        cloud_in_bounds(cview(positions@), 300_000_000),
    ensures
        is_max_manh(cview(positions@), m as int),
{
    let ghost pv = cview(positions@);
    let n = positions.len();
    assert(in_bounds(pv[0], 300_000_000));
    assert(in_bounds(pv[1], 300_000_000));
    let mut best = Beacon::manhatten(&positions[0], &positions[1]);
    let mut i: usize = 0;
    while i < n
        invariant
            0 <= i <= n,
            2 <= n == positions@.len(),
            pv == cview(positions@),
            cloud_in_bounds(pv, 300_000_000),
            exists|a: int, b: int| 0 <= a < b < n && manh(pv[a], pv[b]) == best as int,
            forall|a: int, b: int| 0 <= a < b < n && a < i ==> manh(pv[a], pv[b]) <= best as int,
        decreases n - i,
    {
        let mut j: usize = i + 1;
        while j < n
            invariant
                0 <= i < j <= n,
                2 <= n == positions@.len(),
                pv == cview(positions@),
                cloud_in_bounds(pv, 300_000_000),
                exists|a: int, b: int| 0 <= a < b < n && manh(pv[a], pv[b]) == best as int,
                forall|a: int, b: int| 0 <= a < b < n && a < i ==> manh(pv[a], pv[b]) <= best
                    as int,
                forall|b: int| i < b < j ==> manh(pv[i as int], pv[b]) <= best as int,
            decreases n - j,
        {
            assert(in_bounds(pv[i as int], 300_000_000));
            assert(in_bounds(pv[j as int], 300_000_000));
            let d = Beacon::manhatten(&positions[i], &positions[j]);
            if d > best {
                best = d;
            }
            j = j + 1;
        }
        i = i + 1;
    }
    best
}


/// The index of the orientation that undoes orientation `o`.
pub open spec fn inverse_orientation(o: int) -> int {
    if o == 0 { 0 }
    else if o == 1 { 1 }
    else if o == 2 { 2 }
    else if o == 3 { 3 }
    else if o == 4 { 5 }
    else if o == 5 { 4 }
    else if o == 6 { 6 }
    else if o == 7 { 7 }
    else if o == 8 { 8 }
    else if o == 9 { 10 }
    else if o == 10 { 9 }
    else if o == 11 { 11 }
    else if o == 12 { 16 }
    else if o == 13 { 18 }
    else if o == 14 { 19 }
    else if o == 15 { 17 }
    else if o == 16 { 12 }
    else if o == 17 { 15 }
    else if o == 18 { 13 }
    else if o == 19 { 14 }
    else if o == 20 { 22 }
    else if o == 21 { 21 }
    else if o == 22 { 20 }
    else { 23 }
}

/// The index of the orientation equal to `a` composed after `b`.
pub open spec fn compose_orientation(a: int, b: int) -> int {
    if a == 0 {
        if b == 0 { 0 }
        else if b == 1 { 1 }
        else if b == 2 { 2 }
        else if b == 3 { 3 }
        else if b == 4 { 4 }
        else if b == 5 { 5 }
        else if b == 6 { 6 }
        else if b == 7 { 7 }
        else if b == 8 { 8 }
        else if b == 9 { 9 }
        else if b == 10 { 10 }
        else if b == 11 { 11 }
        else if b == 12 { 12 }
        else if b == 13 { 13 }
        else if b == 14 { 14 }
        else if b == 15 { 15 }
        else if b == 16 { 16 }
        else if b == 17 { 17 }
        else if b == 18 { 18 }
        else if b == 19 { 19 }
        else if b == 20 { 20 }
        else if b == 21 { 21 }
        else if b == 22 { 22 }
        else { 23 }
    } else if a == 1 {
        if b == 0 { 1 }
        else if b == 1 { 0 }
        else if b == 2 { 3 }
        else if b == 3 { 2 }
        else if b == 4 { 5 }
        else if b == 5 { 4 }
        else if b == 6 { 7 }
        else if b == 7 { 6 }
        else if b == 8 { 9 }
        else if b == 9 { 8 }
        else if b == 10 { 11 }
        else if b == 11 { 10 }
        else if b == 12 { 13 }
        else if b == 13 { 12 }
        else if b == 14 { 15 }
        else if b == 15 { 14 }
        else if b == 16 { 17 }
        else if b == 17 { 16 }
        else if b == 18 { 19 }
        else if b == 19 { 18 }
        else if b == 20 { 21 }
        else if b == 21 { 20 }
        else if b == 22 { 23 }
        else { 22 }
    } else if a == 2 {
        if b == 0 { 2 }
        else if b == 1 { 3 }
        else if b == 2 { 0 }
        else if b == 3 { 1 }
        else if b == 4 { 6 }
        else if b == 5 { 7 }
        else if b == 6 { 4 }
        else if b == 7 { 5 }
        else if b == 8 { 10 }
        else if b == 9 { 11 }
        else if b == 10 { 8 }
        else if b == 11 { 9 }
        else if b == 12 { 14 }
        else if b == 13 { 15 }
        else if b == 14 { 12 }
        else if b == 15 { 13 }
        else if b == 16 { 18 }
        else if b == 17 { 19 }
        else if b == 18 { 16 }
        else if b == 19 { 17 }
        else if b == 20 { 22 }
        else if b == 21 { 23 }
        else if b == 22 { 20 }
        else { 21 }
    } else if a == 3 {
        if b == 0 { 3 }
        else if b == 1 { 2 }
        else if b == 2 { 1 }
        else if b == 3 { 0 }
        else if b == 4 { 7 }
        else if b == 5 { 6 }
        else if b == 6 { 5 }
        else if b == 7 { 4 }
        else if b == 8 { 11 }
        else if b == 9 { 10 }
        else if b == 10 { 9 }
        else if b == 11 { 8 }
        else if b == 12 { 15 }
        else if b == 13 { 14 }
        else if b == 14 { 13 }
        else if b == 15 { 12 }
        else if b == 16 { 19 }
        else if b == 17 { 18 }
        else if b == 18 { 17 }
        else if b == 19 { 16 }
        else if b == 20 { 23 }
        else if b == 21 { 22 }
        else if b == 22 { 21 }
        else { 20 }
    } else if a == 4 {
        if b == 0 { 4 }
        else if b == 1 { 5 }
        else if b == 2 { 7 }
        else if b == 3 { 6 }
        else if b == 4 { 1 }
        else if b == 5 { 0 }
        else if b == 6 { 2 }
        else if b == 7 { 3 }
        else if b == 8 { 13 }
        else if b == 9 { 12 }
        else if b == 10 { 14 }
        else if b == 11 { 15 }
        else if b == 12 { 8 }
        else if b == 13 { 9 }
        else if b == 14 { 11 }
        else if b == 15 { 10 }
        else if b == 16 { 20 }
        else if b == 17 { 21 }
        else if b == 18 { 23 }
        else if b == 19 { 22 }
        else if b == 20 { 17 }
        else if b == 21 { 16 }
        else if b == 22 { 18 }
        else { 19 }
    } else if a == 5 {
        if b == 0 { 5 }
        else if b == 1 { 4 }
        else if b == 2 { 6 }
        else if b == 3 { 7 }
        else if b == 4 { 0 }
        else if b == 5 { 1 }
        else if b == 6 { 3 }
        else if b == 7 { 2 }
        else if b == 8 { 12 }
        else if b == 9 { 13 }
        else if b == 10 { 15 }
        else if b == 11 { 14 }
        else if b == 12 { 9 }
        else if b == 13 { 8 }
        else if b == 14 { 10 }
        else if b == 15 { 11 }
        else if b == 16 { 21 }
        else if b == 17 { 20 }
        else if b == 18 { 22 }
        else if b == 19 { 23 }
        else if b == 20 { 16 }
        else if b == 21 { 17 }
        else if b == 22 { 19 }
        else { 18 }
    } else if a == 6 {
        if b == 0 { 6 }
        else if b == 1 { 7 }
        else if b == 2 { 5 }
        else if b == 3 { 4 }
        else if b == 4 { 3 }
        else if b == 5 { 2 }
        else if b == 6 { 0 }
        else if b == 7 { 1 }
        else if b == 8 { 15 }
        else if b == 9 { 14 }
        else if b == 10 { 12 }
        else if b == 11 { 13 }
        else if b == 12 { 10 }
        else if b == 13 { 11 }
        else if b == 14 { 9 }
        else if b == 15 { 8 }
        else if b == 16 { 22 }
        else if b == 17 { 23 }
        else if b == 18 { 21 }
        else if b == 19 { 20 }
        else if b == 20 { 19 }
        else if b == 21 { 18 }
        else if b == 22 { 16 }
        else { 17 }
    } else if a == 7 {
        if b == 0 { 7 }
        else if b == 1 { 6 }
        else if b == 2 { 4 }
        else if b == 3 { 5 }
        else if b == 4 { 2 }
        else if b == 5 { 3 }
        else if b == 6 { 1 }
        else if b == 7 { 0 }
        else if b == 8 { 14 }
        else if b == 9 { 15 }
        else if b == 10 { 13 }
        else if b == 11 { 12 }
        else if b == 12 { 11 }
        else if b == 13 { 10 }
        else if b == 14 { 8 }
        else if b == 15 { 9 }
        else if b == 16 { 23 }
        else if b == 17 { 22 }
        else if b == 18 { 20 }
        else if b == 19 { 21 }
        else if b == 20 { 18 }
        else if b == 21 { 19 }
        else if b == 22 { 17 }
        else { 16 }
    } else if a == 8 {
        if b == 0 { 8 }
        else if b == 1 { 10 }
        else if b == 2 { 9 }
        else if b == 3 { 11 }
        else if b == 4 { 16 }
        else if b == 5 { 18 }
        else if b == 6 { 17 }
        else if b == 7 { 19 }
        else if b == 8 { 0 }
        else if b == 9 { 2 }
        else if b == 10 { 1 }
        else if b == 11 { 3 }
        else if b == 12 { 20 }
        else if b == 13 { 22 }
        else if b == 14 { 21 }
        else if b == 15 { 23 }
        else if b == 16 { 4 }
        else if b == 17 { 6 }
        else if b == 18 { 5 }
        else if b == 19 { 7 }
        else if b == 20 { 12 }
        else if b == 21 { 14 }
        else if b == 22 { 13 }
        else { 15 }
    } else if a == 9 {
        if b == 0 { 9 }
        else if b == 1 { 11 }
        else if b == 2 { 8 }
        else if b == 3 { 10 }
        else if b == 4 { 17 }
        else if b == 5 { 19 }
        else if b == 6 { 16 }
        else if b == 7 { 18 }
        else if b == 8 { 1 }
        else if b == 9 { 3 }
        else if b == 10 { 0 }
        else if b == 11 { 2 }
        else if b == 12 { 21 }
        else if b == 13 { 23 }
        else if b == 14 { 20 }
        else if b == 15 { 22 }
        else if b == 16 { 5 }
        else if b == 17 { 7 }
        else if b == 18 { 4 }
        else if b == 19 { 6 }
        else if b == 20 { 13 }
        else if b == 21 { 15 }
        else if b == 22 { 12 }
        else { 14 }
    } else if a == 10 {
        if b == 0 { 10 }
        else if b == 1 { 8 }
        else if b == 2 { 11 }
        else if b == 3 { 9 }
        else if b == 4 { 18 }
        else if b == 5 { 16 }
        else if b == 6 { 19 }
        else if b == 7 { 17 }
        else if b == 8 { 2 }
        else if b == 9 { 0 }
        else if b == 10 { 3 }
        else if b == 11 { 1 }
        else if b == 12 { 22 }
        else if b == 13 { 20 }
        else if b == 14 { 23 }
        else if b == 15 { 21 }
        else if b == 16 { 6 }
        else if b == 17 { 4 }
        else if b == 18 { 7 }
        else if b == 19 { 5 }
        else if b == 20 { 14 }
        else if b == 21 { 12 }
        else if b == 22 { 15 }
        else { 13 }
    } else if a == 11 {
        if b == 0 { 11 }
        else if b == 1 { 9 }
        else if b == 2 { 10 }
        else if b == 3 { 8 }
        else if b == 4 { 19 }
        else if b == 5 { 17 }
        else if b == 6 { 18 }
        else if b == 7 { 16 }
        else if b == 8 { 3 }
        else if b == 9 { 1 }
        else if b == 10 { 2 }
        else if b == 11 { 0 }
        else if b == 12 { 23 }
        else if b == 13 { 21 }
        else if b == 14 { 22 }
        else if b == 15 { 20 }
        else if b == 16 { 7 }
        else if b == 17 { 5 }
        else if b == 18 { 6 }
        else if b == 19 { 4 }
        else if b == 20 { 15 }
        else if b == 21 { 13 }
        else if b == 22 { 14 }
        else { 12 }
    } else if a == 12 {
        if b == 0 { 12 }
        else if b == 1 { 15 }
        else if b == 2 { 13 }
        else if b == 3 { 14 }
        else if b == 4 { 21 }
        else if b == 5 { 22 }
        else if b == 6 { 20 }
        else if b == 7 { 23 }
        else if b == 8 { 5 }
        else if b == 9 { 6 }
        else if b == 10 { 4 }
        else if b == 11 { 7 }
        else if b == 12 { 16 }
        else if b == 13 { 19 }
        else if b == 14 { 17 }
        else if b == 15 { 18 }
        else if b == 16 { 0 }
        else if b == 17 { 3 }
        else if b == 18 { 1 }
        else if b == 19 { 2 }
        else if b == 20 { 9 }
        else if b == 21 { 10 }
        else if b == 22 { 8 }
        else { 11 }
    } else if a == 13 {
        if b == 0 { 13 }
        else if b == 1 { 14 }
        else if b == 2 { 12 }
        else if b == 3 { 15 }
        else if b == 4 { 20 }
        else if b == 5 { 23 }
        else if b == 6 { 21 }
        else if b == 7 { 22 }
        else if b == 8 { 4 }
        else if b == 9 { 7 }
        else if b == 10 { 5 }
        else if b == 11 { 6 }
        else if b == 12 { 17 }
        else if b == 13 { 18 }
        else if b == 14 { 16 }
        else if b == 15 { 19 }
        else if b == 16 { 1 }
        else if b == 17 { 2 }
        else if b == 18 { 0 }
        else if b == 19 { 3 }
        else if b == 20 { 8 }
        else if b == 21 { 11 }
        else if b == 22 { 9 }
        else { 10 }
    } else if a == 14 {
        if b == 0 { 14 }
        else if b == 1 { 13 }
        else if b == 2 { 15 }
        else if b == 3 { 12 }
        else if b == 4 { 23 }
        else if b == 5 { 20 }
        else if b == 6 { 22 }
        else if b == 7 { 21 }
        else if b == 8 { 7 }
        else if b == 9 { 4 }
        else if b == 10 { 6 }
        else if b == 11 { 5 }
        else if b == 12 { 18 }
        else if b == 13 { 17 }
        else if b == 14 { 19 }
        else if b == 15 { 16 }
        else if b == 16 { 2 }
        else if b == 17 { 1 }
        else if b == 18 { 3 }
        else if b == 19 { 0 }
        else if b == 20 { 11 }
        else if b == 21 { 8 }
        else if b == 22 { 10 }
        else { 9 }
    } else if a == 15 {
        if b == 0 { 15 }
        else if b == 1 { 12 }
        else if b == 2 { 14 }
        else if b == 3 { 13 }
        else if b == 4 { 22 }
        else if b == 5 { 21 }
        else if b == 6 { 23 }
        else if b == 7 { 20 }
        else if b == 8 { 6 }
        else if b == 9 { 5 }
        else if b == 10 { 7 }
        else if b == 11 { 4 }
        else if b == 12 { 19 }
        else if b == 13 { 16 }
        else if b == 14 { 18 }
        else if b == 15 { 17 }
        else if b == 16 { 3 }
        else if b == 17 { 0 }
        else if b == 18 { 2 }
        else if b == 19 { 1 }
        else if b == 20 { 10 }
        else if b == 21 { 9 }
        else if b == 22 { 11 }
        else { 8 }
    } else if a == 16 {
        if b == 0 { 16 }
        else if b == 1 { 18 }
        else if b == 2 { 19 }
        else if b == 3 { 17 }
        else if b == 4 { 10 }
        else if b == 5 { 8 }
        else if b == 6 { 9 }
        else if b == 7 { 11 }
        else if b == 8 { 22 }
        else if b == 9 { 20 }
        else if b == 10 { 21 }
        else if b == 11 { 23 }
        else if b == 12 { 0 }
        else if b == 13 { 2 }
        else if b == 14 { 3 }
        else if b == 15 { 1 }
        else if b == 16 { 12 }
        else if b == 17 { 14 }
        else if b == 18 { 15 }
        else if b == 19 { 13 }
        else if b == 20 { 6 }
        else if b == 21 { 4 }
        else if b == 22 { 5 }
        else { 7 }
    } else if a == 17 {
        if b == 0 { 17 }
        else if b == 1 { 19 }
        else if b == 2 { 18 }
        else if b == 3 { 16 }
        else if b == 4 { 11 }
        else if b == 5 { 9 }
        else if b == 6 { 8 }
        else if b == 7 { 10 }
        else if b == 8 { 23 }
        else if b == 9 { 21 }
        else if b == 10 { 20 }
        else if b == 11 { 22 }
        else if b == 12 { 1 }
        else if b == 13 { 3 }
        else if b == 14 { 2 }
        else if b == 15 { 0 }
        else if b == 16 { 13 }
        else if b == 17 { 15 }
        else if b == 18 { 14 }
        else if b == 19 { 12 }
        else if b == 20 { 7 }
        else if b == 21 { 5 }
        else if b == 22 { 4 }
        else { 6 }
    } else if a == 18 {
        if b == 0 { 18 }
        else if b == 1 { 16 }
        else if b == 2 { 17 }
        else if b == 3 { 19 }
        else if b == 4 { 8 }
        else if b == 5 { 10 }
        else if b == 6 { 11 }
        else if b == 7 { 9 }
        else if b == 8 { 20 }
        else if b == 9 { 22 }
        else if b == 10 { 23 }
        else if b == 11 { 21 }
        else if b == 12 { 2 }
        else if b == 13 { 0 }
        else if b == 14 { 1 }
        else if b == 15 { 3 }
        else if b == 16 { 14 }
        else if b == 17 { 12 }
        else if b == 18 { 13 }
        else if b == 19 { 15 }
        else if b == 20 { 4 }
        else if b == 21 { 6 }
        else if b == 22 { 7 }
        else { 5 }
    } else if a == 19 {
        if b == 0 { 19 }
        else if b == 1 { 17 }
        else if b == 2 { 16 }
        else if b == 3 { 18 }
        else if b == 4 { 9 }
        else if b == 5 { 11 }
        else if b == 6 { 10 }
        else if b == 7 { 8 }
        else if b == 8 { 21 }
        else if b == 9 { 23 }
        else if b == 10 { 22 }
        else if b == 11 { 20 }
        else if b == 12 { 3 }
        else if b == 13 { 1 }
        else if b == 14 { 0 }
        else if b == 15 { 2 }
        else if b == 16 { 15 }
        else if b == 17 { 13 }
        else if b == 18 { 12 }
        else if b == 19 { 14 }
        else if b == 20 { 5 }
        else if b == 21 { 7 }
        else if b == 22 { 6 }
        else { 4 }
    } else if a == 20 {
        if b == 0 { 20 }
        else if b == 1 { 23 }
        else if b == 2 { 22 }
        else if b == 3 { 21 }
        else if b == 4 { 14 }
        else if b == 5 { 13 }
        else if b == 6 { 12 }
        else if b == 7 { 15 }
        else if b == 8 { 18 }
        else if b == 9 { 17 }
        else if b == 10 { 16 }
        else if b == 11 { 19 }
        else if b == 12 { 4 }
        else if b == 13 { 7 }
        else if b == 14 { 6 }
        else if b == 15 { 5 }
        else if b == 16 { 8 }
        else if b == 17 { 11 }
        else if b == 18 { 10 }
        else if b == 19 { 9 }
        else if b == 20 { 2 }
        else if b == 21 { 1 }
        else if b == 22 { 0 }
        else { 3 }
    } else if a == 21 {
        if b == 0 { 21 }
        else if b == 1 { 22 }
        else if b == 2 { 23 }
        else if b == 3 { 20 }
        else if b == 4 { 15 }
        else if b == 5 { 12 }
        else if b == 6 { 13 }
        else if b == 7 { 14 }
        else if b == 8 { 19 }
        else if b == 9 { 16 }
        else if b == 10 { 17 }
        else if b == 11 { 18 }
        else if b == 12 { 5 }
        else if b == 13 { 6 }
        else if b == 14 { 7 }
        else if b == 15 { 4 }
        else if b == 16 { 9 }
        else if b == 17 { 10 }
        else if b == 18 { 11 }
        else if b == 19 { 8 }
        else if b == 20 { 3 }
        else if b == 21 { 0 }
        else if b == 22 { 1 }
        else { 2 }
    } else if a == 22 {
        if b == 0 { 22 }
        else if b == 1 { 21 }
        else if b == 2 { 20 }
        else if b == 3 { 23 }
        else if b == 4 { 12 }
        else if b == 5 { 15 }
        else if b == 6 { 14 }
        else if b == 7 { 13 }
        else if b == 8 { 16 }
        else if b == 9 { 19 }
        else if b == 10 { 18 }
        else if b == 11 { 17 }
        else if b == 12 { 6 }
        else if b == 13 { 5 }
        else if b == 14 { 4 }
        else if b == 15 { 7 }
        else if b == 16 { 10 }
        else if b == 17 { 9 }
        else if b == 18 { 8 }
        else if b == 19 { 11 }
        else if b == 20 { 0 }
        else if b == 21 { 3 }
        else if b == 22 { 2 }
        else { 1 }
    } else {
        if b == 0 { 23 }
        else if b == 1 { 20 }
        else if b == 2 { 21 }
        else if b == 3 { 22 }
        else if b == 4 { 13 }
        else if b == 5 { 14 }
        else if b == 6 { 15 }
        else if b == 7 { 12 }
        else if b == 8 { 17 }
        else if b == 9 { 18 }
        else if b == 10 { 19 }
        else if b == 11 { 16 }
        else if b == 12 { 7 }
        else if b == 13 { 4 }
        else if b == 14 { 5 }
        else if b == 15 { 6 }
        else if b == 16 { 11 }
        else if b == 17 { 8 }
        else if b == 18 { 9 }
        else if b == 19 { 10 }
        else if b == 20 { 1 }
        else if b == 21 { 2 }
        else if b == 22 { 3 }
        else { 0 }
    }
}

/// Applying an orientation and then its inverse returns the original point.
pub proof fn lemma_orientation_inverse(o: int, p: (int, int, int))
    requires
        0 <= o < 24,
    ensures
        0 <= inverse_orientation(o) < 24,
        rot(inverse_orientation(o), rot(o, p)) == p,
        rot(o, rot(inverse_orientation(o), p)) == p,
{
}

/// The 24 orientations are closed under composition: applying `b` and then
/// `a` is the same as applying the single member named by the table.
pub proof fn lemma_orientation_compose(a: int, b: int, p: (int, int, int))
    requires
        0 <= a < 24,
        0 <= b < 24,
    ensures
        0 <= compose_orientation(a, b) < 24,
        rot(compose_orientation(a, b), p) == rot(a, rot(b, p)),
{
}

/// A merged cloud holds exactly the points of its two inputs.
pub proof fn lemma_merge_contains(
    world: Seq<(int, int, int)>,
    cloud: Seq<(int, int, int)>,
    p: (int, int, int),
)
    ensures
        merge_seq(world, cloud).contains(p) <==> world.contains(p) || cloud.contains(p),
    decreases cloud.len(),
{
    if cloud.len() > 0 {
        lemma_merge_contains(world, cloud.drop_last(), p);
        let m = merge_seq(world, cloud.drop_last());
        if !m.contains(cloud.last()) {
            assert(merge_seq(world, cloud) == m.push(cloud.last()));
            assert(m.push(cloud.last()).contains(p) <==> m.contains(p) || p == cloud.last())
                by {
                if m.push(cloud.last()).contains(p) {
                    let k = choose|k: int|
                        0 <= k < m.push(cloud.last()).len() && m.push(cloud.last())[k] == p;
                    if k < m.len() {
                        assert(m[k] == p);
                    }
                }
                if m.contains(p) {
                    let k = choose|k: int| 0 <= k < m.len() && m[k] == p;
                    assert(m.push(cloud.last())[k] == p);
                }
                if p == cloud.last() {
                    assert(m.push(cloud.last())[m.len() as int] == p);
                }
            }
        }
        if cloud.contains(p) {
            let k = choose|k: int| 0 <= k < cloud.len() && cloud[k] == p;
            if k < cloud.len() - 1 {
                assert(cloud.drop_last()[k] == p);
            }
        }
        if cloud.drop_last().contains(p) {
            let k = choose|k: int| 0 <= k < cloud.len() - 1 && cloud.drop_last()[k] == p;
            assert(cloud[k] == p);
        }
    }
}

/// Merging a cloud whose points are all present already changes nothing.
pub proof fn lemma_merge_absorbed(m: Seq<(int, int, int)>, cloud: Seq<(int, int, int)>)
    requires
        forall|k: int| 0 <= k < cloud.len() ==> m.contains(#[trigger] cloud[k]),
    ensures
        merge_seq(m, cloud) == m,
    decreases cloud.len(),
{
    if cloud.len() > 0 {
        assert(forall|k: int| 0 <= k < cloud.len() - 1 ==> cloud.drop_last()[k] == cloud[k]);
        lemma_merge_absorbed(m, cloud.drop_last());
        assert(m.contains(cloud.last()));
    }
}

/// Unioning a cloud into the world map twice yields the same world map as
/// once: a point rediscovered later is never added again.
pub proof fn lemma_merge_idempotent(world: Seq<(int, int, int)>, cloud: Seq<(int, int, int)>)
    ensures
        merge_seq(merge_seq(world, cloud), cloud) == merge_seq(world, cloud),
{
    let m = merge_seq(world, cloud);
    assert forall|k: int| 0 <= k < cloud.len() implies m.contains(#[trigger] cloud[k]) by {
        lemma_merge_contains(world, cloud, cloud[k]);
    }
    lemma_merge_absorbed(m, cloud);
}

/// A world map with no duplicate points keeps that invariant across merges.
pub proof fn lemma_merge_no_duplicates(world: Seq<(int, int, int)>, cloud: Seq<(int, int, int)>)
    requires
        world.no_duplicates(),
    ensures
        merge_seq(world, cloud).no_duplicates(),
    decreases cloud.len(),
{
    if cloud.len() > 0 {
        lemma_merge_no_duplicates(world, cloud.drop_last());
        let m = merge_seq(world, cloud.drop_last());
        if !m.contains(cloud.last()) {
            assert forall|i: int, j: int|
                0 <= i < j < m.push(cloud.last()).len() implies m.push(cloud.last())[i] != m.push(
                cloud.last(),
            )[j] by {
                if j < m.len() {
                    assert(m[i] != m[j]);
                } else {
                    assert(m.push(cloud.last())[j] == cloud.last());
                    if m.push(cloud.last())[i] == cloud.last() {
                        assert(m[i] == cloud.last());
                        assert(m.contains(cloud.last()));
                    }
                }
            }
        }
    }
}

/// A positive match count names at least one matched point.
proof fn lemma_match_count_pos(left: Seq<(int, int, int)>, c: Seq<(int, int, int)>)
    requires
        match_count(left, c) >= 1,
    ensures
        exists|i: int| 0 <= i < c.len() && left.contains(#[trigger] c[i]),
    decreases c.len(),
{
    if c.len() > 0 {
        if left.contains(c.last()) {
            assert(left.contains(c[c.len() - 1]));
        } else {
            lemma_match_count_pos(left, c.drop_last());
            let i = choose|i: int|
                0 <= i < c.len() - 1 && left.contains(#[trigger] c.drop_last()[i]);
            assert(left.contains(c[i]));
        }
    }
}

/// If some position at or after `(o0, l0, i0)` and lexicographically at or
/// before `(o, l, i)` qualifies, the search started at `(o0, l0, i0)` finds
/// a qualifying position.
proof fn lemma_first_hit_complete(
    left: Seq<(int, int, int)>,
    right: Seq<(int, int, int)>,
    o0: int,
    l0: int,
    i0: int,
    o: int,
    l: int,
    i: int,
)
    requires
        0 <= o0,
        0 <= l0,
        0 <= i0,
        0 <= o < 24,
        0 <= l < left.len(),
        0 <= i < right.len(),
        o0 < o || (o0 == o && l0 < l) || (o0 == o && l0 == l && i0 <= i),
        hit(left, right, o, l, i),
    ensures
        first_hit_from(left, right, o0, l0, i0) is Some,
    decreases 24 - o0, left.len() - l0, right.len() - i0,
{
    if l0 >= left.len() {
        lemma_first_hit_complete(left, right, o0 + 1, 0, 0, o, l, i);
    } else if i0 >= right.len() {
        lemma_first_hit_complete(left, right, o0, l0 + 1, 0, o, l, i);
    } else if hit(left, right, o0, l0, i0) {
    } else {
        lemma_first_hit_complete(left, right, o0, l0, i0 + 1, o, l, i);
    }
}

/// Two clouds that share at least the threshold number of points under some
/// orientation and translation are aligned by the search.
pub proof fn lemma_threshold_met_aligns(
    left: Seq<(int, int, int)>,
    right: Seq<(int, int, int)>,
    o: int,
    d: (int, int, int),
)
    requires
        0 <= o < 24,
        match_count(left, shift_cloud(orient_cloud(right, o), d)) >= THRESHOLD,
    ensures
        align_spec(left, right) is Some,
{
    let shifted = shift_cloud(orient_cloud(right, o), d);
    lemma_match_count_pos(left, shifted);
    let i = choose|i: int| 0 <= i < shifted.len() && left.contains(#[trigger] shifted[i]);
    let l = choose|l: int| 0 <= l < left.len() && left[l] == shifted[i];
    assert(shifted[i] == vadd(rot(o, right[i]), d));
    assert(d == delta_at(left, right, o, l, i));
    assert(cand_at(left, right, o, l, i) == shifted);
    assert(hit(left, right, o, l, i));
    lemma_first_hit_complete(left, right, 0, 0, 0, o, l, i);
}

/// Two clouds that never share the threshold number of points, under any
/// orientation and any translation, are never aligned.
pub proof fn lemma_threshold_unmet_never_aligns(
    left: Seq<(int, int, int)>,
    right: Seq<(int, int, int)>,
)
    requires
        forall|o: int, d: (int, int, int)|
            #![trigger shift_cloud(orient_cloud(right, o), d)]
            0 <= o < 24 ==> match_count(left, shift_cloud(orient_cloud(right, o), d))
                < THRESHOLD,
    ensures
        align_spec(left, right) is None,
{
    if align_spec(left, right) is Some {
        lemma_first_hit_props(left, right, 0, 0, 0);
        let t = first_hit_from(left, right, 0, 0, 0)->0;
        assert(match_count(
            left,
            shift_cloud(orient_cloud(right, t.0), delta_at(left, right, t.0, t.1, t.2)),
        ) < THRESHOLD);
    }
}

/// Registration is a function of the reported clouds alone: two sensor
/// lists whose clouds agree point for point register identically, whatever
/// else (such as identifiers) may differ.
pub proof fn lemma_register_deterministic(s1: Seq<Scanner>, s2: Seq<Scanner>)
    requires
        s1.len() >= 1,
        sensor_views(s1) == sensor_views(s2),
    ensures
        register_spec(s1) == register_spec(s2),
{
    assert(sensor_views(s1).len() == s1.len());
    assert(sensor_views(s2).len() == s2.len());
    assert(cview(s1[0].beacons@) == sensor_views(s1)[0]);
    assert(cview(s2[0].beacons@) == sensor_views(s2)[0]);
}

/// Componentwise negation.
pub open spec fn vneg(a: (int, int, int)) -> (int, int, int) {
    (-a.0, -a.1, -a.2)
}

/// The rigid transform of the search: orientation `o`, then translation
/// `d`.
pub open spec fn xform(o: int, d: (int, int, int), p: (int, int, int)) -> (int, int, int) {
    vadd(rot(o, p), d)
}

proof fn lemma_push_contains(c: Seq<(int, int, int)>, s: (int, int, int), x: (int, int, int))
    ensures
        c.push(s).contains(x) <==> c.contains(x) || x == s,
{
    if c.push(s).contains(x) {
        let k = choose|k: int| 0 <= k < c.push(s).len() && c.push(s)[k] == x;
        if k < c.len() {
            assert(c[k] == x);
        }
    }
    if c.contains(x) {
        let k = choose|k: int| 0 <= k < c.len() && c[k] == x;
        assert(c.push(s)[k] == x);
    }
    if x == s {
        assert(c.push(s)[c.len() as int] == x);
    }
}

/// Orientations act linearly, so the transform and its inverse cancel in
/// both orders.
pub proof fn lemma_xform_roundtrip(o: int, d: (int, int, int), p: (int, int, int))
    requires
        0 <= o < 24,
    ensures
        xform(inverse_orientation(o), vneg(rot(inverse_orientation(o), d)), xform(o, d, p)) == p,
        xform(o, d, xform(inverse_orientation(o), vneg(rot(inverse_orientation(o), d)), p)) == p,
{
    lemma_orientation_inverse(o, p);
    lemma_orientation_inverse(o, d);
    let o2 = inverse_orientation(o);
    assert(rot(o2, vadd(rot(o, p), d)) == vadd(rot(o2, rot(o, p)), rot(o2, d)));
    lemma_orientation_inverse(o, vadd(rot(o2, p), vneg(rot(o2, d))));
    assert(rot(o, vadd(rot(o2, p), vneg(rot(o2, d)))) == vadd(
        rot(o, rot(o2, p)),
        rot(o, vneg(rot(o2, d))),
    ));
    assert(rot(o, vneg(rot(o2, d))) == vneg(rot(o, rot(o2, d))));
}

/// The image of a cloud under the search transform.
pub open spec fn xform_cloud(o: int, d: (int, int, int), c: Seq<(int, int, int)>) -> Seq<
    (int, int, int),
> {
    shift_cloud(orient_cloud(c, o), d)
}

/// A transformed cloud holds the transform of a point exactly when the
/// original cloud holds the point.
proof fn lemma_xform_contains(o: int, d: (int, int, int), c: Seq<(int, int, int)>, p: (int, int, int))
    requires
        0 <= o < 24,
    ensures
        xform_cloud(o, d, c).contains(xform(o, d, p)) <==> c.contains(p),
{
    if xform_cloud(o, d, c).contains(xform(o, d, p)) {
        let k = choose|k: int|
            0 <= k < xform_cloud(o, d, c).len() && xform_cloud(o, d, c)[k] == xform(o, d, p);
        assert(xform(o, d, c[k]) == xform(o, d, p));
        lemma_xform_roundtrip(o, d, c[k]);
        lemma_xform_roundtrip(o, d, p);
        assert(c[k] == p);
    }
    if c.contains(p) {
        let k = choose|k: int| 0 <= k < c.len() && c[k] == p;
        assert(xform_cloud(o, d, c)[k] == xform(o, d, p));
    }
}

/// Transforming a cloud keeps it free of duplicates.
proof fn lemma_xform_no_duplicates(o: int, d: (int, int, int), c: Seq<(int, int, int)>)
    requires
        0 <= o < 24,
        c.no_duplicates(),
    ensures
        xform_cloud(o, d, c).no_duplicates(),
{
    assert forall|i: int, j: int|
        0 <= i < j < xform_cloud(o, d, c).len() implies xform_cloud(o, d, c)[i] != xform_cloud(
        o,
        d,
        c,
    )[j] by {
        if xform_cloud(o, d, c)[i] == xform_cloud(o, d, c)[j] {
            lemma_xform_roundtrip(o, d, c[i]);
            lemma_xform_roundtrip(o, d, c[j]);
            assert(c[i] == c[j]);
        }
    }
}

/// Transforming both clouds by the same rigid transform does not change the
/// match count.
proof fn lemma_match_count_xform(
    left: Seq<(int, int, int)>,
    c: Seq<(int, int, int)>,
    o: int,
    d: (int, int, int),
)
    requires
        0 <= o < 24,
    ensures
        match_count(xform_cloud(o, d, left), xform_cloud(o, d, c)) == match_count(left, c),
    decreases c.len(),
{
    if c.len() > 0 {
        lemma_match_count_xform(left, c.drop_last(), o, d);
        assert(xform_cloud(o, d, c).drop_last() =~= xform_cloud(o, d, c.drop_last()));
        assert(xform_cloud(o, d, c).last() == xform(o, d, c.last()));
        lemma_xform_contains(o, d, left, c.last());
    }
}

/// How many entries of `c` equal `p`.
pub open spec fn occ(c: Seq<(int, int, int)>, p: (int, int, int)) -> int
    decreases c.len(),
{
    if c.len() == 0 {
        0
    } else {
        occ(c.drop_last(), p) + if c.last() == p {
            1int
        } else {
            0int
        }
    }
}

proof fn lemma_occ_no_dup(c: Seq<(int, int, int)>, p: (int, int, int))
    requires
        c.no_duplicates(),
    ensures
        occ(c, p) == if c.contains(p) {
            1int
        } else {
            0int
        },
    decreases c.len(),
{
    if c.len() > 0 {
        assert(c.drop_last().no_duplicates());
        lemma_occ_no_dup(c.drop_last(), p);
        assert(c.drop_last().push(c.last()) =~= c);
        lemma_push_contains(c.drop_last(), c.last(), p);
        if c.last() == p {
            if c.drop_last().contains(p) {
                let k = choose|k: int| 0 <= k < c.len() - 1 && c.drop_last()[k] == p;
                assert(c[k] == p && c[c.len() - 1] == p);
            }
        }
    }
}

/// Extending the reference cloud by one fresh point raises the match count
/// by the number of candidate entries equal to that point.
proof fn lemma_match_count_left_extend(
    left: Seq<(int, int, int)>,
    c: Seq<(int, int, int)>,
    s: (int, int, int),
)
    requires
        !c.contains(s),
    ensures
        match_count(c.push(s), left) == match_count(c, left) + occ(left, s),
    decreases left.len(),
{
    if left.len() > 0 {
        lemma_match_count_left_extend(left.drop_last(), c, s);
        lemma_push_contains(c, s, left.last());
    }
}

/// With no duplicate points on either side, the match count is symmetric:
/// it is the number of points the two clouds share.
pub proof fn lemma_match_count_sym(a: Seq<(int, int, int)>, b: Seq<(int, int, int)>)
    requires
        a.no_duplicates(),
        b.no_duplicates(),
    ensures
        match_count(a, b) == match_count(b, a),
    decreases b.len(),
{
    if b.len() == 0 {
        assert(b =~= Seq::<(int, int, int)>::empty());
        lemma_match_count_empty_left(a);
    } else {
        assert(b.drop_last().no_duplicates());
        lemma_match_count_sym(a, b.drop_last());
        let s = b.last();
        assert(!b.drop_last().contains(s)) by {
            if b.drop_last().contains(s) {
                let k = choose|k: int| 0 <= k < b.len() - 1 && b.drop_last()[k] == s;
                assert(b[k] == s && b[b.len() - 1] == s);
            }
        }
        lemma_match_count_left_extend(a, b.drop_last(), s);
        assert(b.drop_last().push(s) =~= b);
        lemma_occ_no_dup(a, s);
    }
}

proof fn lemma_match_count_empty_left(c: Seq<(int, int, int)>)
    ensures
        match_count(Seq::<(int, int, int)>::empty(), c) == 0,
    decreases c.len(),
{
    if c.len() > 0 {
        lemma_match_count_empty_left(c.drop_last());
    }
}

/// Alignment symmetry: when the search aligns `b` against `a`, it also
/// aligns `a` against `b`, and the inverse of the recovered transform
/// attains the same overlap count in the reversed roles.
pub proof fn lemma_align_symmetry(a: Seq<(int, int, int)>, b: Seq<(int, int, int)>)
    requires
        a.no_duplicates(),
        b.no_duplicates(),
        align_spec(a, b) is Some,
    ensures
        align_spec(b, a) is Some,
        ({
            let t = first_hit_from(a, b, 0, 0, 0)->0;
            let d = delta_at(a, b, t.0, t.1, t.2);
            let o2 = inverse_orientation(t.0);
            let d2 = vneg(rot(o2, d));
            match_count(b, xform_cloud(o2, d2, a)) == match_count(a, cand_at(a, b, t.0, t.1, t.2))
        }),
{
    lemma_first_hit_props(a, b, 0, 0, 0);
    let t = first_hit_from(a, b, 0, 0, 0)->0;
    let o = t.0;
    let d = delta_at(a, b, o, t.1, t.2);
    assert(cand_at(a, b, o, t.1, t.2) == xform_cloud(o, d, b));
    let o2 = inverse_orientation(o);
    let d2 = vneg(rot(o2, d));
    lemma_orientation_inverse(o, (0, 0, 0));
    lemma_match_count_xform(b, xform_cloud(o2, d2, a), o, d);
    assert(xform_cloud(o, d, xform_cloud(o2, d2, a)) =~= a) by {
        assert forall|k: int| 0 <= k < a.len() implies xform_cloud(
            o,
            d,
            xform_cloud(o2, d2, a),
        )[k] == a[k] by {
            lemma_xform_roundtrip(o, d, a[k]);
        }
    }
    lemma_xform_no_duplicates(o, d, b);
    lemma_match_count_sym(xform_cloud(o, d, b), a);
    assert(match_count(b, xform_cloud(o2, d2, a)) == match_count(a, xform_cloud(o, d, b)));
    lemma_threshold_met_aligns(b, a, o2, d2);
}

} // verus!
