//! Amphipod burrow: the hallway-and-rooms diagram and the movement rules
//! read from it.
use vstd::prelude::*;

verus! {

use crate::parse::{line_ranges, split_lines};

/// The burrow: eleven hallway spots, four rooms of equal depth.
#[derive(Debug, Clone, PartialEq, Eq)]
pub struct Diagram {
    pub hallway: Vec<char>,
    pub rooms: Vec<Vec<char>>,
    pub depth: usize,
}


/// The input grid holds at least `rows` lines, the hallway line at least
/// twelve characters wide and the room lines at least twelve wide.
pub open spec fn diagram_ok(s: Seq<char>, rows: int) -> bool {
    let ls = line_ranges(s);
    &&& ls.len() >= rows
    &&& forall|k: int| 0 <= k < rows ==> (#[trigger] ls[k]).1 - ls[k].0 >= 12
}

/// The character at column `x` of line `y` of the input grid.
pub open spec fn grid_char(s: Seq<char>, y: int, x: int) -> char {
    let b = line_ranges(s)[y];
    s[b.0 + x]
}


/// The upper folded-in row of the full puzzle: `#D#C#B#A#`.
pub open spec fn folded_row_one(q: int) -> char {
    if q == 0 {
        'D'
    } else if q == 1 {
        'C'
    } else if q == 2 {
        'B'
    } else {
        'A'
    }
}

/// The lower folded-in row of the full puzzle: `#D#B#A#C#`.
pub open spec fn folded_row_two(q: int) -> char {
    if q == 0 {
        'D'
    } else if q == 1 {
        'B'
    } else if q == 2 {
        'A'
    } else {
        'C'
    }
}

/// The amphipod a room is home to.
pub open spec fn room_char(room: int) -> char {
    if room == 0 {
        'A'
    } else if room == 1 {
        'B'
    } else if room == 2 {
        'C'
    } else {
        'D'
    }
}

/// The first occupied slot of a room, top down.
pub open spec fn first_occupied(spots: Seq<char>, i: int) -> Option<int>
    decreases spots.len() - i,
{
    if i < 0 || i >= spots.len() {
        None
    } else if spots[i] == '.' {
        first_occupied(spots, i + 1)
    } else {
        Some(i)
    }
}

/// Every slot from `i` down holds `correct`.
pub open spec fn settled_from(spots: Seq<char>, i: int, correct: char) -> bool {
    forall|j: int| i <= j < spots.len() ==> (#[trigger] spots[j]) == correct
}

/// Which slot of a room must move out: the topmost occupant, unless it and
/// everything below it already sit in their home room.
pub open spec fn move_from_spec(spots: Seq<char>, correct: char) -> Option<int> {
    match first_occupied(spots, 0) {
        None => None,
        Some(i) => if settled_from(spots, i, correct) {
            None
        } else {
            Some(i)
        },
    }
}

/// One of the four amphipod kinds.
pub open spec fn is_amphipod(c: char) -> bool {
    c == 'A' || c == 'B' || c == 'C' || c == 'D'
}

/// The room an amphipod kind lives in.
pub open spec fn home_room(c: char) -> int {
    if c == 'A' {
        0
    } else if c == 'B' {
        1
    } else if c == 'C' {
        2
    } else {
        3
    }
}

/// The room still has an empty slot.
pub open spec fn room_has_space(spots: Seq<char>) -> bool {
    exists|q: int| 0 <= q < spots.len() && (#[trigger] spots[q]) == '.'
}

/// The room holds nothing but empty slots and `a`'s own kind.
pub open spec fn room_accepts(spots: Seq<char>, a: char) -> bool {
    forall|q: int| 0 <= q < spots.len() ==> (#[trigger] spots[q]) == '.' || spots[q] == a
}

/// Every hallway spot on the way from `from` to `to`, the destination
/// included, is empty.
pub open spec fn path_clear(h: Seq<char>, from: int, to: int) -> bool {
    forall|q: int|
        (if from <= to {
            from < q <= to
        } else {
            to <= q < from
        }) ==> (#[trigger] h[q]) == '.'
}

/// How many hallway steps lie between `from` and `to`.
pub open spec fn hall_steps(from: int, to: int) -> int {
    if from <= to {
        to - from
    } else {
        from - to
    }
}

/// The first slot, top down, already holding kind `a`; the room's depth
/// when none does.
pub open spec fn first_of_kind(spots: Seq<char>, a: char) -> int
    decreases spots.len(),
{
    first_of_kind_from(spots, a, 0)
}

pub open spec fn first_of_kind_from(spots: Seq<char>, a: char, i: int) -> int
    recommends
        0 <= i,
    decreases spots.len() - i,
{
    if i < 0 || i >= spots.len() {
        spots.len() as int
    } else if spots[i] == a {
        i
    } else {
        first_of_kind_from(spots, a, i + 1)
    }
}

proof fn lemma_first_of_kind_scan(spots: Seq<char>, a: char, i: int, p: int)
    requires
        0 <= i <= p <= spots.len(),
        forall|q: int| i <= q < p ==> (#[trigger] spots[q]) != a,
        p < spots.len() ==> spots[p] == a,
    ensures
        first_of_kind_from(spots, a, i) == if p < spots.len() {
            p
        } else {
            spots.len() as int
        },
    decreases p - i,
{
    if i < p {
        lemma_first_of_kind_scan(spots, a, i + 1, p);
    }
}

/// A hallway spot directly above a room, where nothing may stop.
pub open spec fn is_doorway(p: int) -> bool {
    p == 2 || p == 4 || p == 6 || p == 8
}

/// The stops to the left of room mouth `s`, scanning from `p` downward:
/// doorways are passed over, and the first occupied spot ends the walk.
/// Each stop is paired with the step count from slot `rp` of the room.
pub open spec fn left_stops(h: Seq<char>, s: int, rp: int, p: int) -> Seq<(int, int)>
    decreases p + 1,
{
    if p < 0 {
        Seq::empty()
    } else if is_doorway(p) {
        left_stops(h, s, rp, p - 1)
    } else if h[p] != '.' {
        Seq::empty()
    } else {
        seq![(p, s - p + rp + 1)] + left_stops(h, s, rp, p - 1)
    }
}

/// The stops to the right of room mouth `s`, scanning from `p` upward.
pub open spec fn right_stops(h: Seq<char>, s: int, rp: int, p: int) -> Seq<(int, int)>
    decreases 11 - p,
{
    if p < 0 || p >= 11 {
        Seq::empty()
    } else if is_doorway(p) {
        right_stops(h, s, rp, p + 1)
    } else if h[p] != '.' {
        Seq::empty()
    } else {
        seq![(p, p - s + rp + 1)] + right_stops(h, s, rp, p + 1)
    }
}

/// The slot an arriving amphipod settles in: just above its own kind, or
/// the bottom of an empty room.
pub open spec fn entry_slot(spots: Seq<char>, a: char) -> int {
    if first_of_kind(spots, a) == 0 {
        0
    } else {
        first_of_kind(spots, a) - 1
    }
}

impl Diagram {
    pub fn new(hallway: Vec<char>, rooms: Vec<Vec<char>>, depth: usize) -> (d: Diagram)
        ensures
            d.hallway == hallway,
            d.rooms == rooms,
            d.depth == depth,
    {
        Diagram { hallway, rooms, depth }
    }


    /// Reads the two-deep burrow: the hallway from the second line, the
    /// four room columns from the two lines below it.
    pub fn parse(input: &str) -> (d: Diagram)
        requires
            diagram_ok(input@, 4),
        ensures
            d.depth == 2,
            d.hallway@.len() == 11,
            forall|k: int| 0 <= k < 11 ==> (#[trigger] d.hallway@[k]) == grid_char(
                input@,
                1,
                k + 1,
            ),
            d.rooms@.len() == 4,
            forall|q: int| 0 <= q < 4 ==> (#[trigger] d.rooms@[q])@.len() == 2,
            forall|q: int, k: int|
                0 <= q < 4 && 0 <= k < 2 ==> (#[trigger] d.rooms@[q]@[k]) == grid_char(
                    input@,
                    k + 2,
                    2 * q + 3,
                ),
    {
        let ghost ls = line_ranges(input@);
        let lines = split_lines(input);
        let mut hallway: Vec<char> = Vec::new();
        let (h_from, h_to) = lines[1];
        proof {
            assert(ls[1] == (h_from as int, h_to as int));
        }
        let mut k: usize = 1;
        while k < 12
            invariant
                1 <= k <= 12,
                diagram_ok(input@, 4),
                ls == line_ranges(input@),
                ls[1] == (h_from as int, h_to as int),
                h_to <= input@.len(),
                hallway@.len() == k - 1,
                forall|j: int| 0 <= j < k - 1 ==> (#[trigger] hallway@[j]) == grid_char(
                    input@,
                    1,
                    j + 1,
                ),
            decreases 12 - k,
        {
            hallway.push(input.get_char(h_from + k));
            k = k + 1;
        }
        let mut rooms: Vec<Vec<char>> = Vec::new();
        let mut q: usize = 0;
        while q < 4
            invariant
                0 <= q <= 4,
                diagram_ok(input@, 4),
                ls == line_ranges(input@),
                lines@.map_values(|b: (usize, usize)| (b.0 as int, b.1 as int)) == ls,
                forall|p: int| 0 <= p < lines@.len() ==> (#[trigger] lines@[p]).0 <= lines@[p].1
                    <= input@.len(),
                rooms@.len() == q,
                forall|p: int| 0 <= p < q ==> (#[trigger] rooms@[p])@.len() == 2,
                forall|p: int, k: int|
                    0 <= p < q && 0 <= k < 2 ==> (#[trigger] rooms@[p]@[k]) == grid_char(
                        input@,
                        k + 2,
                        2 * p + 3,
                    ),
            decreases 4 - q,
        {
            let mut room: Vec<char> = Vec::new();
            let mut k: usize = 0;
            while k < 2
                invariant
                    0 <= k <= 2,
                    0 <= q < 4,
                    diagram_ok(input@, 4),
                    ls == line_ranges(input@),
                    lines@.map_values(|b: (usize, usize)| (b.0 as int, b.1 as int)) == ls,
                    forall|p: int|
                        0 <= p < lines@.len() ==> (#[trigger] lines@[p]).0 <= lines@[p].1
                            <= input@.len(),
                    room@.len() == k,
                    forall|j: int| 0 <= j < k ==> (#[trigger] room@[j]) == grid_char(
                        input@,
                        j + 2,
                        2 * q + 3,
                    ),
                decreases 2 - k,
            {
                let (from, _to) = lines[k + 2];
                proof {
                    assert(ls[k + 2] == (from as int, _to as int));
                }
                room.push(input.get_char(from + 2 * q + 3));
                k = k + 1;
            }
            rooms.push(room);
            q = q + 1;
        }
        Diagram::new(hallway, rooms, 2)
    }


    /// Reads the four-deep burrow: the same diagram with the two folded-in
    /// rows of the full puzzle placed between the printed ones.
    pub fn parse2(input: &str) -> (d: Diagram)
        requires
            diagram_ok(input@, 4),
        ensures
            d.depth == 4,
            d.hallway@.len() == 11,
            forall|k: int| 0 <= k < 11 ==> (#[trigger] d.hallway@[k]) == grid_char(
                input@,
                1,
                k + 1,
            ),
            d.rooms@.len() == 4,
            forall|q: int| 0 <= q < 4 ==> (#[trigger] d.rooms@[q])@ == seq![
                grid_char(input@, 2, 2 * q + 3),
                folded_row_one(q),
                folded_row_two(q),
                grid_char(input@, 3, 2 * q + 3),
            ],
    {
        let two = Diagram::parse(input);
        let mut rooms: Vec<Vec<char>> = Vec::new();
        let mut q: usize = 0;
        while q < 4
            invariant
                0 <= q <= 4,
                two.rooms@.len() == 4,
                forall|p: int| 0 <= p < 4 ==> (#[trigger] two.rooms@[p])@.len() == 2,
                forall|p: int, k: int|
                    0 <= p < 4 && 0 <= k < 2 ==> (#[trigger] two.rooms@[p]@[k]) == grid_char(
                        input@,
                        k + 2,
                        2 * p + 3,
                    ),
                rooms@.len() == q,
                forall|p: int| 0 <= p < q ==> (#[trigger] rooms@[p])@ == seq![
                    grid_char(input@, 2, 2 * p + 3),
                    folded_row_one(p),
                    folded_row_two(p),
                    grid_char(input@, 3, 2 * p + 3),
                ],
            decreases 4 - q,
        {
            let top = two.rooms[q][0];
            let bottom = two.rooms[q][1];
            let mid1 = match q {
                0 => 'D',
                1 => 'C',
                2 => 'B',
                _ => 'A',
            };
            let mid2 = match q {
                0 => 'D',
                1 => 'B',
                2 => 'A',
                _ => 'C',
            };
            let room = vec![top, mid1, mid2, bottom];
            proof {
                assert(room@ =~= seq![
                    grid_char(input@, 2, 2 * q as int + 3),
                    folded_row_one(q as int),
                    folded_row_two(q as int),
                    grid_char(input@, 3, 2 * q as int + 3),
                ]);
            }
            rooms.push(room);
            q = q + 1;
        }
        Diagram::new(two.hallway, rooms, 4)
    }

    /// The slot that must leave a room of `correct`-homed amphipods, if
    /// any.
    pub fn get_move_from(spots: Vec<char>, correct: char) -> (r: Option<usize>)
        ensures
            match move_from_spec(spots@, correct) {
                None => r is None,
                Some(i) => r == Some(i as usize),
            },
    {
        let ghost sv = spots@;
        let mut i: usize = 0;
        while i < spots.len()
            invariant
                0 <= i <= sv.len(),
                sv == spots@,
                first_occupied(sv, 0) == first_occupied(sv, i as int),
            decreases sv.len() - i,
        {
            if spots[i] != '.' {
                assert(first_occupied(sv, 0) == Some(i as int));
                let mut j: usize = i;
                let mut settled: bool = true;
                while j < spots.len()
                    invariant
                        i <= j <= sv.len(),
                        sv == spots@,
                        settled ==> forall|k: int| i <= k < j ==> (#[trigger] sv[k]) == correct,
                        !settled ==> exists|k: int| i <= k < sv.len() && (#[trigger] sv[k])
                            != correct,
                    decreases sv.len() - j,
                {
                    if spots[j] != correct {
                        settled = false;
                    }
                    j = j + 1;
                }
                if settled {
                    assert(settled_from(sv, i as int, correct));
                    return None;
                }
                assert(!settled_from(sv, i as int, correct));
                return Some(i);
            }
            i = i + 1;
        }
        assert(first_occupied(sv, sv.len() as int) is None);
        None
    }

    /// The slot that must leave room `room`, if any.
    pub fn need_move(&self, room: usize) -> (r: Option<usize>)
        requires
            room < 4,
            self.rooms@.len() == 4,
        ensures
            match move_from_spec(self.rooms@[room as int]@, room_char(room as int)) {
                None => r is None,
                Some(i) => r == Some(i as usize),
            },
    {
        let correct = Diagram::get_room_amphipod(room);
        let spots: Vec<char> = self.clone_room(room);
        Diagram::get_move_from(spots, correct)
    }

    /// A copy of room `room`'s slots.
    fn clone_room(&self, room: usize) -> (r: Vec<char>)
        requires
            room < self.rooms@.len(),
        ensures
            r@ == self.rooms@[room as int]@,
    {
        let src = &self.rooms[room];
        let mut r: Vec<char> = Vec::new();
        let mut k: usize = 0;
        while k < src.len()
            invariant
                0 <= k <= src@.len(),
                src@ == self.rooms@[room as int]@,
                r@ =~= src@.take(k as int),
            decreases src@.len() - k,
        {
            r.push(src[k]);
            k = k + 1;
        }
        proof {
            assert(src@.take(src@.len() as int) =~= src@);
        }
        r
    }

    /// Where a room opens onto the hallway.
    pub fn get_room_hallway_position(&self, room: usize) -> (p: usize)
        requires
            room < 4,
        ensures
            p == 2 * room + 2,
    {
        match room {
            0 => 2,
            1 => 4,
            2 => 6,
            _ => 8,
        }
    }

    /// The amphipod a room is home to.
    pub fn get_room_amphipod(room: usize) -> (c: char)
        requires
            room < 4,
        ensures
            c == room_char(room as int),
    {
        match room {
            0 => 'A',
            1 => 'B',
            2 => 'C',
            _ => 'D',
        }
    }

    /// Whether every amphipod sits in its home room.
    pub fn is_done(&self) -> (r: bool)
        requires
            self.rooms@.len() == 4,
        ensures
            r == (forall|i: int, k: int|
                0 <= i < 4 && 0 <= k < self.rooms@[i]@.len() ==> (#[trigger] self.rooms@[i]@[k])
                    == room_char(i)),
    {
        let mut i: usize = 0;
        while i < 4
            invariant
                0 <= i <= 4,
                self.rooms@.len() == 4,
                forall|q: int, k: int|
                    0 <= q < i && 0 <= k < self.rooms@[q]@.len() ==> (#[trigger] self.rooms@[q]@[k])
                        == room_char(q),
            decreases 4 - i,
        {
            let correct = Diagram::get_room_amphipod(i);
            let room = &self.rooms[i];
            let mut k: usize = 0;
            while k < room.len()
                invariant
                    0 <= k <= room@.len(),
                    0 <= i < 4,
                    room@ == self.rooms@[i as int]@,
                    correct == room_char(i as int),
                    forall|q: int| 0 <= q < k ==> (#[trigger] room@[q]) == correct,
                decreases room@.len() - k,
            {
                if room[k] != correct {
                    return false;
                }
                k = k + 1;
            }
            i = i + 1;
        }
        true
    }

    /// Moves the amphipod at `from_hallway_postion` into its home room, if
    /// the room can take it and the hallway path is clear; the step count
    /// of the move is returned.
    pub fn move_into_room(&mut self, from_hallway_postion: usize) -> (r: Option<usize>)
        requires
            old(self).rooms@.len() == 4,
            from_hallway_postion < old(self).hallway@.len(),
            is_amphipod(old(self).hallway@[from_hallway_postion as int]),
            old(self).hallway@.len() == 11,
            old(self).rooms@[home_room(old(self).hallway@[from_hallway_postion as int])]@.len()
                <= 1000,
            from_hallway_postion != 2 * home_room(
                old(self).hallway@[from_hallway_postion as int],
            ) + 2,
        ensures
            ({
                let a = old(self).hallway@[from_hallway_postion as int];
                let room = home_room(a);
                let spots = old(self).rooms@[room]@;
                let rpos = 2 * room + 2;
                let fp = from_hallway_postion as int;
                if !room_has_space(spots) || !room_accepts(spots, a) || !path_clear(
                    old(self).hallway@,
                    fp,
                    rpos,
                ) {
                    r is None && *final(self) == *old(self)
                } else {
                    let slot = entry_slot(spots, a);
                    &&& r == Some(
                        (hall_steps(fp, rpos) + first_of_kind(spots, a)) as usize,
                    )
                    &&& final(self).rooms@[room]@ == spots.update(slot, a)
                    &&& forall|q: int|
                        0 <= q < 4 && q != room ==> (#[trigger] final(self).rooms@[q]) == old(
                            self,
                        ).rooms@[q]
                    &&& final(self).hallway@ == old(self).hallway@.update(fp, '.')
                    &&& final(self).depth == old(self).depth
                }
            }),
    {
        let amphipod = self.hallway[from_hallway_postion];
        let room: usize = match amphipod {
            'A' => 0,
            'B' => 1,
            'C' => 2,
            _ => 3,
        };
        let ghost spots0 = self.rooms@[room as int]@;
        let depth = self.rooms[room].len();
        let mut full: bool = true;
        let mut accepts: bool = true;
        let mut k: usize = 0;
        while k < depth
            invariant
                0 <= k <= depth,
                room < 4,
                self.rooms@.len() == 4,
                *self == *old(self),
                depth == spots0.len(),
                spots0 == self.rooms@[room as int]@,
                full == !(exists|q: int| 0 <= q < k && (#[trigger] spots0[q]) == '.'),
                accepts == (forall|q: int|
                    0 <= q < k ==> (#[trigger] spots0[q]) == '.' || spots0[q] == amphipod),
            decreases depth - k,
        {
            let c = self.rooms[room][k];
            if c == '.' {
                full = false;
            }
            if c != '.' && c != amphipod {
                accepts = false;
            }
            k = k + 1;
        }
        assert(full == !room_has_space(spots0));
        assert(accepts == room_accepts(spots0, amphipod));
        if full {
            return None;
        }
        if !accepts {
            return None;
        }
        let r = self.get_room_hallway_position(room);
        let ghost hv = self.hallway@;
        let mut count: usize = 0;
        if from_hallway_postion > r {
            let mut p: usize = from_hallway_postion;
            while p > r
                invariant
                    r <= p <= from_hallway_postion,
                    from_hallway_postion < 11,
                    *self == *old(self),
                    hv == self.hallway@,
                    hv.len() == 11,
                    amphipod == old(self).hallway@[from_hallway_postion as int],
                    room < 4,
                    room as int == home_room(amphipod),
                    r == 2 * room + 2,
                    count == from_hallway_postion - p,
                    forall|q: int| p <= q < from_hallway_postion ==> (#[trigger] hv[q]) == '.',
                decreases p,
            {
                if self.hallway[p - 1] != '.' {
                    assert(!path_clear(hv, from_hallway_postion as int, r as int));
                    return None;
                }
                p = p - 1;
                count = count + 1;
            }
        } else {
            let mut p: usize = from_hallway_postion + 1;
            while p <= r
                invariant
                    from_hallway_postion + 1 <= p <= r + 1,
                    r < 11,
                    *self == *old(self),
                    hv == self.hallway@,
                    hv.len() == 11,
                    amphipod == old(self).hallway@[from_hallway_postion as int],
                    room < 4,
                    room as int == home_room(amphipod),
                    r == 2 * room + 2,
                    count == p - from_hallway_postion - 1,
                    forall|q: int| from_hallway_postion < q < p ==> (#[trigger] hv[q]) == '.',
                decreases r + 1 - p,
            {
                if self.hallway[p] != '.' {
                    assert(!path_clear(hv, from_hallway_postion as int, r as int));
                    return None;
                }
                p = p + 1;
                count = count + 1;
            }
        }
        assert(path_clear(hv, from_hallway_postion as int, r as int));
        assert(count == hall_steps(from_hallway_postion as int, r as int));
        let mut i: usize = 0;
        let mut p: usize = 0;
        while p < depth
            invariant
                0 <= p <= depth,
                i <= p || (i == 0 && p == 0),
                i == if p == 0 {
                    0int
                } else {
                    p - 1
                },
                room < 4,
                self.rooms@.len() == 4,
                *self == *old(self),
                depth == spots0.len(),
                depth <= 1000,
                spots0 == self.rooms@[room as int]@,
                count == hall_steps(from_hallway_postion as int, r as int) + p,
                count <= 11 + p,
                1 <= depth,
                forall|q: int| 0 <= q < p ==> (#[trigger] spots0[q]) != amphipod,
                p == depth ==> first_of_kind(spots0, amphipod) == depth as int,
            ensures
                count == hall_steps(from_hallway_postion as int, r as int) + first_of_kind(
                    spots0,
                    amphipod,
                ),
                i == if first_of_kind(spots0, amphipod) == 0 {
                    0int
                } else {
                    first_of_kind(spots0, amphipod) - 1
                },
                i < depth,
                *self == *old(self),
            decreases depth - p,
        {
            if self.rooms[room][p] == amphipod {
                proof {
                    lemma_first_of_kind_scan(spots0, amphipod, 0, p as int);
                }
                break ;
            }
            i = p;
            count = count + 1;
            p = p + 1;
            if p == depth {
                proof {
                    lemma_first_of_kind_scan(spots0, amphipod, 0, depth as int);
                }
            }
        }
        let ghost rooms0 = self.rooms@;
        self.rooms[room][i] = amphipod;
        self.hallway[from_hallway_postion] = '.';
        proof {
            assert(self.rooms@[room as int]@ =~= spots0.update(
                entry_slot(spots0, amphipod),
                amphipod,
            ));
            assert(self.hallway@ =~= hv.update(from_hallway_postion as int, '.'));
            assert(forall|q: int| 0 <= q < 4 && q != room as int ==> (#[trigger] self.rooms@[q])
                == rooms0[q]);
        }
        Some(count)
    }

    /// The hallway spots an amphipod leaving `from_room` from slot
    /// `room_position` can stop at, paired with the step count of each
    /// move: first those to the left of the room, nearest first, then
    /// those to the right.
    pub fn available_hallway_positions(&self, from_room: usize, room_position: usize) -> (r: Vec<
        (usize, usize),
    >)
        requires
            from_room < 4,
            self.hallway@.len() == 11,
            room_position <= 1000,
        ensures
            r@.map_values(|p: (usize, usize)| (p.0 as int, p.1 as int)) == left_stops(
                self.hallway@,
                2 * from_room + 2,
                room_position as int,
                2 * from_room + 1,
            ) + right_stops(
                self.hallway@,
                2 * from_room + 2,
                room_position as int,
                2 * from_room + 3,
            ),
    {
        let ghost hv = self.hallway@;
        let s = self.get_room_hallway_position(from_room);
        let ghost rp = room_position as int;
        let mut available: Vec<(usize, usize)> = Vec::new();
        let mut blocked: bool = false;
        let mut q: usize = s;
        while q > 0
            invariant
                0 <= q <= s,
                s == 2 * from_room + 2,
                from_room < 4,
                hv == self.hallway@,
                hv.len() == 11,
                rp == room_position as int,
                room_position <= 1000,
                !blocked ==> available@.map_values(|p: (usize, usize)| (p.0 as int, p.1 as int))
                    + left_stops(hv, s as int, rp, q as int - 1) == left_stops(
                    hv,
                    s as int,
                    rp,
                    s as int - 1,
                ),
                blocked ==> available@.map_values(|p: (usize, usize)| (p.0 as int, p.1 as int))
                    == left_stops(hv, s as int, rp, s as int - 1),
            decreases q,
        {
            let p = q - 1;
            if !blocked {
                if p == 2 || p == 4 || p == 6 || p == 8 {
                } else if self.hallway[p] != '.' {
                    blocked = true;
                } else {
                    let ghost before = available@.map_values(
                        |t: (usize, usize)| (t.0 as int, t.1 as int),
                    );
                    available.push((p, s - p + room_position + 1));
                    proof {
                        assert(available@.map_values(|t: (usize, usize)| (t.0 as int, t.1 as int))
                            =~= before + seq![(p as int, s - p + rp + 1)]);
                        assert(left_stops(hv, s as int, rp, p as int) == seq![
                            (p as int, s - p + rp + 1),
                        ] + left_stops(hv, s as int, rp, p as int - 1));
                        assert(before + (seq![(p as int, s - p + rp + 1)] + left_stops(
                            hv,
                            s as int,
                            rp,
                            p as int - 1,
                        )) =~= (before + seq![(p as int, s - p + rp + 1)]) + left_stops(
                            hv,
                            s as int,
                            rp,
                            p as int - 1,
                        ));
                    }
                }
            }
            q = p;
        }
        let ghost left_done = available@.map_values(|t: (usize, usize)| (t.0 as int, t.1 as int));
        proof {
            assert(left_stops(hv, s as int, rp, -1) =~= Seq::<(int, int)>::empty());
            assert(left_done + Seq::<(int, int)>::empty() =~= left_done);
            assert(left_done == left_stops(hv, s as int, rp, s as int - 1));
        }
        let mut blocked2: bool = false;
        let mut p: usize = s + 1;
        while p < 11
            invariant
                s + 1 <= p <= 11,
                s == 2 * from_room + 2,
                from_room < 4,
                hv == self.hallway@,
                hv.len() == 11,
                rp == room_position as int,
                room_position <= 1000,
                left_done == left_stops(hv, s as int, rp, s as int - 1),
                !blocked2 ==> available@.map_values(|t: (usize, usize)| (t.0 as int, t.1 as int))
                    + right_stops(hv, s as int, rp, p as int) == left_done + right_stops(
                    hv,
                    s as int,
                    rp,
                    s as int + 1,
                ),
                blocked2 ==> available@.map_values(|t: (usize, usize)| (t.0 as int, t.1 as int))
                    == left_done + right_stops(hv, s as int, rp, s as int + 1),
            decreases 11 - p,
        {
            if !blocked2 {
                if p == 2 || p == 4 || p == 6 || p == 8 {
                } else if self.hallway[p] != '.' {
                    blocked2 = true;
                } else {
                    let ghost before = available@.map_values(
                        |t: (usize, usize)| (t.0 as int, t.1 as int),
                    );
                    available.push((p, p - s + room_position + 1));
                    proof {
                        assert(available@.map_values(|t: (usize, usize)| (t.0 as int, t.1 as int))
                            =~= before + seq![(p as int, p - s + rp + 1)]);
                        assert(right_stops(hv, s as int, rp, p as int) == seq![
                            (p as int, p - s + rp + 1),
                        ] + right_stops(hv, s as int, rp, p as int + 1));
                        assert(before + (seq![(p as int, p - s + rp + 1)] + right_stops(
                            hv,
                            s as int,
                            rp,
                            p as int + 1,
                        )) =~= (before + seq![(p as int, p - s + rp + 1)]) + right_stops(
                            hv,
                            s as int,
                            rp,
                            p as int + 1,
                        ));
                    }
                }
            }
            p = p + 1;
        }
        proof {
            assert(right_stops(hv, s as int, rp, 11) =~= Seq::<(int, int)>::empty());
            if !blocked2 {
                assert(available@.map_values(|t: (usize, usize)| (t.0 as int, t.1 as int))
                    + Seq::<(int, int)>::empty() =~= available@.map_values(
                    |t: (usize, usize)| (t.0 as int, t.1 as int),
                ));
            }
        }
        available
    }

    /// The energy one step costs each kind of amphipod.
    pub fn cost_per_move(amphipod: char) -> (c: usize)
        requires
            amphipod == 'A' || amphipod == 'B' || amphipod == 'C' || amphipod == 'D',
        ensures
            amphipod == 'A' ==> c == 1,
            amphipod == 'B' ==> c == 10,
            amphipod == 'C' ==> c == 100,
            amphipod == 'D' ==> c == 1000,
    {
        match amphipod {
            'A' => 1,
            'B' => 10,
            'C' => 100,
            _ => 1000,
        }
    }
}

} // verus!
