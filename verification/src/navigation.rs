//! Moving the inspected room across the dungeon board with the keyboard:
//! sideways along passages, up and down between floors to the nearest room.

use vstd::prelude::*;
use crate::layout::{entrance_position, first_entrance, has_entrance};
use crate::state::{Floor, GameState, Room};

verus! {

/// A keyboard direction on the dungeon board.
#[derive(Clone, Copy, Debug, PartialEq, Eq, Structural)]
pub enum RoomNavigation {
    Left,
    Right,
    Up,
    Down,
}

/// Floor `a` is listed above floor `b` on the board: by number, ties in
/// dungeon order.
pub open spec fn listed_before(floors: Seq<Floor>, a: int, b: int) -> bool {
    ||| floors[a].number < floors[b].number
    ||| floors[a].number == floors[b].number && a < b
}

/// `f` is the floor listed first.
pub open spec fn is_top_floor(floors: Seq<Floor>, f: int) -> bool {
    &&& 0 <= f < floors.len()
    &&& forall|g: int| 0 <= g < floors.len() && g != f ==> listed_before(floors, f, g)
}

/// `f` is the first floor numbered `n`.
pub open spec fn is_first_numbered(floors: Seq<Floor>, n: i32, f: int) -> bool {
    &&& 0 <= f < floors.len()
    &&& floors[f].number == n
    &&& forall|g: int| 0 <= g < f ==> floors[g].number != n
}

/// `g` is listed right above floor `f`.
pub open spec fn is_listed_just_before(floors: Seq<Floor>, f: int, g: int) -> bool {
    &&& 0 <= g < floors.len()
    &&& listed_before(floors, g, f)
    &&& forall|h: int|
        0 <= h < floors.len() && h != g && listed_before(floors, h, f) ==> listed_before(floors, h, g)
}

/// `g` is listed right below floor `f`.
pub open spec fn is_listed_just_after(floors: Seq<Floor>, f: int, g: int) -> bool {
    &&& 0 <= g < floors.len()
    &&& listed_before(floors, f, g)
    &&& forall|h: int|
        0 <= h < floors.len() && h != g && listed_before(floors, f, h) ==> listed_before(floors, g, h)
}

/// Distance between two positions.
pub open spec fn gap(a: usize, b: usize) -> int {
    if a >= b {
        a - b
    } else {
        b - a
    }
}

/// `i` is the first room of `rooms` nearest to position `p`.
pub open spec fn is_nearest_room(rooms: Seq<Room>, p: usize, i: int) -> bool {
    &&& 0 <= i < rooms.len()
    &&& forall|j: int| 0 <= j < rooms.len() ==> gap(rooms[j].position, p) >= gap(rooms[i].position, p)
    &&& forall|j: int| 0 <= j < i ==> gap(rooms[j].position, p) > gap(rooms[i].position, p)
}

/// `m` is the lowest position among the rooms with an exit to `p`.
pub open spec fn is_lowest_feeder(rooms: Seq<Room>, p: usize, m: usize) -> bool {
    &&& exists|i: int| 0 <= i < rooms.len() && rooms[i].exits@.contains(p) && rooms[i].position == m
    &&& forall|i: int| 0 <= i < rooms.len() && rooms[i].exits@.contains(p) ==> m <= rooms[i].position
}

/// The room selected before a move: the keeper's selection, or else the
/// Entrance of the floor listed first.
pub open spec fn start_of(s: GameState) -> Option<(i32, usize)> {
    match s.selected_room {
        Some(c) => Some(c),
        None => if exists|f: int| is_top_floor(s.floors@, f) {
            let floor = s.floors@[choose|f: int| is_top_floor(s.floors@, f)];
            if has_entrance(floor) {
                Some((floor.number, entrance_position(floor)))
            } else {
                None
            }
        } else {
            None
        },
    }
}

/// The room nearest to position `p` on `floor`, if it has rooms.
pub open spec fn nearest_on(floor: Floor, p: usize) -> Option<(i32, usize)> {
    if exists|i: int| is_nearest_room(floor.rooms@, p, i) {
        Some((floor.number, floor.rooms@[choose|i: int| is_nearest_room(floor.rooms@, p, i)].position))
    } else {
        None
    }
}

/// Where a move in direction `dir` from the room at `p` on floor `f` lands:
/// right along its first exit, left to the lowest room with an exit to it,
/// up or down to the nearest room of the floor listed next.
pub open spec fn step_from(floors: Seq<Floor>, f: int, p: usize, dir: RoomNavigation) -> Option<(i32, usize)> {
    let floor = floors[f];
    match dir {
        RoomNavigation::Right => if floor.room_of(p).exits.len() > 0 {
            Some((floor.number, floor.room_of(p).exits@[0]))
        } else {
            None
        },
        RoomNavigation::Left => if exists|m: usize| is_lowest_feeder(floor.rooms@, p, m) {
            Some((floor.number, choose|m: usize| is_lowest_feeder(floor.rooms@, p, m)))
        } else {
            None
        },
        RoomNavigation::Up => if exists|g: int| is_listed_just_before(floors, f, g) {
            nearest_on(floors[choose|g: int| is_listed_just_before(floors, f, g)], p)
        } else {
            None
        },
        RoomNavigation::Down => if exists|g: int| is_listed_just_after(floors, f, g) {
            nearest_on(floors[choose|g: int| is_listed_just_after(floors, f, g)], p)
        } else {
            None
        },
    }
}

/// The room selected after a move in direction `dir`, if any.
pub open spec fn selection_after(s: GameState, dir: RoomNavigation) -> Option<(i32, usize)> {
    match start_of(s) {
        None => None,
        Some(c) => if exists|f: int| is_first_numbered(s.floors@, c.0, f) {
            let f = choose|f: int| is_first_numbered(s.floors@, c.0, f);
            if s.floors@[f].has_room(c.1) {
                step_from(s.floors@, f, c.1, dir)
            } else {
                None
            }
        } else {
            None
        },
    }
}

fn top_floor(floors: &Vec<Floor>) -> (r: Option<usize>)
    ensures
        r is Some <==> floors@.len() > 0,
        r is Some ==> is_top_floor(floors@, r->0 as int),
{
    if floors.len() == 0 {
        return None;
    }
    let mut best: usize = 0;
    let mut i: usize = 1;
    while i < floors.len()
        invariant
            0 <= best < i <= floors@.len(),
            forall|g: int| 0 <= g < i && g != best ==> listed_before(floors@, best as int, g),
        decreases floors@.len() - i,
    {
        let ghost old_best = best as int;
        if floors[i].number < floors[best].number {
            best = i;
        }
        proof {
            assert forall|g: int| 0 <= g < i + 1 && g != best implies listed_before(floors@, best as int, g) by {
                if g < i && g != old_best {
                    assert(listed_before(floors@, old_best, g));
                }
            }
        }
        i = i + 1;
    }
    Some(best)
}

fn first_numbered(floors: &Vec<Floor>, n: i32) -> (r: Option<usize>)
    ensures
        r is Some <==> exists|f: int| is_first_numbered(floors@, n, f),
        r is Some ==> is_first_numbered(floors@, n, r->0 as int),
{
    let mut i: usize = 0;
    while i < floors.len()
        invariant
            0 <= i <= floors@.len(),
            forall|g: int| 0 <= g < i ==> floors@[g].number != n,
        decreases floors@.len() - i,
    {
        if floors[i].number == n {
            assert(is_first_numbered(floors@, n, i as int));
            return Some(i);
        }
        i = i + 1;
    }
    None
}

fn floor_just_before(floors: &Vec<Floor>, f: usize) -> (r: Option<usize>)
    requires
        f < floors@.len(),
    ensures
        r is Some <==> exists|g: int| 0 <= g < floors@.len() && listed_before(floors@, g, f as int),
        r is Some ==> is_listed_just_before(floors@, f as int, r->0 as int),
{
    let mut best: Option<usize> = None;
    let mut i: usize = 0;
    while i < floors.len()
        invariant
            f < floors@.len(),
            0 <= i <= floors@.len(),
            best is None ==> forall|g: int| 0 <= g < i ==> !listed_before(floors@, g, f as int),
            best is Some ==> {
                let b = best->0 as int;
                &&& 0 <= b < i
                &&& listed_before(floors@, b, f as int)
                &&& forall|h: int|
                    0 <= h < i && h != b && listed_before(floors@, h, f as int) ==> listed_before(floors@, h, b)
            },
        decreases floors@.len() - i,
    {
        let before_f = floors[i].number < floors[f].number || (floors[i].number == floors[f].number && i < f);
        if before_f {
            match best {
                None => {
                    best = Some(i);
                },
                Some(b) => {
                    if floors[b].number < floors[i].number || (floors[b].number == floors[i].number && b < i) {
                        best = Some(i);
                    }
                },
            }
        }
        i = i + 1;
    }
    best
}

fn floor_just_after(floors: &Vec<Floor>, f: usize) -> (r: Option<usize>)
    requires
        f < floors@.len(),
    ensures
        r is Some <==> exists|g: int| 0 <= g < floors@.len() && listed_before(floors@, f as int, g),
        r is Some ==> is_listed_just_after(floors@, f as int, r->0 as int),
{
    let mut best: Option<usize> = None;
    let mut i: usize = 0;
    while i < floors.len()
        invariant
            f < floors@.len(),
            0 <= i <= floors@.len(),
            best is None ==> forall|g: int| 0 <= g < i ==> !listed_before(floors@, f as int, g),
            best is Some ==> {
                let b = best->0 as int;
                &&& 0 <= b < i
                &&& listed_before(floors@, f as int, b)
                &&& forall|h: int|
                    0 <= h < i && h != b && listed_before(floors@, f as int, h) ==> listed_before(floors@, b, h)
            },
        decreases floors@.len() - i,
    {
        let after_f = floors[f].number < floors[i].number || (floors[f].number == floors[i].number && f < i);
        if after_f {
            match best {
                None => {
                    best = Some(i);
                },
                Some(b) => {
                    if floors[i].number < floors[b].number || (floors[i].number == floors[b].number && i < b) {
                        best = Some(i);
                    }
                },
            }
        }
        i = i + 1;
    }
    best
}

fn gap_of(a: usize, b: usize) -> (r: usize)
    ensures
        r == gap(a, b),
{
    if a >= b {
        a - b
    } else {
        b - a
    }
}

fn nearest_room(rooms: &Vec<Room>, p: usize) -> (r: Option<usize>)
    ensures
        r is Some <==> rooms@.len() > 0,
        r is Some ==> is_nearest_room(rooms@, p, r->0 as int),
{
    if rooms.len() == 0 {
        return None;
    }
    let mut best: usize = 0;
    let mut best_gap: usize = gap_of(rooms[0].position, p);
    let mut i: usize = 1;
    while i < rooms.len()
        invariant
            0 <= best < i <= rooms@.len(),
            best_gap == gap(rooms@[best as int].position, p),
            forall|j: int| 0 <= j < i ==> gap(rooms@[j].position, p) >= best_gap,
            forall|j: int| 0 <= j < best ==> gap(rooms@[j].position, p) > best_gap,
        decreases rooms@.len() - i,
    {
        let d = gap_of(rooms[i].position, p);
        if d < best_gap {
            best = i;
            best_gap = d;
        }
        i = i + 1;
    }
    Some(best)
}

fn lowest_feeder(rooms: &Vec<Room>, p: usize) -> (r: Option<usize>)
    ensures
        r is Some <==> exists|i: int| 0 <= i < rooms@.len() && rooms@[i].exits@.contains(p),
        r is Some ==> is_lowest_feeder(rooms@, p, r->0),
{
    let mut best: Option<usize> = None;
    let mut i: usize = 0;
    while i < rooms.len()
        invariant
            0 <= i <= rooms@.len(),
            best is None ==> forall|j: int| 0 <= j < i ==> !rooms@[j].exits@.contains(p),
            best is Some ==> {
                &&& exists|j: int| 0 <= j < i && rooms@[j].exits@.contains(p) && rooms@[j].position == best->0
                &&& forall|j: int| 0 <= j < i && rooms@[j].exits@.contains(p) ==> best->0 <= rooms@[j].position
            },
        decreases rooms@.len() - i,
    {
        let mut feeds = false;
        let mut k: usize = 0;
        while k < rooms[i].exits.len()
            invariant
                0 <= i < rooms@.len(),
                0 <= k <= rooms@[i as int].exits@.len(),
                feeds == exists|q: int| 0 <= q < k && rooms@[i as int].exits@[q] == p,
            decreases rooms@[i as int].exits@.len() - k,
        {
            if rooms[i].exits[k] == p {
                feeds = true;
            }
            k = k + 1;
        }
        if feeds {
            match best {
                None => {
                    best = Some(rooms[i].position);
                },
                Some(m) => {
                    if rooms[i].position < m {
                        best = Some(rooms[i].position);
                    }
                },
            }
        }
        i = i + 1;
    }
    best
}

/// Pick the next inspectable room for a keyboard move. Sideways moves follow
/// passages (right along the first exit, left to the lowest room leading in);
/// up and down go to the floor listed next (floors listed by number) and keep
/// the nearest room. Without a selection the move starts from the Entrance
/// of the floor listed first.
pub fn keyboard_room_selection(state: &GameState, direction: RoomNavigation) -> (r: Option<(i32, usize)>)
    ensures
        r == selection_after(*state, direction),
{
    let floors = &state.floors;
    let current: (i32, usize) = match state.selected_room {
        Some(c) => c,
        None => {
            let f0 = match top_floor(floors) {
                None => {
                    return None;
                },
                Some(f0) => f0,
            };
            proof {
                let c = choose|f: int| is_top_floor(floors@, f);
                assert(is_top_floor(floors@, c));
                if c != f0 {
                    assert(listed_before(floors@, f0 as int, c));
                    assert(listed_before(floors@, c, f0 as int));
                }
            }
            match first_entrance(&floors[f0]) {
                None => {
                    return None;
                },
                Some(ei) => (floors[f0].number, floors[f0].rooms[ei].position),
            }
        },
    };
    assert(start_of(*state) == Some(current));
    let f = match first_numbered(floors, current.0) {
        None => {
            return None;
        },
        Some(f) => f,
    };
    proof {
        let c = choose|g: int| is_first_numbered(floors@, current.0, g);
        assert(is_first_numbered(floors@, current.0, c));
        if c < f {
            assert(floors@[c].number != current.0);
        }
        if f < c {
            assert(floors@[f as int].number != current.0);
        }
    }
    let room = match floors[f].room_at(current.1) {
        None => {
            return None;
        },
        Some(room) => room,
    };
    match direction {
        RoomNavigation::Right => {
            if room.exits.len() > 0 {
                Some((floors[f].number, room.exits[0]))
            } else {
                None
            }
        },
        RoomNavigation::Left => {
            match lowest_feeder(&floors[f].rooms, current.1) {
                None => {
                    proof {
                        assert forall|m: usize| !is_lowest_feeder(floors@[f as int].rooms@, current.1, m) by {}
                    }
                    None
                },
                Some(m) => {
                    proof {
                        let c = choose|x: usize| is_lowest_feeder(floors@[f as int].rooms@, current.1, x);
                        assert(is_lowest_feeder(floors@[f as int].rooms@, current.1, c));
                        let i = choose|i: int|
                            0 <= i < floors@[f as int].rooms@.len() && floors@[f as int].rooms@[i].exits@.contains(current.1)
                                && floors@[f as int].rooms@[i].position == c;
                        let j = choose|j: int|
                            0 <= j < floors@[f as int].rooms@.len() && floors@[f as int].rooms@[j].exits@.contains(current.1)
                                && floors@[f as int].rooms@[j].position == m;
                        assert(m <= floors@[f as int].rooms@[i].position);
                        assert(c <= floors@[f as int].rooms@[j].position);
                    }
                    Some((floors[f].number, m))
                },
            }
        },
        RoomNavigation::Up => {
            match floor_just_before(floors, f) {
                None => None,
                Some(g) => {
                    proof {
                        let c = choose|h: int| is_listed_just_before(floors@, f as int, h);
                        assert(is_listed_just_before(floors@, f as int, c));
                        if c != g {
                            assert(listed_before(floors@, c as int, g as int));
                            assert(listed_before(floors@, g as int, c as int));
                        }
                    }
                    nearest_selection(&floors[g], current.1)
                },
            }
        },
        RoomNavigation::Down => {
            match floor_just_after(floors, f) {
                None => None,
                Some(g) => {
                    proof {
                        let c = choose|h: int| is_listed_just_after(floors@, f as int, h);
                        assert(is_listed_just_after(floors@, f as int, c));
                        if c != g {
                            assert(listed_before(floors@, c as int, g as int));
                            assert(listed_before(floors@, g as int, c as int));
                        }
                    }
                    nearest_selection(&floors[g], current.1)
                },
            }
        },
    }
}

fn nearest_selection(floor: &Floor, p: usize) -> (r: Option<(i32, usize)>)
    ensures
        r == nearest_on(*floor, p),
{
    match nearest_room(&floor.rooms, p) {
        None => None,
        Some(i) => {
            proof {
                let c = choose|k: int| is_nearest_room(floor.rooms@, p, k);
                assert(is_nearest_room(floor.rooms@, p, c));
                if c < i {
                    assert(gap(floor.rooms@[c].position, p) > gap(floor.rooms@[i as int].position, p));
                }
                if i < c {
                    assert(gap(floor.rooms@[i as int].position, p) > gap(floor.rooms@[c].position, p));
                }
            }
            Some((floor.number, floor.rooms[i].position))
        },
    }
}

} // verus!
