//! Building the dungeon: new rooms, parallel branches and new floors, each
//! keeping every floor's room graph routed from Entrance to Core.

use vstd::prelude::*;
use crate::rules::{get_room_cost, room_cost, MAX_ROOMS_PER_FLOOR, ROOM_LIMIT};
use crate::state::{lemma_first_floor_unique, DungeonError, Floor, GameState, LogEntry, Room, RoomBattleOrder, RoomType};

verus! {

/// How many rooms of these are not the Core.
pub open spec fn non_core_count(rooms: Seq<Room>) -> int
    decreases rooms.len(),
{
    if rooms.len() == 0 {
        0
    } else {
        non_core_count(rooms.drop_last()) + if rooms.last().room_type != RoomType::Core {
            1int
        } else {
            0int
        }
    }
}

/// The highest position any of these rooms stands at (0 for none).
pub open spec fn max_position(rooms: Seq<Room>) -> int
    decreases rooms.len(),
{
    if rooms.len() == 0 {
        0
    } else {
        let m = max_position(rooms.drop_last());
        if rooms.last().position > m {
            rooms.last().position as int
        } else {
            m
        }
    }
}

/// Every exit of every room names a room of the floor.
pub open spec fn graph_valid(floor: Floor) -> bool {
    forall|i: int, k: int|
        0 <= i < floor.rooms.len() && 0 <= k < floor.rooms[i].exits.len() ==> floor.has_room(
            #[trigger] floor.rooms[i].exits@[k],
        )
}

/// The single exit a room of a linear floor has: the next room in order, or
/// none for the last.
pub open spec fn linear_exits(rooms: Seq<Room>, i: int) -> Seq<usize> {
    if i + 1 < rooms.len() {
        seq![rooms[i + 1].position]
    } else {
        Seq::empty()
    }
}

/// Positions of rooms never reach the top of the address range.
pub open spec fn positions_bounded(floors: Seq<Floor>) -> bool {
    forall|f: int, i: int|
        0 <= f < floors.len() && 0 <= i < floors[f].rooms.len() ==> #[trigger] floors[f].rooms[i].position
            < usize::MAX
}

proof fn lemma_max_position_bounds(rooms: Seq<Room>)
    ensures
        max_position(rooms) >= 0,
        forall|i: int| 0 <= i < rooms.len() ==> #[trigger] rooms[i].position <= max_position(rooms),
        rooms.len() > 0 ==> exists|i: int|
            0 <= i < rooms.len() && rooms[i].position == max_position(rooms),
    decreases rooms.len(),
{
    if rooms.len() > 0 {
        lemma_max_position_bounds(rooms.drop_last());
        assert forall|i: int| 0 <= i < rooms.len() implies #[trigger] rooms[i].position
            <= max_position(rooms) by {
            if i < rooms.len() - 1 {
                assert(rooms.drop_last()[i] == rooms[i]);
            }
        }
        if rooms.len() > 1 && rooms.last().position <= max_position(rooms.drop_last()) {
            let i = choose|i: int|
                0 <= i < rooms.drop_last().len() && rooms.drop_last()[i].position == max_position(
                    rooms.drop_last(),
                );
            assert(rooms[i] == rooms.drop_last()[i]);
        }
    }
}

impl Floor {
    /// How many of this floor's rooms are not the Core.
    pub fn count_non_core(&self) -> (r: usize)
        ensures
            r == non_core_count(self.rooms@),
    {
        let mut n: usize = 0;
        let mut i: usize = 0;
        while i < self.rooms.len()
            invariant
                0 <= i <= self.rooms.len(),
                n == non_core_count(self.rooms@.subrange(0, i as int)),
                n <= i,
            decreases self.rooms.len() - i,
        {
            proof {
                assert(self.rooms@.subrange(0, i + 1).drop_last() =~= self.rooms@.subrange(
                    0,
                    i as int,
                ));
            }
            if self.rooms[i].room_type != RoomType::Core {
                n = n + 1;
            }
            i = i + 1;
        }
        proof {
            assert(self.rooms@.subrange(0, i as int) =~= self.rooms@);
        }
        n
    }

    /// The highest position any room of this floor stands at (0 for none).
    pub fn max_room_position(&self) -> (r: usize)
        ensures
            r == max_position(self.rooms@),
    {
        let mut m: usize = 0;
        let mut i: usize = 0;
        while i < self.rooms.len()
            invariant
                0 <= i <= self.rooms.len(),
                m == max_position(self.rooms@.subrange(0, i as int)),
            decreases self.rooms.len() - i,
        {
            proof {
                assert(self.rooms@.subrange(0, i + 1).drop_last() =~= self.rooms@.subrange(
                    0,
                    i as int,
                ));
            }
            if self.rooms[i].position > m {
                m = self.rooms[i].position;
            }
            i = i + 1;
        }
        proof {
            assert(self.rooms@.subrange(0, i as int) =~= self.rooms@);
        }
        m
    }

    /// Does any room of this floor fork into more than one route?
    pub fn has_fork(&self) -> (r: bool)
        ensures
            r == exists|i: int| 0 <= i < self.rooms.len() && self.rooms[i].exits.len() > 1,
    {
        let mut i: usize = 0;
        while i < self.rooms.len()
            invariant
                0 <= i <= self.rooms.len(),
                forall|j: int| 0 <= j < i ==> self.rooms[j].exits.len() <= 1,
            decreases self.rooms.len() - i,
        {
            if self.rooms[i].exits.len() > 1 {
                return true;
            }
            i = i + 1;
        }
        false
    }

    /// Index of this floor's first Core room, if any.
    pub fn core_index(&self) -> (r: Option<usize>)
        ensures
            r is Some <==> exists|i: int|
                0 <= i < self.rooms.len() && self.rooms[i].room_type == RoomType::Core,
            r is Some ==> self.is_first_core(r->0 as int),
    {
        let mut i: usize = 0;
        while i < self.rooms.len()
            invariant
                0 <= i <= self.rooms.len(),
                forall|j: int| 0 <= j < i ==> self.rooms[j].room_type != RoomType::Core,
            decreases self.rooms.len() - i,
        {
            if self.rooms[i].room_type == RoomType::Core {
                return Some(i);
            }
            i = i + 1;
        }
        None
    }

    /// `i` is the first Core room of this floor.
    pub open spec fn is_first_core(self, i: int) -> bool {
        &&& 0 <= i < self.rooms.len()
        &&& self.rooms[i].room_type == RoomType::Core
        &&& forall|j: int| 0 <= j < i ==> self.rooms[j].room_type != RoomType::Core
    }

    /// Check that every exit names a room of this floor.
    pub fn validate_graph(&self) -> (r: Result<(), DungeonError>)
        ensures
            r is Ok <==> graph_valid(*self),
            r is Err ==> r == Err::<(), DungeonError>(DungeonError::BrokenRoute),
    {
        let mut i: usize = 0;
        while i < self.rooms.len()
            invariant
                0 <= i <= self.rooms.len(),
                forall|a: int, k: int|
                    0 <= a < i && 0 <= k < self.rooms[a].exits.len() ==> self.has_room(
                        #[trigger] self.rooms[a].exits@[k],
                    ),
            decreases self.rooms.len() - i,
        {
            let mut k: usize = 0;
            while k < self.rooms[i].exits.len()
                invariant
                    0 <= i < self.rooms.len(),
                    0 <= k <= self.rooms[i as int].exits.len(),
                    forall|a: int, kk: int|
                        0 <= a < i && 0 <= kk < self.rooms[a].exits.len() ==> self.has_room(
                            #[trigger] self.rooms[a].exits@[kk],
                        ),
                    forall|kk: int|
                        0 <= kk < k ==> self.has_room(#[trigger] self.rooms[i as int].exits@[kk]),
                decreases self.rooms[i as int].exits.len() - k,
            {
                if self.room_idx(self.rooms[i].exits[k]).is_none() {
                    return Err(DungeonError::BrokenRoute);
                }
                k = k + 1;
            }
            i = i + 1;
        }
        Ok(())
    }

    /// Re-link the floor as a single corridor: each room leads to the next
    /// one in order and the last leads nowhere.
    pub fn rebuild_linear_exits(&mut self)
        ensures
            final(self).id == old(self).id,
            final(self).number == old(self).number,
            final(self).is_deepest == old(self).is_deepest,
            final(self).rooms.len() == old(self).rooms.len(),
            forall|i: int|
                0 <= i < final(self).rooms.len() ==> #[trigger] final(self).rooms[i].same_but_exits(
                    old(self).rooms[i],
                ),
            forall|i: int|
                0 <= i < final(self).rooms.len() ==> #[trigger] final(self).rooms[i].exits@
                    == linear_exits(old(self).rooms@, i),
    {
        let n = self.rooms.len();
        let mut i: usize = 0;
        while i < n
            invariant
                0 <= i <= n,
                n == self.rooms.len(),
                n == old(self).rooms.len(),
                self.id == old(self).id,
                self.number == old(self).number,
                self.is_deepest == old(self).is_deepest,
                forall|j: int|
                    0 <= j < n ==> #[trigger] self.rooms[j].same_but_exits(old(self).rooms[j]),
                forall|j: int|
                    0 <= j < i ==> #[trigger] self.rooms[j].exits@ == linear_exits(
                        old(self).rooms@,
                        j,
                    ),
                forall|j: int| i <= j < n ==> #[trigger] self.rooms[j] == old(self).rooms[j],
            decreases n - i,
        {
            let mut exits: Vec<usize> = Vec::new();
            if i + 1 < n {
                exits.push(self.rooms[i + 1].position);
            }
            proof {
                assert(exits@ =~= linear_exits(old(self).rooms@, i as int));
            }
            self.rooms[i].exits = exits;
            i = i + 1;
        }
    }
}

/// Some room of these stands at `e`.
pub open spec fn position_in(rooms: Seq<Room>, e: usize) -> bool {
    exists|j: int| 0 <= j < rooms.len() && rooms[j].position == e
}

/// These rooms without their Core rooms, in order.
pub open spec fn non_core_rooms(rooms: Seq<Room>) -> Seq<Room>
    decreases rooms.len(),
{
    if rooms.len() == 0 {
        Seq::empty()
    } else if rooms.last().room_type != RoomType::Core {
        non_core_rooms(rooms.drop_last()).push(rooms.last())
    } else {
        non_core_rooms(rooms.drop_last())
    }
}

/// The exits, in order, that still name one of `rooms`.
pub open spec fn live_exits(exits: Seq<usize>, rooms: Seq<Room>) -> Seq<usize>
    decreases exits.len(),
{
    if exits.len() == 0 {
        Seq::empty()
    } else if position_in(rooms, exits.last()) {
        live_exits(exits.drop_last(), rooms).push(exits.last())
    } else {
        live_exits(exits.drop_last(), rooms)
    }
}

/// A floor that has given up its Core: the other rooms stay in order, and
/// every exit that named a vanished room is dropped, so the last room of each
/// route becomes a sink.
pub open spec fn stripped_floor(before: Floor, after: Floor) -> bool {
    let kept = non_core_rooms(before.rooms@);
    &&& after.id == before.id
    &&& after.number == before.number
    &&& after.rooms.len() == kept.len()
    &&& forall|i: int|
        0 <= i < kept.len() ==> #[trigger] after.rooms[i].same_but_exits(kept[i])
            && after.rooms[i].exits@ == live_exits(kept[i].exits@, kept)
}

/// The floor `create_new_floor` digs: Entrance, one ordinary room and the
/// Core, in a line, with consecutive identities starting at `id`.
pub open spec fn fresh_floor(floor: Floor, id: u64, number: i32) -> bool {
    &&& floor.id == id
    &&& floor.number == number
    &&& floor.is_deepest
    &&& floor.rooms.len() == 3
    &&& floor.rooms[0].is_fresh((id + 1) as u64, RoomType::Entrance, 0, number)
    &&& floor.rooms[1].is_fresh((id + 2) as u64, RoomType::Normal, 1, number)
    &&& floor.rooms[2].is_fresh((id + 3) as u64, RoomType::Core, 2, number)
    &&& floor.rooms[0].exits@ == seq![1usize]
    &&& floor.rooms[1].exits@ == seq![2usize]
    &&& floor.rooms[2].exits@ == Seq::<usize>::empty()
}

impl Floor {
    /// Remove the Core rooms and every exit that led to a room no longer here.
    pub fn strip_core(&mut self)
        ensures
            stripped_floor(*old(self), *final(self)),
            final(self).is_deepest == old(self).is_deepest,
    {
        let ghost orig = self.rooms@;
        let mut pending: Vec<Room> = Vec::new();
        std::mem::swap(&mut pending, &mut self.rooms);
        let mut kept: Vec<Room> = Vec::new();
        let ghost n = orig.len();
        while pending.len() > 0
            invariant
                pending@.len() <= n,
                n == orig.len(),
                pending@ == orig.subrange(n - pending@.len(), n as int),
                kept@ == non_core_rooms(orig.subrange(0, n - pending@.len())),
            decreases pending.len(),
        {
            let ghost t = n - pending@.len();
            let room = pending.remove(0);
            proof {
                assert(orig.subrange(0, t + 1).drop_last() =~= orig.subrange(0, t));
                assert(orig.subrange(0, t + 1).last() == orig[t]);
                assert(pending@ =~= orig.subrange(n - pending@.len(), n as int));
            }
            if room.room_type != RoomType::Core {
                kept.push(room);
            }
        }
        proof {
            assert(orig.subrange(0, n as int) =~= orig);
        }
        let ghost kept_all = kept@;
        let mut i: usize = 0;
        while i < kept.len()
            invariant
                0 <= i <= kept.len(),
                kept_all == non_core_rooms(orig),
                kept@.len() == kept_all.len(),
                forall|j: int| 0 <= j < kept@.len() ==> #[trigger] kept@[j].same_but_exits(kept_all[j]),
                forall|j: int| 0 <= j < kept@.len() ==> #[trigger] kept@[j].position == kept_all[j].position,
                forall|j: int| i <= j < kept@.len() ==> #[trigger] kept@[j] == kept_all[j],
                forall|j: int|
                    0 <= j < i ==> #[trigger] kept@[j].exits@ == live_exits(kept_all[j].exits@, kept_all),
            decreases kept.len() - i,
        {
            let mut live: Vec<usize> = Vec::new();
            let mut k: usize = 0;
            while k < kept[i].exits.len()
                invariant
                    0 <= i < kept.len(),
                    kept@[i as int] == kept_all[i as int],
                    kept@.len() == kept_all.len(),
                    forall|j: int| 0 <= j < kept@.len() ==> #[trigger] kept@[j].position == kept_all[j].position,
                    0 <= k <= kept[i as int].exits.len(),
                    live@ == live_exits(kept_all[i as int].exits@.subrange(0, k as int), kept_all),
                decreases kept[i as int].exits.len() - k,
            {
                let e = kept[i].exits[k];
                let mut found = false;
                let mut j: usize = 0;
                while j < kept.len()
                    invariant
                        0 <= j <= kept.len(),
                        kept@.len() == kept_all.len(),
                        forall|jj: int| 0 <= jj < kept@.len() ==> #[trigger] kept@[jj].position == kept_all[jj].position,
                        found == exists|jj: int| 0 <= jj < j && kept_all[jj].position == e,
                    decreases kept.len() - j,
                {
                    if kept[j].position == e {
                        found = true;
                    }
                    j = j + 1;
                }
                proof {
                    let ex = kept_all[i as int].exits@;
                    assert(ex.subrange(0, k + 1).drop_last() =~= ex.subrange(0, k as int));
                    assert(ex.subrange(0, k + 1).last() == e);
                    assert(found == position_in(kept_all, e));
                }
                if found {
                    live.push(e);
                }
                k = k + 1;
            }
            proof {
                let ex = kept_all[i as int].exits@;
                assert(ex.subrange(0, ex.len() as int) =~= ex);
            }
            kept[i].exits = live;
            i = i + 1;
        }
        self.rooms = kept;
    }
}

/// Dig a new deepest floor below the current one. The Core moves down with it.
fn create_new_floor(state: &mut GameState) -> (r: Result<(), DungeonError>)
    requires
        old(state).room_total() <= ROOM_LIMIT,
        old(state).next_id <= u64::MAX - 4,
        old(state).total_floors < i32::MAX,
        old(state).max_mana <= i32::MAX - 50,
    ensures
        ({
            let cost = room_cost(old(state).room_total(), false) as i32;
            if old(state).mana < cost {
                r == Err::<(), DungeonError>(DungeonError::NotEnoughMana { need: cost })
                    && *final(state) == *old(state)
            } else {
                new_floor_dug(*old(state), *final(state), cost) && r is Ok
            }
        }),
{
    let total = state.total_room_count();
    let cost = get_room_cost(total, false);
    if state.mana < cost {
        return Err(DungeonError::NotEnoughMana { need: cost });
    }
    proof {
        crate::state::lemma_rooms_in_nonneg(state.floors@);
    }
    state.mana = state.mana - cost;
    let new_floor_num = state.total_floors + 1;
    let ghost before = state.floors@;
    let ghost pre = *state;
    let mut i: usize = 0;
    while i < state.floors.len()
        invariant
            0 <= i <= state.floors.len(),
            *state == (GameState { floors: state.floors, ..pre }),
            state.floors.len() == before.len(),
            forall|j: int|
                0 <= j < i ==> if before[j].is_deepest {
                    stripped_floor(before[j], #[trigger] state.floors[j]) && !state.floors[j].is_deepest
                } else {
                    state.floors[j] == before[j]
                },
            forall|j: int| i <= j < before.len() ==> #[trigger] state.floors[j] == before[j],
        decreases state.floors.len() - i,
    {
        if state.floors[i].is_deepest {
            state.floors[i].is_deepest = false;
            state.floors[i].strip_core();
        }
        i = i + 1;
    }
    let id = state.next_id;
    state.next_id = state.next_id + 4;
    let mut floor = Floor::new(id, new_floor_num, true);
    floor.rooms.push(Room::new(id + 1, RoomType::Entrance, 0, new_floor_num));
    floor.rooms.push(Room::new(id + 2, RoomType::Normal, 1, new_floor_num));
    floor.rooms.push(Room::new(id + 3, RoomType::Core, 2, new_floor_num));
    let ghost laid = floor.rooms@;
    assert(laid.len() == 3 && laid[1].position == 1 && laid[2].position == 2);
    floor.rebuild_linear_exits();
    assert(floor.rooms[0].same_but_exits(laid[0]));
    assert(floor.rooms[1].same_but_exits(laid[1]));
    assert(floor.rooms[2].same_but_exits(laid[2]));
    assert(linear_exits(laid, 0) =~= seq![1usize]);
    assert(linear_exits(laid, 1) =~= seq![2usize]);
    assert(linear_exits(laid, 2) =~= Seq::<usize>::empty());
    proof {
        assert(floor.rooms@[0].exits@ =~= seq![1usize]);
        assert(floor.rooms@[1].exits@ =~= seq![2usize]);
        assert(floor.rooms@[2].exits@ =~= Seq::<usize>::empty());
    }
    state.floors.push(floor);
    state.total_floors = state.total_floors + 1;
    state.max_mana = state.max_mana + 50;
    state.log.push(
        LogEntry::FloorCreated { floor: new_floor_num, cost, max_mana: state.max_mana },
    );
    proof {
        let n = before.len();
        assert(state.floors.len() == n + 1);
        assert(fresh_floor(state.floors[n as int], pre.next_id, new_floor_num));
        assert forall|j: int| 0 <= j < n implies if before[j].is_deepest {
            stripped_floor(before[j], #[trigger] state.floors[j]) && !state.floors[j].is_deepest
        } else {
            state.floors[j] == before[j]
        } by {
            assert(state.floors[j] == state.floors@.drop_last()[j]);
        }
    }
    Ok(())
}

/// What digging a new floor for `cost` mana does to the dungeon: every floor
/// marked deepest gives up its Core and the mark, a fresh deepest floor joins
/// below them all, and the core widens by fifty mana.
pub open spec fn new_floor_dug(before: GameState, after: GameState, cost: i32) -> bool {
    let n = before.floors.len();
    let number = (before.total_floors + 1) as i32;
    &&& after.floors.len() == n + 1
    &&& forall|j: int|
        0 <= j < n ==> if before.floors[j].is_deepest {
            stripped_floor(before.floors[j], #[trigger] after.floors[j])
                && !after.floors[j].is_deepest
        } else {
            after.floors[j] == before.floors[j]
        }
    &&& fresh_floor(after.floors[n as int], before.next_id, number)
    &&& after.log@ == before.log@.push(
        LogEntry::FloorCreated { floor: number, cost, max_mana: (before.max_mana + 50) as i32 },
    )
    &&& after == (GameState {
        mana: (before.mana - cost) as i32,
        total_floors: number,
        max_mana: (before.max_mana + 50) as i32,
        next_id: (before.next_id + 4) as u64,
        floors: after.floors,
        log: after.log,
        ..before
    })
}

proof fn lemma_non_core_count_bound(rooms: Seq<Room>)
    ensures
        0 <= non_core_count(rooms) <= rooms.len(),
    decreases rooms.len(),
{
    if rooms.len() > 0 {
        lemma_non_core_count_bound(rooms.drop_last());
    }
}

proof fn lemma_floor_rooms_bound(floors: Seq<crate::state::Floor>, fi: int)
    requires
        0 <= fi < floors.len(),
    ensures
        floors[fi].rooms.len() <= crate::state::rooms_in(floors),
    decreases floors.len(),
{
    crate::state::lemma_rooms_in_nonneg(floors.drop_last());
    if fi < floors.len() - 1 {
        lemma_floor_rooms_bound(floors.drop_last(), fi);
        assert(floors.drop_last()[fi] == floors[fi]);
    }
}

/// Exits with every route into `from` turned toward `to`.
pub open spec fn redirect(exits: Seq<usize>, from: usize, to: usize) -> Seq<usize> {
    exits.map_values(|e: usize| redirect_one(e, from, to))
}

/// The floor `add_room` leaves behind after building a room of `room_type`
/// with identity `id`, where `before` held `nc` rooms besides the Core.
///
/// On a branched floor the newcomer stands past every other room just before
/// the Core, and every route into the Core now runs through it. On a linear
/// floor the newcomer takes the Core's place in line (the Core moving one step
/// on) or, with no Core, joins the end; the floor is then re-linked as a
/// corridor in order.
pub open spec fn room_added_floor(
    before: Floor,
    after: Floor,
    id: u64,
    room_type: RoomType,
    nc: int,
) -> bool {
    let n = before.rooms.len();
    let forked = exists|i: int| 0 <= i < n && before.rooms[i].exits.len() > 1;
    let has_core = exists|i: int| 0 <= i < n && before.rooms[i].room_type == RoomType::Core;
    let c = choose|i: int| before.is_first_core(i);
    &&& after.id == before.id
    &&& after.number == before.number
    &&& after.is_deepest == before.is_deepest
    &&& after.rooms.len() == n + 1
    &&& if forked {
        let core_pos = before.rooms[c].position;
        let new_pos = (max_position(before.rooms@) + 1) as usize;
        &&& forall|k: int|
            0 <= k < n ==> #[trigger] after.rooms[k].same_but_exits(before.rooms[k])
                && after.rooms[k].exits@ == redirect(before.rooms[k].exits@, core_pos, new_pos)
        &&& after.rooms[n as int].is_fresh(id, room_type, new_pos, before.number)
        &&& after.rooms[n as int].exits@ == seq![core_pos]
    } else {
        &&& forall|k: int|
            0 <= k < n + 1 ==> #[trigger] after.rooms[k].exits@ == linear_exits(after.rooms@, k)
        &&& if has_core {
            &&& forall|k: int|
                0 <= k < c ==> #[trigger] after.rooms[k].same_but_exits(before.rooms[k])
            &&& after.rooms[c].is_fresh(id, room_type, nc as usize, before.number)
            &&& after.rooms[c + 1].same_contents(before.rooms[c])
            &&& after.rooms[c + 1].position == nc + 1
            &&& forall|k: int|
                c + 1 < k < n + 1 ==> #[trigger] after.rooms[k].same_but_exits(before.rooms[k - 1])
        } else {
            &&& forall|k: int|
                0 <= k < n ==> #[trigger] after.rooms[k].same_but_exits(before.rooms[k])
            &&& after.rooms[n as int].is_fresh(id, room_type, nc as usize, before.number)
        }
    }
}

impl Floor {
    /// Seat `new_room` on a branched floor just before its first Core (index
    /// `c`): every route into the Core now runs through the newcomer.
    pub fn splice_before_core(&mut self, new_room: Room, c: usize)
        requires
            old(self).is_first_core(c as int),
            new_room.exits@.len() == 0,
        ensures
            final(self).id == old(self).id,
            final(self).number == old(self).number,
            final(self).is_deepest == old(self).is_deepest,
            final(self).rooms.len() == old(self).rooms.len() + 1,
            forall|k: int|
                0 <= k < old(self).rooms.len() ==> #[trigger] final(self).rooms[k].same_but_exits(
                    old(self).rooms[k],
                ) && final(self).rooms[k].exits@ == redirect(
                    old(self).rooms[k].exits@,
                    old(self).rooms[c as int].position,
                    new_room.position,
                ),
            final(self).rooms@.last().same_but_exits(new_room),
            final(self).rooms@.last().exits@ == seq![old(self).rooms[c as int].position],
    {
        let core_pos = self.rooms[c].position;
        let to = new_room.position;
        let ghost before = self.rooms@;
        let n = self.rooms.len();
        let mut k: usize = 0;
        while k < n
            invariant
                0 <= k <= n,
                n == self.rooms.len(),
                n == before.len(),
                self.id == old(self).id,
                self.number == old(self).number,
                self.is_deepest == old(self).is_deepest,
                forall|j: int| 0 <= j < n ==> #[trigger] self.rooms[j].same_but_exits(before[j]),
                forall|j: int|
                    0 <= j < k ==> #[trigger] self.rooms[j].exits@ == redirect(
                        before[j].exits@,
                        core_pos,
                        to,
                    ),
                forall|j: int| k <= j < n ==> #[trigger] self.rooms[j] == before[j],
            decreases n - k,
        {
            let m = self.rooms[k].exits.len();
            let ghost start = self.rooms[k as int].exits@;
            let mut j: usize = 0;
            while j < m
                invariant
                    0 <= j <= m,
                    k < n,
                    n == self.rooms.len(),
                    n == before.len(),
                    m == start.len(),
                    m == self.rooms[k as int].exits.len(),
                    start == before[k as int].exits@,
                    self.id == old(self).id,
                    self.number == old(self).number,
                    self.is_deepest == old(self).is_deepest,
                    forall|jj: int| 0 <= jj < n ==> #[trigger] self.rooms[jj].same_but_exits(before[jj]),
                    forall|jj: int|
                        0 <= jj < k ==> #[trigger] self.rooms[jj].exits@ == redirect(
                            before[jj].exits@,
                            core_pos,
                            to,
                        ),
                    forall|jj: int| k < jj < n ==> #[trigger] self.rooms[jj] == before[jj],
                    forall|t: int|
                        0 <= t < j ==> #[trigger] self.rooms[k as int].exits@[t] == redirect_one(
                            start[t],
                            core_pos,
                            to,
                        ),
                    forall|t: int| j <= t < m ==> #[trigger] self.rooms[k as int].exits@[t] == start[t],
                decreases m - j,
            {
                let ghost prev = self.rooms@;
                if self.rooms[k].exits[j] == core_pos {
                    self.rooms[k].exits.set(j, to);
                }
                proof {
                    assert forall|jj: int| 0 <= jj < n implies #[trigger] self.rooms[jj].same_but_exits(
                        before[jj],
                    ) by {
                        assert(prev[jj].same_but_exits(before[jj]));
                        if jj != k {
                            assert(self.rooms[jj] == prev[jj]);
                        }
                    }
                }
                j = j + 1;
            }
            proof {
                assert(self.rooms[k as int].exits@ =~= redirect(start, core_pos, to));
            }
            k = k + 1;
        }
        let mut room = new_room;
        let mut only_core: Vec<usize> = Vec::new();
        only_core.push(core_pos);
        room.exits = only_core;
        self.rooms.push(room);
        proof {
            assert forall|k: int| 0 <= k < n implies #[trigger] self.rooms[k].same_but_exits(before[k])
                && self.rooms[k].exits@ == redirect(before[k].exits@, core_pos, to) by {
                assert(self.rooms[k] == self.rooms@.drop_last()[k]);
            }
        }
    }

    /// Seat `new_room` on a linear floor in the Core's place in line (the Core
    /// moving on one position) or, with no Core, at the end; then re-link the
    /// floor as a corridor.
    pub fn insert_in_line(&mut self, new_room: Room)
        requires
            old(self).rooms.len() < usize::MAX,
            non_core_count(old(self).rooms@) < usize::MAX,
            new_room.position == non_core_count(old(self).rooms@),
        ensures
            final(self).id == old(self).id,
            final(self).number == old(self).number,
            final(self).is_deepest == old(self).is_deepest,
            final(self).rooms.len() == old(self).rooms.len() + 1,
            forall|k: int|
                0 <= k < final(self).rooms.len() ==> #[trigger] final(self).rooms[k].exits@
                    == linear_exits(final(self).rooms@, k),
            ({
                let n = old(self).rooms.len();
                let nc = non_core_count(old(self).rooms@);
                if exists|i: int| 0 <= i < n && old(self).rooms[i].room_type == RoomType::Core {
                    let c = choose|i: int| old(self).is_first_core(i);
                    &&& forall|k: int|
                        0 <= k < c ==> #[trigger] final(self).rooms[k].same_but_exits(old(self).rooms[k])
                    &&& final(self).rooms[c].same_but_exits(new_room)
                    &&& final(self).rooms[c + 1].same_contents(old(self).rooms[c])
                    &&& final(self).rooms[c + 1].position == nc + 1
                    &&& forall|k: int|
                        c + 1 < k < n + 1 ==> #[trigger] final(self).rooms[k].same_but_exits(
                            old(self).rooms[k - 1],
                        )
                } else {
                    &&& forall|k: int|
                        0 <= k < n ==> #[trigger] final(self).rooms[k].same_but_exits(old(self).rooms[k])
                    &&& final(self).rooms[n as int].same_but_exits(new_room)
                }
            }),
    {
        let nc = new_room.position;
        let ghost before = self.rooms@;
        let ghost nr = new_room;
        let ghost mut cidx: int = -1;
        match self.core_index() {
            Some(c) => {
                proof {
                    let k = choose|i: int| self.is_first_core(i);
                    assert(self.is_first_core(c as int));
                    if k < c {
                        assert(self.rooms[k].room_type != RoomType::Core);
                    }
                    if k > c {
                        assert(self.rooms[c as int].room_type != RoomType::Core);
                    }
                    cidx = c as int;
                }
                self.rooms.insert(c, new_room);
                self.rooms[c + 1].position = nc + 1;
            },
            None => {
                self.rooms.push(new_room);
            },
        }
        let ghost laid = self.rooms@;
        proof {
            let n = before.len();
            if cidx >= 0 {
                let c = cidx;
                assert forall|k: int| 0 <= k < c implies #[trigger] laid[k] == before[k] by {}
                assert(laid[c] == nr);
                assert(laid[c + 1].same_contents(before[c]));
                assert(laid[c + 1].position == nc + 1);
                assert forall|k: int| c + 1 < k < n + 1 implies #[trigger] laid[k] == before[k - 1] by {}
            } else {
                assert forall|k: int| 0 <= k < n implies #[trigger] laid[k] == before[k] by {}
                assert(laid[n as int] == nr);
            }
        }
        self.rebuild_linear_exits();
        proof {
            let n = before.len();
            assert forall|k: int| 0 <= k < self.rooms.len() implies #[trigger] self.rooms[k].exits@
                == linear_exits(self.rooms@, k) by {
                assert(self.rooms[k].exits@ == linear_exits(laid, k));
                if k + 1 < laid.len() {
                    assert(self.rooms[k + 1].same_but_exits(laid[k + 1]));
                }
            }
            if cidx >= 0 {
                let c = cidx;
                assert forall|k: int| 0 <= k < c implies #[trigger] self.rooms[k].same_but_exits(
                    before[k],
                ) by {
                    assert(self.rooms[k].same_but_exits(laid[k]));
                    assert(laid[k] == before[k]);
                }
                assert(self.rooms[c].same_but_exits(laid[c]));
                assert(self.rooms[c + 1].same_but_exits(laid[c + 1]));
                assert forall|k: int| c + 1 < k < n + 1 implies #[trigger] self.rooms[k].same_but_exits(
                    before[k - 1],
                ) by {
                    assert(self.rooms[k].same_but_exits(laid[k]));
                    assert(laid[k] == before[k - 1]);
                }
            } else {
                assert(forall|i: int| 0 <= i < n ==> before[i].room_type != RoomType::Core);
                assert forall|k: int| 0 <= k < n implies #[trigger] self.rooms[k].same_but_exits(
                    before[k],
                ) by {
                    assert(self.rooms[k].same_but_exits(laid[k]));
                    assert(laid[k] == before[k]);
                }
                assert(self.rooms[n as int].same_but_exits(laid[n as int]));
            }
        }
    }
}

impl Floor {
    /// Build a room of `room_type` with identity `id` on this floor, which
    /// holds `nc` rooms besides the Core: spliced before the Core on a
    /// branched floor, in line otherwise. A branched floor without a Core
    /// refuses and stays as it was.
    #[verifier::spinoff_prover]
    pub fn lay_room(&mut self, id: u64, room_type: RoomType, nc: usize) -> (r: Result<
        (),
        DungeonError,
    >)
        requires
            nc == non_core_count(old(self).rooms@),
            nc <= MAX_ROOMS_PER_FLOOR,
            old(self).rooms.len() <= ROOM_LIMIT,
            forall|i: int|
                0 <= i < old(self).rooms.len() ==> #[trigger] old(self).rooms[i].position < usize::MAX,
        ensures
            ({
                let n = old(self).rooms.len();
                let forked = exists|i: int| 0 <= i < n && old(self).rooms[i].exits.len() > 1;
                let has_core = exists|i: int|
                    0 <= i < n && old(self).rooms[i].room_type == RoomType::Core;
                if forked && !has_core {
                    r == Err::<(), DungeonError>(DungeonError::FloorHasNoCore) && *final(self)
                        == *old(self)
                } else {
                    r is Ok && room_added_floor(*old(self), *final(self), id, room_type, nc as int)
                }
            }),
    {
        let ghost before = *self;
        let has_fork = self.has_fork();
        if has_fork {
            let c = match self.core_index() {
                Some(c) => c,
                None => return Err(DungeonError::FloorHasNoCore),
            };
            proof {
                lemma_first_core_unique(before, c as int);
                lemma_max_position_bounds(before.rooms@);
                let mi = choose|i: int|
                    0 <= i < before.rooms.len() && before.rooms[i].position == max_position(
                        before.rooms@,
                    );
                assert(before.rooms[mi].position < usize::MAX);
            }
            let new_position = self.max_room_position() + 1;
            let new_room = Room::new(id, room_type, new_position, self.number);
            self.splice_before_core(new_room, c);
            proof {
                let n = before.rooms.len();
                assert(self.rooms[n as int] == self.rooms@.last());
            }
        } else {
            proof {
                if exists|i: int|
                    0 <= i < before.rooms.len() && before.rooms[i].room_type == RoomType::Core {
                    let i = choose|i: int|
                        0 <= i < before.rooms.len() && before.rooms[i].room_type == RoomType::Core;
                    lemma_first_core_exists(before, i);
                }
            }
            let new_room = Room::new(id, room_type, nc, self.number);
            self.insert_in_line(new_room);
        }
        Ok(())
    }
}

/// The first Core of a floor is the only index with that property.
proof fn lemma_first_core_unique(floor: Floor, c: int)
    requires
        floor.is_first_core(c),
    ensures
        (choose|i: int| floor.is_first_core(i)) == c,
{
    let k = choose|i: int| floor.is_first_core(i);
    assert(floor.is_first_core(k));
    if k < c {
        assert(floor.rooms[k].room_type != RoomType::Core);
    }
    if k > c {
        assert(floor.rooms[c].room_type != RoomType::Core);
    }
}

/// A floor with some Core has a first one.
proof fn lemma_first_core_exists(floor: Floor, i: int)
    requires
        0 <= i < floor.rooms.len(),
        floor.rooms[i].room_type == RoomType::Core,
    ensures
        floor.is_first_core(choose|k: int| floor.is_first_core(k)),
    decreases i,
{
    if forall|j: int| 0 <= j < i ==> floor.rooms[j].room_type != RoomType::Core {
        assert(floor.is_first_core(i));
    } else {
        let j = choose|j: int| 0 <= j < i && floor.rooms[j].room_type == RoomType::Core;
        lemma_first_core_exists(floor, j);
    }
}

/// What the next build without a target floor would be: on which floor, of
/// which type, for how much mana, and whether it digs a new floor.
#[derive(Clone, Copy, Debug, PartialEq, Eq, Structural)]
pub struct BuildPreview {
    pub floor: i32,
    pub room_type: RoomType,
    pub cost: i32,
    pub new_floor: bool,
}

/// `i` is the first floor marked deepest.
pub open spec fn is_first_deepest(s: GameState, i: int) -> bool {
    &&& 0 <= i < s.floors.len()
    &&& s.floors[i].is_deepest
    &&& forall|j: int| 0 <= j < i ==> !s.floors[j].is_deepest
}

/// The next build without a target floor: on the deepest floor, its Boss
/// room once the ordinary slots are taken, or, on a full floor, a new floor
/// below. Nothing when no floor is marked deepest.
pub open spec fn build_preview(s: GameState) -> Option<BuildPreview> {
    if exists|i: int| is_first_deepest(s, i) {
        let d = s.floors[choose|i: int| is_first_deepest(s, i)];
        let nc = non_core_count(d.rooms@);
        if nc > MAX_ROOMS_PER_FLOOR {
            Some(
                BuildPreview {
                    floor: (s.total_floors + 1) as i32,
                    room_type: RoomType::Normal,
                    cost: room_cost(s.room_total(), false) as i32,
                    new_floor: true,
                },
            )
        } else {
            let boss = nc == MAX_ROOMS_PER_FLOOR;
            Some(
                BuildPreview {
                    floor: d.number,
                    room_type: if boss {
                        RoomType::Boss
                    } else {
                        RoomType::Normal
                    },
                    cost: room_cost(s.room_total(), boss) as i32,
                    new_floor: false,
                },
            )
        }
    } else {
        None
    }
}

fn first_deepest_idx(state: &GameState) -> (r: Option<usize>)
    ensures
        r is Some <==> exists|i: int| is_first_deepest(*state, i),
        r is Some ==> is_first_deepest(*state, r->0 as int),
{
    let mut i: usize = 0;
    while i < state.floors.len()
        invariant
            0 <= i <= state.floors.len(),
            forall|j: int| 0 <= j < i ==> !state.floors[j].is_deepest,
        decreases state.floors.len() - i,
    {
        if state.floors[i].is_deepest {
            assert(is_first_deepest(*state, i as int));
            return Some(i);
        }
        i = i + 1;
    }
    proof {
        assert forall|k: int| !is_first_deepest(*state, k) by {
            if 0 <= k < state.floors.len() {
                assert(!state.floors[k].is_deepest);
            }
        }
    }
    None
}

/// Preview of the next build without a target floor (see `build_preview`).
pub fn next_build_preview(state: &GameState) -> (r: Option<BuildPreview>)
    requires
        state.room_total() <= ROOM_LIMIT,
        state.total_floors < i32::MAX,
    ensures
        r == build_preview(*state),
{
    let i = match first_deepest_idx(state) {
        None => {
            return None;
        },
        Some(i) => i,
    };
    proof {
        let c = choose|k: int| is_first_deepest(*state, k);
        assert(is_first_deepest(*state, c));
        if c < i {
            assert(!state.floors[c].is_deepest);
        }
        if i < c {
            assert(!state.floors[i as int].is_deepest);
        }
    }
    let deepest = &state.floors[i];
    let nc = deepest.count_non_core();
    proof {
        crate::state::lemma_rooms_in_nonneg(state.floors@);
    }
    let total = state.total_room_count();
    if nc > MAX_ROOMS_PER_FLOOR {
        return Some(
            BuildPreview {
                floor: state.total_floors + 1,
                room_type: RoomType::Normal,
                cost: get_room_cost(total, false),
                new_floor: true,
            },
        );
    }
    let is_boss = nc == MAX_ROOMS_PER_FLOOR;
    Some(
        BuildPreview {
            floor: deepest.number,
            room_type: if is_boss {
                RoomType::Boss
            } else {
                RoomType::Normal
            },
            cost: get_room_cost(total, is_boss),
            new_floor: false,
        },
    )
}

/// The build preview tells the truth. On a dungeon whose floors carry
/// distinct numbers, when the next build without a target floor succeeds it
/// charges the previewed mana; it digs a new floor exactly when the preview
/// says so, numbered as previewed; otherwise it lays a room of the previewed
/// type on the previewed floor.
pub proof fn law_preview_matches_build(s: GameState, t: GameState, r: Result<(), DungeonError>)
    requires
        add_room_outcome(s, t, None, r),
        r is Ok,
        build_preview(s) is Some,
        s.room_total() <= ROOM_LIMIT,
        forall|i: int, j: int| 0 <= i < j < s.floors.len() ==> s.floors[i].number != s.floors[j].number,
    ensures
        ({
            let p = build_preview(s)->0;
            &&& t.mana == s.mana - p.cost
            &&& p.new_floor <==> t.floors.len() == s.floors.len() + 1
            &&& p.new_floor ==> t.total_floors == p.floor
            &&& !p.new_floor ==> s.has_floor(p.floor) && room_added_floor(
                s.floors[s.floor_index(p.floor)],
                t.floors[s.floor_index(p.floor)],
                s.next_id,
                p.room_type,
                non_core_count(s.floors[s.floor_index(p.floor)].rooms@),
            )
        }),
{
    let d = choose|i: int| is_first_deepest(s, i);
    assert(is_first_deepest(s, d));
    let k = choose|i: int|
        0 <= i < s.floors.len() && s.floors[i].is_deepest && forall|j: int|
            0 <= j < i ==> !s.floors[j].is_deepest;
    assert(0 <= d < s.floors.len() && s.floors[d].is_deepest && forall|j: int|
        0 <= j < d ==> !s.floors[j].is_deepest);
    if k < d {
        assert(!s.floors[k].is_deepest);
    }
    if d < k {
        assert(!s.floors[d].is_deepest);
    }
    assert(k == d);
    let n = s.floors[d].number;
    assert(s.default_build_floor() == n);
    assert(s.is_first_floor(n, d)) by {
        assert forall|j: int| 0 <= j < d implies s.floors[j].number != n by {
            assert(s.floors[j].number != s.floors[d].number);
        }
    }
    lemma_first_floor_unique(s, n, d);
    let p = build_preview(s)->0;
    let nc = non_core_count(s.floors[d].rooms@);
    crate::state::lemma_rooms_in_nonneg(s.floors@);
    assert(0 < room_cost(s.room_total(), false) <= room_cost(s.room_total(), true) <= i32::MAX);
    assert(add_room_on(s, t, n, r));
    if nc > MAX_ROOMS_PER_FLOOR {
        assert(p.new_floor);
        assert(new_floor_dug(s, t, room_cost(s.room_total(), false) as i32));
        assert(t.mana == s.mana - p.cost);
        assert(t.floors.len() == s.floors.len() + 1);
    } else {
        assert(!p.new_floor);
        assert(p.floor == n);
        assert(t.mana == s.mana - p.cost);
        assert(t.floors.len() == s.floors.len());
    }
}

/// One exit turned toward `to` if it led into `from`.
pub open spec fn redirect_one(e: usize, from: usize, to: usize) -> usize {
    if e == from {
        to
    } else {
        e
    }
}

/// Add a room to floor `target_floor` (by default the deepest floor). A floor
/// already holding its full complement of rooms makes way for a new floor
/// instead; the last ordinary slot of a floor is its Boss room.
/// Everything `add_room` promises, as one statement over the state before
/// (`s`), the state after (`t`) and the answer (`r`).
pub open spec fn add_room_outcome(
    s: GameState,
    t: GameState,
    target_floor: Option<i32>,
    r: Result<(), DungeonError>,
) -> bool {
    let n = match target_floor {
        Some(n) => n,
        None => s.default_build_floor(),
    };
    add_room_on(s, t, n, r)
}

/// What `add_room` does when building on floor number `n`.
pub open spec fn add_room_on(s: GameState, t: GameState, n: i32, r: Result<(), DungeonError>) -> bool {
            if s.adventurer_parties.len() > 0 {
                r == Err::<(), DungeonError>(DungeonError::RaidInProgress) && t == s
            } else if !s.has_floor(n) {
                r == Err::<(), DungeonError>(DungeonError::FloorNotFound) && t == s
            } else {
                let fi = s.floor_index(n);
                let before = s.floors[fi];
                let nc = non_core_count(before.rooms@);
                if nc > MAX_ROOMS_PER_FLOOR {
                    let floor_cost = room_cost(s.room_total(), false) as i32;
                    if s.mana < floor_cost {
                        r == Err::<(), DungeonError>(DungeonError::NotEnoughMana { need: floor_cost })
                            && t == s
                    } else {
                        r is Ok && new_floor_dug(s, t, floor_cost)
                    }
                } else {
                    let is_boss = nc == MAX_ROOMS_PER_FLOOR;
                    let cost = room_cost(s.room_total(), is_boss) as i32;
                    let room_type = if is_boss {
                        RoomType::Boss
                    } else {
                        RoomType::Normal
                    };
                    let forked = exists|i: int|
                        0 <= i < before.rooms.len() && before.rooms[i].exits.len() > 1;
                    let has_core = exists|i: int|
                        0 <= i < before.rooms.len() && before.rooms[i].room_type == RoomType::Core;
                    let spent = GameState {
                        mana: (s.mana - cost) as i32,
                        next_id: (s.next_id + 1) as u64,
                        ..s
                    };
                    if s.mana < cost {
                        r == Err::<(), DungeonError>(DungeonError::NotEnoughMana { need: cost })
                            && t == s
                    } else if forked && !has_core {
                        r == Err::<(), DungeonError>(DungeonError::FloorHasNoCore)
                            && t == (GameState { floors: t.floors, ..spent }) && t.floors@ == s.floors@
                    } else {
                        let after = t.floors[fi];
                        &&& room_added_floor(before, after, s.next_id, room_type, nc)
                        &&& t.floors.len() == s.floors.len()
                        &&& forall|j: int|
                            0 <= j < s.floors.len() && j != fi ==> #[trigger] t.floors[j]
                                == s.floors[j]
                        &&& (r is Ok <==> graph_valid(after))
                        &&& r is Err ==> r == Err::<(), DungeonError>(DungeonError::BrokenRoute)
                        &&& t.log@ == if r is Ok {
                            s.log@.push(LogEntry::RoomAdded { boss: is_boss, floor: n, cost })
                        } else {
                            s.log@
                        }
                        &&& t == (GameState {
                            floors: t.floors,
                            log: t.log,
                            ..spent
                        })
                    }
                }
            }
        }

pub fn add_room(state: &mut GameState, target_floor: Option<i32>) -> (r: Result<(), DungeonError>)
    requires
        old(state).room_total() <= ROOM_LIMIT,
        positions_bounded(old(state).floors@),
        old(state).next_id <= u64::MAX - 4,
        old(state).total_floors < i32::MAX,
        old(state).max_mana <= i32::MAX - 50,
    ensures
        add_room_outcome(*old(state), *final(state), target_floor, r),
{
    if state.adventurer_parties.len() > 0 {
        return Err(DungeonError::RaidInProgress);
    }
    let floor_num = match target_floor {
        Some(n) => n,
        None => state.deepest_floor_number(),
    };
    let fi = match state.floor_idx(floor_num) {
        Some(fi) => fi,
        None => return Err(DungeonError::FloorNotFound),
    };
    let non_core = state.floors[fi].count_non_core();
    if non_core > MAX_ROOMS_PER_FLOOR {
        return create_new_floor(state);
    }
    let total = state.total_room_count();
    let next_pos = non_core;
    let is_boss = next_pos == MAX_ROOMS_PER_FLOOR;
    let cost = get_room_cost(total, is_boss);
    if state.mana < cost {
        return Err(DungeonError::NotEnoughMana { need: cost });
    }
    proof {
        crate::state::lemma_rooms_in_nonneg(state.floors@);
        lemma_non_core_count_bound(state.floors[fi as int].rooms@);
        lemma_floor_rooms_bound(state.floors@, fi as int);
    }
    state.mana = state.mana - cost;
    let room_type = if is_boss {
        RoomType::Boss
    } else {
        RoomType::Normal
    };
    let ghost before = state.floors[fi as int];
    proof {
        lemma_non_core_count_bound(before.rooms@);
        assert forall|i: int| 0 <= i < before.rooms.len() implies #[trigger] before.rooms[i].position
            < usize::MAX by {
            assert(old(state).floors[fi as int].rooms[i].position < usize::MAX);
        }
    }
    let id = state.next_id;
    state.next_id = state.next_id + 1;
    match state.floors[fi].lay_room(id, room_type, non_core) {
        Ok(()) => {},
        Err(e) => {
            proof {
                assert(state.floors@ =~= old(state).floors@);
            }
            return Err(e);
        },
    }
    match state.floors[fi].validate_graph() {
        Ok(()) => {},
        Err(e) => return Err(e),
    }
    state.log.push(LogEntry::RoomAdded { boss: is_boss, floor: floor_num, cost });
    Ok(())
}

/// What `branch_cost` answers: the price of a parallel room growing from
/// `source_pos` on floor `floor_num`, or why none can grow there.
pub open spec fn branch_cost_spec(state: GameState, floor_num: i32, source_pos: usize) -> Result<
    i32,
    DungeonError,
> {
    if state.adventurer_parties.len() > 0 {
        Err(DungeonError::RaidInProgress)
    } else if !state.has_floor(floor_num) {
        Err(DungeonError::FloorNotFound)
    } else {
        let floor = state.floors[state.floor_index(floor_num)];
        if !floor.has_room(source_pos) {
            Err(DungeonError::RoomNotFound)
        } else if floor.room_of(source_pos).exits.len() != 1 {
            Err(DungeonError::NotSingleRoute)
        } else if floor.room_of(source_pos).room_type == RoomType::Core {
            Err(DungeonError::CoreHasNoRoute)
        } else if non_core_count(floor.rooms@) > MAX_ROOMS_PER_FLOOR {
            Err(DungeonError::FloorFull)
        } else {
            Ok(room_cost(state.room_total(), false) as i32)
        }
    }
}

/// Cost and validate a parallel room growing from `source_pos`. The new room
/// joins the source's existing successor, preserving an Entrance-to-Core route
/// on both sides of the diamond.
pub fn branch_cost(state: &GameState, floor_num: i32, source_pos: usize) -> (r: Result<
    i32,
    DungeonError,
>)
    requires
        state.room_total() <= ROOM_LIMIT,
    ensures
        r == branch_cost_spec(*state, floor_num, source_pos),
{
    if state.adventurer_parties.len() > 0 {
        return Err(DungeonError::RaidInProgress);
    }
    let fi = match state.floor_idx(floor_num) {
        Some(fi) => fi,
        None => return Err(DungeonError::FloorNotFound),
    };
    let floor = &state.floors[fi];
    let source = match floor.room_at(source_pos) {
        Some(room) => room,
        None => return Err(DungeonError::RoomNotFound),
    };
    if source.exits.len() != 1 {
        return Err(DungeonError::NotSingleRoute);
    }
    if source.room_type == RoomType::Core {
        return Err(DungeonError::CoreHasNoRoute);
    }
    if floor.count_non_core() > MAX_ROOMS_PER_FLOOR {
        return Err(DungeonError::FloorFull);
    }
    Ok(get_room_cost(state.total_room_count(), false))
}

/// The floor a successful branch leaves behind: the source gains a route to
/// the newcomer, which stands past every other room and leads where the
/// source already led.
pub open spec fn branched_floor(before: Floor, after: Floor, source_pos: usize, id: u64) -> bool {
    let src = before.room_index(source_pos);
    let new_pos = (max_position(before.rooms@) + 1) as usize;
    &&& after.id == before.id
    &&& after.number == before.number
    &&& after.is_deepest == before.is_deepest
    &&& after.rooms.len() == before.rooms.len() + 1
    &&& forall|k: int|
        0 <= k < before.rooms.len() && k != src ==> #[trigger] after.rooms[k] == before.rooms[k]
    &&& after.rooms[src].same_but_exits(before.rooms[src])
    &&& after.rooms[src].exits@ == before.rooms[src].exits@.push(new_pos)
    &&& after.rooms@.last().is_fresh(id, RoomType::Normal, new_pos, before.number)
    &&& after.rooms@.last().exits@ == seq![before.rooms[src].exits@[0]]
}

/// Create one side of a series-parallel diamond. The source keeps its existing
/// route and gains the new one; the newcomer points to the same successor.
pub fn branch_from(state: &mut GameState, floor_num: i32, source_pos: usize) -> (r: Result<
    (),
    DungeonError,
>)
    requires
        old(state).room_total() <= ROOM_LIMIT,
        positions_bounded(old(state).floors@),
        old(state).next_id < u64::MAX,
    ensures
        ({
            let pre = branch_cost_spec(*old(state), floor_num, source_pos);
            match pre {
                Err(e) => r == Err::<(), DungeonError>(e) && *final(state) == *old(state),
                Ok(cost) => if old(state).mana < cost {
                    r == Err::<(), DungeonError>(DungeonError::NotEnoughMana { need: cost })
                        && *final(state) == *old(state)
                } else {
                    let fi = old(state).floor_index(floor_num);
                    let after = final(state).floors[fi];
                    &&& branched_floor(old(state).floors[fi], after, source_pos, old(state).next_id)
                    &&& final(state).floors.len() == old(state).floors.len()
                    &&& forall|j: int|
                        0 <= j < old(state).floors.len() && j != fi ==> #[trigger] final(state).floors[j]
                            == old(state).floors[j]
                    &&& (r is Ok <==> graph_valid(after))
                    &&& r is Err ==> r == Err::<(), DungeonError>(DungeonError::BrokenRoute)
                    &&& final(state).log@ == if r is Ok {
                        old(state).log@.push(
                            LogEntry::BranchAdded { source: source_pos, floor: floor_num, cost },
                        )
                    } else {
                        old(state).log@
                    }
                    &&& *final(state) == (GameState {
                        mana: (old(state).mana - cost) as i32,
                        next_id: (old(state).next_id + 1) as u64,
                        floors: final(state).floors,
                        log: final(state).log,
                        ..*old(state)
                    })
                },
            }
        }),
{
    let cost = match branch_cost(state, floor_num, source_pos) {
        Ok(cost) => cost,
        Err(e) => return Err(e),
    };
    if state.mana < cost {
        return Err(DungeonError::NotEnoughMana { need: cost });
    }
    proof {
        crate::state::lemma_rooms_in_nonneg(state.floors@);
    }
    let fi = match state.floor_idx(floor_num) {
        Some(fi) => fi,
        None => return Err(DungeonError::FloorNotFound),
    };
    let ghost before = state.floors[fi as int];
    proof {
        lemma_max_position_bounds(before.rooms@);
        crate::state::lemma_first_exists(before, source_pos);
        let mi = choose|i: int|
            0 <= i < before.rooms.len() && before.rooms[i].position == max_position(before.rooms@);
        assert(old(state).floors[fi as int].rooms[mi].position < usize::MAX);
    }
    let next_pos = state.floors[fi].max_room_position() + 1;
    let src = match state.floors[fi].room_idx(source_pos) {
        Some(src) => src,
        None => return Err(DungeonError::RoomNotFound),
    };
    let successor = state.floors[fi].rooms[src].exits[0];
    state.mana = state.mana - cost;
    let id = state.next_id;
    state.next_id = state.next_id + 1;
    let mut room = Room::new(id, RoomType::Normal, next_pos, floor_num);
    room.exits.push(successor);
    state.floors[fi].rooms.push(room);
    state.floors[fi].rooms[src].exits.push(next_pos);
    proof {
        assert(state.floors[fi as int].rooms@.len() == before.rooms@.len() + 1);
        assert(state.floors[fi as int].rooms@.last().exits@ =~= seq![successor]);
    }
    match state.floors[fi].validate_graph() {
        Ok(()) => {},
        Err(e) => return Err(e),
    }
    state.log.push(LogEntry::BranchAdded { source: source_pos, floor: floor_num, cost });
    Ok(())
}

/// Growing a branch never orphans a route: on a floor whose every exit named
/// a room, every exit still names a room once the branch stands.
pub proof fn law_branch_keeps_routes(before: Floor, after: Floor, source_pos: usize, id: u64)
    requires
        graph_valid(before),
        before.has_room(source_pos),
        before.room_of(source_pos).exits.len() == 1,
        branched_floor(before, after, source_pos, id),
    ensures
        graph_valid(after),
{
    let n = before.rooms.len();
    let src = before.room_index(source_pos);
    crate::state::lemma_first_exists(before, source_pos);
    let new_pos = (max_position(before.rooms@) + 1) as usize;
    assert(after.rooms[n as int] == after.rooms@.last());
    assert forall|i: int, k: int|
        0 <= i < after.rooms.len() && 0 <= k < after.rooms[i].exits.len() implies after.has_room(
        #[trigger] after.rooms[i].exits@[k],
    ) by {
        let e = after.rooms[i].exits@[k];
        if i == n || (i == src && k == after.rooms[i].exits.len() - 1) {
            if i == n {
                let e0 = before.rooms[src].exits@[0];
                assert(before.has_room(e0));
                let j = choose|j: int| 0 <= j < before.rooms.len() && before.rooms[j].position == e0;
                if j == src {
                    assert(after.rooms[j].position == e0);
                } else {
                    assert(after.rooms[j] == before.rooms[j]);
                }
            } else {
                assert(after.rooms[n as int].position == new_pos);
            }
        } else {
            let k0 = k;
            assert(before.rooms[i].exits@[k0] == e);
            assert(before.has_room(e));
            let j = choose|j: int| 0 <= j < before.rooms.len() && before.rooms[j].position == e;
            if j == src {
                assert(after.rooms[j].position == e);
            } else {
                assert(after.rooms[j] == before.rooms[j]);
            }
        }
    }
}

/// Building a room never orphans a route: a linear floor is re-linked room to
/// room, and on a branched floor whose every exit named a room, the routes
/// turned toward the newcomer still name rooms.
pub proof fn law_build_keeps_routes(
    before: Floor,
    after: Floor,
    id: u64,
    room_type: RoomType,
    nc: int,
)
    requires
        graph_valid(before),
        room_added_floor(before, after, id, room_type, nc),
        (exists|i: int| 0 <= i < before.rooms.len() && before.rooms[i].exits.len() > 1) ==> exists|
            i: int,
        | 0 <= i < before.rooms.len() && before.rooms[i].room_type == RoomType::Core,
    ensures
        graph_valid(after),
{
    let n = before.rooms.len();
    let forked = exists|i: int| 0 <= i < n && before.rooms[i].exits.len() > 1;
    if forked {
        let i0 = choose|i: int| 0 <= i < before.rooms.len() && before.rooms[i].room_type == RoomType::Core;
        lemma_first_core_exists(before, i0);
        let c = choose|i: int| before.is_first_core(i);
        let core_pos = before.rooms[c].position;
        let new_pos = (max_position(before.rooms@) + 1) as usize;
        assert forall|i: int, k: int|
            0 <= i < after.rooms.len() && 0 <= k < after.rooms[i].exits.len() implies after.has_room(
            #[trigger] after.rooms[i].exits@[k],
        ) by {
            let e = after.rooms[i].exits@[k];
            if i == n {
                assert(e == core_pos);
                assert(after.rooms[c].same_but_exits(before.rooms[c]));
                assert(after.rooms[c].position == core_pos);
            } else {
                assert(after.rooms[i].same_but_exits(before.rooms[i]));
                let e0 = before.rooms[i].exits@[k];
                assert(e == redirect_one(e0, core_pos, new_pos));
                if e0 == core_pos {
                    assert(after.rooms[n as int].position == new_pos);
                } else {
                    assert(before.has_room(e0));
                    let j = choose|j: int| 0 <= j < before.rooms.len() && before.rooms[j].position == e0;
                    assert(after.rooms[j].same_but_exits(before.rooms[j]));
                }
            }
        }
    } else {
        assert forall|i: int, k: int|
            0 <= i < after.rooms.len() && 0 <= k < after.rooms[i].exits.len() implies after.has_room(
            #[trigger] after.rooms[i].exits@[k],
        ) by {
            assert(after.rooms[i].exits@ == linear_exits(after.rooms@, i));
            assert(after.rooms[i + 1].position == after.rooms[i].exits@[k]);
        }
    }
}

proof fn lemma_live_exits_live(exits: Seq<usize>, rooms: Seq<Room>, x: usize)
    requires
        live_exits(exits, rooms).contains(x),
    ensures
        position_in(rooms, x),
    decreases exits.len(),
{
    if exits.len() > 0 {
        let rest = live_exits(exits.drop_last(), rooms);
        if position_in(rooms, exits.last()) && x == exits.last() {
        } else if position_in(rooms, exits.last()) {
            let k = choose|k: int| 0 <= k < rest.push(exits.last()).len() && rest.push(exits.last())[k] == x;
            assert(rest[k] == x);
            lemma_live_exits_live(exits.drop_last(), rooms, x);
        } else {
            lemma_live_exits_live(exits.drop_last(), rooms, x);
        }
    }
}

/// A floor that gave up its Core to a new floor below keeps no route into a
/// vanished room: every exit left names a room still standing.
pub proof fn law_stripped_floor_routes(before: Floor, after: Floor)
    requires
        stripped_floor(before, after),
    ensures
        graph_valid(after),
{
    let kept = non_core_rooms(before.rooms@);
    assert forall|i: int, k: int|
        0 <= i < after.rooms.len() && 0 <= k < after.rooms[i].exits.len() implies after.has_room(
        #[trigger] after.rooms[i].exits@[k],
    ) by {
        let e = after.rooms[i].exits@[k];
        assert(after.rooms[i].same_but_exits(kept[i]));
        assert(after.rooms[i].exits@ == live_exits(kept[i].exits@, kept));
        assert(live_exits(kept[i].exits@, kept).contains(e));
        lemma_live_exits_live(kept[i].exits@, kept, e);
        let j = choose|j: int| 0 <= j < kept.len() && kept[j].position == e;
        assert(after.rooms[j].same_but_exits(kept[j]));
    }
}

/// A freshly dug floor is routed: Entrance to the ordinary room to the Core.
pub proof fn law_fresh_floor_routes(floor: Floor, id: u64, number: i32)
    requires
        fresh_floor(floor, id, number),
    ensures
        graph_valid(floor),
{
    assert forall|i: int, k: int|
        0 <= i < floor.rooms.len() && 0 <= k < floor.rooms[i].exits.len() implies floor.has_room(
        #[trigger] floor.rooms[i].exits@[k],
    ) by {
        assert(floor.rooms[i + 1].position == floor.rooms[i].exits@[k]);
    }
}


/// How hard a room's defenders strike under its standing order, in percent:
/// holding the line trades attack for survival, breaking formation trades
/// survival for attack.
pub open spec fn order_attack_percent(order: RoomBattleOrder) -> int {
    match order {
        RoomBattleOrder::Balanced => 100,
        RoomBattleOrder::HoldLine => 80,
        RoomBattleOrder::CullWounded => 100,
        RoomBattleOrder::BreakFormation => 125,
    }
}

/// How much damage a room's defenders take under its standing order, in percent.
pub open spec fn order_damage_taken_percent(order: RoomBattleOrder) -> int {
    match order {
        RoomBattleOrder::Balanced => 100,
        RoomBattleOrder::HoldLine => 75,
        RoomBattleOrder::CullWounded => 115,
        RoomBattleOrder::BreakFormation => 125,
    }
}

impl Room {
    /// How hard this room's defenders strike under its standing order, in percent.
    pub fn defender_attack_percent(&self) -> (r: i32)
        ensures
            r == order_attack_percent(self.battle_order),
    {
        match self.battle_order {
            RoomBattleOrder::Balanced => 100,
            RoomBattleOrder::HoldLine => 80,
            RoomBattleOrder::CullWounded => 100,
            RoomBattleOrder::BreakFormation => 125,
        }
    }

    /// How much damage this room's defenders take under its standing order,
    /// in percent.
    pub fn defender_damage_taken_percent(&self) -> (r: i32)
        ensures
            r == order_damage_taken_percent(self.battle_order),
    {
        match self.battle_order {
            RoomBattleOrder::Balanced => 100,
            RoomBattleOrder::HoldLine => 75,
            RoomBattleOrder::CullWounded => 115,
            RoomBattleOrder::BreakFormation => 125,
        }
    }
}

/// No standing order is free: each one other than the balanced one either
/// strikes softer or takes more damage than the balanced order does.
pub proof fn law_battle_orders_trade_off(order: RoomBattleOrder)
    ensures
        order != RoomBattleOrder::Balanced ==> order_attack_percent(order) < 100 || order_damage_taken_percent(
            order,
        ) > 100,
{
}

/// What `set_battle_order` answers for these arguments.
pub open spec fn order_result(s: GameState, floor_num: i32, room_pos: usize) -> Result<(), DungeonError> {
    if s.adventurer_parties.len() > 0 {
        Err(DungeonError::RaidInProgress)
    } else if !s.has_floor(floor_num) {
        Err(DungeonError::FloorNotFound)
    } else if !s.floors[s.floor_index(floor_num)].has_room(room_pos) {
        Err(DungeonError::RoomNotFound)
    } else {
        Ok(())
    }
}

/// Give a room a standing battle order, between raids.
pub fn set_battle_order(state: &mut GameState, floor_num: i32, room_pos: usize, order: RoomBattleOrder) -> (r: Result<(), DungeonError>)
    ensures
        r == order_result(*old(state), floor_num, room_pos),
        r is Err ==> *final(state) == *old(state),
        r is Ok ==> {
            let s = *old(state);
            let fi = s.floor_index(floor_num);
            let ri = s.floors[fi].room_index(room_pos);
            &&& final(state).floors@ == s.floors@.update(fi, Floor { rooms: final(state).floors[fi].rooms, ..s.floors[fi] })
            &&& final(state).floors[fi].rooms@ == s.floors[fi].rooms@.update(
                ri,
                Room { battle_order: order, ..s.floors[fi].rooms[ri] },
            )
            &&& *final(state) == (GameState { floors: final(state).floors, ..s })
        },
{
    if state.adventurer_parties.len() > 0 {
        return Err(DungeonError::RaidInProgress);
    }
    let fi = match state.floor_idx(floor_num) {
        Some(fi) => fi,
        None => return Err(DungeonError::FloorNotFound),
    };
    let ri = match state.floors[fi].room_idx(room_pos) {
        Some(ri) => ri,
        None => return Err(DungeonError::RoomNotFound),
    };
    state.floors[fi].rooms[ri].battle_order = order;
    proof {
        let s = *old(state);
        assert(state.floors@ =~= s.floors@.update(
            fi as int,
            Floor { rooms: state.floors[fi as int].rooms, ..s.floors[fi as int] },
        ));
        assert(state.floors[fi as int].rooms@ =~= s.floors[fi as int].rooms@.update(
            ri as int,
            Room { battle_order: order, ..s.floors[fi as int].rooms[ri as int] },
        ));
    }
    Ok(())
}

} // verus!
