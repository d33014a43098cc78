//! The dungeon's fixed rules: what rooms and summons cost, how many
//! defenders a room holds, how stats scale with depth, and how the realm's
//! threat rises with its dead.

use vstd::prelude::*;
use crate::state::{Room, RoomType, Stats};

verus! {

/// Ordinary rooms a floor holds besides its Entrance and Core; the last of
/// them is the floor's Boss room.
pub const MAX_ROOMS_PER_FLOOR: usize = 5;
/// Mana price of the very first room.
pub const ROOM_BASE_COST: i32 = 50;
/// Extra mana each existing room adds to the price of the next.
pub const ROOM_COST_STEP: i32 = 25;
/// Deepest floor the rules price and scale.
pub const FLOOR_LIMIT: i32 = 10_000;
/// Most rooms a dungeon can hold.
pub const ROOM_LIMIT: usize = 1_000_000;
/// Deaths at which the realm musters a siege.
pub const SIEGE_THRESHOLD: i32 = 100;

/// Mana price of the next room, given how many rooms the dungeon already has.
pub open spec fn room_cost(total_rooms: int, is_boss: bool) -> int {
    let base = ROOM_BASE_COST + ROOM_COST_STEP * total_rooms;
    if is_boss {
        2 * base
    } else {
        base
    }
}

/// Mana price of the next room, given how many rooms the dungeon already has.
pub fn get_room_cost(total_rooms: usize, is_boss: bool) -> (r: i32)
    requires
        total_rooms <= ROOM_LIMIT,
    ensures
        r == room_cost(total_rooms as int, is_boss),
        r > 0,
{
    let base = ROOM_BASE_COST + ROOM_COST_STEP * (total_rooms as i32);
    if is_boss {
        2 * base
    } else {
        base
    }
}

/// A floor number as the rules read it: never shallower than the first floor.
pub open spec fn effective_floor(floor: int) -> int {
    if floor < 1 {
        1
    } else {
        floor
    }
}

/// Mana to summon a monster of `base_cost` on `floor`; a boss room doubles it.
pub open spec fn monster_mana_cost(base_cost: int, floor: int, boss_surcharge: bool) -> int {
    let cost = base_cost * (effective_floor(floor) + 3) / 4;
    if boss_surcharge {
        2 * cost
    } else {
        cost
    }
}

/// Mana to summon a monster of `base_cost` on `floor`; a boss room doubles it.
pub fn get_monster_mana_cost(base_cost: i32, floor: i32, boss_surcharge: bool) -> (r: i32)
    requires
        0 <= base_cost <= 10_000,
        floor <= FLOOR_LIMIT,
    ensures
        r == monster_mana_cost(base_cost as int, floor as int, boss_surcharge),
        0 <= r <= 100_000_000,
{
    let f: i32 = if floor < 1 { 1 } else { floor };
    assert(0 <= base_cost * (f + 3) <= 10_000 * 10_003) by (nonlinear_arith)
        requires
            0 <= base_cost <= 10_000,
            1 <= f <= 10_000,
    ;
    let cost = base_cost * (f + 3) / 4;
    if boss_surcharge {
        2 * cost
    } else {
        cost
    }
}

/// How many defenders a room on `floor` holds. Deeper floors widen every room;
/// a Boss room keeps one slot fewer.
pub open spec fn monster_capacity(floor: int, is_boss: bool) -> int {
    let widened = 2 + (effective_floor(floor) - 1) / 2;
    if is_boss {
        widened - 1
    } else {
        widened
    }
}

/// How many defenders a room on `floor` holds.
pub fn room_monster_capacity(floor: i32, is_boss: bool) -> (r: usize)
    ensures
        r == monster_capacity(floor as int, is_boss),
        r >= 1,
{
    let f: i32 = if floor < 1 { 1 } else { floor };
    let widened = 2 + ((f - 1) / 2) as usize;
    if is_boss {
        widened - 1
    } else {
        widened
    }
}

/// How many defenders this room holds.
pub open spec fn capacity_of(room: Room) -> int {
    monster_capacity(room.floor_number as int, room.room_type == RoomType::Boss)
}

/// How many defenders this room holds.
pub fn room_capacity(room: &Room) -> (r: usize)
    ensures
        r == capacity_of(*room),
        r >= 1,
{
    room_monster_capacity(room.floor_number, room.room_type == RoomType::Boss)
}

/// One stat scaled for depth: a tenth stronger for each floor below the first,
/// and half again as strong in a Boss room.
pub open spec fn scale_stat(value: int, floor: int, is_boss: bool) -> int {
    let deep = value * (effective_floor(floor) + 9) / 10;
    if is_boss {
        deep * 3 / 2
    } else {
        deep
    }
}

/// A template's stats as they stand on `floor`.
pub open spec fn scaled_stats(base: Stats, floor: int, is_boss: bool) -> Stats {
    Stats {
        hp: scale_stat(base.hp as int, floor, is_boss) as i32,
        attack: scale_stat(base.attack as int, floor, is_boss) as i32,
        defense: scale_stat(base.defense as int, floor, is_boss) as i32,
    }
}

fn scale_one(value: i32, floor: i32, is_boss: bool) -> (r: i32)
    requires
        0 <= value <= 10_000,
        floor <= FLOOR_LIMIT,
    ensures
        r == scale_stat(value as int, floor as int, is_boss),
        0 <= r <= 20_000_000,
{
    let f: i32 = if floor < 1 { 1 } else { floor };
    assert(0 <= value * (f + 9) <= 10_000 * 10_009) by (nonlinear_arith)
        requires
            0 <= value <= 10_000,
            1 <= f <= 10_000,
    ;
    let deep = value * (f + 9) / 10;
    if is_boss {
        deep * 3 / 2
    } else {
        deep
    }
}

/// A template's stats as they stand on `floor`.
pub fn get_scaled_stats(base: Stats, floor: i32, is_boss: bool) -> (r: Stats)
    requires
        0 <= base.hp <= 10_000,
        0 <= base.attack <= 10_000,
        0 <= base.defense <= 10_000,
        floor <= FLOOR_LIMIT,
    ensures
        r == scaled_stats(base, floor as int, is_boss),
        0 <= r.hp <= 20_000_000,
        0 <= r.attack <= 20_000_000,
        0 <= r.defense <= 20_000_000,
{
    Stats {
        hp: scale_one(base.hp, floor, is_boss),
        attack: scale_one(base.attack, floor, is_boss),
        defense: scale_one(base.defense, floor, is_boss),
    }
}

/// The realm's threat tier for a death toll: 0 calm, up to 4 at siege pitch.
pub open spec fn threat_tier_for(deaths: int) -> int {
    if deaths >= SIEGE_THRESHOLD {
        4
    } else if deaths >= 50 {
        3
    } else if deaths >= 25 {
        2
    } else if deaths >= 10 {
        1
    } else {
        0
    }
}

/// The realm's threat tier for a death toll.
pub fn threat_tier_of(deaths: i32) -> (r: i32)
    ensures
        r == threat_tier_for(deaths as int),
        0 <= r <= 4,
{
    if deaths >= SIEGE_THRESHOLD {
        4
    } else if deaths >= 50 {
        3
    } else if deaths >= 25 {
        2
    } else if deaths >= 10 {
        1
    } else {
        0
    }
}

} // verus!
