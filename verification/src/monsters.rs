//! Summoning, dismissing and reviving the dungeon's defenders, unlocking new
//! species, and the hourly life of the garrison.

use vstd::prelude::*;
pub mod fusion;
pub mod swap;

use crate::catalog::{contains_name, names_contain, Catalog, EvolutionPath, MonsterTemplate};
use crate::rules::{
    capacity_of, get_monster_mana_cost, get_scaled_stats, monster_mana_cost, room_capacity,
    scaled_stats, FLOOR_LIMIT,
};
use crate::state::{
    only_room_changed, ActiveTrait, DungeonError, Floor, GameState, LogEntry, Monster,
    PlacementRefusal, Room, RoomType, Stats,
};

verus! {

/// A monster of this kind may only hold a Boss room's throne.
pub open spec fn is_boss_kind(cat: Catalog, kind: Seq<char>) -> bool {
    cat.has_monster(kind) && cat.monster_of(kind).boss_only
}

/// Some of these defenders holds a throne.
pub open spec fn holds_throne(cat: Catalog, ms: Seq<Monster>) -> bool {
    exists|i: int| 0 <= i < ms.len() && is_boss_kind(cat, #[trigger] ms[i].kind@)
}

/// Some defender of the room holds a throne.
pub open spec fn room_has_boss(cat: Catalog, room: Room) -> bool {
    holds_throne(cat, room.monsters@)
}

/// Why a monster called `name` could not take a free slot of `room` if the
/// room held the defenders `ms` (`None` when it could, or when no template
/// has that name). A Boss room keeps its final ordinary slot for one
/// boss-only defender until that throne is filled.
pub open spec fn refusal_among(room: Room, ms: Seq<Monster>, cat: Catalog, name: Seq<char>) -> Option<PlacementRefusal> {
    if !cat.has_monster(name) {
        None
    } else {
        let t = cat.monster_of(name);
        let is_boss_room = room.room_type == RoomType::Boss;
        let cap = capacity_of(room);
        let has_boss = holds_throne(cat, ms);
        if t.boss_only && !is_boss_room {
            Some(PlacementRefusal::BossOnly)
        } else if t.boss_only && has_boss {
            Some(PlacementRefusal::BossSet)
        } else if is_boss_room && !t.boss_only && !has_boss && ms.len() >= cap - 1 {
            Some(PlacementRefusal::Reserved)
        } else if ms.len() >= cap {
            Some(PlacementRefusal::Full)
        } else {
            None
        }
    }
}

/// Why a monster called `name` cannot take a free slot of `room`.
pub open spec fn refusal(room: Room, cat: Catalog, name: Seq<char>) -> Option<PlacementRefusal> {
    refusal_among(room, room.monsters@, cat, name)
}

/// The defenders of `room`, less the one at `skip` if one is named.
pub open spec fn remaining(room: Room, skip: Option<usize>) -> Seq<Monster> {
    match skip {
        Some(k) => room.monsters@.remove(k as int),
        None => room.monsters@,
    }
}

/// Does some defender of the room, other than the one at `skip`, hold a throne?
fn throne_held(room: &Room, cat: &Catalog, skip: Option<usize>) -> (r: bool)
    requires
        skip is Some ==> skip->0 < room.monsters.len(),
    ensures
        r == holds_throne(*cat, remaining(*room, skip)),
{
    let mut i: usize = 0;
    while i < room.monsters.len()
        invariant
            0 <= i <= room.monsters.len(),
            skip is Some ==> skip->0 < room.monsters.len(),
            forall|j: int|
                0 <= j < i && skip != Some(j as usize) ==> !is_boss_kind(*cat, #[trigger] room.monsters[j].kind@),
        decreases room.monsters.len() - i,
    {
        if skip != Some(i) {
            match cat.get_monster_template(room.monsters[i].kind.as_str()) {
                Some(t) => {
                    if t.boss_only {
                        proof {
                            assert(is_boss_kind(*cat, room.monsters[i as int].kind@));
                            let ms = remaining(*room, skip);
                            match skip {
                                Some(k) => {
                                    let at = if i < k { i as int } else { i - 1 };
                                    assert(ms[at] == room.monsters[i as int]);
                                },
                                None => {
                                    assert(ms[i as int] == room.monsters[i as int]);
                                },
                            }
                        }
                        return true;
                    }
                },
                None => {},
            }
        }
        i = i + 1;
    }
    proof {
        let ms = remaining(*room, skip);
        assert forall|j: int| 0 <= j < ms.len() implies !is_boss_kind(*cat, #[trigger] ms[j].kind@) by {
            match skip {
                Some(k) => {
                    if j < k {
                        assert(ms[j] == room.monsters[j]);
                        assert(skip != Some(j as usize));
                        assert(!is_boss_kind(*cat, room.monsters[j].kind@));
                    } else {
                        assert(ms[j] == room.monsters[j + 1]);
                        assert(skip != Some((j + 1) as usize));
                        assert(!is_boss_kind(*cat, room.monsters[j + 1].kind@));
                    }
                },
                None => {
                    assert(ms[j] == room.monsters[j]);
                    assert(!is_boss_kind(*cat, room.monsters[j].kind@));
                },
            }
        }
    }
    false
}

/// Why a monster called `monster_name` could not take a free slot of `room`
/// once the defender at `skip`, if one is named, had left.
fn refusal_without(room: &Room, cat: &Catalog, monster_name: &str, skip: Option<usize>) -> (r: Option<PlacementRefusal>)
    requires
        skip is Some ==> skip->0 < room.monsters.len(),
    ensures
        r == refusal_among(*room, remaining(*room, skip), *cat, monster_name@),
{
    let template = match cat.get_monster_template(monster_name) {
        Some(t) => t,
        None => return None,
    };
    let held: usize = match skip {
        Some(_) => room.monsters.len() - 1,
        None => room.monsters.len(),
    };
    let is_boss_room = room.room_type == RoomType::Boss;
    if template.boss_only && !is_boss_room {
        return Some(PlacementRefusal::BossOnly);
    }
    let capacity = room_capacity(room);
    let has_boss = throne_held(room, cat, skip);
    if template.boss_only && has_boss {
        return Some(PlacementRefusal::BossSet);
    }
    if is_boss_room && !template.boss_only && !has_boss && held >= capacity - 1 {
        return Some(PlacementRefusal::Reserved);
    }
    if held >= capacity {
        Some(PlacementRefusal::Full)
    } else {
        None
    }
}

/// Why a monster called `monster_name` cannot take a free slot of `room`.
pub fn placement_refusal(room: &Room, cat: &Catalog, monster_name: &str) -> (r: Option<PlacementRefusal>)
    ensures
        r == refusal(*room, *cat, monster_name@),
{
    refusal_without(room, cat, monster_name, None)
}

/// The label a refusal shows on a placement button.
pub open spec fn refusal_label(why: PlacementRefusal) -> Seq<char> {
    match why {
        PlacementRefusal::BossOnly => "Boss only"@,
        PlacementRefusal::BossSet => "Boss set"@,
        PlacementRefusal::Reserved => "Reserved"@,
        PlacementRefusal::Full => "Full"@,
    }
}

/// Why an armed monster cannot take a free room slot, as a button label.
/// Boss rooms reserve their final ordinary slot for one boss-only defender
/// until that throne is filled.
pub fn monster_placement_refusal(room: &Room, cat: &Catalog, monster_name: &str) -> (r: Option<&'static str>)
    ensures
        r is Some <==> refusal(*room, *cat, monster_name@) is Some,
        r is Some ==> r->0@ == refusal_label(refusal(*room, *cat, monster_name@)->0),
{
    match placement_refusal(room, cat, monster_name) {
        Some(PlacementRefusal::BossOnly) => Some("Boss only"),
        Some(PlacementRefusal::BossSet) => Some("Boss set"),
        Some(PlacementRefusal::Reserved) => Some("Reserved"),
        Some(PlacementRefusal::Full) => Some("Full"),
        None => None,
    }
}

/// `r` carries, in order, one fresh trait instance per trait id, named from
/// the catalog.
pub open spec fn traits_from(r: Seq<ActiveTrait>, ids: Seq<String>, cat: Catalog) -> bool {
    &&& r.len() == ids.len()
    &&& forall|i: int|
        0 <= i < ids.len() ==> #[trigger] r[i].id@ == ids[i]@ && r[i].name@ == cat.trait_name(ids[i]@)
            && r[i].cooldown_timer == 0
}

/// Fresh trait instances for a template's trait ids.
pub fn build_traits(cat: &Catalog, ids: &Vec<String>) -> (r: Vec<ActiveTrait>)
    ensures
        traits_from(r@, ids@, *cat),
{
    let mut out: Vec<ActiveTrait> = Vec::new();
    let mut i: usize = 0;
    while i < ids.len()
        invariant
            0 <= i <= ids.len(),
            out@.len() == i,
            forall|j: int|
                0 <= j < i ==> #[trigger] out@[j].id@ == ids@[j]@ && out@[j].name@ == cat.trait_name(
                    ids@[j]@,
                ) && out@[j].cooldown_timer == 0,
        decreases ids.len() - i,
    {
        let name = cat.get_trait_name(&ids[i]);
        out.push(ActiveTrait { id: ids[i].clone(), name, cooldown_timer: 0 });
        i = i + 1;
    }
    out
}

/// A template's base stats.
pub open spec fn base_stats(t: MonsterTemplate) -> Stats {
    Stats { hp: t.hp, attack: t.attack, defense: t.defense }
}

/// `m` is a freshly summoned monster of template `t` with identity `id`,
/// scaled for `floor` and whether it holds a Boss room.
pub open spec fn summoned(m: Monster, id: u64, t: MonsterTemplate, cat: Catalog, floor: i32, is_boss: bool) -> bool {
    let stats = scaled_stats(base_stats(t), floor as int, is_boss);
    &&& m.id == id
    &&& m.kind@ == t.name@
    &&& m.hp == stats.hp
    &&& m.max_hp == stats.hp
    &&& m.alive
    &&& m.is_boss == is_boss
    &&& m.fusion_rank == 1
    &&& m.scaled_stats == stats
    &&& traits_from(m.active_traits@, t.traits@, cat)
}

/// What `place_monster` answers for these arguments.
pub open spec fn place_result(s: GameState, cat: Catalog, floor_num: i32, room_pos: usize, name: Seq<char>) -> Result<(), DungeonError> {
    if !cat.has_monster(name) {
        Err(DungeonError::UnknownMonster)
    } else {
        let t = cat.monster_of(name);
        if !names_contain(s.unlocked_species@, t.species@) {
            Err(DungeonError::SpeciesLocked)
        } else if !names_contain(s.unlocked_monsters@, t.name@) {
            Err(DungeonError::MonsterLocked)
        } else if !s.has_floor(floor_num) {
            Err(DungeonError::FloorNotFound)
        } else {
            let floor = s.floors[s.floor_index(floor_num)];
            if !floor.has_room(room_pos) {
                Err(DungeonError::RoomNotFound)
            } else {
                let room = floor.room_of(room_pos);
                let is_boss = room.room_type == RoomType::Boss;
                let cost = monster_mana_cost(t.base_cost as int, floor_num as int, is_boss && !t.boss_only);
                if room.room_type == RoomType::Entrance || room.room_type == RoomType::Core {
                    Err(DungeonError::NotBuildable)
                } else if t.boss_only && !is_boss {
                    Err(DungeonError::BossRoomOnly)
                } else if refusal(room, cat, name) is Some {
                    Err(DungeonError::Refused { why: refusal(room, cat, name)->0 })
                } else if s.mana < cost {
                    Err(DungeonError::NotEnoughMana { need: cost as i32 })
                } else if s.souls < t.souls_cost {
                    Err(DungeonError::NotEnoughSouls { need: t.souls_cost })
                } else {
                    Ok(())
                }
            }
        }
    }
}

/// Place a monster in a room: the species and form must be unlocked, the room
/// must take defenders and have a free slot for this one, and the keeper must
/// afford its mana (doubled in a Boss room, unless it is a boss-only unique)
/// and souls. The newcomer is scaled for the floor and joins the room's end.
pub fn place_monster(
    state: &mut GameState,
    cat: &Catalog,
    floor_num: i32,
    room_pos: usize,
    monster_name: &str,
) -> (r: Result<(), DungeonError>)
    requires
        cat.wf(),
        floor_num <= FLOOR_LIMIT,
        old(state).next_id < u64::MAX,
    ensures
        r == place_result(*old(state), *cat, floor_num, room_pos, monster_name@),
        r is Err ==> *final(state) == *old(state),
        r is Ok ==> {
            let s = *old(state);
            let fi = s.floor_index(floor_num);
            let ri = s.floors[fi].room_index(room_pos);
            let t = cat.monster_of(monster_name@);
            let room = s.floors[fi].rooms[ri];
            let is_boss = room.room_type == RoomType::Boss;
            let cost = monster_mana_cost(t.base_cost as int, floor_num as int, is_boss && !t.boss_only) as i32;
            let monsters = final(state).floors[fi].rooms[ri].monsters@;
            &&& only_room_changed(s.floors@, final(state).floors@, fi, ri)
            &&& monsters.len() == room.monsters.len() + 1
            &&& monsters.drop_last() == room.monsters@
            &&& summoned(monsters.last(), s.next_id, t, *cat, floor_num, is_boss)
            &&& final(state).log@ == s.log@.push(LogEntry::MonsterSpawned {
                name: final(state).log@.last()->MonsterSpawned_name,
                boss: is_boss,
                floor: floor_num,
                room: room_pos,
                cost,
            })
            &&& final(state).log@.last()->MonsterSpawned_name@ == monster_name@
            &&& *final(state) == (GameState {
                mana: (s.mana - cost) as i32,
                souls: (s.souls - t.souls_cost) as i32,
                next_id: (s.next_id + 1) as u64,
                floors: final(state).floors,
                log: final(state).log,
                ..s
            })
        },
{
    let t_idx = match cat.monster_index(monster_name) {
        Some(i) => i,
        None => return Err(DungeonError::UnknownMonster),
    };
    let template = &cat.monsters[t_idx];
    proof {
        assert(cat.monsters[t_idx as int].wf());
    }
    if !contains_name(&state.unlocked_species, template.species.as_str()) {
        return Err(DungeonError::SpeciesLocked);
    }
    if !contains_name(&state.unlocked_monsters, template.name.as_str()) {
        return Err(DungeonError::MonsterLocked);
    }
    let fi = match state.floor_idx(floor_num) {
        Some(fi) => fi,
        None => return Err(DungeonError::FloorNotFound),
    };
    let ri = match state.floors[fi].room_idx(room_pos) {
        Some(ri) => ri,
        None => return Err(DungeonError::RoomNotFound),
    };
    let room = &state.floors[fi].rooms[ri];
    if room.room_type == RoomType::Entrance || room.room_type == RoomType::Core {
        return Err(DungeonError::NotBuildable);
    }
    let is_boss = room.room_type == RoomType::Boss;
    if template.boss_only && !is_boss {
        return Err(DungeonError::BossRoomOnly);
    }
    match placement_refusal(room, cat, monster_name) {
        Some(why) => return Err(DungeonError::Refused { why }),
        None => {},
    }
    let boss_surcharge = is_boss && !template.boss_only;
    let cost = get_monster_mana_cost(template.base_cost, floor_num, boss_surcharge);
    if state.mana < cost {
        return Err(DungeonError::NotEnoughMana { need: cost });
    }
    if state.souls < template.souls_cost {
        return Err(DungeonError::NotEnoughSouls { need: template.souls_cost });
    }
    state.mana = state.mana - cost;
    state.souls = state.souls - template.souls_cost;
    let scaled = get_scaled_stats(
        Stats { hp: template.hp, attack: template.attack, defense: template.defense },
        floor_num,
        is_boss,
    );
    let active_traits = build_traits(cat, &template.traits);
    let id = state.next_id;
    state.next_id = state.next_id + 1;
    let monster = Monster {
        id,
        kind: template.name.clone(),
        hp: scaled.hp,
        max_hp: scaled.hp,
        alive: true,
        is_boss,
        fusion_rank: 1,
        scaled_stats: scaled,
        active_traits,
    };
    let ghost before = state.floors[fi as int].rooms[ri as int].monsters@;
    state.floors[fi].rooms[ri].monsters.push(monster);
    proof {
        assert(state.floors[fi as int].rooms[ri as int].monsters@.drop_last() =~= before);
    }
    state.log.push(LogEntry::MonsterSpawned {
        name: monster_name.to_owned(),
        boss: is_boss,
        floor: floor_num,
        room: room_pos,
        cost,
    });
    Ok(())
}


/// Mana refunded for dismissing a defender of `kind` from `room` on floor
/// `floor_num`: half of what summoning it there costs (nothing for a kind the
/// tables do not know). Souls are spent essence and stay spent.
pub open spec fn refund_of(cat: Catalog, kind: Seq<char>, floor_num: i32, room: Room) -> int {
    if cat.has_monster(kind) {
        let t = cat.monster_of(kind);
        monster_mana_cost(
            t.base_cost as int,
            floor_num as int,
            room.room_type == RoomType::Boss && !t.boss_only,
        ) / 2
    } else {
        0
    }
}

/// The smaller of two integers.
pub open spec fn min_int(a: int, b: int) -> int {
    if a <= b {
        a
    } else {
        b
    }
}

/// What `remove_monster` answers for these arguments.
pub open spec fn remove_result(s: GameState, floor_num: i32, room_pos: usize, id: u64) -> Result<(), DungeonError> {
    if s.adventurer_parties.len() > 0 {
        Err(DungeonError::RaidInProgress)
    } else if !s.has_floor(floor_num) {
        Err(DungeonError::FloorNotFound)
    } else if !s.floors[s.floor_index(floor_num)].has_room(room_pos) {
        Err(DungeonError::RoomNotFound)
    } else if !s.floors[s.floor_index(floor_num)].room_of(room_pos).holds_monster(id) {
        Err(DungeonError::MonsterNotFound)
    } else {
        Ok(())
    }
}

/// Dismiss a placed defender between raids, refunding half its summon mana
/// (never past the core's capacity).
pub fn remove_monster(
    state: &mut GameState,
    cat: &Catalog,
    floor_num: i32,
    room_pos: usize,
    monster_id: u64,
) -> (r: Result<(), DungeonError>)
    requires
        cat.wf(),
        floor_num <= FLOOR_LIMIT,
    ensures
        r == remove_result(*old(state), floor_num, room_pos, monster_id),
        r is Err ==> *final(state) == *old(state),
        r is Ok ==> {
            let s = *old(state);
            let fi = s.floor_index(floor_num);
            let ri = s.floors[fi].room_index(room_pos);
            let room = s.floors[fi].rooms[ri];
            let k = room.monster_slot(monster_id);
            let gone = room.monsters[k];
            let refund = refund_of(*cat, gone.kind@, floor_num, room);
            &&& only_room_changed(s.floors@, final(state).floors@, fi, ri)
            &&& final(state).floors[fi].rooms[ri].monsters@ == room.monsters@.remove(k)
            &&& final(state).log@ == s.log@.push(LogEntry::MonsterDismissed {
                name: final(state).log@.last()->MonsterDismissed_name,
                floor: floor_num,
                room: room_pos,
                refund: refund as i32,
            })
            &&& final(state).log@.last()->MonsterDismissed_name@ == gone.kind@
            &&& *final(state) == (GameState {
                mana: min_int(s.mana + refund, s.max_mana as int) as i32,
                floors: final(state).floors,
                log: final(state).log,
                ..s
            })
        },
{
    if state.adventurer_parties.len() > 0 {
        return Err(DungeonError::RaidInProgress);
    }
    let fi = match state.floor_idx(floor_num) {
        Some(fi) => fi,
        None => return Err(DungeonError::FloorNotFound),
    };
    let ri = match state.floors[fi].room_idx(room_pos) {
        Some(ri) => ri,
        None => return Err(DungeonError::RoomNotFound),
    };
    let k = match state.floors[fi].rooms[ri].monster_idx(monster_id) {
        Some(k) => k,
        None => return Err(DungeonError::MonsterNotFound),
    };
    let ghost before = state.floors[fi as int].rooms[ri as int];
    let monster = state.floors[fi].rooms[ri].monsters.remove(k);
    let refund: i32 = match cat.monster_index(monster.kind.as_str()) {
        Some(t) => {
            proof {
                assert(cat.monsters[t as int].wf());
            }
            let template = &cat.monsters[t];
            let boss_surcharge = state.floors[fi].rooms[ri].room_type == RoomType::Boss
                && !template.boss_only;
            get_monster_mana_cost(template.base_cost, floor_num, boss_surcharge) / 2
        },
        None => 0,
    };
    let topped: i64 = state.mana as i64 + refund as i64;
    state.mana = if topped <= state.max_mana as i64 {
        topped as i32
    } else {
        state.max_mana
    };
    state.log.push(LogEntry::MonsterDismissed {
        name: monster.kind,
        floor: floor_num,
        room: room_pos,
        refund,
    });
    proof {
        assert(state.floors[fi as int].rooms[ri as int].same_but_monsters(before));
    }
    Ok(())
}


/// Defenders of this kind rise again for free and whole.
pub open spec fn undead_kind(cat: Catalog, kind: Seq<char>) -> bool {
    cat.has_monster(kind) && cat.monster_of(kind).undead
}

/// Mana to reknit a fallen living defender of this kind: half its base
/// summon cost (nothing for a kind the tables do not know).
pub open spec fn respawn_cost(cat: Catalog, kind: Seq<char>) -> int {
    if cat.has_monster(kind) {
        cat.monster_of(kind).base_cost / 2
    } else {
        0
    }
}

/// The health a living defender crawls back with when mana runs short: half
/// its maximum, but never less than one.
pub open spec fn wounded_hp(max_hp: i32) -> i32 {
    if max_hp >= 2 {
        (max_hp / 2) as i32
    } else {
        1
    }
}

/// A running count of a respawn: the mana left, and how many defenders rose
/// free, were paid for, and came back wounded.
pub struct Tally {
    pub mana: i32,
    pub free: u64,
    pub paid: u64,
    pub wounded: u64,
}

impl View for Tally {
    type V = (int, int, int, int);

    open spec fn view(&self) -> (int, int, int, int) {
        (self.mana as int, self.free as int, self.paid as int, self.wounded as int)
    }
}

/// How many defenders a tally has raised.
pub open spec fn raised(t: (int, int, int, int)) -> int {
    t.1 + t.2 + t.3
}

/// What becomes of defender `m` when `mana` is left for the respawn.
pub open spec fn revived(m: Monster, cat: Catalog, mana: int) -> Monster {
    if m.alive {
        m
    } else if undead_kind(cat, m.kind@) || mana >= respawn_cost(cat, m.kind@) {
        Monster { hp: m.max_hp, alive: true, ..m }
    } else {
        Monster { hp: wounded_hp(m.max_hp), alive: true, ..m }
    }
}

/// The tally after defender `m` had its turn.
pub open spec fn tally_step(m: Monster, cat: Catalog, t: (int, int, int, int)) -> (int, int, int, int) {
    if m.alive {
        t
    } else if undead_kind(cat, m.kind@) {
        (t.0, t.1 + 1, t.2, t.3)
    } else if t.0 >= respawn_cost(cat, m.kind@) {
        (t.0 - respawn_cost(cat, m.kind@), t.1, t.2 + 1, t.3)
    } else {
        (t.0, t.1, t.2, t.3 + 1)
    }
}

/// The tally after these defenders, in order, had their turn.
pub open spec fn tally_monsters(ms: Seq<Monster>, cat: Catalog, t: (int, int, int, int)) -> (int, int, int, int)
    decreases ms.len(),
{
    if ms.len() == 0 {
        t
    } else {
        tally_step(ms.last(), cat, tally_monsters(ms.drop_last(), cat, t))
    }
}

/// The tally after the defenders of these rooms, in order, had their turn.
pub open spec fn tally_rooms(rooms: Seq<Room>, cat: Catalog, t: (int, int, int, int)) -> (int, int, int, int)
    decreases rooms.len(),
{
    if rooms.len() == 0 {
        t
    } else {
        tally_monsters(rooms.last().monsters@, cat, tally_rooms(rooms.drop_last(), cat, t))
    }
}

/// The tally after the defenders of these floors, in order, had their turn.
pub open spec fn tally_floors(floors: Seq<Floor>, cat: Catalog, t: (int, int, int, int)) -> (int, int, int, int)
    decreases floors.len(),
{
    if floors.len() == 0 {
        t
    } else {
        tally_rooms(floors.last().rooms@, cat, tally_floors(floors.drop_last(), cat, t))
    }
}

/// How many defenders these rooms hold.
pub open spec fn defenders_rooms(rooms: Seq<Room>) -> int
    decreases rooms.len(),
{
    if rooms.len() == 0 {
        0
    } else {
        defenders_rooms(rooms.drop_last()) + rooms.last().monsters.len()
    }
}

/// How many defenders these floors hold.
pub open spec fn defenders_in(floors: Seq<Floor>) -> int
    decreases floors.len(),
{
    if floors.len() == 0 {
        0
    } else {
        defenders_in(floors.drop_last()) + defenders_rooms(floors.last().rooms@)
    }
}

proof fn lemma_defenders_rooms_prefix(rooms: Seq<Room>, i: int)
    requires
        0 <= i <= rooms.len(),
    ensures
        0 <= defenders_rooms(rooms.take(i)) <= defenders_rooms(rooms),
    decreases rooms.len() - i,
{
    if i < rooms.len() {
        lemma_defenders_rooms_prefix(rooms, i + 1);
        assert(rooms.take(i + 1).drop_last() =~= rooms.take(i));
        lemma_defenders_rooms_nonneg(rooms.take(i));
    } else {
        assert(rooms.take(i) =~= rooms);
        lemma_defenders_rooms_nonneg(rooms);
    }
}

proof fn lemma_defenders_rooms_nonneg(rooms: Seq<Room>)
    ensures
        defenders_rooms(rooms) >= 0,
    decreases rooms.len(),
{
    if rooms.len() > 0 {
        lemma_defenders_rooms_nonneg(rooms.drop_last());
    }
}

proof fn lemma_defenders_in_prefix(floors: Seq<Floor>, i: int)
    requires
        0 <= i <= floors.len(),
    ensures
        0 <= defenders_in(floors.take(i)) <= defenders_in(floors),
    decreases floors.len() - i,
{
    if i < floors.len() {
        lemma_defenders_in_prefix(floors, i + 1);
        assert(floors.take(i + 1).drop_last() =~= floors.take(i));
        lemma_defenders_rooms_nonneg(floors[i].rooms@);
        lemma_defenders_in_nonneg(floors.take(i));
    } else {
        assert(floors.take(i) =~= floors);
        lemma_defenders_in_nonneg(floors);
    }
}

proof fn lemma_defenders_in_nonneg(floors: Seq<Floor>)
    ensures
        defenders_in(floors) >= 0,
    decreases floors.len(),
{
    if floors.len() > 0 {
        lemma_defenders_in_nonneg(floors.drop_last());
        lemma_defenders_rooms_nonneg(floors.last().rooms@);
    }
}

/// The tally mana never grows, and a respawn that starts solvent stays so.
pub open spec fn tally_sound(before: (int, int, int, int), after: (int, int, int, int)) -> bool {
    &&& after.0 <= before.0
    &&& before.0 >= 0 ==> after.0 >= 0
    &&& before.0 < 0 ==> after.0 == before.0
}

/// `after` is room `before` once each of its defenders, in order, had its
/// turn to rise, the respawn arriving with tally `t`.
pub open spec fn room_revived(after: Room, before: Room, cat: Catalog, t: (int, int, int, int)) -> bool {
    &&& after.same_but_monsters(before)
    &&& after.monsters.len() == before.monsters.len()
    &&& forall|k: int|
        0 <= k < before.monsters.len() ==> #[trigger] after.monsters[k] == revived(
            before.monsters[k],
            cat,
            tally_monsters(before.monsters@.take(k), cat, t).0,
        )
}

/// `after` is floor `before` once each of its rooms, in order, had its
/// defenders rise, the respawn arriving with tally `t`.
pub open spec fn floor_revived(after: Floor, before: Floor, cat: Catalog, t: (int, int, int, int)) -> bool {
    &&& after.id == before.id
    &&& after.number == before.number
    &&& after.is_deepest == before.is_deepest
    &&& after.rooms.len() == before.rooms.len()
    &&& forall|r: int|
        0 <= r < before.rooms.len() ==> room_revived(
            #[trigger] after.rooms[r],
            before.rooms[r],
            cat,
            tally_rooms(before.rooms@.take(r), cat, t),
        )
}

/// `after` is the dungeon's floors `before` once each defender, floor by
/// floor and room by room, had its turn to rise, starting from tally `t`.
pub open spec fn floors_revived(after: Seq<Floor>, before: Seq<Floor>, cat: Catalog, t: (int, int, int, int)) -> bool {
    &&& after.len() == before.len()
    &&& forall|f: int|
        0 <= f < before.len() ==> floor_revived(
            #[trigger] after[f],
            before[f],
            cat,
            tally_floors(before.take(f), cat, t),
        )
}

/// Give every defender of `room`, in order, its turn to rise.
fn revive_room(room: &mut Room, cat: &Catalog, t: &mut Tally)
    requires
        cat.wf(),
        raised(old(t)@) + old(room).monsters.len() <= u64::MAX,
    ensures
        room_revived(*final(room), *old(room), *cat, old(t)@),
        final(t)@ == tally_monsters(old(room).monsters@, *cat, old(t)@),
        raised(final(t)@) <= raised(old(t)@) + old(room).monsters.len(),
        tally_sound(old(t)@, final(t)@),
{
    let ghost orig = *room;
    let ghost t0 = t@;
    let mut k: usize = 0;
    while k < room.monsters.len()
        invariant
            cat.wf(),
            0 <= k <= room.monsters.len(),
            room.monsters.len() == orig.monsters.len(),
            room.same_but_monsters(orig),
            forall|j: int|
                0 <= j < k ==> #[trigger] room.monsters[j] == revived(
                    orig.monsters[j],
                    *cat,
                    tally_monsters(orig.monsters@.take(j), *cat, t0).0,
                ),
            forall|j: int| k <= j < room.monsters.len() ==> #[trigger] room.monsters[j] == orig.monsters[j],
            t@ == tally_monsters(orig.monsters@.take(k as int), *cat, t0),
            raised(t@) <= raised(t0) + k,
            raised(t0) + orig.monsters.len() <= u64::MAX,
            tally_sound(t0, t@),
        decreases room.monsters.len() - k,
    {
        proof {
            assert(orig.monsters@.take(k + 1).drop_last() =~= orig.monsters@.take(k as int));
        }
        if !room.monsters[k].alive {
            let (undead, cost) = match cat.monster_index(room.monsters[k].kind.as_str()) {
                Some(ti) => {
                    proof {
                        assert(cat.monsters[ti as int].wf());
                    }
                    (cat.monsters[ti].undead, cat.monsters[ti].base_cost / 2)
                },
                None => (false, 0),
            };
            if undead {
                room.monsters[k].hp = room.monsters[k].max_hp;
                room.monsters[k].alive = true;
                t.free = t.free + 1;
            } else if t.mana >= cost {
                t.mana = t.mana - cost;
                room.monsters[k].hp = room.monsters[k].max_hp;
                room.monsters[k].alive = true;
                t.paid = t.paid + 1;
            } else {
                let max_hp = room.monsters[k].max_hp;
                room.monsters[k].hp = if max_hp >= 2 { max_hp / 2 } else { 1 };
                room.monsters[k].alive = true;
                t.wounded = t.wounded + 1;
            }
        }
        k = k + 1;
    }
    proof {
        assert(orig.monsters@.take(k as int) =~= orig.monsters@);
    }
}


/// Give every room of `floor`, in order, its respawn.
fn revive_floor(floor: &mut Floor, cat: &Catalog, t: &mut Tally)
    requires
        cat.wf(),
        raised(old(t)@) + defenders_rooms(old(floor).rooms@) <= u64::MAX,
    ensures
        floor_revived(*final(floor), *old(floor), *cat, old(t)@),
        final(t)@ == tally_rooms(old(floor).rooms@, *cat, old(t)@),
        raised(final(t)@) <= raised(old(t)@) + defenders_rooms(old(floor).rooms@),
        tally_sound(old(t)@, final(t)@),
{
    let ghost orig = *floor;
    let ghost t0 = t@;
    let mut r: usize = 0;
    while r < floor.rooms.len()
        invariant
            cat.wf(),
            0 <= r <= floor.rooms.len(),
            floor.rooms.len() == orig.rooms.len(),
            floor.id == orig.id,
            floor.number == orig.number,
            floor.is_deepest == orig.is_deepest,
            forall|j: int|
                0 <= j < r ==> room_revived(
                    #[trigger] floor.rooms[j],
                    orig.rooms[j],
                    *cat,
                    tally_rooms(orig.rooms@.take(j), *cat, t0),
                ),
            forall|j: int| r <= j < floor.rooms.len() ==> #[trigger] floor.rooms[j] == orig.rooms[j],
            t@ == tally_rooms(orig.rooms@.take(r as int), *cat, t0),
            raised(t@) <= raised(t0) + defenders_rooms(orig.rooms@.take(r as int)),
            raised(t0) + defenders_rooms(orig.rooms@) <= u64::MAX,
            tally_sound(t0, t@),
        decreases floor.rooms.len() - r,
    {
        proof {
            assert(orig.rooms@.take(r + 1).drop_last() =~= orig.rooms@.take(r as int));
            lemma_defenders_rooms_prefix(orig.rooms@, r + 1);
        }
        revive_room(&mut floor.rooms[r], cat, t);
        r = r + 1;
    }
    proof {
        assert(orig.rooms@.take(r as int) =~= orig.rooms@);
    }
}

/// The tally a respawn of these floors ends with, starting from `mana`.
pub open spec fn respawn_tally(floors: Seq<Floor>, cat: Catalog, mana: i32) -> (int, int, int, int) {
    tally_floors(floors, cat, (mana as int, 0, 0, 0))
}

/// `t` is `s` once its fallen defenders had their respawn, which spent
/// `spent` mana: nothing happens while adventurers are inside; otherwise
/// every defender rises in turn as `floors_revived` tells, the mana left is
/// the tally's, and the respawn is chronicled when anyone rose.
pub open spec fn respawn_outcome(s: GameState, cat: Catalog, t: GameState, spent: i32) -> bool {
    if s.adventurer_parties.len() > 0 {
        spent == 0 && t == s
    } else {
        let end = respawn_tally(s.floors@, cat, s.mana);
        &&& floors_revived(t.floors@, s.floors@, cat, (s.mana as int, 0, 0, 0))
        &&& spent == s.mana - end.0
        &&& t.log@ == if raised(end) > 0 {
            s.log@.push(
                LogEntry::DefendersRespawned { free: end.1 as u64, paid: end.2 as u64, wounded: end.3 as u64 },
            )
        } else {
            s.log@
        }
        &&& t == (GameState { mana: end.0 as i32, floors: t.floors, log: t.log, ..s })
    }
}

/// Raise every fallen defender, but only while no adventurers are inside.
/// The undead rise again for free and whole; the living are reknit with mana
/// (half their base summon cost) while it lasts, floor by floor and room by
/// room, and otherwise crawl back wounded at half health. Returns the mana
/// spent, and chronicles the respawn when anyone rose.
pub fn respawn_monsters(state: &mut GameState, cat: &Catalog) -> (spent: i32)
    requires
        cat.wf(),
        defenders_in(old(state).floors@) <= u64::MAX,
    ensures
        respawn_outcome(*old(state), *cat, *final(state), spent),
{
    if state.adventurer_parties.len() > 0 {
        return 0;
    }
    let ghost orig = state.floors@;
    let mut t = Tally { mana: state.mana, free: 0, paid: 0, wounded: 0 };
    let ghost t0 = t@;
    let mut f: usize = 0;
    while f < state.floors.len()
        invariant
            cat.wf(),
            0 <= f <= state.floors.len(),
            state.floors.len() == orig.len(),
            t0 == (old(state).mana as int, 0int, 0int, 0int),
            forall|j: int|
                0 <= j < f ==> floor_revived(
                    #[trigger] state.floors[j],
                    orig[j],
                    *cat,
                    tally_floors(orig.take(j), *cat, t0),
                ),
            forall|j: int| f <= j < state.floors.len() ==> #[trigger] state.floors[j] == orig[j],
            t@ == tally_floors(orig.take(f as int), *cat, t0),
            raised(t@) <= defenders_in(orig.take(f as int)),
            defenders_in(orig) <= u64::MAX,
            tally_sound(t0, t@),
            state.mana == old(state).mana,
            state.log == old(state).log,
            *state == (GameState { floors: state.floors, ..*old(state) }),
        decreases state.floors.len() - f,
    {
        proof {
            assert(orig.take(f + 1).drop_last() =~= orig.take(f as int));
            lemma_defenders_in_prefix(orig, f + 1);
        }
        revive_floor(&mut state.floors[f], cat, &mut t);
        f = f + 1;
    }
    proof {
        assert(orig.take(f as int) =~= orig);
    }
    let spent = state.mana - t.mana;
    state.mana = t.mana;
    if t.free + t.paid + t.wounded > 0 {
        state.log.push(LogEntry::DefendersRespawned { free: t.free, paid: t.paid, wounded: t.wounded });
    }
    proof {
        assert(floors_revived(state.floors@, orig, *cat, t0));
    }
    spent
}


/// The starter forms of `species` among these templates, in table order, that
/// are not already in `have` (each name once).
pub open spec fn starter_forms(ms: Seq<MonsterTemplate>, species: Seq<char>, have: Seq<String>) -> Seq<String>
    decreases ms.len(),
{
    if ms.len() == 0 {
        Seq::empty()
    } else {
        let prior = starter_forms(ms.drop_last(), species, have);
        let t = ms.last();
        if t.species@ == species && t.starter && !names_contain(have + prior, t.name@) {
            prior.push(t.name)
        } else {
            prior
        }
    }
}

/// What unlocking `species` costs: starter species are free for the first pick.
pub open spec fn species_cost(s: GameState, cat: Catalog, species: Seq<char>) -> int {
    let data = cat.species_of(species);
    if s.unlocked_species.len() == 0 && data.starter {
        0
    } else {
        data.unlock_cost as int
    }
}

/// The forms unlocking `species` makes summonable: its starter templates, or
/// failing those its designated starting form, leaving out what is already known.
pub open spec fn forms_granted(s: GameState, cat: Catalog, species: Seq<char>) -> Seq<String> {
    let starters = starter_forms(cat.monsters@, species, s.unlocked_monsters@);
    let fallback = cat.species_of(species).starting_monster;
    if starters.len() > 0 {
        starters
    } else if fallback is Some && !names_contain(s.unlocked_monsters@, fallback->0@) {
        seq![fallback->0]
    } else {
        Seq::empty()
    }
}

/// What `unlock_species` answers for these arguments.
pub open spec fn unlock_result(s: GameState, cat: Catalog, species: Seq<char>) -> Result<(), DungeonError> {
    if names_contain(s.unlocked_species@, species) {
        Err(DungeonError::AlreadyUnlocked)
    } else if !cat.has_species(species) {
        Err(DungeonError::UnknownSpecies)
    } else if species_cost(s, cat, species) != 0 && s.gold < species_cost(s, cat, species) {
        Err(DungeonError::NotEnoughGold { need: species_cost(s, cat, species) as i32 })
    } else {
        Ok(())
    }
}

/// Unlock a monster species for its gold price (free for a starter species
/// picked first), making its starter forms summonable.
pub fn unlock_species(state: &mut GameState, cat: &Catalog, species_name: &str) -> (r: Result<(), DungeonError>)
    requires
        cat.wf(),
    ensures
        r == unlock_result(*old(state), *cat, species_name@),
        r is Err ==> *final(state) == *old(state),
        r is Ok ==> {
            let s = *old(state);
            let cost = species_cost(s, *cat, species_name@);
            let forms = forms_granted(s, *cat, species_name@);
            let entry = final(state).log@.last();
            &&& final(state).unlocked_species@.len() == s.unlocked_species@.len() + 1
            &&& final(state).unlocked_species@.drop_last() == s.unlocked_species@
            &&& final(state).unlocked_species@.last()@ == species_name@
            &&& final(state).unlocked_monsters@ == s.unlocked_monsters@ + forms
            &&& final(state).log@.len() == s.log@.len() + 1
            &&& final(state).log@.drop_last() == s.log@
            &&& entry matches LogEntry::SpeciesUnlocked { species, cost: c, forms: f }
                && species@ == species_name@ && c == cost && f@ == forms
            &&& *final(state) == (GameState {
                gold: (s.gold - cost) as i32,
                unlocked_species: final(state).unlocked_species,
                unlocked_monsters: final(state).unlocked_monsters,
                log: final(state).log,
                ..s
            })
        },
{
    if contains_name(&state.unlocked_species, species_name) {
        return Err(DungeonError::AlreadyUnlocked);
    }
    let si = match cat.species_index(species_name) {
        Some(si) => si,
        None => return Err(DungeonError::UnknownSpecies),
    };
    let data = &cat.species[si];
    let unlock_cost = if state.unlocked_species.len() == 0 && data.starter {
        0
    } else {
        data.unlock_cost
    };
    if unlock_cost != 0 {
        if state.gold < unlock_cost {
            return Err(DungeonError::NotEnoughGold { need: unlock_cost });
        }
        state.gold = state.gold - unlock_cost;
    }
    state.unlocked_species.push(species_name.to_owned());
    let ghost have = state.unlocked_monsters@;
    let key = species_name.to_owned();
    let mut unlocked_now: Vec<String> = Vec::new();
    let mut i: usize = 0;
    while i < cat.monsters.len()
        invariant
            0 <= i <= cat.monsters.len(),
            key@ == species_name@,
            unlocked_now@ == starter_forms(cat.monsters@.take(i as int), species_name@, have),
            state.unlocked_monsters@ == have + unlocked_now@,
            state.unlocked_species@ == old(state).unlocked_species@.push(state.unlocked_species@.last()),
            state.unlocked_species@.last()@ == species_name@,
            state.gold == old(state).gold - species_cost(*old(state), *cat, species_name@),
            !names_contain(old(state).unlocked_species@, species_name@),
            cat.has_species(species_name@),
            data == cat.species_of(species_name@),
            unlock_cost == species_cost(*old(state), *cat, species_name@),
            state.unlocked_species@.len() == old(state).unlocked_species@.len() + 1,
            *state == (GameState {
                gold: state.gold,
                unlocked_species: state.unlocked_species,
                unlocked_monsters: state.unlocked_monsters,
                ..*old(state)
            }),
        decreases cat.monsters.len() - i,
    {
        proof {
            assert(cat.monsters@.take(i + 1).drop_last() =~= cat.monsters@.take(i as int));
        }
        let t = &cat.monsters[i];
        if t.species == key && t.starter && !contains_name(
            &state.unlocked_monsters,
            t.name.as_str(),
        ) {
            state.unlocked_monsters.push(t.name.clone());
            unlocked_now.push(t.name.clone());
        }
        i = i + 1;
    }
    proof {
        assert(cat.monsters@.take(i as int) =~= cat.monsters@);
    }
    if unlocked_now.len() == 0 {
        match &data.starting_monster {
            Some(m) => {
                if !contains_name(&state.unlocked_monsters, m.as_str()) {
                    state.unlocked_monsters.push(m.clone());
                    unlocked_now.push(m.clone());
                }
            },
            None => {},
        }
    }
    proof {
        assert(state.unlocked_monsters@ =~= have + unlocked_now@);
    }
    state.log.push(
        LogEntry::SpeciesUnlocked { species: species_name.to_owned(), cost: unlock_cost, forms: unlocked_now },
    );
    Ok(())
}


/// Health restored by a trait mending `pct` percent of `max_hp`, rounded up.
pub open spec fn heal_amount(max_hp: int, pct: int) -> int {
    (max_hp * pct + 99) / 100
}

/// A wounded defender's health after one healing trait: mended by the
/// trait's share, never past its maximum. A defender at full health is left
/// as it is.
pub open spec fn heal_step(hp: int, max_hp: int, pct: int) -> int {
    if hp < max_hp {
        min_int(hp + heal_amount(max_hp, pct), max_hp)
    } else {
        hp
    }
}

/// Health after each of these traits, in order, had its hourly effect.
pub open spec fn healed_hp(hp: int, max_hp: int, traits: Seq<ActiveTrait>, cat: Catalog) -> int
    decreases traits.len(),
{
    if traits.len() == 0 {
        hp
    } else {
        heal_step(healed_hp(hp, max_hp, traits.drop_last(), cat), max_hp, cat.heal_percent(traits.last().id@))
    }
}

/// A defender after one hour of its traits: the living mend, the undead and
/// the fallen do not.
pub open spec fn tended(m: Monster, cat: Catalog) -> Monster {
    if !m.alive || undead_kind(cat, m.kind@) {
        m
    } else {
        Monster { hp: healed_hp(m.hp as int, m.max_hp as int, m.active_traits@, cat) as i32, ..m }
    }
}

/// No defender of these rooms has a negative maximum health.
pub open spec fn rooms_sane(rooms: Seq<Room>) -> bool {
    forall|r: int, k: int|
        0 <= r < rooms.len() && 0 <= k < rooms[r].monsters.len() ==> #[trigger] rooms[r].monsters[k].max_hp
            >= 0
}

/// No defender of these floors has a negative maximum health.
pub open spec fn floors_sane(floors: Seq<Floor>) -> bool {
    forall|f: int| 0 <= f < floors.len() ==> rooms_sane(#[trigger] floors[f].rooms@)
}

/// `after` is room `before` once every defender had its hour.
pub open spec fn room_tended(after: Room, before: Room, cat: Catalog) -> bool {
    &&& after.same_but_monsters(before)
    &&& after.monsters.len() == before.monsters.len()
    &&& forall|k: int| 0 <= k < before.monsters.len() ==> #[trigger] after.monsters[k] == tended(before.monsters[k], cat)
}

/// `after` is floor `before` once every defender had its hour.
pub open spec fn floor_tended(after: Floor, before: Floor, cat: Catalog) -> bool {
    &&& after.id == before.id
    &&& after.number == before.number
    &&& after.is_deepest == before.is_deepest
    &&& after.rooms.len() == before.rooms.len()
    &&& forall|r: int| 0 <= r < before.rooms.len() ==> room_tended(#[trigger] after.rooms[r], before.rooms[r], cat)
}

/// Health restored by a trait mending `pct` percent of `max_hp`.
fn heal_for(max_hp: i32, pct: i32) -> (r: i64)
    requires
        max_hp >= 0,
        0 <= pct <= 100,
    ensures
        r == heal_amount(max_hp as int, pct as int),
        0 <= r <= max_hp,
{
    assert(0 <= max_hp as i64 * pct as i64 <= max_hp as i64 * 100) by (nonlinear_arith)
        requires
            0 <= max_hp,
            0 <= pct <= 100,
    ;
    (max_hp as i64 * pct as i64 + 99) / 100
}

/// Health after each of these traits, in order, had its hourly effect.
fn heal_through(hp: i32, max_hp: i32, traits: &Vec<ActiveTrait>, cat: &Catalog) -> (r: i32)
    requires
        cat.wf(),
        max_hp >= 0,
    ensures
        r == healed_hp(hp as int, max_hp as int, traits@, *cat),
{
    let mut cur = hp;
    let mut j: usize = 0;
    while j < traits.len()
        invariant
            cat.wf(),
            max_hp >= 0,
            0 <= j <= traits.len(),
            cur == healed_hp(hp as int, max_hp as int, traits@.take(j as int), *cat),
        decreases traits.len() - j,
    {
        proof {
            assert(traits@.take(j + 1).drop_last() =~= traits@.take(j as int));
        }
        let pct = cat.get_heal_percent(&traits[j].id);
        if cur < max_hp {
            let heal = heal_for(max_hp, pct);
            let mended: i64 = cur as i64 + heal;
            cur = if mended <= max_hp as i64 { mended as i32 } else { max_hp };
        }
        j = j + 1;
    }
    proof {
        assert(traits@.take(j as int) =~= traits@);
    }
    cur
}

/// Give every defender of `room` its hour.
fn tend_room(room: &mut Room, cat: &Catalog)
    requires
        cat.wf(),
        forall|k: int| 0 <= k < old(room).monsters.len() ==> #[trigger] old(room).monsters[k].max_hp >= 0,
    ensures
        room_tended(*final(room), *old(room), *cat),
{
    let ghost orig = *room;
    let mut k: usize = 0;
    while k < room.monsters.len()
        invariant
            cat.wf(),
            0 <= k <= room.monsters.len(),
            room.monsters.len() == orig.monsters.len(),
            room.same_but_monsters(orig),
            forall|j: int| 0 <= j < orig.monsters.len() ==> #[trigger] orig.monsters[j].max_hp >= 0,
            forall|j: int| 0 <= j < k ==> #[trigger] room.monsters[j] == tended(orig.monsters[j], *cat),
            forall|j: int| k <= j < room.monsters.len() ==> #[trigger] room.monsters[j] == orig.monsters[j],
        decreases room.monsters.len() - k,
    {
        if room.monsters[k].alive {
            let undead = match cat.monster_index(room.monsters[k].kind.as_str()) {
                Some(ti) => cat.monsters[ti].undead,
                None => false,
            };
            if !undead {
                let hp = heal_through(
                    room.monsters[k].hp,
                    room.monsters[k].max_hp,
                    &room.monsters[k].active_traits,
                    cat,
                );
                room.monsters[k].hp = hp;
            }
        }
        k = k + 1;
    }
}

/// Give every defender of `floor` its hour.
fn tend_floor(floor: &mut Floor, cat: &Catalog)
    requires
        cat.wf(),
        rooms_sane(old(floor).rooms@),
    ensures
        floor_tended(*final(floor), *old(floor), *cat),
{
    let ghost orig = *floor;
    let mut r: usize = 0;
    while r < floor.rooms.len()
        invariant
            cat.wf(),
            0 <= r <= floor.rooms.len(),
            floor.rooms.len() == orig.rooms.len(),
            floor.id == orig.id,
            floor.number == orig.number,
            floor.is_deepest == orig.is_deepest,
            rooms_sane(orig.rooms@),
            forall|j: int| 0 <= j < r ==> room_tended(#[trigger] floor.rooms[j], orig.rooms[j], *cat),
            forall|j: int| r <= j < floor.rooms.len() ==> #[trigger] floor.rooms[j] == orig.rooms[j],
        decreases floor.rooms.len() - r,
    {
        proof {
            assert forall|k: int| 0 <= k < orig.rooms[r as int].monsters.len() implies #[trigger] orig.rooms[r as int].monsters[k].max_hp >= 0 by {
                assert(orig.rooms@[r as int].monsters[k].max_hp >= 0);
            }
        }
        tend_room(&mut floor.rooms[r], cat);
        r = r + 1;
    }
}

/// One hour of trait effects: every living defender that is not undead is
/// mended by each of its healing traits in turn, never past its maximum
/// health. The undead do not mend, nor do the fallen.
pub fn process_hourly_traits(state: &mut GameState, cat: &Catalog)
    requires
        cat.wf(),
        floors_sane(old(state).floors@),
    ensures
        final(state).floors.len() == old(state).floors.len(),
        forall|f: int|
            0 <= f < old(state).floors.len() ==> floor_tended(
                #[trigger] final(state).floors[f],
                old(state).floors[f],
                *cat,
            ),
        *final(state) == (GameState { floors: final(state).floors, ..*old(state) }),
{
    let ghost orig = state.floors@;
    let mut f: usize = 0;
    while f < state.floors.len()
        invariant
            cat.wf(),
            0 <= f <= state.floors.len(),
            state.floors.len() == orig.len(),
            floors_sane(orig),
            forall|j: int| 0 <= j < f ==> floor_tended(#[trigger] state.floors[j], orig[j], *cat),
            forall|j: int| f <= j < state.floors.len() ==> #[trigger] state.floors[j] == orig[j],
            *state == (GameState { floors: state.floors, ..*old(state) }),
        decreases state.floors.len() - f,
    {
        proof {
            assert(rooms_sane(orig[f as int].rooms@));
        }
        tend_floor(&mut state.floors[f], cat);
        f = f + 1;
    }
}


/// Defender `m`, standing in a room of floor `floor_number`, fields line
/// `kind` deep enough for a form that wants `min_floor`.
pub open spec fn posts_line(m: Monster, floor_number: i32, kind: Seq<char>, min_floor: i32) -> bool {
    m.kind@ == kind && (min_floor <= 0 || floor_number >= min_floor)
}

/// Some defender of `room` fields line `kind` deep enough for `min_floor`.
pub open spec fn room_posts(room: Room, kind: Seq<char>, min_floor: i32) -> bool {
    exists|k: int| 0 <= k < room.monsters.len() && posts_line(#[trigger] room.monsters[k], room.floor_number, kind, min_floor)
}

/// The dungeon fields line `kind` deep enough for a form that wants
/// `min_floor`: some defender of that line, fallen or standing, holds a room
/// on that floor or deeper.
pub open spec fn fields_line(s: GameState, kind: Seq<char>, min_floor: i32) -> bool {
    exists|f: int, r: int|
        0 <= f < s.floors.len() && 0 <= r < s.floors[f].rooms.len() && room_posts(
            #[trigger] s.floors[f].rooms[r],
            kind,
            min_floor,
        )
}

/// The line of evolution path `p` has pooled enough experience and is posted
/// deep enough to learn its next form.
pub open spec fn path_earned(s: GameState, p: EvolutionPath) -> bool {
    &&& s.type_xp(p.from_monster@) >= p.experience_required
    &&& fields_line(s, p.from_monster@, p.min_floor)
}

/// The forms these evolution paths, in table order, newly unlock (each once,
/// and none the keeper already knows).
pub open spec fn new_variants(paths: Seq<EvolutionPath>, s: GameState) -> Seq<String>
    decreases paths.len(),
{
    if paths.len() == 0 {
        Seq::empty()
    } else {
        let prior = new_variants(paths.drop_last(), s);
        let p = paths.last();
        if path_earned(s, p) && !names_contain(s.unlocked_monsters@ + prior, p.to_monster@) {
            prior.push(p.to_monster)
        } else {
            prior
        }
    }
}

/// The chronicle line announcing a new form.
pub open spec fn variant_entry(name: String) -> LogEntry {
    LogEntry::VariantUnlocked { name }
}

fn room_fields(room: &Room, kind: &String, min_floor: i32) -> (r: bool)
    ensures
        r == room_posts(*room, kind@, min_floor),
{
    let deep_enough = min_floor <= 0 || room.floor_number >= min_floor;
    let mut k: usize = 0;
    while k < room.monsters.len()
        invariant
            0 <= k <= room.monsters.len(),
            deep_enough == (min_floor <= 0 || room.floor_number >= min_floor),
            forall|j: int| 0 <= j < k ==> !posts_line(#[trigger] room.monsters[j], room.floor_number, kind@, min_floor),
        decreases room.monsters.len() - k,
    {
        if deep_enough && room.monsters[k].kind == *kind {
            assert(posts_line(room.monsters[k as int], room.floor_number, kind@, min_floor));
            return true;
        }
        k = k + 1;
    }
    false
}

/// Does the dungeon field line `kind` deep enough for `min_floor`?
fn dungeon_fields(state: &GameState, kind: &String, min_floor: i32) -> (r: bool)
    ensures
        r == fields_line(*state, kind@, min_floor),
{
    let mut f: usize = 0;
    while f < state.floors.len()
        invariant
            0 <= f <= state.floors.len(),
            forall|g: int, r: int|
                0 <= g < f && 0 <= r < state.floors[g].rooms.len() ==> !room_posts(
                    #[trigger] state.floors[g].rooms[r],
                    kind@,
                    min_floor,
                ),
        decreases state.floors.len() - f,
    {
        let mut r: usize = 0;
        while r < state.floors[f].rooms.len()
            invariant
                0 <= f < state.floors.len(),
                0 <= r <= state.floors[f as int].rooms.len(),
                forall|g: int, q: int|
                    0 <= g < f && 0 <= q < state.floors[g].rooms.len() ==> !room_posts(
                        #[trigger] state.floors[g].rooms[q],
                        kind@,
                        min_floor,
                    ),
                forall|q: int| 0 <= q < r ==> !room_posts(#[trigger] state.floors[f as int].rooms[q], kind@, min_floor),
            decreases state.floors[f as int].rooms.len() - r,
        {
            if room_fields(&state.floors[f].rooms[r], kind, min_floor) {
                return true;
            }
            r = r + 1;
        }
        f = f + 1;
    }
    false
}

/// Unlock the forms a monster line has earned, without transforming any
/// placed creature: a line learns a variant once its pooled experience meets
/// the path's requirement while some defender of the line is posted on the
/// path's floor or deeper. Each new form is announced once.
pub fn process_evolution_unlocks(state: &mut GameState, cat: &Catalog)
    ensures
        final(state).unlocked_monsters@ == old(state).unlocked_monsters@ + new_variants(
            cat.evolutions@,
            *old(state),
        ),
        final(state).log@ == old(state).log@ + new_variants(cat.evolutions@, *old(state)).map_values(
            |n: String| variant_entry(n),
        ),
        *final(state) == (GameState {
            unlocked_monsters: final(state).unlocked_monsters,
            log: final(state).log,
            ..*old(state)
        }),
{
    let ghost s0 = *state;
    let mut i: usize = 0;
    while i < cat.evolutions.len()
        invariant
            0 <= i <= cat.evolutions.len(),
            state.unlocked_monsters@ == s0.unlocked_monsters@ + new_variants(cat.evolutions@.take(i as int), s0),
            state.log@ == s0.log@ + new_variants(cat.evolutions@.take(i as int), s0).map_values(
                |n: String| variant_entry(n),
            ),
            *state == (GameState {
                unlocked_monsters: state.unlocked_monsters,
                log: state.log,
                ..s0
            }),
        decreases cat.evolutions.len() - i,
    {
        proof {
            assert(cat.evolutions@.take(i + 1).drop_last() =~= cat.evolutions@.take(i as int));
        }
        let p = &cat.evolutions[i];
        let earned = state.type_experience(p.from_monster.as_str()) >= p.experience_required
            && dungeon_fields(state, &p.from_monster, p.min_floor);
        let ghost prior = new_variants(cat.evolutions@.take(i as int), s0);
        proof {
            assert(state.type_experience == s0.type_experience);
            assert(state.floors == s0.floors);
            assert(path_earned(*state, *p) == path_earned(s0, *p));
            assert(earned == path_earned(s0, *p));
            assert(cat.evolutions@.take(i + 1).last() == *p);
        }
        if earned && !contains_name(&state.unlocked_monsters, p.to_monster.as_str()) {
            state.unlocked_monsters.push(p.to_monster.clone());
            state.log.push(LogEntry::VariantUnlocked { name: p.to_monster.clone() });
            proof {
                assert(state.unlocked_monsters@ =~= s0.unlocked_monsters@ + prior.push(p.to_monster));
                assert(prior.push(p.to_monster).map_values(|n: String| variant_entry(n)) =~= prior.map_values(
                    |n: String| variant_entry(n),
                ).push(variant_entry(p.to_monster)));
                assert(state.log@ =~= s0.log@ + prior.push(p.to_monster).map_values(
                    |n: String| variant_entry(n),
                ));
            }
        }
        i = i + 1;
    }
    proof {
        assert(cat.evolutions@.take(i as int) =~= cat.evolutions@);
    }
}


/// Tending the garrison changes no defender's line nor any room's floor, so
/// the forms the lines have earned read the same before and after.
pub proof fn lemma_variants_ignore_health(a: GameState, b: GameState, cat: Catalog, paths: Seq<EvolutionPath>)
    requires
        a.type_experience == b.type_experience,
        a.unlocked_monsters == b.unlocked_monsters,
        a.floors.len() == b.floors.len(),
        forall|f: int| 0 <= f < b.floors.len() ==> floor_tended(#[trigger] a.floors[f], b.floors[f], cat),
    ensures
        new_variants(paths, a) == new_variants(paths, b),
    decreases paths.len(),
{
    if paths.len() > 0 {
        lemma_variants_ignore_health(a, b, cat, paths.drop_last());
        let p = paths.last();
        assert(a.type_xp(p.from_monster@) == b.type_xp(p.from_monster@));
        assert(fields_line(a, p.from_monster@, p.min_floor) == fields_line(b, p.from_monster@, p.min_floor)) by {
            let kind = p.from_monster@;
            let mf = p.min_floor;
            if fields_line(a, kind, mf) {
                let (f, r) = choose|f: int, r: int|
                    0 <= f < a.floors.len() && 0 <= r < a.floors[f].rooms.len() && room_posts(
                        #[trigger] a.floors[f].rooms[r],
                        kind,
                        mf,
                    );
                assert(floor_tended(a.floors[f], b.floors[f], cat));
                assert(room_tended(a.floors[f].rooms[r], b.floors[f].rooms[r], cat));
                let k = choose|k: int|
                    0 <= k < a.floors[f].rooms[r].monsters.len() && posts_line(
                        #[trigger] a.floors[f].rooms[r].monsters[k],
                        a.floors[f].rooms[r].floor_number,
                        kind,
                        mf,
                    );
                assert(posts_line(b.floors[f].rooms[r].monsters[k], b.floors[f].rooms[r].floor_number, kind, mf));
                assert(room_posts(b.floors[f].rooms[r], kind, mf));
            }
            if fields_line(b, kind, mf) {
                let (f, r) = choose|f: int, r: int|
                    0 <= f < b.floors.len() && 0 <= r < b.floors[f].rooms.len() && room_posts(
                        #[trigger] b.floors[f].rooms[r],
                        kind,
                        mf,
                    );
                assert(floor_tended(a.floors[f], b.floors[f], cat));
                assert(room_tended(a.floors[f].rooms[r], b.floors[f].rooms[r], cat));
                let k = choose|k: int|
                    0 <= k < b.floors[f].rooms[r].monsters.len() && posts_line(
                        #[trigger] b.floors[f].rooms[r].monsters[k],
                        b.floors[f].rooms[r].floor_number,
                        kind,
                        mf,
                    );
                assert(a.floors[f].rooms[r].monsters[k] == tended(b.floors[f].rooms[r].monsters[k], cat));
                assert(posts_line(a.floors[f].rooms[r].monsters[k], a.floors[f].rooms[r].floor_number, kind, mf));
                assert(room_posts(a.floors[f].rooms[r], kind, mf));
            }
        }
    }
}


/// The forms the lines have earned read only the pools, the unlocked forms
/// and the floors.
pub proof fn lemma_variants_same_fields(a: GameState, b: GameState, paths: Seq<EvolutionPath>)
    requires
        a.type_experience == b.type_experience,
        a.unlocked_monsters == b.unlocked_monsters,
        a.floors == b.floors,
    ensures
        new_variants(paths, a) == new_variants(paths, b),
    decreases paths.len(),
{
    if paths.len() > 0 {
        lemma_variants_same_fields(a, b, paths.drop_last());
        let p = paths.last();
        assert(a.type_xp(p.from_monster@) == b.type_xp(p.from_monster@));
        assert(fields_line(a, p.from_monster@, p.min_floor) == fields_line(b, p.from_monster@, p.min_floor));
    }
}


/// A room takes its fill and then refuses more: a placement that goes
/// through finds the room below its capacity, and an ordinary defender
/// placed in a Boss room whose throne is empty leaves the throne's slot free.
pub proof fn law_placement_respects_capacity(s: GameState, cat: Catalog, floor_num: i32, room_pos: usize, name: Seq<char>)
    requires
        place_result(s, cat, floor_num, room_pos, name) is Ok,
    ensures
        ({
            let room = s.floors[s.floor_index(floor_num)].room_of(room_pos);
            let t = cat.monster_of(name);
            &&& room.monsters.len() < capacity_of(room)
            &&& room.room_type == RoomType::Boss && !t.boss_only && !room_has_boss(cat, room)
                ==> room.monsters.len() + 1 < capacity_of(room)
        }),
{
}


/// How many defenders the dungeon holds, if that count fits in a `u64`.
pub fn defender_count(state: &GameState) -> (r: Option<u64>)
    ensures
        r is Some <==> defenders_in(state.floors@) <= u64::MAX,
        r is Some ==> r->0 == defenders_in(state.floors@),
{
    let ghost fl = state.floors@;
    let mut total: u128 = 0;
    let mut f: usize = 0;
    while f < state.floors.len()
        invariant
            fl == state.floors@,
            0 <= f <= fl.len(),
            total == defenders_in(fl.take(f as int)),
            total <= u64::MAX,
        decreases fl.len() - f,
    {
        let ghost rooms = fl[f as int].rooms@;
        let mut r: usize = 0;
        while r < state.floors[f].rooms.len()
            invariant
                fl == state.floors@,
                0 <= f < fl.len(),
                rooms == fl[f as int].rooms@,
                0 <= r <= rooms.len(),
                total == defenders_in(fl.take(f as int)) + defenders_rooms(rooms.take(r as int)),
                total <= u64::MAX,
            decreases rooms.len() - r,
        {
            proof {
                assert(rooms.take(r + 1).drop_last() =~= rooms.take(r as int));
                assert(rooms.take(r + 1).last() == rooms[r as int]);
            }
            total = total + state.floors[f].rooms[r].monsters.len() as u128;
            if total > u64::MAX as u128 {
                proof {
                    lemma_defenders_rooms_prefix(rooms, r + 1);
                    lemma_defenders_in_prefix(fl, f + 1);
                    assert(fl.take(f + 1).drop_last() =~= fl.take(f as int));
                    assert(fl.take(f + 1).last() == fl[f as int]);
                }
                return None;
            }
            r = r + 1;
        }
        proof {
            assert(rooms.take(r as int) =~= rooms);
            assert(fl.take(f + 1).drop_last() =~= fl.take(f as int));
            assert(fl.take(f + 1).last() == fl[f as int]);
        }
        f = f + 1;
    }
    proof {
        assert(fl.take(f as int) =~= fl);
    }
    Some(total as u64)
}

proof fn lemma_variants_prefix(paths: Seq<EvolutionPath>, s: GameState, k: int, name: Seq<char>)
    requires
        0 <= k <= paths.len(),
        names_contain(s.unlocked_monsters@ + new_variants(paths.take(k), s), name),
    ensures
        names_contain(s.unlocked_monsters@ + new_variants(paths, s), name),
    decreases paths.len(),
{
    if k < paths.len() {
        let dl = paths.drop_last();
        assert(dl.take(k) =~= paths.take(k));
        lemma_variants_prefix(dl, s, k, name);
        let base = s.unlocked_monsters@ + new_variants(dl, s);
        let i = choose|i: int| 0 <= i < base.len() && base[i]@ == name;
        let full = s.unlocked_monsters@ + new_variants(paths, s);
        assert(full[i] == base[i]);
    } else {
        assert(paths.take(k) =~= paths);
    }
}

proof fn lemma_variants_settled(paths: Seq<EvolutionPath>, s: GameState, t: GameState, n: int)
    requires
        0 <= n <= paths.len(),
        t.unlocked_monsters@ == s.unlocked_monsters@ + new_variants(paths, s),
        t.floors == s.floors,
        t.type_experience == s.type_experience,
    ensures
        new_variants(paths.take(n), t).len() == 0,
    decreases n,
{
    if n > 0 {
        lemma_variants_settled(paths, s, t, n - 1);
        let tk = paths.take(n);
        assert(tk.drop_last() =~= paths.take(n - 1));
        let p = tk.last();
        assert(p == paths[n - 1]);
        assert(t.type_xp(p.from_monster@) == s.type_xp(p.from_monster@));
        assert(fields_line(t, p.from_monster@, p.min_floor) == fields_line(s, p.from_monster@, p.min_floor));
        if path_earned(t, p) {
            let prior = new_variants(paths.take(n - 1), s);
            let sk = paths.take(n);
            assert(sk.drop_last() =~= paths.take(n - 1));
            let step = new_variants(sk, s);
            let base = s.unlocked_monsters@ + step;
            assert(names_contain(base, p.to_monster@)) by {
                if names_contain(s.unlocked_monsters@ + prior, p.to_monster@) {
                    let i = choose|i: int|
                        0 <= i < (s.unlocked_monsters@ + prior).len() && (s.unlocked_monsters@ + prior)[i]@
                            == p.to_monster@;
                    assert(base[i] == (s.unlocked_monsters@ + prior)[i]);
                } else {
                    assert(step == prior.push(p.to_monster));
                    assert(base[base.len() - 1] == p.to_monster);
                }
            }
            lemma_variants_prefix(paths, s, n, p.to_monster@);
            assert(t.unlocked_monsters@ + new_variants(paths.take(n - 1), t) =~= t.unlocked_monsters@);
        }
    }
}

/// Unlocking is settled by one pass: once the forms a dungeon has earned
/// are unlocked, unlocking again at once appends nothing more.
pub proof fn law_evolution_unlocks_settle(paths: Seq<EvolutionPath>, s: GameState, t: GameState)
    requires
        t.unlocked_monsters@ == s.unlocked_monsters@ + new_variants(paths, s),
        t == (GameState { unlocked_monsters: t.unlocked_monsters, log: t.log, ..s }),
    ensures
        new_variants(paths, t).len() == 0,
{
    lemma_variants_settled(paths, s, t, paths.len() as int);
    assert(paths.take(paths.len() as int) =~= paths);
}

/// Does every defender of the dungeon have a maximum health of zero or more?
pub fn garrison_sane(state: &GameState) -> (r: bool)
    ensures
        r == floors_sane(state.floors@),
{
    let mut f: usize = 0;
    while f < state.floors.len()
        invariant
            0 <= f <= state.floors.len(),
            forall|g: int| 0 <= g < f ==> rooms_sane(#[trigger] state.floors@[g].rooms@),
        decreases state.floors.len() - f,
    {
        let mut r: usize = 0;
        while r < state.floors[f].rooms.len()
            invariant
                0 <= f < state.floors.len(),
                0 <= r <= state.floors[f as int].rooms.len(),
                forall|q: int, k: int|
                    0 <= q < r && 0 <= k < state.floors[f as int].rooms[q].monsters.len()
                        ==> #[trigger] state.floors[f as int].rooms@[q].monsters[k].max_hp >= 0,
            decreases state.floors[f as int].rooms.len() - r,
        {
            let mut k: usize = 0;
            while k < state.floors[f].rooms[r].monsters.len()
                invariant
                    0 <= f < state.floors.len(),
                    0 <= r < state.floors[f as int].rooms.len(),
                    0 <= k <= state.floors[f as int].rooms[r as int].monsters.len(),
                    forall|j: int| 0 <= j < k ==> #[trigger] state.floors[f as int].rooms[r as int].monsters[j].max_hp >= 0,
                decreases state.floors[f as int].rooms[r as int].monsters.len() - k,
            {
                if state.floors[f].rooms[r].monsters[k].max_hp < 0 {
                    proof {
                        assert(!rooms_sane(state.floors@[f as int].rooms@)) by {
                            assert(state.floors@[f as int].rooms@[r as int].monsters[k as int].max_hp < 0);
                        }
                    }
                    return false;
                }
                k = k + 1;
            }
            r = r + 1;
        }
        f = f + 1;
    }
    true
}

} // verus!
