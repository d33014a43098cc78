//! Placing a monster onto one that is already standing there.
//!
//! Two things can happen, and which one it is depends entirely on whether the
//! newcomer belongs to the occupant's own line. A Goblin Warrior placed onto a
//! Goblin is that goblin growing up: it keeps its slot and pays only the
//! difference. A Harpy placed onto a Goblin is an eviction: the goblin is
//! retired for the usual half-refund and the harpy is summoned at full price.

use vstd::prelude::*;
use vstd::string::StringExecFns;
use crate::catalog::{lemma_first_path_exists, names_contain, Catalog, MonsterTemplate};
use crate::monsters::fusion::{ranked, ranked_stats};
use crate::monsters::{
    base_stats, build_traits, min_int, place_monster, place_result, refund_of, refusal,
    refusal_among, refusal_without, remove_monster, remove_result, summoned, traits_from,
};
use crate::rules::{get_monster_mana_cost, get_scaled_stats, monster_mana_cost, scaled_stats, FLOOR_LIMIT};
use crate::state::{
    lemma_first_floor_unique, lemma_first_id_unique, lemma_first_unique, only_room_changed,
    DungeonError, GameState, LogEntry, Monster, Room, RoomType, Stats,
};

verus! {

/// Which of the two things a swap would be.
#[derive(Clone, Copy, Debug, PartialEq, Eq, Structural)]
pub enum SwapKind {
    /// The newcomer is the next form of the occupant's own line.
    Upgrade,
    /// An unrelated monster: the occupant is retired to make way.
    Replace,
}

/// What a swap would do and what it would cost, so the player can see it
/// before committing. Mana is the net figure: the replace branch has already
/// had the occupant's refund subtracted.
#[derive(Clone, Copy, Debug, PartialEq, Eq, Structural)]
pub struct SwapPlan {
    pub kind: SwapKind,
    pub mana: i32,
    pub gold: i32,
    pub souls: i32,
}

/// The character for a decimal digit.
pub open spec fn digit_char(d: int) -> char {
    if d == 0 {
        '0'
    } else if d == 1 {
        '1'
    } else if d == 2 {
        '2'
    } else if d == 3 {
        '3'
    } else if d == 4 {
        '4'
    } else if d == 5 {
        '5'
    } else if d == 6 {
        '6'
    } else if d == 7 {
        '7'
    } else if d == 8 {
        '8'
    } else {
        '9'
    }
}

/// The decimal digits of `n`, most significant first, without leading zeros.
pub open spec fn decimal(n: nat) -> Seq<char>
    decreases n,
{
    if n < 10 {
        seq![digit_char(n as int)]
    } else {
        decimal(n / 10).push(digit_char((n % 10) as int))
    }
}

/// `n` written in decimal, with a minus sign when negative.
pub open spec fn signed_decimal(n: int) -> Seq<char> {
    if n < 0 {
        seq!['-'] + decimal((-n) as nat)
    } else {
        decimal(n as nat)
    }
}

fn digit_str(d: u64) -> (r: &'static str)
    requires
        d < 10,
    ensures
        r@ == seq![digit_char(d as int)],
{
    proof {
        reveal_strlit("0");
        reveal_strlit("1");
        reveal_strlit("2");
        reveal_strlit("3");
        reveal_strlit("4");
        reveal_strlit("5");
        reveal_strlit("6");
        reveal_strlit("7");
        reveal_strlit("8");
        reveal_strlit("9");
    }
    if d == 0 {
        "0"
    } else if d == 1 {
        "1"
    } else if d == 2 {
        "2"
    } else if d == 3 {
        "3"
    } else if d == 4 {
        "4"
    } else if d == 5 {
        "5"
    } else if d == 6 {
        "6"
    } else if d == 7 {
        "7"
    } else if d == 8 {
        "8"
    } else {
        "9"
    }
}

fn decimal_string(n: u64) -> (r: String)
    ensures
        r@ == decimal(n as nat),
    decreases n,
{
    if n < 10 {
        <String as StringExecFns>::from_str(digit_str(n))
    } else {
        decimal_string(n / 10).concat(digit_str(n % 10))
    }
}

/// `n` written in decimal, with a minus sign when negative.
fn signed_string(n: i32) -> (r: String)
    ensures
        r@ == signed_decimal(n as int),
{
    if n < 0 {
        proof {
            reveal_strlit("-");
        }
        let magnitude: u64 = (0 - (n as i64)) as u64;
        <String as StringExecFns>::from_str("-").concat(decimal_string(magnitude).as_str())
    } else {
        decimal_string(n as u64)
    }
}

/// The short label a swap shows: what the click will do and what it takes,
/// such as `Upgrade · 12M 5G` (gold and souls only when any are due).
pub open spec fn plan_label(plan: SwapPlan) -> Seq<char> {
    let verb = match plan.kind {
        SwapKind::Upgrade => "Upgrade"@,
        SwapKind::Replace => "Replace"@,
    };
    let gold = if plan.gold > 0 {
        " "@ + signed_decimal(plan.gold as int) + "G"@
    } else {
        Seq::empty()
    };
    let souls = if plan.souls > 0 {
        " "@ + signed_decimal(plan.souls as int) + "S"@
    } else {
        Seq::empty()
    };
    verb + " · "@ + signed_decimal(plan.mana as int) + "M"@ + gold + souls
}

impl SwapPlan {
    /// Short label for the row: what the click will do and what it takes.
    pub fn label(&self) -> (r: String)
        ensures
            r@ == plan_label(*self),
    {
        let verb = match self.kind {
            SwapKind::Upgrade => "Upgrade",
            SwapKind::Replace => "Replace",
        };
        let mut text = <String as StringExecFns>::from_str(verb);
        text.append(" · ");
        text.append(signed_string(self.mana).as_str());
        text.append("M");
        if self.gold > 0 {
            text.append(" ");
            text.append(signed_string(self.gold).as_str());
            text.append("G");
        }
        if self.souls > 0 {
            text.append(" ");
            text.append(signed_string(self.souls).as_str());
            text.append("S");
        }
        proof {
            reveal_strlit("Upgrade");
            reveal_strlit("Replace");
            reveal_strlit(" · ");
            reveal_strlit("M");
            reveal_strlit(" ");
            reveal_strlit("G");
            reveal_strlit("S");
        }
        text
    }
}

/// Mana refunded for retiring a defender of line `kind` from `room` on
/// floor `floor_num`: the same half-price rule dismissal uses.
pub fn retirement_refund(room: &Room, cat: &Catalog, kind: &str, floor_num: i32) -> (r: i32)
    requires
        cat.wf(),
        floor_num <= FLOOR_LIMIT,
    ensures
        r == refund_of(*cat, kind@, floor_num, *room),
        0 <= r <= 50_000_000,
{
    match cat.monster_index(kind) {
        Some(t) => {
            proof {
                assert(cat.monsters[t as int].wf());
            }
            let template = &cat.monsters[t];
            let boss_surcharge = room.room_type == RoomType::Boss && !template.boss_only;
            get_monster_mana_cost(template.base_cost, floor_num, boss_surcharge) / 2
        },
        None => 0,
    }
}

/// Mana to summon a monster of template `t` into `room` on floor `floor_num`.
pub open spec fn summon_cost(t: MonsterTemplate, floor_num: i32, room: Room) -> int {
    monster_mana_cost(
        t.base_cost as int,
        floor_num as int,
        room.room_type == RoomType::Boss && !t.boss_only,
    )
}

/// The larger of two integers.
pub open spec fn max_int(a: int, b: int) -> int {
    if a >= b {
        a
    } else {
        b
    }
}

/// What placing `name` onto defender `occ` of `room` on floor `floor_num`
/// would do: an upgrade when `name` is one step along an evolution path from
/// the occupant's line (paying only the difference in summon mana, at least
/// one, plus the path's gold), otherwise a replacement at full price less the
/// occupant's refund. `None` when the defender or the newcomer is unknown, or
/// when the room, once the occupant left, would not take the newcomer.
pub open spec fn room_plan(room: Room, cat: Catalog, floor_num: i32, occ: u64, name: Seq<char>) -> Option<SwapPlan> {
    let k = room.monster_slot(occ);
    let occupant = room.monsters[k];
    let t = cat.monster_of(name);
    let new_cost = summon_cost(t, floor_num, room);
    if !room.holds_monster(occ) || !cat.has_monster(name) {
        None
    } else if cat.has_path(occupant.kind@, name) {
        let old_cost = if cat.has_monster(occupant.kind@) {
            summon_cost(cat.monster_of(occupant.kind@), floor_num, room)
        } else {
            0
        };
        Some(
            SwapPlan {
                kind: SwapKind::Upgrade,
                mana: max_int(new_cost - old_cost, 1) as i32,
                gold: cat.path_of(occupant.kind@, name).gold_cost,
                souls: t.souls_cost,
            },
        )
    } else if refusal_among(room, room.monsters@.remove(k), cat, name) is Some {
        None
    } else {
        Some(
            SwapPlan {
                kind: SwapKind::Replace,
                mana: (new_cost - refund_of(cat, occupant.kind@, floor_num, room)) as i32,
                gold: 0,
                souls: t.souls_cost,
            },
        )
    }
}

/// What `plan_swap` answers for these arguments.
pub open spec fn swap_plan_of(s: GameState, cat: Catalog, floor_num: i32, room_pos: usize, occ: u64, name: Seq<char>) -> Option<SwapPlan> {
    if !s.has_floor(floor_num) || !s.floors[s.floor_index(floor_num)].has_room(room_pos) {
        None
    } else {
        room_plan(s.floors[s.floor_index(floor_num)].room_of(room_pos), cat, floor_num, occ, name)
    }
}

fn plan_in_room(room: &Room, cat: &Catalog, floor_num: i32, occupant_id: u64, new_monster: &str) -> (r: Option<SwapPlan>)
    requires
        cat.wf(),
        floor_num <= FLOOR_LIMIT,
    ensures
        r == room_plan(*room, *cat, floor_num, occupant_id, new_monster@),
        r is Some ==> r->0.gold >= 0 && r->0.souls >= 0,
        r is Some && r->0.kind == SwapKind::Upgrade ==> r->0.mana >= 1,
{
    let k = match room.monster_idx(occupant_id) {
        Some(k) => k,
        None => return None,
    };
    let ti = match cat.monster_index(new_monster) {
        Some(ti) => ti,
        None => return None,
    };
    proof {
        assert(cat.monsters[ti as int].wf());
    }
    let template = &cat.monsters[ti];
    let boss_surcharge = room.room_type == RoomType::Boss && !template.boss_only;
    let new_cost = get_monster_mana_cost(template.base_cost, floor_num, boss_surcharge);
    let occupant = &room.monsters[k];
    match cat.path_index(&occupant.kind, new_monster) {
        Some(pi) => {
            proof {
                assert(0 <= cat.evolutions[pi as int].gold_cost <= 10_000);
            }
            let old_cost = match cat.monster_index(occupant.kind.as_str()) {
                Some(oi) => {
                    proof {
                        assert(cat.monsters[oi as int].wf());
                    }
                    let surcharge = room.room_type == RoomType::Boss && !cat.monsters[oi].boss_only;
                    get_monster_mana_cost(cat.monsters[oi].base_cost, floor_num, surcharge)
                },
                None => 0,
            };
            let diff = new_cost - old_cost;
            Some(
                SwapPlan {
                    kind: SwapKind::Upgrade,
                    mana: if diff >= 1 { diff } else { 1 },
                    gold: cat.evolutions[pi].gold_cost,
                    souls: template.souls_cost,
                },
            )
        },
        None => {
            if refusal_without(room, cat, new_monster, Some(k)).is_some() {
                return None;
            }
            let refund = retirement_refund(room, cat, occupant.kind.as_str(), floor_num);
            Some(
                SwapPlan {
                    kind: SwapKind::Replace,
                    mana: new_cost - refund,
                    gold: 0,
                    souls: template.souls_cost,
                },
            )
        },
    }
}

/// What placing `new_monster` onto the defender `occupant_id` would do.
/// `None` when the room or creature cannot be found, the newcomer is
/// unknown, or the room would not take the newcomer in the occupant's place.
pub fn plan_swap(
    state: &GameState,
    cat: &Catalog,
    floor_num: i32,
    room_pos: usize,
    occupant_id: u64,
    new_monster: &str,
) -> (r: Option<SwapPlan>)
    requires
        cat.wf(),
        floor_num <= FLOOR_LIMIT,
    ensures
        r == swap_plan_of(*state, *cat, floor_num, room_pos, occupant_id, new_monster@),
        r is Some ==> r->0.gold >= 0 && r->0.souls >= 0,
        r is Some && r->0.kind == SwapKind::Upgrade ==> r->0.mana >= 1,
{
    let fi = match state.floor_idx(floor_num) {
        Some(fi) => fi,
        None => return None,
    };
    let room = match state.floors[fi].room_at(room_pos) {
        Some(room) => room,
        None => return None,
    };
    plan_in_room(room, cat, floor_num, occupant_id, new_monster)
}


/// Stats a defender of `before`'s standing takes when it grows into template
/// `t` on floor `floor_num`: the form's stats scaled for the floor and throne,
/// then for the defender's fusion rank.
pub open spec fn grown_stats(before: Monster, t: MonsterTemplate, floor_num: i32) -> Stats {
    let base = scaled_stats(base_stats(t), floor_num as int, before.is_boss);
    if before.fusion_rank > 1 {
        ranked(base, before.fusion_rank)
    } else {
        base
    }
}

/// `after` is defender `before` grown into the form of template `t` on floor
/// `floor_num`: same identity, throne and rank, arriving whole with the new
/// form's stats and traits.
pub open spec fn grown(after: Monster, before: Monster, t: MonsterTemplate, cat: Catalog, floor_num: i32) -> bool {
    let stats = grown_stats(before, t, floor_num);
    &&& after.id == before.id
    &&& after.kind@ == t.name@
    &&& after.hp == stats.hp
    &&& after.max_hp == stats.hp
    &&& after.alive
    &&& after.is_boss == before.is_boss
    &&& after.fusion_rank == before.fusion_rank
    &&& after.scaled_stats == stats
    &&& traits_from(after.active_traits@, t.traits@, cat)
}

/// What `upgrade_in_place` answers for these arguments.
pub open spec fn upgrade_result(s: GameState, cat: Catalog, floor_num: i32, room_pos: usize, occ: u64, name: Seq<char>) -> Result<(), DungeonError> {
    if !cat.has_monster(name) {
        Err(DungeonError::UnknownMonster)
    } else if !s.has_floor(floor_num) || !s.floors[s.floor_index(floor_num)].has_room(room_pos) {
        Err(DungeonError::RoomNotFound)
    } else if !s.floors[s.floor_index(floor_num)].room_of(room_pos).holds_monster(occ) {
        Err(DungeonError::MonsterNotFound)
    } else {
        Ok(())
    }
}

/// Grow a creature into the next form of its own line: same slot, same id,
/// the new form's stats scaled for the floor it stands on and kept at its
/// fusion rank. The plan's price is paid.
fn upgrade_in_place(
    state: &mut GameState,
    cat: &Catalog,
    floor_num: i32,
    room_pos: usize,
    occupant_id: u64,
    new_monster: &str,
    plan: &SwapPlan,
) -> (r: Result<(), DungeonError>)
    requires
        cat.wf(),
        floor_num <= FLOOR_LIMIT,
        0 <= plan.mana <= old(state).mana,
        0 <= plan.gold <= old(state).gold,
        0 <= plan.souls <= old(state).souls,
    ensures
        r == upgrade_result(*old(state), *cat, floor_num, room_pos, occupant_id, new_monster@),
        r is Err ==> *final(state) == *old(state),
        r is Ok ==> {
            let s = *old(state);
            let fi = s.floor_index(floor_num);
            let ri = s.floors[fi].room_index(room_pos);
            let room = s.floors[fi].rooms[ri];
            let k = room.monster_slot(occupant_id);
            let t = cat.monster_of(new_monster@);
            let after = final(state).floors[fi].rooms[ri].monsters@;
            let entry = final(state).log@.last();
            &&& only_room_changed(s.floors@, final(state).floors@, fi, ri)
            &&& after.len() == room.monsters.len()
            &&& forall|j: int| 0 <= j < after.len() && j != k ==> after[j] == room.monsters[j]
            &&& grown(after[k], room.monsters[k], t, *cat, floor_num)
            &&& final(state).log@.len() == s.log@.len() + 1
            &&& final(state).log@.drop_last() == s.log@
            &&& entry matches LogEntry::MonsterGrew { from, to, floor, room: at }
                && from@ == room.monsters[k].kind@ && to@ == t.name@ && floor == floor_num && at == room_pos
            &&& *final(state) == (GameState {
                mana: (s.mana - plan.mana) as i32,
                gold: (s.gold - plan.gold) as i32,
                souls: (s.souls - plan.souls) as i32,
                floors: final(state).floors,
                log: final(state).log,
                ..s
            })
        },
{
    let ti = match cat.monster_index(new_monster) {
        Some(ti) => ti,
        None => return Err(DungeonError::UnknownMonster),
    };
    proof {
        assert(cat.monsters[ti as int].wf());
    }
    let template = &cat.monsters[ti];
    let fi = match state.floor_idx(floor_num) {
        Some(fi) => fi,
        None => return Err(DungeonError::RoomNotFound),
    };
    let ri = match state.floors[fi].room_idx(room_pos) {
        Some(ri) => ri,
        None => return Err(DungeonError::RoomNotFound),
    };
    let k = match state.floors[fi].rooms[ri].monster_idx(occupant_id) {
        Some(k) => k,
        None => return Err(DungeonError::MonsterNotFound),
    };
    state.mana = state.mana - plan.mana;
    state.gold = state.gold - plan.gold;
    state.souls = state.souls - plan.souls;
    let is_boss = state.floors[fi].rooms[ri].monsters[k].is_boss;
    let rank = state.floors[fi].rooms[ri].monsters[k].fusion_rank;
    let base = get_scaled_stats(
        Stats { hp: template.hp, attack: template.attack, defense: template.defense },
        floor_num,
        is_boss,
    );
    let stats = if rank > 1 {
        ranked_stats(base, rank)
    } else {
        base
    };
    let traits = build_traits(cat, &template.traits);
    let ghost before = state.floors[fi as int].rooms[ri as int];
    let old_name = state.floors[fi].rooms[ri].monsters[k].kind.clone();
    state.floors[fi].rooms[ri].monsters[k].kind = template.name.clone();
    state.floors[fi].rooms[ri].monsters[k].hp = stats.hp;
    state.floors[fi].rooms[ri].monsters[k].max_hp = stats.hp;
    state.floors[fi].rooms[ri].monsters[k].alive = true;
    state.floors[fi].rooms[ri].monsters[k].scaled_stats = stats;
    state.floors[fi].rooms[ri].monsters[k].active_traits = traits;
    proof {
        assert(state.floors[fi as int].rooms[ri as int].same_but_monsters(before));
    }
    state.log.push(
        LogEntry::MonsterGrew { from: old_name, to: template.name.clone(), floor: floor_num, room: room_pos },
    );
    Ok(())
}


/// What `swap_monster` answers for these arguments. Everything is checked
/// before anything is destroyed: a replacement the room could not seat, or
/// whose refund the core could not hold, is refused up front.
pub open spec fn swap_result(s: GameState, cat: Catalog, floor_num: i32, room_pos: usize, occ: u64, name: Seq<char>) -> Result<(), DungeonError> {
    let t = cat.monster_of(name);
    let plan = swap_plan_of(s, cat, floor_num, room_pos, occ, name);
    let room = s.floors[s.floor_index(floor_num)].room_of(room_pos);
    let occupant = room.monsters[room.monster_slot(occ)];
    let refund = refund_of(cat, occupant.kind@, floor_num, room);
    if s.adventurer_parties.len() > 0 {
        Err(DungeonError::RaidInProgress)
    } else if !cat.has_monster(name) {
        Err(DungeonError::UnknownMonster)
    } else if !names_contain(s.unlocked_species@, t.species@) {
        Err(DungeonError::SpeciesLocked)
    } else if !names_contain(s.unlocked_monsters@, t.name@) {
        Err(DungeonError::MonsterLocked)
    } else if plan is None {
        Err(DungeonError::OccupantGone)
    } else if t.boss_only && room.room_type != RoomType::Boss {
        Err(DungeonError::BossRoomOnly)
    } else if s.mana < plan->0.mana {
        Err(DungeonError::NotEnoughMana { need: plan->0.mana })
    } else if s.gold < plan->0.gold {
        Err(DungeonError::NotEnoughGold { need: plan->0.gold })
    } else if s.souls < plan->0.souls {
        Err(DungeonError::NotEnoughSouls { need: plan->0.souls })
    } else if plan->0.kind == SwapKind::Replace && (room.room_type == RoomType::Entrance
        || room.room_type == RoomType::Core) {
        Err(DungeonError::NotBuildable)
    } else if plan->0.kind == SwapKind::Replace && min_int(s.mana + refund, s.max_mana as int)
        < summon_cost(t, floor_num, room) {
        Err(DungeonError::NotEnoughMana { need: summon_cost(t, floor_num, room) as i32 })
    } else {
        Ok(())
    }
}

/// Place `new_monster` onto the defender `occupant_id`, between raids:
/// growing it in place when the newcomer is the next form of its line, or
/// else retiring it (with the usual half refund) and summoning the newcomer
/// in its slot. A failed swap changes nothing.
pub fn swap_monster(
    state: &mut GameState,
    cat: &Catalog,
    floor_num: i32,
    room_pos: usize,
    occupant_id: u64,
    new_monster: &str,
) -> (r: Result<(), DungeonError>)
    requires
        cat.wf(),
        floor_num <= FLOOR_LIMIT,
        old(state).next_id < u64::MAX,
    ensures
        r == swap_result(*old(state), *cat, floor_num, room_pos, occupant_id, new_monster@),
        r is Err ==> *final(state) == *old(state),
        r is Ok ==> {
            let s = *old(state);
            let fi = s.floor_index(floor_num);
            let ri = s.floors[fi].room_index(room_pos);
            let room = s.floors[fi].rooms[ri];
            let k = room.monster_slot(occupant_id);
            let occupant = room.monsters[k];
            let t = cat.monster_of(new_monster@);
            let plan = swap_plan_of(s, *cat, floor_num, room_pos, occupant_id, new_monster@)->0;
            let after = final(state).floors[fi].rooms[ri].monsters@;
            let n = s.log@.len() as int;
            &&& only_room_changed(s.floors@, final(state).floors@, fi, ri)
            &&& plan.kind == SwapKind::Upgrade ==> {
                &&& after.len() == room.monsters.len()
                &&& forall|j: int| 0 <= j < after.len() && j != k ==> after[j] == room.monsters[j]
                &&& grown(after[k], occupant, t, *cat, floor_num)
                &&& final(state).log@.len() == n + 1
                &&& final(state).log@.take(n) == s.log@
                &&& final(state).log@[n] matches LogEntry::MonsterGrew { from, to, floor, room: at }
                    && from@ == occupant.kind@ && to@ == t.name@ && floor == floor_num && at == room_pos
                &&& *final(state) == (GameState {
                    mana: (s.mana - plan.mana) as i32,
                    gold: (s.gold - plan.gold) as i32,
                    souls: (s.souls - plan.souls) as i32,
                    floors: final(state).floors,
                    log: final(state).log,
                    ..s
                })
            }
            &&& plan.kind == SwapKind::Replace ==> {
                let refund = refund_of(*cat, occupant.kind@, floor_num, room);
                let cost = summon_cost(t, floor_num, room);
                let is_boss = room.room_type == RoomType::Boss;
                &&& after.len() == room.monsters.len()
                &&& after.drop_last() == room.monsters@.remove(k)
                &&& summoned(after.last(), s.next_id, t, *cat, floor_num, is_boss)
                &&& final(state).log@.len() == n + 2
                &&& final(state).log@.take(n) == s.log@
                &&& final(state).log@[n] matches LogEntry::MonsterDismissed {
                    name,
                    floor,
                    room: at,
                    refund: back,
                } && name@ == occupant.kind@ && floor == floor_num && at == room_pos && back == refund
                &&& final(state).log@[n + 1] matches LogEntry::MonsterSpawned {
                    name,
                    boss,
                    floor,
                    room: at,
                    cost: paid,
                } && name@ == new_monster@ && boss == is_boss && floor == floor_num && at == room_pos
                    && paid == cost
                &&& *final(state) == (GameState {
                    mana: (min_int(s.mana + refund, s.max_mana as int) - cost) as i32,
                    souls: (s.souls - t.souls_cost) as i32,
                    next_id: (s.next_id + 1) as u64,
                    floors: final(state).floors,
                    log: final(state).log,
                    ..s
                })
            }
        },
{
    if state.adventurer_parties.len() > 0 {
        return Err(DungeonError::RaidInProgress);
    }
    let ti = match cat.monster_index(new_monster) {
        Some(ti) => ti,
        None => return Err(DungeonError::UnknownMonster),
    };
    proof {
        assert(cat.monsters[ti as int].wf());
    }
    let template = &cat.monsters[ti];
    if !crate::catalog::contains_name(&state.unlocked_species, template.species.as_str()) {
        return Err(DungeonError::SpeciesLocked);
    }
    if !crate::catalog::contains_name(&state.unlocked_monsters, template.name.as_str()) {
        return Err(DungeonError::MonsterLocked);
    }
    let plan = match plan_swap(state, cat, floor_num, room_pos, occupant_id, new_monster) {
        Some(plan) => plan,
        None => return Err(DungeonError::OccupantGone),
    };
    let fi = match state.floor_idx(floor_num) {
        Some(fi) => fi,
        None => return Err(DungeonError::OccupantGone),
    };
    let ri = match state.floors[fi].room_idx(room_pos) {
        Some(ri) => ri,
        None => return Err(DungeonError::OccupantGone),
    };
    let room_type = state.floors[fi].rooms[ri].room_type;
    if template.boss_only && room_type != RoomType::Boss {
        return Err(DungeonError::BossRoomOnly);
    }
    if state.mana < plan.mana {
        return Err(DungeonError::NotEnoughMana { need: plan.mana });
    }
    if state.gold < plan.gold {
        return Err(DungeonError::NotEnoughGold { need: plan.gold });
    }
    if state.souls < plan.souls {
        return Err(DungeonError::NotEnoughSouls { need: plan.souls });
    }
    match plan.kind {
        SwapKind::Upgrade => {
            let ghost s = *state;
            let r = upgrade_in_place(state, cat, floor_num, room_pos, occupant_id, new_monster, &plan);
            proof {
                if r is Ok {
                    assert(state.log@.take(s.log@.len() as int) =~= s.log@);
                }
            }
            r
        },
        SwapKind::Replace => {
            if room_type == RoomType::Entrance || room_type == RoomType::Core {
                return Err(DungeonError::NotBuildable);
            }
            let k = match state.floors[fi].rooms[ri].monster_idx(occupant_id) {
                Some(k) => k,
                None => return Err(DungeonError::OccupantGone),
            };
            let refund = retirement_refund(
                &state.floors[fi].rooms[ri],
                cat,
                state.floors[fi].rooms[ri].monsters[k].kind.as_str(),
                floor_num,
            );
            let surcharge = room_type == RoomType::Boss && !template.boss_only;
            let cost = get_monster_mana_cost(template.base_cost, floor_num, surcharge);
            let topped: i64 = state.mana as i64 + refund as i64;
            let held: i64 = if topped <= state.max_mana as i64 {
                topped
            } else {
                state.max_mana as i64
            };
            if held < cost as i64 {
                return Err(DungeonError::NotEnoughMana { need: cost });
            }
            let ghost s = *state;
            match remove_monster(state, cat, floor_num, room_pos, occupant_id) {
                Ok(()) => {},
                Err(e) => return Err(e),
            }
            let ghost mid = *state;
            proof {
                assert forall|j: int| 0 <= j < fi implies mid.floors[j].number != floor_num by {
                    assert(mid.floors[j] == s.floors[j]);
                }
                assert(mid.is_first_floor(floor_num, fi as int));
                lemma_first_floor_unique(mid, floor_num, fi as int);
                let f0 = s.floors[fi as int];
                let f1 = mid.floors[fi as int];
                assert forall|j: int| 0 <= j < ri implies f1.rooms[j].position != room_pos by {
                    assert(f1.rooms[j] == f0.rooms[j]);
                }
                assert(f1.is_first_at(room_pos, ri as int));
                lemma_first_unique(f1, room_pos, ri as int);
                lemma_first_id_unique(f0.rooms[ri as int], occupant_id, k as int);
                assert(f1.rooms[ri as int].monsters@ == f0.rooms[ri as int].monsters@.remove(k as int));
                assert(refusal(f1.rooms[ri as int], *cat, new_monster@) == refusal_among(
                    f0.rooms[ri as int],
                    f0.rooms[ri as int].monsters@.remove(k as int),
                    *cat,
                    new_monster@,
                ));
            }
            let r = place_monster(state, cat, floor_num, room_pos, new_monster);
            proof {
                let n = s.log@.len() as int;
                assert(state.log@.take(n) =~= s.log@);
                assert(state.log@[n] == mid.log@[n]);
            }
            r
        },
    }
}


/// Growing a line undercuts evicting it: when the newcomer is the next form
/// of the occupant's line, costs more to summon than the occupant, and the
/// occupant cost something, the upgrade's mana is below what retiring the
/// occupant and summoning the newcomer fresh would take.
pub proof fn law_upgrade_undercuts_replacement(room: Room, cat: Catalog, floor_num: i32, occ: u64, name: Seq<char>)
    requires
        room_plan(room, cat, floor_num, occ, name) matches Some(plan) && plan.kind == SwapKind::Upgrade,
        cat.has_monster(room.monsters[room.monster_slot(occ)].kind@),
        ({
            let old_cost = summon_cost(cat.monster_of(room.monsters[room.monster_slot(occ)].kind@), floor_num, room);
            let new_cost = summon_cost(cat.monster_of(name), floor_num, room);
            &&& 1 <= old_cost < new_cost
            &&& new_cost - old_cost <= i32::MAX
        }),
    ensures
        room_plan(room, cat, floor_num, occ, name)->0.mana < summon_cost(cat.monster_of(name), floor_num, room)
            - refund_of(cat, room.monsters[room.monster_slot(occ)].kind@, floor_num, room),
{
}

} // verus!
