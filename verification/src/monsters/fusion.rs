//! Fusion compresses two identical, equal-rank defenders into one stronger
//! veteran. It deliberately yields less raw power than two bodies while
//! freeing a scarce room slot, creating a capacity-versus-force decision.
//! Two defenders of different lines that share an element can instead awaken
//! a resonance in the first.

use vstd::prelude::*;
use vstd::string::StringExecFns;
use crate::catalog::Catalog;
use crate::monsters::base_stats;
use crate::rules::{get_scaled_stats, scaled_stats, FLOOR_LIMIT};
use crate::state::{only_room_changed, ActiveTrait, DungeonError, GameState, LogEntry, Monster, Room, Stats};

verus! {

/// The highest rank fusion can reach.
pub const FUSION_RANK_MAX: u8 = 3;

/// What a fusion would do.
#[derive(Clone, Debug, PartialEq, Eq)]
pub enum FusionPlan {
    /// Two identical defenders become one of this rank.
    RankUp(u8),
    /// The defender absorbs a same-element partner of this other line.
    Resonance(String),
}

/// One stat under a fusion rank's multiplier (unchanged at rank one, 135
/// hundredths at rank two, seven quarters above), rounded half up, and never below `least`.
pub open spec fn ranked_value(x: int, rank: u8, least: int) -> int {
    if x <= 0 {
        least
    } else if rank <= 1 {
        x
    } else if rank == 2 {
        (135 * x + 50) / 100
    } else {
        (7 * x + 2) / 4
    }
}

/// Stats under a fusion rank: health and attack at least one, defense at
/// least zero.
pub open spec fn ranked(stats: Stats, rank: u8) -> Stats {
    Stats {
        hp: ranked_value(stats.hp as int, rank, 1) as i32,
        attack: ranked_value(stats.attack as int, rank, 1) as i32,
        defense: ranked_value(stats.defense as int, rank, 0) as i32,
    }
}

fn rank_one(x: i32, rank: u8, least: i32) -> (r: i32)
    requires
        x <= 20_000_000,
        0 <= least <= 1,
    ensures
        r == ranked_value(x as int, rank, least as int),
{
    if x <= 0 {
        least
    } else if rank <= 1 {
        x
    } else if rank == 2 {
        ((135 * x as i64 + 50) / 100) as i32
    } else {
        (7 * x + 2) / 4
    }
}

/// Stats under a fusion rank.
pub fn ranked_stats(stats: Stats, rank: u8) -> (r: Stats)
    requires
        stats.hp <= 20_000_000,
        stats.attack <= 20_000_000,
        stats.defense <= 20_000_000,
    ensures
        r == ranked(stats, rank),
{
    Stats {
        hp: rank_one(stats.hp, rank, 1),
        attack: rank_one(stats.attack, rank, 1),
        defense: rank_one(stats.defense, rank, 0),
    }
}

/// The element of a monster kind, if its template names one.
pub open spec fn element_of(cat: Catalog, kind: Seq<char>) -> Option<Seq<char>> {
    if cat.has_monster(kind) && cat.monster_of(kind).element is Some {
        Some(cat.monster_of(kind).element->0@)
    } else {
        None
    }
}

/// `m` can fuse with `primary` (identity `id`) into a higher rank.
pub open spec fn rank_mate(m: Monster, primary: Monster, id: u64) -> bool {
    m.id != id && m.kind@ == primary.kind@ && m.fusion_rank == primary.fusion_rank
}

/// `m` can awaken a resonance in `primary` (identity `id`): a living defender
/// of another line, of equal rank, sharing the primary's element.
pub open spec fn resonance_mate(m: Monster, primary: Monster, id: u64, cat: Catalog) -> bool {
    &&& m.id != id
    &&& m.alive
    &&& m.kind@ != primary.kind@
    &&& m.fusion_rank == primary.fusion_rank
    &&& element_of(cat, m.kind@) is Some
    &&& element_of(cat, m.kind@) == element_of(cat, primary.kind@)
}

/// `k` is the first defender of `ms` that can rank up with `primary`.
pub open spec fn first_rank_mate(ms: Seq<Monster>, primary: Monster, id: u64, k: int) -> bool {
    &&& 0 <= k < ms.len()
    &&& rank_mate(ms[k], primary, id)
    &&& forall|j: int| 0 <= j < k ==> !rank_mate(#[trigger] ms[j], primary, id)
}

/// `k` is the first defender of `ms` that can resonate with `primary`.
pub open spec fn first_resonance_mate(ms: Seq<Monster>, primary: Monster, id: u64, cat: Catalog, k: int) -> bool {
    &&& 0 <= k < ms.len()
    &&& resonance_mate(ms[k], primary, id, cat)
    &&& forall|j: int| 0 <= j < k ==> !resonance_mate(#[trigger] ms[j], primary, id, cat)
}

/// The defender of `room` a fusion of defender `id` would consume, by index,
/// and what the fusion would do; `None` when no partner stands there. A
/// rank-up partner (same line, same rank, below the highest rank) is
/// preferred; otherwise the first living same-element defender of another
/// line at the same rank.
pub open spec fn partner_of(room: Room, cat: Catalog, id: u64) -> Option<(int, FusionPlan)> {
    let ms = room.monsters@;
    let primary = ms[room.monster_slot(id)];
    if !room.holds_monster(id) {
        None
    } else if primary.fusion_rank < FUSION_RANK_MAX && exists|k: int| first_rank_mate(ms, primary, id, k) {
        Some(
            (
                choose|k: int| first_rank_mate(ms, primary, id, k),
                FusionPlan::RankUp((primary.fusion_rank + 1) as u8),
            ),
        )
    } else if element_of(cat, primary.kind@) is Some && exists|k: int|
        first_resonance_mate(ms, primary, id, cat, k) {
        let k = choose|k: int| first_resonance_mate(ms, primary, id, cat, k);
        Some((k, FusionPlan::Resonance(ms[k].kind)))
    } else {
        None
    }
}

proof fn lemma_first_rank_unique(ms: Seq<Monster>, primary: Monster, id: u64, k: int, c: int)
    requires
        first_rank_mate(ms, primary, id, k),
        first_rank_mate(ms, primary, id, c),
    ensures
        k == c,
{
    if c < k {
        assert(!rank_mate(ms[c], primary, id));
    }
    if k < c {
        assert(!rank_mate(ms[k], primary, id));
    }
}

proof fn lemma_first_resonance_unique(ms: Seq<Monster>, primary: Monster, id: u64, cat: Catalog, k: int, c: int)
    requires
        first_resonance_mate(ms, primary, id, cat, k),
        first_resonance_mate(ms, primary, id, cat, c),
    ensures
        k == c,
{
    if c < k {
        assert(!resonance_mate(ms[c], primary, id, cat));
    }
    if k < c {
        assert(!resonance_mate(ms[k], primary, id, cat));
    }
}

/// The element of a monster kind, if its template names one.
fn element_for(cat: &Catalog, kind: &String) -> (r: Option<String>)
    ensures
        r is Some <==> element_of(*cat, kind@) is Some,
        r is Some ==> r->0@ == element_of(*cat, kind@)->0,
{
    match cat.get_monster_template(kind.as_str()) {
        Some(t) => match &t.element {
            Some(e) => Some(e.clone()),
            None => None,
        },
        None => None,
    }
}

/// The defender a fusion of defender `monster_id` would consume, with the
/// plan; `None` when no partner stands in the room.
fn fusion_partner(room: &Room, cat: &Catalog, monster_id: u64) -> (r: Option<(u64, FusionPlan)>)
    ensures
        r is None <==> partner_of(*room, *cat, monster_id) is None,
        r is Some ==> {
            let (k, plan) = partner_of(*room, *cat, monster_id)->0;
            let (pid, got) = r->0;
            pid == room.monsters[k].id && got == plan
        },
{
    let p = match room.monster_idx(monster_id) {
        Some(p) => p,
        None => return None,
    };
    let ghost ms = room.monsters@;
    let primary = &room.monsters[p];
    let ghost pm = *primary;
    assert(pm == ms[room.monster_slot(monster_id)]);
    if primary.fusion_rank < FUSION_RANK_MAX {
        let mut k: usize = 0;
        while k < room.monsters.len()
            invariant
                0 <= k <= room.monsters.len(),
                ms == room.monsters@,
                pm == *primary,
                pm.fusion_rank < FUSION_RANK_MAX,
                room.holds_monster(monster_id),
                pm == ms[room.monster_slot(monster_id)],
                forall|j: int| 0 <= j < k ==> !rank_mate(#[trigger] ms[j], pm, monster_id),
            decreases room.monsters.len() - k,
        {
            let c = &room.monsters[k];
            if c.id != monster_id && c.kind == primary.kind && c.fusion_rank == primary.fusion_rank {
                proof {
                    assert(first_rank_mate(ms, pm, monster_id, k as int));
                    let w = choose|w: int| first_rank_mate(ms, pm, monster_id, w);
                    lemma_first_rank_unique(ms, pm, monster_id, k as int, w);
                }
                return Some((c.id, FusionPlan::RankUp(primary.fusion_rank + 1)));
            }
            k = k + 1;
        }
        proof {
            assert forall|w: int| !first_rank_mate(ms, pm, monster_id, w) by {
                if first_rank_mate(ms, pm, monster_id, w) {
                    assert(!rank_mate(ms[w], pm, monster_id));
                }
            }
        }
    }
    let element = match element_for(cat, &primary.kind) {
        Some(e) => e,
        None => return None,
    };
    let mut k: usize = 0;
    while k < room.monsters.len()
        invariant
            0 <= k <= room.monsters.len(),
            ms == room.monsters@,
            pm == *primary,
            room.holds_monster(monster_id),
            pm == ms[room.monster_slot(monster_id)],
            pm.fusion_rank < FUSION_RANK_MAX ==> !exists|w: int| first_rank_mate(ms, pm, monster_id, w),
            element@ == element_of(*cat, pm.kind@)->0,
            element_of(*cat, pm.kind@) is Some,
            forall|j: int| 0 <= j < k ==> !resonance_mate(#[trigger] ms[j], pm, monster_id, *cat),
        decreases room.monsters.len() - k,
    {
        let c = &room.monsters[k];
        if c.id != monster_id && c.alive && c.kind != primary.kind && c.fusion_rank == primary.fusion_rank {
            match element_for(cat, &c.kind) {
                Some(e) => {
                    if e == element {
                        proof {
                            assert(first_resonance_mate(ms, pm, monster_id, *cat, k as int));
                            let w = choose|w: int| first_resonance_mate(ms, pm, monster_id, *cat, w);
                            lemma_first_resonance_unique(ms, pm, monster_id, *cat, k as int, w);
                        }
                        return Some((c.id, FusionPlan::Resonance(c.kind.clone())));
                    }
                },
                None => {},
            }
        }
        k = k + 1;
    }
    proof {
        assert forall|w: int| !first_resonance_mate(ms, pm, monster_id, *cat, w) by {
            if first_resonance_mate(ms, pm, monster_id, *cat, w) {
                assert(!resonance_mate(ms[w], pm, monster_id, *cat));
            }
        }
    }
    None
}

/// The rank a fusion of defender `monster_id` would create, or `None` when it
/// has no rank-up partner in the room.
pub fn fusion_target_rank(room: &Room, cat: &Catalog, monster_id: u64) -> (r: Option<u8>)
    ensures
        r == match partner_of(*room, *cat, monster_id) {
            Some((_, FusionPlan::RankUp(rank))) => Some(rank),
            _ => None::<u8>,
        },
{
    match fusion_partner(room, cat, monster_id) {
        Some((_, FusionPlan::RankUp(rank))) => Some(rank),
        _ => None,
    }
}

/// What fusing defender `monster_id` would do, if it has a partner.
pub fn fusion_plan(room: &Room, cat: &Catalog, monster_id: u64) -> (r: Option<FusionPlan>)
    ensures
        r == match partner_of(*room, *cat, monster_id) {
            Some((_, plan)) => Some(plan),
            None => None::<FusionPlan>,
        },
{
    match fusion_partner(room, cat, monster_id) {
        Some((_, plan)) => Some(plan),
        None => None,
    }
}

/// The name a resonance trait carries for a partner of line `partner`.
fn resonance_name(partner: &String) -> (r: String)
    ensures
        r@ == "Resonance: "@ + partner@,
{
    <String as StringExecFns>::from_str("Resonance: ").concat(partner.as_str())
}

/// The trait id that marks an awakened resonance.
pub open spec fn strike_id() -> Seq<char> {
    "resonance_strike"@
}

/// `traits` already carry an awakened resonance.
pub open spec fn resonant(traits: Seq<ActiveTrait>) -> bool {
    exists|j: int| 0 <= j < traits.len() && #[trigger] traits[j].id@ == strike_id()
}

fn is_resonant(traits: &Vec<ActiveTrait>) -> (r: bool)
    ensures
        r == resonant(traits@),
{
    let key = "resonance_strike".to_owned();
    proof {
        reveal_strlit("resonance_strike");
    }
    let mut j: usize = 0;
    while j < traits.len()
        invariant
            0 <= j <= traits.len(),
            key@ == strike_id(),
            forall|i: int| 0 <= i < j ==> #[trigger] traits@[i].id@ != strike_id(),
        decreases traits.len() - j,
    {
        if traits[j].id == key {
            return true;
        }
        j = j + 1;
    }
    false
}

/// `after` is defender `before` once a fusion under `plan` went through, with
/// `rank_stats` the stats of the plan's rank.
pub open spec fn fused(after: Monster, before: Monster, plan: FusionPlan, rank_stats: Stats) -> bool {
    match plan {
        FusionPlan::RankUp(rank) => after == Monster {
            fusion_rank: rank,
            scaled_stats: rank_stats,
            max_hp: rank_stats.hp,
            hp: rank_stats.hp,
            alive: true,
            ..before
        },
        FusionPlan::Resonance(partner) => {
            &&& after.id == before.id
            &&& after.kind == before.kind
            &&& after.max_hp == before.max_hp
            &&& after.hp == before.max_hp
            &&& after.alive
            &&& after.is_boss == before.is_boss
            &&& after.fusion_rank == before.fusion_rank
            &&& after.scaled_stats == before.scaled_stats
            &&& if resonant(before.active_traits@) {
                after.active_traits@ == before.active_traits@
            } else {
                let t = after.active_traits@;
                let n = before.active_traits@.len() as int;
                &&& t.len() == n + 2
                &&& t.take(n) == before.active_traits@
                &&& t[n].id@ == strike_id()
                &&& t[n].name@ == "Resonance: "@ + partner@
                &&& t[n].cooldown_timer == 0
                &&& t[n + 1].id@ == "resonance_guard"@
                &&& t[n + 1].name@ == "Resonant Shell"@
                &&& t[n + 1].cooldown_timer == 0
            }
        },
    }
}

/// Remove the defender at `k` from `room` and carry out `plan` on the one
/// that stood at `p`.
fn fuse_in_room(room: &mut Room, p: usize, k: usize, plan: &FusionPlan, rank_stats: Stats)
    requires
        p < old(room).monsters.len(),
        k < old(room).monsters.len(),
        p != k,
    ensures
        final(room).same_but_monsters(*old(room)),
        ({
            let q = if k < p {
                p - 1
            } else {
                p as int
            };
            let after = final(room).monsters@;
            &&& after.len() == old(room).monsters.len() - 1
            &&& forall|j: int| 0 <= j < after.len() && j != q ==> after[j] == old(room).monsters@.remove(k as int)[j]
            &&& fused(after[q], old(room).monsters[p as int], *plan, rank_stats)
        }),
{
    room.monsters.remove(k);
    let q = if k < p {
        p - 1
    } else {
        p
    };
    match plan {
        FusionPlan::RankUp(rank) => {
            room.monsters[q].fusion_rank = *rank;
            room.monsters[q].scaled_stats = rank_stats;
            room.monsters[q].max_hp = rank_stats.hp;
            room.monsters[q].hp = rank_stats.hp;
            room.monsters[q].alive = true;
        },
        FusionPlan::Resonance(partner) => {
            let already = is_resonant(&room.monsters[q].active_traits);
            if !already {
                let strike = ActiveTrait {
                    id: "resonance_strike".to_owned(),
                    name: resonance_name(partner),
                    cooldown_timer: 0,
                };
                let guard = ActiveTrait {
                    id: "resonance_guard".to_owned(),
                    name: "Resonant Shell".to_owned(),
                    cooldown_timer: 0,
                };
                let ghost before = room.monsters[q as int].active_traits@;
                room.monsters[q].active_traits.push(strike);
                room.monsters[q].active_traits.push(guard);
                proof {
                    reveal_strlit("resonance_strike");
                    assert(room.monsters[q as int].active_traits@.take(before.len() as int) =~= before);
                }
            }
            let full = room.monsters[q].max_hp;
            room.monsters[q].hp = full;
            room.monsters[q].alive = true;
        },
    }
}

/// What `merge_monsters` answers for these arguments.
pub open spec fn merge_result(s: GameState, cat: Catalog, floor_num: i32, room_pos: usize, id: u64) -> Result<(), DungeonError> {
    if s.adventurer_parties.len() > 0 {
        Err(DungeonError::RaidInProgress)
    } else if !s.has_floor(floor_num) || !s.floors[s.floor_index(floor_num)].has_room(room_pos) {
        Err(DungeonError::RoomNotFound)
    } else {
        let room = s.floors[s.floor_index(floor_num)].room_of(room_pos);
        if !room.holds_monster(id) {
            Err(DungeonError::MonsterNotFound)
        } else if partner_of(room, cat, id) is None {
            Err(DungeonError::NoFusionPartner)
        } else if !cat.has_monster(room.monsters[room.monster_slot(id)].kind@) {
            Err(DungeonError::UnknownMonster)
        } else {
            Ok(())
        }
    }
}

/// Fuse defender `primary_id` with its partner, between raids. The partner
/// leaves the room; the primary keeps its identity and either rises one rank
/// (restored to the full health of its new rank's stats) or, for a
/// same-element partner of another line, awakens a resonance (its traits
/// gain a strike and a shell, once) and is restored to full health.
pub fn merge_monsters(
    state: &mut GameState,
    cat: &Catalog,
    floor_num: i32,
    room_pos: usize,
    primary_id: u64,
) -> (r: Result<(), DungeonError>)
    requires
        cat.wf(),
        floor_num <= FLOOR_LIMIT,
    ensures
        r == merge_result(*old(state), *cat, floor_num, room_pos, primary_id),
        r is Err ==> *final(state) == *old(state),
        r is Ok ==> {
            let s = *old(state);
            let fi = s.floor_index(floor_num);
            let ri = s.floors[fi].room_index(room_pos);
            let room = s.floors[fi].rooms[ri];
            let p = room.monster_slot(primary_id);
            let primary = room.monsters[p];
            let (mate, plan) = partner_of(room, *cat, primary_id)->0;
            let k = room.monster_slot(room.monsters[mate].id);
            let q = if k < p {
                p - 1
            } else {
                p
            };
            let after = final(state).floors[fi].rooms[ri].monsters@;
            let t = cat.monster_of(primary.kind@);
            let rank_stats = match plan {
                FusionPlan::RankUp(rank) => ranked(
                    scaled_stats(base_stats(t), floor_num as int, primary.is_boss),
                    rank,
                ),
                FusionPlan::Resonance(_) => primary.scaled_stats,
            };
            let entry = final(state).log@.last();
            &&& only_room_changed(s.floors@, final(state).floors@, fi, ri)
            &&& after.len() == room.monsters.len() - 1
            &&& forall|j: int| 0 <= j < after.len() && j != q ==> after[j] == room.monsters@.remove(k)[j]
            &&& fused(after[q], primary, plan, rank_stats)
            &&& final(state).log@.len() == s.log@.len() + 1
            &&& final(state).log@.drop_last() == s.log@
            &&& match plan {
                FusionPlan::RankUp(rank) => entry matches LogEntry::DefendersFused {
                    kind,
                    from_rank,
                    to_rank,
                    floor,
                    room: at,
                } && kind@ == primary.kind@ && from_rank == primary.fusion_rank && to_rank == rank
                    && floor == floor_num && at == room_pos,
                FusionPlan::Resonance(partner) => entry matches LogEntry::ResonanceAwakened {
                    kind,
                    partner: other,
                    floor,
                } && kind@ == primary.kind@ && other@ == partner@ && floor == floor_num,
            }
            &&& *final(state) == (GameState { floors: final(state).floors, log: final(state).log, ..s })
        },
{
    if state.adventurer_parties.len() > 0 {
        return Err(DungeonError::RaidInProgress);
    }
    let fi = match state.floor_idx(floor_num) {
        Some(fi) => fi,
        None => return Err(DungeonError::RoomNotFound),
    };
    let ri = match state.floors[fi].room_idx(room_pos) {
        Some(ri) => ri,
        None => return Err(DungeonError::RoomNotFound),
    };
    let p = match state.floors[fi].rooms[ri].monster_idx(primary_id) {
        Some(p) => p,
        None => return Err(DungeonError::MonsterNotFound),
    };
    let (partner_id, plan) = match fusion_partner(&state.floors[fi].rooms[ri], cat, primary_id) {
        Some(found) => found,
        None => return Err(DungeonError::NoFusionPartner),
    };
    let ghost room0 = state.floors[fi as int].rooms[ri as int];
    let kind = state.floors[fi].rooms[ri].monsters[p].kind.clone();
    let is_boss = state.floors[fi].rooms[ri].monsters[p].is_boss;
    let old_rank = state.floors[fi].rooms[ri].monsters[p].fusion_rank;
    let ti = match cat.monster_index(kind.as_str()) {
        Some(ti) => ti,
        None => return Err(DungeonError::UnknownMonster),
    };
    proof {
        assert(cat.monsters[ti as int].wf());
    }
    let template = &cat.monsters[ti];
    let base = get_scaled_stats(
        Stats { hp: template.hp, attack: template.attack, defense: template.defense },
        floor_num,
        is_boss,
    );
    // A dismissal removes the first defender carrying the partner's identity.
    let k = match state.floors[fi].rooms[ri].monster_idx(partner_id) {
        Some(k) => k,
        None => return Err(DungeonError::NoFusionPartner),
    };
    let stats = match plan {
        FusionPlan::RankUp(rank) => ranked_stats(base, rank),
        FusionPlan::Resonance(_) => state.floors[fi].rooms[ri].monsters[p].scaled_stats,
    };
    fuse_in_room(&mut state.floors[fi].rooms[ri], p, k, &plan, stats);
    match plan {
        FusionPlan::RankUp(rank) => {
            state.log.push(
                LogEntry::DefendersFused {
                    kind,
                    from_rank: old_rank,
                    to_rank: rank,
                    floor: floor_num,
                    room: room_pos,
                },
            );
        },
        FusionPlan::Resonance(partner) => {
            state.log.push(LogEntry::ResonanceAwakened { kind, partner, floor: floor_num });
        },
    }
    Ok(())
}


/// Fusion trades raw power for a slot: fusing two defenders of equal rank
/// below the highest yields one whose stat is at least as high as either
/// body's, yet below the two bodies' combined.
pub proof fn law_fusion_trades_power_for_a_slot(x: int, rank: u8)
    requires
        2 <= x <= 20_000_000,
        1 <= rank < FUSION_RANK_MAX,
    ensures
        ranked_value(x, rank, 1) <= ranked_value(x, (rank + 1) as u8, 1) < 2 * ranked_value(x, rank, 1),
{
}

/// What a fusion rank does to one positive stat: rank one keeps it; rank
/// two multiplies it by 1.35 and rank three by 1.75, each rounded to the
/// nearest whole number (halves up): four times the third-rank value lies
/// within two of seven times the stat (below by at most two, above by less
/// than two), and a hundred times the second-rank value within fifty of 135
/// times the stat.
pub proof fn law_fusion_multipliers(x: int, least: int)
    requires
        x > 0,
    ensures
        ranked_value(x, 1, least) == x,
        135 * x - 50 < 100 * ranked_value(x, 2, least) <= 135 * x + 50,
        7 * x - 2 < 4 * ranked_value(x, 3, least) <= 7 * x + 2,
{
}

/// Every rank-up strictly raises a stat of at least two: fusing two
/// defenders into the next rank always yields a stronger veteran.
pub proof fn law_rank_up_strengthens(x: int, rank: u8)
    requires
        x >= 2,
        1 <= rank < FUSION_RANK_MAX,
    ensures
        ranked_value(x, (rank + 1) as u8, 1) > ranked_value(x, rank, 1),
{
    law_fusion_multipliers(x, 1);
}

} // verus!
