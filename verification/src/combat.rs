//! The keeper-side rules around a fight: how much loss a party stomachs
//! before it breaks, when it turns to retreat, and re-arming sprung traps
//! between raids.

use vstd::prelude::*;
use crate::catalog::Catalog;
use crate::endgame::{boon_total, core_dread_bonus, Boon, CORE_POWER_COUNT};
use crate::pathing::drive_count;
use crate::state::{
    Adventurer, AdventurerParty, ExpeditionDoctrine, Floor, GameState, HeroDrive, LogEntry, Monster,
    Room, RoomBattleOrder, RoomUpgrade, RoomUpgradeType,
};

verus! {

/// Casualties an ordinary party accepts before it retreats.
pub const RETREAT_THRESHOLD: i32 = 3;

/// How one living member shifts the party's nerve: halflings are cautious,
/// dwarves and paladins hold longer.
pub open spec fn nerve_shift(m: Adventurer) -> int {
    (if m.race@ == "Halfling"@ {
        -1int
    } else if m.race@ == "Dwarf"@ {
        1int
    } else {
        0int
    }) + if m.class_name@ == "Paladin"@ {
        1int
    } else {
        0int
    }
}

/// The summed nerve shift of the living among the first `n` members.
pub open spec fn living_shift(ms: Seq<Adventurer>, n: int) -> int
    decreases n,
{
    if n <= 0 {
        0
    } else {
        living_shift(ms, n - 1) + if ms[n - 1].alive {
            nerve_shift(ms[n - 1])
        } else {
            0
        }
    }
}

/// How many of the first `n` members are alive.
pub open spec fn living_count(ms: Seq<Adventurer>, n: int) -> int
    decreases n,
{
    if n <= 0 {
        0
    } else {
        living_count(ms, n - 1) + if ms[n - 1].alive {
            1int
        } else {
            0int
        }
    }
}

/// The summed resolve of the living among the first `n` members.
pub open spec fn living_resolve(ms: Seq<Adventurer>, n: int) -> int
    decreases n,
{
    if n <= 0 {
        0
    } else {
        living_resolve(ms, n - 1) + if ms[n - 1].alive {
            ms[n - 1].resolve as int
        } else {
            0
        }
    }
}

/// `a / b` rounded toward zero (`b > 0`).
pub open spec fn trunc_div(a: int, b: int) -> int {
    if a >= 0 {
        a / b
    } else {
        -((-a) / b)
    }
}

/// Casualties a party accepts before retreating: the base threshold, shifted
/// by its living members' races and callings, one more when glory or duty
/// drives any of them, and one more or less for a bold or shaken average
/// resolve; always between one and five.
pub open spec fn nerve_of(p: AdventurerParty) -> int {
    let ms = p.members@;
    let n = ms.len() as int;
    let living = living_count(ms, n);
    let average = if living == 0 {
        50
    } else {
        trunc_div(living_resolve(ms, n), living)
    };
    let threshold = RETREAT_THRESHOLD + living_shift(ms, n) + (if drive_count(ms, HeroDrive::Glory) > 0 {
        1int
    } else {
        0int
    }) + (if drive_count(ms, HeroDrive::Duty) > 0 {
        1int
    } else {
        0int
    }) + if average >= 70 {
        1int
    } else if average <= 35 {
        -1int
    } else {
        0int
    };
    if threshold < 1 {
        1
    } else if threshold > 5 {
        5
    } else {
        threshold
    }
}

proof fn lemma_drive_prefix(ms: Seq<Adventurer>, drive: HeroDrive, n: int)
    requires
        0 <= n <= ms.len(),
    ensures
        drive_count(ms.take(n), drive) > 0 <==> exists|j: int| 0 <= j < n && ms[j].alive && ms[j].drive == drive,
    decreases n,
{
    if n > 0 {
        lemma_drive_prefix(ms, drive, n - 1);
        assert(ms.take(n).drop_last() =~= ms.take(n - 1));
        lemma_drive_nonneg(ms.take(n - 1), drive);
    }
}

proof fn lemma_drive_nonneg(ms: Seq<Adventurer>, drive: HeroDrive)
    ensures
        drive_count(ms, drive) >= 0,
    decreases ms.len(),
{
    if ms.len() > 0 {
        lemma_drive_nonneg(ms.drop_last(), drive);
    }
}

/// Casualties a party will accept before retreating. Cautious races bail
/// early; brave ones hold longer.
pub fn party_nerve(party: &AdventurerParty) -> (r: i32)
    ensures
        r == nerve_of(*party),
{
    let halfling = "Halfling".to_owned();
    let dwarf = "Dwarf".to_owned();
    let paladin = "Paladin".to_owned();
    let ghost ms = party.members@;
    let mut shift: i128 = 0;
    let mut living: i128 = 0;
    let mut resolve: i128 = 0;
    let mut glory = false;
    let mut duty = false;
    let mut k: usize = 0;
    while k < party.members.len()
        invariant
            0 <= k <= ms.len(),
            ms == party.members@,
            halfling@ == "Halfling"@,
            dwarf@ == "Dwarf"@,
            paladin@ == "Paladin"@,
            shift == living_shift(ms, k as int),
            living == living_count(ms, k as int),
            resolve == living_resolve(ms, k as int),
            -2 * k <= shift <= 2 * k,
            0 <= living <= k,
            -0x8000_0000 * k <= resolve <= 0x8000_0000 * k,
            glory == exists|j: int| 0 <= j < k && ms[j].alive && ms[j].drive == HeroDrive::Glory,
            duty == exists|j: int| 0 <= j < k && ms[j].alive && ms[j].drive == HeroDrive::Duty,
        decreases ms.len() - k,
    {
        let m = &party.members[k];
        if m.alive {
            let mut d: i128 = 0;
            if m.race == halfling {
                d = -1;
            } else if m.race == dwarf {
                d = 1;
            }
            if m.class_name == paladin {
                d = d + 1;
            }
            shift = shift + d;
            living = living + 1;
            resolve = resolve + m.resolve as i128;
            if m.drive == HeroDrive::Glory {
                glory = true;
            }
            if m.drive == HeroDrive::Duty {
                duty = true;
            }
        }
        k = k + 1;
    }
    proof {
        lemma_drive_prefix(ms, HeroDrive::Glory, ms.len() as int);
        lemma_drive_prefix(ms, HeroDrive::Duty, ms.len() as int);
        assert(ms.take(ms.len() as int) =~= ms);
    }
    let average: i128 = if living == 0 {
        50
    } else if resolve >= 0 {
        resolve / living
    } else {
        -((-resolve) / living)
    };
    let mut threshold: i128 = RETREAT_THRESHOLD as i128 + shift;
    if glory {
        threshold = threshold + 1;
    }
    if duty {
        threshold = threshold + 1;
    }
    if average >= 70 {
        threshold = threshold + 1;
    } else if average <= 35 {
        threshold = threshold - 1;
    }
    if threshold < 1 {
        1
    } else if threshold > 5 {
        5
    } else {
        threshold as i32
    }
}


/// The casualties at which party `p` breaks: a siege party never does; an
/// ordinary one at its nerve, one later on a vengeance or relic hunt, and
/// earlier by the dread of the keeper's core powers, but never before its
/// first loss.
pub open spec fn breaking_point(s: GameState, p: AdventurerParty) -> int {
    let zeal = match p.doctrine {
        ExpeditionDoctrine::Vengeance | ExpeditionDoctrine::RelicHunt => 1int,
        _ => 0int,
    };
    let nerve = nerve_of(p) + zeal - boon_total(s.core_powers@, Boon::Dread, CORE_POWER_COUNT as int);
    if p.sieging {
        99
    } else if nerve < 1 {
        1
    } else {
        nerve
    }
}

/// `t` is `s` once party `party_idx` considered retreating: a party already
/// retreating is left be; a party with no one left standing is wiped out;
/// one whose casualties reached its breaking point turns to retreat.
pub open spec fn retreat_outcome(s: GameState, party_idx: usize, t: GameState) -> bool {
    let p = s.adventurer_parties[party_idx as int];
    let wiped = crate::endgame::all_fallen(p.members@);
    if p.retreating || (!wiped && p.casualties < breaking_point(s, p)) {
        t == s
    } else {
        &&& t.adventurer_parties@ == s.adventurer_parties@.update(
            party_idx as int,
            AdventurerParty { retreating: true, ..p },
        )
        &&& t.log@ == s.log@.push(if wiped { LogEntry::PartyWiped } else { LogEntry::PartyRetreats })
        &&& t == (GameState { adventurer_parties: t.adventurer_parties, log: t.log, ..s })
    }
}

fn members_fallen(party: &AdventurerParty) -> (r: bool)
    ensures
        r == crate::endgame::all_fallen(party.members@),
{
    let mut k: usize = 0;
    while k < party.members.len()
        invariant
            0 <= k <= party.members.len(),
            forall|j: int| 0 <= j < k ==> !(#[trigger] party.members@[j]).alive,
        decreases party.members.len() - k,
    {
        if party.members[k].alive {
            return false;
        }
        k = k + 1;
    }
    true
}

/// Flag the party as retreating after heavy losses or a full wipe.
pub fn check_retreat(state: &mut GameState, party_idx: usize)
    requires
        party_idx < old(state).adventurer_parties.len(),
    ensures
        retreat_outcome(*old(state), party_idx, *final(state)),
{
    let dread = core_dread_bonus(state);
    if state.adventurer_parties[party_idx].retreating {
        return;
    }
    let wiped = members_fallen(&state.adventurer_parties[party_idx]);
    let nerve: i64 = if state.adventurer_parties[party_idx].sieging {
        99
    } else {
        let zeal: i64 = match state.adventurer_parties[party_idx].doctrine {
            ExpeditionDoctrine::Vengeance | ExpeditionDoctrine::RelicHunt => 1,
            _ => 0,
        };
        let n = party_nerve(&state.adventurer_parties[party_idx]) as i64 + zeal - dread as i64;
        if n < 1 {
            1
        } else {
            n
        }
    };
    if wiped || state.adventurer_parties[party_idx].casualties as i64 >= nerve {
        state.adventurer_parties[party_idx].retreating = true;
        state.log.push(if wiped { LogEntry::PartyWiped } else { LogEntry::PartyRetreats });
        proof {
            let p = old(state).adventurer_parties[party_idx as int];
            assert(state.adventurer_parties@ =~= old(state).adventurer_parties@.update(
                party_idx as int,
                AdventurerParty { retreating: true, ..p },
            ));
        }
    }
}


/// `u` is the first sprung trap among these upgrades.
pub open spec fn first_sprung(ups: Seq<RoomUpgrade>, u: int) -> bool {
    &&& 0 <= u < ups.len()
    &&& ups[u].upgrade_type == RoomUpgradeType::Trap && ups[u].disarmed
    &&& forall|j: int| 0 <= j < u ==> !(ups[j].upgrade_type == RoomUpgradeType::Trap && ups[j].disarmed)
}

/// The first sprung trap of a room, if any.
pub open spec fn sprung_trap(room: Room) -> Option<int> {
    if exists|u: int| first_sprung(room.upgrades@, u) {
        Some(choose|u: int| first_sprung(room.upgrades@, u))
    } else {
        None
    }
}

/// A room's first sprung trap is re-armed when `mana` covers its cost.
pub open spec fn rearms(room: Room, cat: Catalog, mana: int) -> bool {
    match sprung_trap(room) {
        Some(u) => mana >= cat.rearm_cost(room.upgrades@[u].name@),
        None => false,
    }
}

/// The re-arming tally (mana left, chronicle lines) once `room` had its turn.
pub open spec fn rearm_room(room: Room, cat: Catalog, t: (int, Seq<LogEntry>)) -> (int, Seq<LogEntry>) {
    if rearms(room, cat, t.0) {
        let u = sprung_trap(room)->0;
        let cost = cat.rearm_cost(room.upgrades@[u].name@);
        (t.0 - cost, t.1.push(LogEntry::TrapRearmed { name: room.upgrades@[u].name, cost: cost as i32 }))
    } else {
        t
    }
}

/// The tally once these rooms, in order, had their turn.
pub open spec fn rearm_rooms(rooms: Seq<Room>, cat: Catalog, t: (int, Seq<LogEntry>)) -> (int, Seq<LogEntry>)
    decreases rooms.len(),
{
    if rooms.len() == 0 {
        t
    } else {
        rearm_room(rooms.last(), cat, rearm_rooms(rooms.drop_last(), cat, t))
    }
}

/// The tally once these floors, in order, had their turn.
pub open spec fn rearm_floors(floors: Seq<Floor>, cat: Catalog, t: (int, Seq<LogEntry>)) -> (int, Seq<LogEntry>)
    decreases floors.len(),
{
    if floors.len() == 0 {
        t
    } else {
        rearm_rooms(floors.last().rooms@, cat, rearm_floors(floors.drop_last(), cat, t))
    }
}

/// `after` is room `before` once its first sprung trap was re-armed, if the
/// tally's `mana` covered it.
pub open spec fn room_rearmed(after: Room, before: Room, cat: Catalog, mana: int) -> bool {
    &&& after == (Room { upgrades: after.upgrades, ..before })
    &&& if rearms(before, cat, mana) {
        let u = sprung_trap(before)->0;
        after.upgrades@ == before.upgrades@.update(u, RoomUpgrade { disarmed: false, ..before.upgrades@[u] })
    } else {
        after.upgrades@ == before.upgrades@
    }
}

/// `after` is floor `before` once each of its rooms, in order, had its turn.
pub open spec fn floor_rearmed(after: Floor, before: Floor, cat: Catalog, t: (int, Seq<LogEntry>)) -> bool {
    &&& after == (Floor { rooms: after.rooms, ..before })
    &&& after.rooms.len() == before.rooms.len()
    &&& forall|r: int|
        0 <= r < before.rooms.len() ==> room_rearmed(
            #[trigger] after.rooms[r],
            before.rooms[r],
            cat,
            rearm_rooms(before.rooms@.take(r), cat, t).0,
        )
}

/// Re-arming never raises the mana, and one that starts solvent stays so.
pub open spec fn rearm_sound(before: int, after: int) -> bool {
    &&& after <= before
    &&& before >= 0 ==> after >= 0
    &&& before < 0 ==> after == before
}

fn sprung_index(room: &Room) -> (r: Option<usize>)
    ensures
        r is Some <==> sprung_trap(*room) is Some,
        r is Some ==> r->0 == sprung_trap(*room)->0,
{
    let mut u: usize = 0;
    while u < room.upgrades.len()
        invariant
            0 <= u <= room.upgrades.len(),
            forall|j: int|
                0 <= j < u ==> !(room.upgrades@[j].upgrade_type == RoomUpgradeType::Trap
                    && room.upgrades@[j].disarmed),
        decreases room.upgrades.len() - u,
    {
        if room.upgrades[u].upgrade_type == RoomUpgradeType::Trap && room.upgrades[u].disarmed {
            proof {
                assert(first_sprung(room.upgrades@, u as int));
                let w = choose|w: int| first_sprung(room.upgrades@, w);
                if w < u {
                    assert(!(room.upgrades@[w].upgrade_type == RoomUpgradeType::Trap && room.upgrades@[w].disarmed));
                }
                if w > u {
                    assert(!(room.upgrades@[u as int].upgrade_type == RoomUpgradeType::Trap
                        && room.upgrades@[u as int].disarmed));
                }
            }
            return Some(u);
        }
        u = u + 1;
    }
    proof {
        assert forall|w: int| !first_sprung(room.upgrades@, w) by {
            if first_sprung(room.upgrades@, w) {
                assert(!(room.upgrades@[w].upgrade_type == RoomUpgradeType::Trap && room.upgrades@[w].disarmed));
            }
        }
    }
    None
}

fn rearm_in_room(room: &mut Room, cat: &Catalog, mana: &mut i32, lines: &mut Vec<LogEntry>)
    requires
        cat.wf(),
    ensures
        room_rearmed(*final(room), *old(room), *cat, *old(mana) as int),
        (*final(mana) as int, final(lines)@) == rearm_room(*old(room), *cat, (*old(mana) as int, old(lines)@)),
        rearm_sound(*old(mana) as int, *final(mana) as int),
{
    match sprung_index(room) {
        Some(u) => {
            let cost = cat.get_rearm_cost(&room.upgrades[u].name);
            if *mana >= cost {
                *mana = *mana - cost;
                lines.push(LogEntry::TrapRearmed { name: room.upgrades[u].name.clone(), cost });
                let ghost before = room.upgrades@;
                room.upgrades[u].disarmed = false;
                proof {
                    assert(room.upgrades@ =~= before.update(
                        u as int,
                        RoomUpgrade { disarmed: false, ..before[u as int] },
                    ));
                }
            }
        },
        None => {},
    }
}

fn rearm_in_floor(floor: &mut Floor, cat: &Catalog, mana: &mut i32, lines: &mut Vec<LogEntry>)
    requires
        cat.wf(),
    ensures
        floor_rearmed(*final(floor), *old(floor), *cat, (*old(mana) as int, old(lines)@)),
        (*final(mana) as int, final(lines)@) == rearm_rooms(old(floor).rooms@, *cat, (*old(mana) as int, old(lines)@)),
        rearm_sound(*old(mana) as int, *final(mana) as int),
{
    let ghost orig = *floor;
    let ghost t0 = (*mana as int, lines@);
    let mut r: usize = 0;
    while r < floor.rooms.len()
        invariant
            cat.wf(),
            0 <= r <= floor.rooms.len(),
            floor.rooms.len() == orig.rooms.len(),
            *floor == (Floor { rooms: floor.rooms, ..orig }),
            forall|j: int|
                0 <= j < r ==> room_rearmed(
                    #[trigger] floor.rooms[j],
                    orig.rooms[j],
                    *cat,
                    rearm_rooms(orig.rooms@.take(j), *cat, t0).0,
                ),
            forall|j: int| r <= j < floor.rooms.len() ==> #[trigger] floor.rooms[j] == orig.rooms[j],
            (*mana as int, lines@) == rearm_rooms(orig.rooms@.take(r as int), *cat, t0),
            rearm_sound(t0.0, *mana as int),
        decreases floor.rooms.len() - r,
    {
        proof {
            assert(orig.rooms@.take(r + 1).drop_last() =~= orig.rooms@.take(r as int));
        }
        rearm_in_room(&mut floor.rooms[r], cat, mana, lines);
        r = r + 1;
    }
    proof {
        assert(orig.rooms@.take(r as int) =~= orig.rooms@);
    }
}

/// `t` is `s` once its sprung traps were re-armed, spending `spent` mana:
/// floor by floor, room by room, as `floor_rearmed` tells, each re-arming
/// chronicled.
pub open spec fn rearm_outcome(s: GameState, cat: Catalog, t: GameState, spent: i32) -> bool {
    let end = rearm_floors(s.floors@, cat, (s.mana as int, Seq::empty()));
    &&& t.floors.len() == s.floors.len()
    &&& forall|f: int|
        0 <= f < s.floors.len() ==> floor_rearmed(
            #[trigger] t.floors[f],
            s.floors[f],
            cat,
            rearm_floors(s.floors@.take(f), cat, (s.mana as int, Seq::empty())),
        )
    &&& spent == s.mana - end.0
    &&& t.log@ == s.log@ + end.1
    &&& t == (GameState { mana: end.0 as i32, floors: t.floors, log: t.log, ..s })
}

/// Re-arm sprung traps between raids, floor by floor and room by room: the
/// first sprung trap of each room is re-armed for a quarter of its price
/// while mana covers it; unaffordable traps stay down until next time.
/// Returns the mana spent.
pub fn rearm_traps(state: &mut GameState, cat: &Catalog) -> (spent: i32)
    requires
        cat.wf(),
    ensures
        rearm_outcome(*old(state), *cat, *final(state), spent),
{
    let ghost orig = state.floors@;
    let ghost t0 = (state.mana as int, Seq::<LogEntry>::empty());
    let mut mana = state.mana;
    let mut lines: Vec<LogEntry> = Vec::new();
    let mut f: usize = 0;
    while f < state.floors.len()
        invariant
            cat.wf(),
            0 <= f <= state.floors.len(),
            state.floors.len() == orig.len(),
            t0 == (old(state).mana as int, Seq::<LogEntry>::empty()),
            forall|j: int|
                0 <= j < f ==> floor_rearmed(
                    #[trigger] state.floors[j],
                    orig[j],
                    *cat,
                    rearm_floors(orig.take(j), *cat, t0),
                ),
            forall|j: int| f <= j < state.floors.len() ==> #[trigger] state.floors[j] == orig[j],
            (mana as int, lines@) == rearm_floors(orig.take(f as int), *cat, t0),
            rearm_sound(t0.0, mana as int),
            *state == (GameState { floors: state.floors, ..*old(state) }),
        decreases state.floors.len() - f,
    {
        proof {
            assert(orig.take(f + 1).drop_last() =~= orig.take(f as int));
        }
        rearm_in_floor(&mut state.floors[f], cat, &mut mana, &mut lines);
        f = f + 1;
    }
    proof {
        assert(orig.take(f as int) =~= orig);
    }
    let spent = state.mana - mana;
    state.mana = mana;
    state.log.append(&mut lines);
    spent
}

/// Trait `id` is a passive of effect `effect` in the catalog.
pub open spec fn passive_with(cat: Catalog, id: Seq<char>, effect: Seq<char>) -> bool {
    &&& cat.has_trait(id)
    &&& cat.trait_of(id).trait_type@ == "Passive"@
    &&& cat.trait_of(id).effect_type@ == effect
}

/// Some trait the monster carries is a passive of effect `effect`.
pub open spec fn carries_passive(m: Monster, cat: Catalog, effect: Seq<char>) -> bool {
    exists|i: int|
        0 <= i < m.active_traits.len() && passive_with(cat, #[trigger] m.active_traits[i].id@, effect)
}

/// Whether a monster carries a passive trait of the given effect type.
pub fn has_passive(monster: &Monster, cat: &Catalog, effect_type: &str) -> (r: bool)
    ensures
        r == carries_passive(*monster, *cat, effect_type@),
{
    let passive = "Passive".to_owned();
    let effect = effect_type.to_owned();
    let mut i: usize = 0;
    while i < monster.active_traits.len()
        invariant
            passive@ == "Passive"@,
            effect@ == effect_type@,
            0 <= i <= monster.active_traits.len(),
            forall|j: int| 0 <= j < i ==> !passive_with(*cat, #[trigger] monster.active_traits@[j].id@, effect_type@),
        decreases monster.active_traits.len() - i,
    {
        match cat.trait_index(&monster.active_traits[i].id) {
            Some(k) => {
                if cat.traits[k].trait_type == passive && cat.traits[k].effect_type == effect {
                    proof {
                        assert(passive_with(*cat, monster.active_traits@[i as int].id@, effect_type@));
                    }
                    return true;
                }
            },
            None => {},
        }
        i = i + 1;
    }
    false
}

/// `i` is the first living monster that taunts.
pub open spec fn first_taunter(ms: Seq<Monster>, cat: Catalog, i: int) -> bool {
    &&& 0 <= i < ms.len()
    &&& ms[i].alive && carries_passive(ms[i], cat, "Taunt"@)
    &&& forall|j: int| 0 <= j < i ==> !(ms[j].alive && carries_passive(ms[j], cat, "Taunt"@))
}

/// `i` is the first living monster.
pub open spec fn first_alive(ms: Seq<Monster>, i: int) -> bool {
    &&& 0 <= i < ms.len()
    &&& ms[i].alive
    &&& forall|j: int| 0 <= j < i ==> !ms[j].alive
}

/// The monster adventurers hit next: the first living taunter, else the
/// first living monster, else none.
pub fn target_monster_idx(monsters: &[Monster], cat: &Catalog) -> (r: Option<usize>)
    ensures
        (exists|i: int| 0 <= i < monsters@.len() && monsters@[i].alive && carries_passive(monsters@[i], *cat, "Taunt"@))
            ==> r is Some && first_taunter(monsters@, *cat, r->0 as int),
        !(exists|i: int| 0 <= i < monsters@.len() && monsters@[i].alive && carries_passive(monsters@[i], *cat, "Taunt"@))
            && (exists|i: int| 0 <= i < monsters@.len() && monsters@[i].alive) ==> r is Some && first_alive(
            monsters@,
            r->0 as int,
        ),
        !(exists|i: int| 0 <= i < monsters@.len() && monsters@[i].alive) ==> r is None,
{
    let mut i: usize = 0;
    while i < monsters.len()
        invariant
            0 <= i <= monsters@.len(),
            forall|j: int| 0 <= j < i ==> !(monsters@[j].alive && carries_passive(monsters@[j], *cat, "Taunt"@)),
        decreases monsters@.len() - i,
    {
        if monsters[i].alive && has_passive(&monsters[i], cat, "Taunt") {
            return Some(i);
        }
        i = i + 1;
    }
    let mut i: usize = 0;
    while i < monsters.len()
        invariant
            0 <= i <= monsters@.len(),
            forall|j: int| 0 <= j < monsters@.len() ==> !(monsters@[j].alive && carries_passive(monsters@[j], *cat, "Taunt"@)),
            forall|j: int| 0 <= j < i ==> !monsters@[j].alive,
        decreases monsters@.len() - i,
    {
        if monsters[i].alive {
            return Some(i);
        }
        i = i + 1;
    }
    None
}

/// Element of a monster, from its template; empty (neutral) when the
/// template names none or there is no such template.
pub open spec fn monster_element_of(cat: Catalog, kind: Seq<char>) -> Seq<char> {
    if cat.has_monster(kind) {
        match cat.monster_of(kind).element {
            Some(e) => e@,
            None => Seq::empty(),
        }
    } else {
        Seq::empty()
    }
}

/// Element of a monster, from its template. Empty = neutral.
pub fn monster_element(cat: &Catalog, kind: &str) -> (r: String)
    ensures
        r@ == monster_element_of(*cat, kind@),
{
    match cat.get_monster_template(kind) {
        Some(t) => match &t.element {
            Some(e) => e.clone(),
            None => String::new(),
        },
        None => String::new(),
    }
}

/// Damage element of an adventurer, from its class; empty (neutral) when
/// there is no such class.
pub open spec fn adventurer_element_of(cat: Catalog, class_name: Seq<char>) -> Seq<char> {
    if cat.has_class(class_name) {
        cat.class_of(class_name).element@
    } else {
        Seq::empty()
    }
}

/// Damage element of an adventurer, from their class. Empty = neutral.
pub fn adventurer_element(cat: &Catalog, class_name: &str) -> (r: String)
    ensures
        r@ == adventurer_element_of(*cat, class_name@),
{
    match cat.class_index(class_name) {
        Some(k) => cat.classes[k].element.clone(),
        None => String::new(),
    }
}

/// A hero's remaining health in thousandths of its maximum (negative health
/// counts as none, a maximum below one as one).
pub open spec fn health_mille(h: Adventurer) -> int {
    (if h.hp > 0 { h.hp as int } else { 0int }) * 1000 / (if h.max_hp > 1 { h.max_hp as int } else { 1int })
}

/// In a cull, hero `i` of `ms` is struck before hero `j`: lower health share
/// first, then lower health, then earlier in the party.
pub open spec fn culled_before(ms: Seq<Adventurer>, i: int, j: int) -> bool {
    ||| health_mille(ms[i]) < health_mille(ms[j])
    ||| health_mille(ms[i]) == health_mille(ms[j]) && ms[i].hp < ms[j].hp
    ||| health_mille(ms[i]) == health_mille(ms[j]) && ms[i].hp == ms[j].hp && i < j
}

/// `i` is the living hero a cull strikes: every other living hero comes
/// after it.
pub open spec fn cull_target_is(ms: Seq<Adventurer>, i: int) -> bool {
    &&& 0 <= i < ms.len()
    &&& ms[i].alive
    &&& forall|j: int| 0 <= j < ms.len() && j != i && #[trigger] ms[j].alive ==> culled_before(ms, i, j)
}

/// The hero a room strikes: a room under the cull order concentrates on the
/// most wounded living hero (by health share, then health, then party
/// order); any other room strikes `random_pick`, the caller's roll among the
/// living heroes.
pub fn target_adventurer_idx(party: &AdventurerParty, order: RoomBattleOrder, random_pick: Option<usize>) -> (r: Option<usize>)
    ensures
        order != RoomBattleOrder::CullWounded ==> r == random_pick,
        order == RoomBattleOrder::CullWounded ==> (r is None <==> forall|j: int|
            0 <= j < party.members@.len() ==> !(#[trigger] party.members@[j]).alive),
        order == RoomBattleOrder::CullWounded && r is Some ==> cull_target_is(party.members@, r->0 as int),
{
    if order != RoomBattleOrder::CullWounded {
        return random_pick;
    }
    cull_idx(&party.members)
}

/// The living hero a cull strikes (see `cull_target_is`), if any lives.
pub fn cull_idx(ms: &Vec<Adventurer>) -> (r: Option<usize>)
    ensures
        r is None <==> forall|j: int| 0 <= j < ms@.len() ==> !(#[trigger] ms@[j]).alive,
        r is Some ==> cull_target_is(ms@, r->0 as int),
{
    let mut best: Option<usize> = None;
    let mut best_mille: i64 = 0;
    let mut i: usize = 0;
    while i < ms.len()
        invariant
            0 <= i <= ms@.len(),
            best is None <==> forall|j: int| 0 <= j < i ==> !(#[trigger] ms@[j]).alive,
            best is Some ==> {
                let b = best->0 as int;
                &&& 0 <= b < i
                &&& ms@[b].alive
                &&& best_mille == health_mille(ms@[b])
                &&& forall|j: int| 0 <= j < i && j != b && #[trigger] ms@[j].alive ==> culled_before(ms@, b, j)
            },
        decreases ms@.len() - i,
    {
        if ms[i].alive {
            let hp: i64 = if ms[i].hp > 0 { ms[i].hp as i64 } else { 0 };
            let cap: i64 = if ms[i].max_hp > 1 { ms[i].max_hp as i64 } else { 1 };
            let mille: i64 = hp * 1000 / cap;
            match best {
                None => {
                    best = Some(i);
                    best_mille = mille;
                },
                Some(b) => {
                    if mille < best_mille || (mille == best_mille && ms[i].hp < ms[b].hp) {
                        best = Some(i);
                        best_mille = mille;
                    }
                },
            }
        }
        i = i + 1;
    }
    best
}

/// Under a well-formed catalog no trap costs a negative amount to re-arm.
proof fn lemma_rearm_cost_nonnegative(cat: Catalog, name: Seq<char>)
    requires
        cat.wf(),
    ensures
        cat.rearm_cost(name) >= 0,
{
    if exists|i: int| 0 <= i < cat.upgrades.len() && cat.upgrades[i].name@ == name {
        let w = choose|i: int| 0 <= i < cat.upgrades.len() && cat.upgrades[i].name@ == name;
        lemma_first_upgrade_named(cat, name, w);
        let i = choose|i: int|
            0 <= i < cat.upgrades.len() && cat.upgrades[i].name@ == name && forall|j: int|
                0 <= j < i ==> cat.upgrades[j].name@ != name;
        assert(0 <= cat.upgrades[i].mana_cost);
    }
}

proof fn lemma_first_upgrade_named(cat: Catalog, name: Seq<char>, w: int)
    requires
        0 <= w < cat.upgrades.len(),
        cat.upgrades[w].name@ == name,
    ensures
        exists|i: int|
            0 <= i < cat.upgrades.len() && cat.upgrades[i].name@ == name && forall|j: int|
                0 <= j < i ==> cat.upgrades[j].name@ != name,
    decreases w,
{
    if exists|j: int| 0 <= j < w && cat.upgrades[j].name@ == name {
        let j = choose|j: int| 0 <= j < w && cat.upgrades[j].name@ == name;
        lemma_first_upgrade_named(cat, name, j);
    } else {
        assert(forall|j: int| 0 <= j < w ==> cat.upgrades[j].name@ != name);
    }
}

proof fn lemma_rooms_rearm_sound(rooms: Seq<Room>, cat: Catalog, t: (int, Seq<LogEntry>))
    requires
        cat.wf(),
    ensures
        rearm_sound(t.0, rearm_rooms(rooms, cat, t).0),
    decreases rooms.len(),
{
    if rooms.len() > 0 {
        lemma_rooms_rearm_sound(rooms.drop_last(), cat, t);
        let mid = rearm_rooms(rooms.drop_last(), cat, t);
        let room = rooms.last();
        if rearms(room, cat, mid.0) {
            let u = sprung_trap(room)->0;
            lemma_rearm_cost_nonnegative(cat, room.upgrades@[u].name@);
        }
    }
}

proof fn lemma_floors_rearm_sound(floors: Seq<Floor>, cat: Catalog, t: (int, Seq<LogEntry>))
    requires
        cat.wf(),
    ensures
        rearm_sound(t.0, rearm_floors(floors, cat, t).0),
    decreases floors.len(),
{
    if floors.len() > 0 {
        lemma_floors_rearm_sound(floors.drop_last(), cat, t);
        let mid = rearm_floors(floors.drop_last(), cat, t);
        lemma_rooms_rearm_sound(floors.last().rooms@, cat, mid);
    }
}

/// Re-arming spends what it takes from the core and nothing more: the mana
/// spent is never negative, the core is left with exactly what it held less
/// what was spent, and a core that started with no debt ends with none.
pub proof fn law_rearm_spends_from_the_core(s: GameState, cat: Catalog, t: GameState, spent: i32)
    requires
        cat.wf(),
        rearm_outcome(s, cat, t, spent),
        0 <= s.mana,
    ensures
        spent >= 0,
        t.mana == s.mana - spent,
        t.mana >= 0,
{
    lemma_floors_rearm_sound(s.floors@, cat, (s.mana as int, Seq::empty()));
}

/// Dread breaks invaders sooner: for a party that is not sieging, the more
/// Dread the keeper's core powers hold, the fewer casualties the party takes
/// before it breaks; one more Dread brings the breaking point strictly lower
/// whenever it stood above a single casualty. A siege party never breaks
/// early, whatever the Dread.
pub proof fn law_dread_breaks_nerve_sooner(s: GameState, t: GameState, p: AdventurerParty)
    ensures
        !p.sieging && boon_total(t.core_powers@, Boon::Dread, CORE_POWER_COUNT as int) >= boon_total(
            s.core_powers@,
            Boon::Dread,
            CORE_POWER_COUNT as int,
        ) ==> breaking_point(t, p) <= breaking_point(s, p),
        !p.sieging && boon_total(t.core_powers@, Boon::Dread, CORE_POWER_COUNT as int) > boon_total(
            s.core_powers@,
            Boon::Dread,
            CORE_POWER_COUNT as int,
        ) && breaking_point(s, p) > 1 ==> breaking_point(t, p) < breaking_point(s, p),
        breaking_point(s, p) >= 1,
        p.sieging ==> breaking_point(s, p) == 99,
{
}

/// Vengeance and relic hunts steel a party: the same party on one of those
/// expeditions breaks no sooner than on a survey or for profit, and exactly
/// one casualty later whenever the latter's breaking point stood above one.
pub proof fn law_zeal_holds_a_party_longer(s: GameState, p: AdventurerParty, zealous: ExpeditionDoctrine)
    requires
        !p.sieging,
        p.doctrine == ExpeditionDoctrine::Survey || p.doctrine == ExpeditionDoctrine::Profit,
        zealous == ExpeditionDoctrine::Vengeance || zealous == ExpeditionDoctrine::RelicHunt,
    ensures
        breaking_point(s, AdventurerParty { doctrine: zealous, ..p }) >= breaking_point(s, p),
        breaking_point(s, p) > 1 ==> breaking_point(s, AdventurerParty { doctrine: zealous, ..p })
            == breaking_point(s, p) + 1,
{
    assert(nerve_of(AdventurerParty { doctrine: zealous, ..p }) == nerve_of(p));
}

} // verus!
