//! Springing a room's trap on a passing party: whether it fires, a Rogue's
//! counterplay, and the trap's effect — an affliction, a snare, an alarm, a
//! mana siphon, a gold theft, or plain damage. The dice and the rounded
//! strength come from the caller; every effect is decided here.

use vstd::prelude::*;
use crate::battle::{hero_target, hero_target_idx, top_up, top_up_mana};
use crate::state::{
    clamp_add, Adventurer, AdventurerParty, Condition, Floor, GameState, LogEntry, Room, RoomBattleOrder,
    RoomUpgrade, RoomUpgradeType, SoundEvent,
};

verus! {

/// Combat ticks a poison or burn lasts.
pub const CONDITION_TICKS: i32 = 4;

/// The dice and the strength of one spring, as the caller drew them.
#[derive(Clone, Copy, Debug, PartialEq, Eq)]
pub struct TrapRoll {
    /// The trap's trigger chance came up this tick.
    pub triggered: bool,
    /// A Rogue's disarm chance came up.
    pub rogue_disarms: bool,
    /// The die that draws the living member the trap strikes.
    pub victim_roll: usize,
    /// The trap's strength for this spring, rounded to a whole number.
    pub power: i32,
}

/// How a spring went.
#[derive(Clone, Copy, Debug, PartialEq, Eq, Structural)]
pub enum TrapOutcome {
    /// No armed trap fired.
    Quiet,
    /// A Rogue sprang the trap safely.
    Disarmed,
    /// The trap fired on the party.
    Sprung,
}

/// `i` is the room's first Trap upgrade.
pub open spec fn is_first_trap(room: Room, i: int) -> bool {
    &&& 0 <= i < room.upgrades.len()
    &&& room.upgrades[i].upgrade_type == RoomUpgradeType::Trap
    &&& forall|j: int| 0 <= j < i ==> room.upgrades[j].upgrade_type != RoomUpgradeType::Trap
}

/// The room holds a Trap upgrade.
pub open spec fn has_trap(room: Room) -> bool {
    exists|i: int| 0 <= i < room.upgrades.len() && room.upgrades[i].upgrade_type == RoomUpgradeType::Trap
}

/// Index of the room's first Trap upgrade (meaningful when `has_trap`).
pub open spec fn trap_index(room: Room) -> int {
    choose|i: int| is_first_trap(room, i)
}


/// Some living member of the party is a Rogue.
pub open spec fn has_rogue(p: AdventurerParty) -> bool {
    exists|k: int| 0 <= k < p.members.len() && p.members[k].alive && p.members[k].class_name@ == "Rogue"@
}

/// A strength of at least one.
pub open spec fn at_least_one(x: i32) -> int {
    if x >= 1 {
        x as int
    } else {
        1
    }
}

/// The smaller of two numbers.
pub open spec fn lesser(a: int, b: int) -> int {
    if a <= b {
        a
    } else {
        b
    }
}

/// `t` is `s` with party `p` replaced by `q` (other fields as `t` says).
pub open spec fn party_set(s: GameState, t: GameState, p: int, q: AdventurerParty) -> bool {
    t.adventurer_parties@ == s.adventurer_parties@.update(p, q)
}

/// Member `v` of party `q` is member `v` of `party` with `m`; the rest of
/// the party as `party` but for `q`'s members.
pub open spec fn member_set(party: AdventurerParty, q: AdventurerParty, v: int, m: Adventurer) -> bool {
    q.members@ == party.members@.update(v, m)
}


/// The living member a trap strikes: the one its die draws, none when the
/// party is wiped out.
pub open spec fn trap_victim(party: AdventurerParty, roll: TrapRoll) -> Option<int> {
    hero_target(party.members@, RoomBattleOrder::Balanced, roll.victim_roll)
}

/// What a fall to a trap is worth to the core: ten mana per level (held
/// within `i32`).
pub open spec fn trap_kill_gain(level: i32) -> int {
    clamp_add(0, 10 * level)
}

/// What the spring of the trap in room `r` of floor `f` does to `s` for
/// party `p` with the dice `roll`: `t` is the state after, `out` the outcome.
/// The trap's effect is the one it was installed with.
pub open spec fn trap_sprung(s: GameState, p: int, f: int, r: int, roll: TrapRoll, t: GameState, out: TrapOutcome) -> bool {
    let room = s.floors[f].rooms[r];
    let party = s.adventurer_parties[p];
    if !has_trap(room) || room.upgrades[trap_index(room)].disarmed || !roll.triggered {
        out == TrapOutcome::Quiet && t == s
    } else {
        let ti = trap_index(room);
        let trap = room.upgrades[ti];
        let sounds = s.sounds@.push(SoundEvent::Trap);
        let kind = trap.effect_kind@;
        let pw = at_least_one(roll.power);
        &&& t.sounds@ == sounds
        &&& if has_rogue(party) && roll.rogue_disarms {
            &&& out == TrapOutcome::Disarmed
            &&& t.floors@ == s.floors@.update(f, Floor { rooms: t.floors[f].rooms, ..s.floors[f] })
            &&& t.floors[f].rooms@ == s.floors[f].rooms@.update(r, Room { upgrades: t.floors[f].rooms[r].upgrades, ..room })
            &&& t.floors[f].rooms[r].upgrades@ == room.upgrades@.update(ti, RoomUpgrade { disarmed: true, ..trap })
            &&& t.log@ == s.log@.push(LogEntry::TrapDisarmed)
            &&& t == (GameState { floors: t.floors, log: t.log, sounds: t.sounds, ..s })
        } else if kind == "Poison"@ || kind == "Burn"@ {
            &&& out == TrapOutcome::Sprung
            &&& match trap_victim(party, roll) {
                None => t == (GameState { sounds: t.sounds, ..s }),
                Some(v) => {
                    let m = party.members[v];
                    let q = t.adventurer_parties[p];
                    let m2 = q.members[v];
                    let c = m2.conditions@.last();
                    &&& party_set(s, t, p, q)
                    &&& q == (AdventurerParty { members: q.members, ..party })
                    &&& member_set(party, q, v, m2)
                    &&& m2 == (Adventurer { conditions: m2.conditions, ..m })
                    &&& m2.conditions@.drop_last() == m.conditions@
                    &&& m2.conditions@.len() == m.conditions@.len() + 1
                    &&& c.kind@ == kind && c.ticks == CONDITION_TICKS && c.power == pw
                    &&& t.log@.drop_last() == s.log@ && t.log@.len() == s.log@.len() + 1
                    &&& (t.log@.last() matches LogEntry::TrapAfflicts { victim, kind: k, power } && victim == m.id
                        && k@ == kind && power == pw)
                    &&& t == (GameState { adventurer_parties: t.adventurer_parties, log: t.log, sounds: t.sounds, ..s })
                },
            }
        } else if kind == "Snare"@ {
            let q = AdventurerParty {
                snared_ticks: if party.snared_ticks >= pw { party.snared_ticks } else { pw as i32 },
                ..party
            };
            &&& out == TrapOutcome::Sprung
            &&& party_set(s, t, p, q)
            &&& t.log@ == s.log@.push(LogEntry::TrapSnares { ticks: pw as i32 })
            &&& t == (GameState { adventurer_parties: t.adventurer_parties, log: t.log, sounds: t.sounds, ..s })
        } else if kind == "Alarm"@ {
            &&& out == TrapOutcome::Sprung
            &&& if party.alarmed {
                t == (GameState { sounds: t.sounds, ..s })
            } else {
                &&& party_set(s, t, p, AdventurerParty { alarmed: true, ..party })
                &&& t.log@ == s.log@.push(LogEntry::TrapAlarm)
                &&& t == (GameState { adventurer_parties: t.adventurer_parties, log: t.log, sounds: t.sounds, ..s })
            }
        } else if kind == "ManaSiphon"@ {
            &&& out == TrapOutcome::Sprung
            &&& t.log@ == s.log@.push(LogEntry::TrapSiphons { mana: roll.power })
            &&& t == (GameState {
                mana: top_up(s.mana as int, roll.power as int, s.max_mana as int) as i32,
                log: t.log,
                sounds: t.sounds,
                ..s
            })
        } else if kind == "GoldSteal"@ {
            let steal = lesser(party.loot as int, roll.power as int);
            &&& out == TrapOutcome::Sprung
            &&& if steal > 0 {
                &&& party_set(s, t, p, AdventurerParty { loot: (party.loot - steal) as i32, ..party })
                &&& t.log@ == s.log@.push(LogEntry::TrapSteals { gold: steal as i32 })
                &&& t == (GameState {
                    adventurer_parties: t.adventurer_parties,
                    gold: clamp_add(s.gold as int, steal) as i32,
                    log: t.log,
                    sounds: t.sounds,
                    ..s
                })
            } else {
                t == (GameState { sounds: t.sounds, ..s })
            }
        } else {
            &&& out == TrapOutcome::Sprung
            &&& match trap_victim(party, roll) {
                None => t == (GameState { sounds: t.sounds, ..s }),
                Some(v) => {
                    let m = party.members[v];
                    let hp = m.hp - pw;
                    let t_party = t.adventurer_parties[p];
                    if hp <= 0 {
                        let gain = trap_kill_gain(m.level);
                        let q = AdventurerParty { casualties: clamp_add(party.casualties as int, 1) as i32, ..party };
                        &&& party_set(s, t, p, t_party)
                        &&& t_party == (AdventurerParty { members: t_party.members, ..q })
                        &&& member_set(party, t_party, v, Adventurer { hp: 0, alive: false, ..m })
                        &&& t.log@ == s.log@.push(LogEntry::TrapKills { victim: m.id, mana: gain as i32 })
                        &&& t == (GameState {
                            adventurer_parties: t.adventurer_parties,
                            mana: top_up(s.mana as int, gain, s.max_mana as int) as i32,
                            total_deaths: clamp_add(s.total_deaths as int, 1) as i32,
                            log: t.log,
                            sounds: t.sounds,
                            ..s
                        })
                    } else {
                        &&& party_set(s, t, p, t_party)
                        &&& t_party == (AdventurerParty { members: t_party.members, ..party })
                        &&& member_set(party, t_party, v, Adventurer { hp: hp as i32, ..m })
                        &&& t.log@ == s.log@.push(LogEntry::TrapHits { victim: m.id, damage: pw as i32 })
                        &&& t == (GameState { adventurer_parties: t.adventurer_parties, log: t.log, sounds: t.sounds, ..s })
                    }
                },
            }
        }
    }
}

fn first_trap(room: &Room) -> (r: Option<usize>)
    ensures
        r is Some <==> has_trap(*room),
        r is Some ==> is_first_trap(*room, r->0 as int) && trap_index(*room) == r->0,
{
    let mut i: usize = 0;
    while i < room.upgrades.len()
        invariant
            0 <= i <= room.upgrades.len(),
            forall|j: int| 0 <= j < i ==> room.upgrades[j].upgrade_type != RoomUpgradeType::Trap,
        decreases room.upgrades.len() - i,
    {
        if room.upgrades[i].upgrade_type == RoomUpgradeType::Trap {
            proof {
                assert(is_first_trap(*room, i as int));
                let k = trap_index(*room);
                assert(is_first_trap(*room, k));
                if k < i {
                    assert(room.upgrades[k].upgrade_type != RoomUpgradeType::Trap);
                }
                if i < k {
                    assert(room.upgrades[i as int].upgrade_type != RoomUpgradeType::Trap);
                }
            }
            return Some(i);
        }
        i = i + 1;
    }
    None
}

fn party_has_rogue(party: &AdventurerParty) -> (r: bool)
    ensures
        r == has_rogue(*party),
{
    let rogue = "Rogue".to_owned();
    let mut k: usize = 0;
    while k < party.members.len()
        invariant
            rogue@ == "Rogue"@,
            0 <= k <= party.members.len(),
            forall|j: int| 0 <= j < k ==> !(party.members[j].alive && party.members[j].class_name@ == "Rogue"@),
        decreases party.members.len() - k,
    {
        if party.members[k].alive && party.members[k].class_name == rogue {
            return true;
        }
        k = k + 1;
    }
    false
}


/// Spring the trap of room `room_idx` on floor `floor_idx` on party
/// `party_idx`, with the caller's dice: nothing happens without an armed
/// Trap upgrade or when its trigger chance fails; otherwise it sounds, and a
/// living Rogue whose disarm chance came up springs it safely, leaving it
/// down until re-armed. Else the effect the trap was installed with
/// strikes: poison or burn afflicts the drawn victim for four ticks; a snare
/// holds the party at least this long; an alarm rouses every defender
/// against the party; a siphon draws mana into the core (up to its
/// capacity); a thief pockets gold from the party's haul; any other trap
/// damages the drawn victim, who may fall (a casualty and a death, with ten
/// mana per level to the core). Poison, burn, snare and damage strike with
/// a strength of at least one.
#[verifier::rlimit(80)]
#[verifier::spinoff_prover]
pub fn spring_trap(state: &mut GameState, party_idx: usize, floor_idx: usize, room_idx: usize, roll: TrapRoll) -> (out:
    TrapOutcome)
    requires
        party_idx < old(state).adventurer_parties.len(),
        floor_idx < old(state).floors.len(),
        room_idx < old(state).floors[floor_idx as int].rooms.len(),
    ensures
        trap_sprung(*old(state), party_idx as int, floor_idx as int, room_idx as int, roll, *final(state), out),
{
    let ghost s = *state;
    let ti = match first_trap(&state.floors[floor_idx].rooms[room_idx]) {
        None => {
            return TrapOutcome::Quiet;
        },
        Some(ti) => ti,
    };
    if state.floors[floor_idx].rooms[room_idx].upgrades[ti].disarmed || !roll.triggered {
        return TrapOutcome::Quiet;
    }
    state.sounds.push(SoundEvent::Trap);
    if party_has_rogue(&state.adventurer_parties[party_idx]) && roll.rogue_disarms {
        state.floors[floor_idx].rooms[room_idx].upgrades[ti].disarmed = true;
        state.log.push(LogEntry::TrapDisarmed);
        proof {
            assert(state.floors@ =~= s.floors@.update(
                floor_idx as int,
                Floor { rooms: state.floors[floor_idx as int].rooms, ..s.floors[floor_idx as int] },
            ));
            assert(state.floors[floor_idx as int].rooms@ =~= s.floors[floor_idx as int].rooms@.update(
                room_idx as int,
                Room {
                    upgrades: state.floors[floor_idx as int].rooms[room_idx as int].upgrades,
                    ..s.floors[floor_idx as int].rooms[room_idx as int]
                },
            ));
            assert(state.floors[floor_idx as int].rooms[room_idx as int].upgrades@ =~= s.floors[floor_idx as int].rooms[room_idx as int].upgrades@.update(
                ti as int,
                RoomUpgrade { disarmed: true, ..s.floors[floor_idx as int].rooms[room_idx as int].upgrades[ti as int] },
            ));
        }
        return TrapOutcome::Disarmed;
    }
    let kind = state.floors[floor_idx].rooms[room_idx].upgrades[ti].effect_kind.clone();
    let pw: i32 = if roll.power >= 1 { roll.power } else { 1 };
    if kind == "Poison".to_owned() || kind == "Burn".to_owned() {
        match hero_target_idx(&state.adventurer_parties[party_idx].members, RoomBattleOrder::Balanced, roll.victim_roll) {
            None => {},
            Some(v) => {
                let id = state.adventurer_parties[party_idx].members[v].id;
                let ghost before = state.adventurer_parties[party_idx as int].members[v as int].conditions@;
                state.adventurer_parties[party_idx].members[v].conditions.push(
                    Condition { kind: kind.clone(), ticks: CONDITION_TICKS, power: pw },
                );
                state.log.push(LogEntry::TrapAfflicts { victim: id, kind, power: pw });
                proof {
                    let q = state.adventurer_parties[party_idx as int];
                    assert(state.adventurer_parties@ =~= s.adventurer_parties@.update(party_idx as int, q));
                    assert(q.members@ =~= s.adventurer_parties[party_idx as int].members@.update(v as int, q.members[v as int]));
                    assert(q.members[v as int].conditions@.drop_last() =~= before);
                    assert(state.log@.drop_last() =~= s.log@);
                }
            },
        }
    } else if kind == "Snare".to_owned() {
        let cur = state.adventurer_parties[party_idx].snared_ticks;
        state.adventurer_parties[party_idx].snared_ticks = if cur >= pw { cur } else { pw };
        state.log.push(LogEntry::TrapSnares { ticks: pw });
        proof {
            assert(state.adventurer_parties@ =~= s.adventurer_parties@.update(
                party_idx as int,
                state.adventurer_parties[party_idx as int],
            ));
        }
    } else if kind == "Alarm".to_owned() {
        if !state.adventurer_parties[party_idx].alarmed {
            state.adventurer_parties[party_idx].alarmed = true;
            state.log.push(LogEntry::TrapAlarm);
            proof {
                assert(state.adventurer_parties@ =~= s.adventurer_parties@.update(
                    party_idx as int,
                    state.adventurer_parties[party_idx as int],
                ));
            }
        }
    } else if kind == "ManaSiphon".to_owned() {
        state.mana = top_up_mana(state.mana, roll.power, state.max_mana);
        state.log.push(LogEntry::TrapSiphons { mana: roll.power });
    } else if kind == "GoldSteal".to_owned() {
        let loot = state.adventurer_parties[party_idx].loot;
        let steal: i32 = if loot <= roll.power { loot } else { roll.power };
        if steal > 0 {
            state.adventurer_parties[party_idx].loot = loot - steal;
            let g: i64 = state.gold as i64 + steal as i64;
            state.gold = if g > i32::MAX as i64 { i32::MAX } else { g as i32 };
            state.log.push(LogEntry::TrapSteals { gold: steal });
            proof {
                assert(state.adventurer_parties@ =~= s.adventurer_parties@.update(
                    party_idx as int,
                    state.adventurer_parties[party_idx as int],
                ));
            }
        }
    } else {
        match hero_target_idx(&state.adventurer_parties[party_idx].members, RoomBattleOrder::Balanced, roll.victim_roll) {
            None => {},
            Some(v) => {
                let id = state.adventurer_parties[party_idx].members[v].id;
                let level = state.adventurer_parties[party_idx].members[v].level;
                let hp: i64 = state.adventurer_parties[party_idx].members[v].hp as i64 - pw as i64;
                if hp <= 0 {
                    state.adventurer_parties[party_idx].members[v].hp = 0;
                    state.adventurer_parties[party_idx].members[v].alive = false;
                    let c = state.adventurer_parties[party_idx].casualties;
                    state.adventurer_parties[party_idx].casualties = if c == i32::MAX { i32::MAX } else { c + 1 };
                    let raw: i64 = 10 * level as i64;
                    let gain: i32 = if raw > i32::MAX as i64 {
                        i32::MAX
                    } else if raw < i32::MIN as i64 {
                        i32::MIN
                    } else {
                        raw as i32
                    };
                    state.mana = top_up_mana(state.mana, gain, state.max_mana);
                    state.total_deaths = if state.total_deaths == i32::MAX { i32::MAX } else { state.total_deaths + 1 };
                    state.log.push(LogEntry::TrapKills { victim: id, mana: gain });
                } else {
                    state.adventurer_parties[party_idx].members[v].hp = hp as i32;
                    state.log.push(LogEntry::TrapHits { victim: id, damage: pw });
                }
                proof {
                    let q = state.adventurer_parties[party_idx as int];
                    assert(state.adventurer_parties@ =~= s.adventurer_parties@.update(party_idx as int, q));
                    assert(q.members@ =~= s.adventurer_parties[party_idx as int].members@.update(v as int, q.members[v as int]));
                }
            },
        }
    }
    TrapOutcome::Sprung
}

/// Spring a room's trap on a party passing through a room no defender
/// holds: a trap corridor (a snare or an alarm before a killing room) acts
/// on the party even though no fight breaks out there, which makes the
/// order of rooms a decision. The spring goes exactly as `spring_trap`.
pub fn spring_undefended_trap(state: &mut GameState, party_idx: usize, floor_idx: usize, room_idx: usize, roll: TrapRoll) -> (out:
    TrapOutcome)
    requires
        party_idx < old(state).adventurer_parties.len(),
        floor_idx < old(state).floors.len(),
        room_idx < old(state).floors[floor_idx as int].rooms.len(),
    ensures
        trap_sprung(*old(state), party_idx as int, floor_idx as int, room_idx as int, roll, *final(state), out),
{
    spring_trap(state, party_idx, floor_idx, room_idx, roll)
}

} // verus!
