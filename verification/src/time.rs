//! The hourly clock: mana regeneration, the doors closing behind the last
//! party, the garrison's hourly life, new forms, the realm's rising threat
//! and the milestone track; and the keeper's two time controls.

use vstd::prelude::*;
use crate::catalog::Catalog;
use crate::endgame::{boon_total, core_mana_regen_bonus, siege_ready, Boon, CORE_POWER_COUNT};
use crate::milestones::{check_milestones, milestone_entries, milestone_id, newly_achieved, views, MILESTONE_COUNT};
use crate::monsters::{
    floor_tended, floors_sane, min_int, new_variants, process_evolution_unlocks, process_hourly_traits,
    variant_entry,
};
use crate::rules::threat_tier_for;
use crate::state::{DungeonStatus, GameState, LogEntry, SoundEvent};

verus! {

/// The clock one hour on: `(day, hour)`.
pub open spec fn next_hour(day: i32, hour: i32) -> (i32, i32) {
    if hour + 1 >= 24 {
        ((day + 1) as i32, 0)
    } else {
        (day, (hour + 1) as i32)
    }
}

/// The mana an hour brings: one, plus what the intruders and the deep core
/// drew this hour (`drawn`), plus the owned core powers' regeneration.
pub open spec fn hourly_regen(s: GameState, drawn: i32) -> int {
    1 + drawn + boon_total(s.core_powers@, Boon::Regen, CORE_POWER_COUNT as int)
}

/// The threat line and cue a new threat tier raises, if the realm's threat
/// passed the last tier the keeper was warned of.
pub open spec fn threat_lines(s: GameState) -> Seq<LogEntry> {
    let tier = threat_tier_for(s.total_deaths as int);
    if tier > s.threat_warned {
        seq![LogEntry::ThreatRose { tier: tier as i32 }]
    } else {
        Seq::empty()
    }
}

/// Raise the threat warning when the death toll has passed a new tier.
fn check_threat_level(state: &mut GameState)
    ensures
        ({
            let s = *old(state);
            let tier = threat_tier_for(s.total_deaths as int);
            &&& final(state).log@ == s.log@ + threat_lines(s)
            &&& final(state).sounds@ == if tier > s.threat_warned {
                s.sounds@.push(SoundEvent::Threat)
            } else {
                s.sounds@
            }
            &&& *final(state) == (GameState {
                threat_warned: if tier > s.threat_warned { tier as i32 } else { s.threat_warned },
                log: final(state).log,
                sounds: final(state).sounds,
                ..s
            })
        }),
{
    let tier = state.threat_tier();
    if tier > state.threat_warned {
        state.threat_warned = tier;
        state.log.push(LogEntry::ThreatRose { tier });
        state.sounds.push(SoundEvent::Threat);
        proof {
            assert(state.log@ =~= old(state).log@ + threat_lines(*old(state)));
        }
    } else {
        proof {
            assert(state.log@ =~= old(state).log@ + threat_lines(*old(state)));
        }
    }
}

/// The dungeon an hour on, before the garrison, the lines, the threat and
/// the milestones have had their turn (and before anything is chronicled).
pub open spec fn clock_of(s: GameState, drawn: i32) -> GameState {
    let (day, hour) = next_hour(s.day, s.hour);
    let mana = min_int(s.mana + hourly_regen(s, drawn), s.max_mana as int);
    let closes = s.status == DungeonStatus::Closing && s.adventurer_parties.len() == 0;
    GameState {
        day,
        hour,
        mana: mana as i32,
        status: if closes { DungeonStatus::Closed } else { s.status },
        ..s
    }
}

/// The line chronicling the doors shutting behind the last party, if they do.
pub open spec fn closing_lines(s: GameState) -> Seq<LogEntry> {
    if s.status == DungeonStatus::Closing && s.adventurer_parties.len() == 0 {
        seq![LogEntry::StatusChanged { status: DungeonStatus::Closed }]
    } else {
        Seq::empty()
    }
}

/// The income cue: mana flowed in while a raid is inside.
pub open spec fn income_cue(s: GameState, drawn: i32) -> Seq<SoundEvent> {
    if s.adventurer_parties.len() > 0 && clock_of(s, drawn).mana > s.mana {
        seq![SoundEvent::Income]
    } else {
        Seq::empty()
    }
}

/// The threat cue a new threat tier raises.
pub open spec fn threat_cue(s: GameState) -> Seq<SoundEvent> {
    if threat_tier_for(s.total_deaths as int) > s.threat_warned {
        seq![SoundEvent::Threat]
    } else {
        Seq::empty()
    }
}

/// Move the clock an hour on, regenerate mana and let a closing dungeon shut.
fn tick(state: &mut GameState, drawn: i32)
    requires
        old(state).day < i32::MAX,
        old(state).hour < i32::MAX,
        0 <= drawn,
    ensures
        final(state).log@ == old(state).log@ + closing_lines(*old(state)),
        final(state).sounds@ == old(state).sounds@ + income_cue(*old(state), drawn),
        *final(state) == (GameState {
            log: final(state).log,
            sounds: final(state).sounds,
            ..clock_of(*old(state), drawn)
        }),
{
    state.hour = state.hour + 1;
    if state.hour >= 24 {
        state.hour = 0;
        state.day = state.day + 1;
    }
    let bonus = core_mana_regen_bonus(state);
    let regen: i64 = 1 + drawn as i64 + bonus as i64;
    let mana_before = state.mana;
    let topped: i64 = state.mana as i64 + regen;
    state.mana = if topped <= state.max_mana as i64 {
        topped as i32
    } else {
        state.max_mana
    };
    if state.adventurer_parties.len() > 0 && state.mana > mana_before {
        state.sounds.push(SoundEvent::Income);
    }
    if state.status == DungeonStatus::Closing && state.adventurer_parties.len() == 0 {
        state.status = DungeonStatus::Closed;
        state.log.push(LogEntry::StatusChanged { status: DungeonStatus::Closed });
    }
    proof {
        assert(state.log@ =~= old(state).log@ + closing_lines(*old(state)));
        assert(state.sounds@ =~= old(state).sounds@ + income_cue(*old(state), drawn));
    }
}

/// Advance game time by one hour. `drawn` is the mana the intruders inside
/// and the deep core drew this hour, already rounded to whole mana. Mana
/// regenerates up to the core's capacity (cueing the income sound while a
/// raid is inside); a closing dungeon shuts once the last party has left;
/// defenders mend; lines learn their earned forms; a new threat tier is
/// announced; milestones are checked. Returns whether the realm is now ready
/// to muster its siege.
pub fn advance_time(state: &mut GameState, cat: &Catalog, drawn: i32) -> (siege: bool)
    requires
        cat.wf(),
        floors_sane(old(state).floors@),
        old(state).day < i32::MAX,
        old(state).hour < i32::MAX,
        0 <= drawn,
    ensures
        ({
            let s = *old(state);
            let clock = clock_of(s, drawn);
            let variants = new_variants(cat.evolutions@, clock);
            let tier = threat_tier_for(s.total_deaths as int);
            let settled = GameState { milestones: s.milestones, ..*final(state) };
            let fresh = newly_achieved(settled, MILESTONE_COUNT as int);
            &&& final(state).floors.len() == s.floors.len()
            &&& forall|f: int|
                0 <= f < s.floors.len() ==> floor_tended(#[trigger] final(state).floors[f], s.floors[f], *cat)
            &&& final(state).unlocked_monsters@ == s.unlocked_monsters@ + variants
            &&& views(final(state).milestones@) == views(s.milestones@) + fresh.map_values(
                |j: int| milestone_id(j),
            )
            &&& final(state).log@ == s.log@ + closing_lines(s) + variants.map_values(|n: String| variant_entry(n))
                + threat_lines(s) + milestone_entries(fresh)
            &&& final(state).sounds@ == s.sounds@ + income_cue(s, drawn) + threat_cue(s)
            &&& *final(state) == (GameState {
                floors: final(state).floors,
                unlocked_monsters: final(state).unlocked_monsters,
                milestones: final(state).milestones,
                threat_warned: if tier > s.threat_warned { tier as i32 } else { s.threat_warned },
                log: final(state).log,
                sounds: final(state).sounds,
                ..clock
            })
            &&& siege == siege_ready(*final(state))
        }),
{
    let ghost s = *state;
    tick(state, drawn);
    let ghost s1 = *state;
    process_hourly_traits(state, cat);
    let ghost s2 = *state;
    process_evolution_unlocks(state, cat);
    let ghost s3 = *state;
    check_threat_level(state);
    let ghost s4 = *state;
    check_milestones(state);
    proof {
        crate::monsters::lemma_variants_ignore_health(s2, s1, *cat, cat.evolutions@);
        crate::monsters::lemma_variants_same_fields(s1, clock_of(s, drawn), cat.evolutions@);
        let settled = GameState { milestones: s.milestones, ..*state };
        crate::milestones::lemma_newly_same(s4, settled, MILESTONE_COUNT as int);
        assert(threat_lines(s3) == threat_lines(s));
        assert(threat_cue(s3) == threat_cue(s));
        assert(state.sounds@ =~= s.sounds@ + income_cue(s, drawn) + threat_cue(s));
    }
    siege_due_now(state)
}

fn siege_due_now(state: &GameState) -> (r: bool)
    ensures
        r == siege_ready(*state),
{
    crate::endgame::siege_due(state)
}

/// Toggle the dungeon between open and closed. An open dungeon with parties
/// inside starts closing instead, and shuts once they have left.
pub fn toggle_dungeon_status(state: &mut GameState)
    ensures
        ({
            let s = *old(state);
            let status = toggled(s.status, s.adventurer_parties.len() > 0);
            &&& final(state).log@ == s.log@.push(LogEntry::StatusChanged { status })
            &&& *final(state) == (GameState { status, log: final(state).log, ..s })
        }),
{
    let status = match state.status {
        DungeonStatus::Open => {
            if state.adventurer_parties.len() == 0 {
                DungeonStatus::Closed
            } else {
                DungeonStatus::Closing
            }
        },
        DungeonStatus::Closed | DungeonStatus::Closing => DungeonStatus::Open,
    };
    state.status = status;
    state.log.push(LogEntry::StatusChanged { status });
}

/// The game speed after a toggle: 1, 2 and 4 in a cycle; any other speed
/// returns to 1.
pub open spec fn next_speed(speed: i32) -> i32 {
    if speed == 1 {
        2
    } else if speed == 2 {
        4
    } else {
        1
    }
}

/// Cycle game speed: 1, 2, 4, then back to 1.
pub fn toggle_speed(state: &mut GameState)
    ensures
        *final(state) == (GameState { speed: next_speed(old(state).speed), ..*old(state) }),
{
    state.speed = if state.speed == 1 {
        2
    } else if state.speed == 2 {
        4
    } else {
        1
    };
}

/// Three toggles bring any game speed of the cycle back to itself, and any
/// toggle lands on the cycle.
pub proof fn law_speed_cycles(speed: i32)
    ensures
        next_speed(speed) == 1 || next_speed(speed) == 2 || next_speed(speed) == 4,
        (speed == 1 || speed == 2 || speed == 4) ==> next_speed(next_speed(next_speed(speed))) == speed,
{
}


/// The status a toggle leads to from `status`, with or without parties inside.
pub open spec fn toggled(status: DungeonStatus, parties_inside: bool) -> DungeonStatus {
    match status {
        DungeonStatus::Open => if parties_inside {
            DungeonStatus::Closing
        } else {
            DungeonStatus::Closed
        },
        _ => DungeonStatus::Open,
    }
}

/// With no parties inside, toggling the doors twice restores them; with
/// parties inside, a closing dungeon reopens and a second toggle starts it
/// closing again.
pub proof fn law_toggle_round_trip(status: DungeonStatus, parties_inside: bool)
    ensures
        !parties_inside && status != DungeonStatus::Closing ==> toggled(toggled(status, false), false) == status,
        parties_inside && status != DungeonStatus::Closed ==> toggled(toggled(status, true), true) == status,
{
}

/// Whether the simulation advances this frame: it is running and not paused.
pub fn simulation_active(simulate: bool, paused: bool) -> (r: bool)
    ensures
        r == (simulate && !paused),
{
    simulate && !paused
}

} // verus!
