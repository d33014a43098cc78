use dungeon_core::catalog::Catalog;
use dungeon_core::time::{advance_time, toggle_dungeon_status, toggle_speed, simulation_active};
use dungeon_core::state::{
    Adventurer, AdventurerParty, DungeonStatus, ExpeditionDoctrine, GameState, HeroDrive, LogEntry,
    SoundEvent, Stats,
};

fn empty_catalog() -> Catalog {
    Catalog { monsters: Vec::new(), species: Vec::new(), evolutions: Vec::new(), traits: Vec::new(), upgrades: Vec::new(), classes: Vec::new() }
}

fn adventurer(id: u64, level: i32, alive: bool) -> Adventurer {
    Adventurer {
        id,
        name: format!("Delver {id}"),
        class_name: "Warrior".to_string(),
        race: "Human".to_string(),
        drive: HeroDrive::Duty,
        resolve: 50,
        level,
        hp: if alive { 30 } else { 0 },
        max_hp: 30,
        alive,
        experience: 0,
        gold: 0,
        scaled_stats: Stats { hp: 30, attack: 8, defense: 3 },
        conditions: Vec::new(),
    }
}

fn party_of(members: Vec<Adventurer>) -> AdventurerParty {
    AdventurerParty {
        id: 1,
        members,
        current_floor: 1,
        current_room: 1,
        retreating: false,
        casualties: 0,
        loot: 0,
        entry_time: 0,
        target_floor: 1,
        snared_ticks: 0,
        alarmed: false,
        sieging: false,
        prev_room: 0,
        doctrine: ExpeditionDoctrine::Survey,
    }
}

#[test]
fn presence_income_and_new_threat_tier_request_feedback() {
    let cat = empty_catalog();
    let mut s = GameState::new();
    s.mana = 0;
    s.total_deaths = 10;
    s.adventurer_parties.push(party_of(vec![adventurer(1, 2, true)]));

    // The intruders inside fed the core this hour.
    advance_time(&mut s, &cat, 2);
    let sounds = s.take_sound_events();
    assert!(sounds.contains(&SoundEvent::Income));
    assert!(sounds.contains(&SoundEvent::Threat));
}

#[test]
fn an_hour_passes_and_the_day_turns_at_midnight() {
    let cat = empty_catalog();
    let mut s = GameState::new();
    s.mana = 0;
    let siege = advance_time(&mut s, &cat, 0);
    assert!(!siege);
    assert_eq!((s.day, s.hour), (1, 1));
    assert_eq!(s.mana, 1, "the core trickles a mana an hour");
    assert!(s.take_sound_events().is_empty(), "no income cue without a raid");
    s.hour = 23;
    s.mana = s.max_mana - 1;
    advance_time(&mut s, &cat, 5);
    assert_eq!((s.day, s.hour), (2, 0));
    assert_eq!(s.mana, s.max_mana, "never past the cap");
}

#[test]
fn a_closing_dungeon_shuts_once_the_last_party_left() {
    let cat = empty_catalog();
    let mut s = GameState::new();
    s.status = DungeonStatus::Closing;
    advance_time(&mut s, &cat, 0);
    assert_eq!(s.status, DungeonStatus::Closed);
    assert!(matches!(s.log.last(), Some(LogEntry::StatusChanged { status: DungeonStatus::Closed })));
}

#[test]
fn peak_fury_calls_for_a_siege() {
    let cat = empty_catalog();
    let mut s = GameState::new();
    s.total_deaths = 100;
    assert!(advance_time(&mut s, &cat, 0));
    assert_eq!(s.threat_warned, 4);
}

#[test]
fn the_doors_toggle_and_wait_for_the_last_party() {
    let mut s = GameState::new();
    toggle_dungeon_status(&mut s);
    assert_eq!(s.status, DungeonStatus::Open);
    s.adventurer_parties.push(party_of(vec![adventurer(1, 1, true)]));
    toggle_dungeon_status(&mut s);
    assert_eq!(s.status, DungeonStatus::Closing);
    toggle_dungeon_status(&mut s);
    assert_eq!(s.status, DungeonStatus::Open);
    s.adventurer_parties.clear();
    toggle_dungeon_status(&mut s);
    assert_eq!(s.status, DungeonStatus::Closed);
}

#[test]
fn game_speed_cycles_one_two_four() {
    let mut s = GameState::new();
    toggle_speed(&mut s);
    assert_eq!(s.speed, 2);
    toggle_speed(&mut s);
    assert_eq!(s.speed, 4);
    toggle_speed(&mut s);
    assert_eq!(s.speed, 1);
    s.speed = 3;
    toggle_speed(&mut s);
    assert_eq!(s.speed, 1);
}

#[test]
fn the_simulation_runs_only_when_started_and_unpaused() {
    assert!(simulation_active(true, false));
    assert!(!simulation_active(true, true));
    assert!(!simulation_active(false, false));
    assert!(!simulation_active(false, true));
}
