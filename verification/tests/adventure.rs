use dungeon_core::adventure::{
    advance_allowed, advance_party, expedition_target_floor, handle_retreating_parties, party_size_range,
    process_single_party, settle_departing_party, threat_party_shape, PartyStep,
};
use dungeon_core::catalog::Catalog;
use dungeon_core::combat::{check_retreat, party_nerve, rearm_traps};
use dungeon_core::endgame::{assault_allowed, repel_allowed};
use dungeon_core::monsters::defender_count;
use dungeon_core::pathing::pathing_within;
use dungeon_core::rooms::add_room;
use dungeon_core::state::{
    Adventurer, AdventurerParty, ExpeditionDoctrine, GameState, HeroDrive, HeroRecord, HeroStatus,
    JournalEvent, LogEntry, Monster, RoomUpgrade, RoomUpgradeType, Stats,
};

fn expedition_member(id: u64, level: i32) -> Adventurer {
    Adventurer {
        id,
        name: format!("Hero {id}"),
        class_name: "Warrior".to_string(),
        race: "Human".to_string(),
        drive: HeroDrive::Duty,
        resolve: 50,
        level,
        hp: 100,
        max_hp: 100,
        alive: true,
        experience: 0,
        gold: 0,
        scaled_stats: Stats { hp: 100, attack: 10, defense: 5 },
        conditions: Vec::new(),
    }
}

fn veteran_record(id: u64, level: i32, delves: i32) -> HeroRecord {
    HeroRecord {
        id,
        name: format!("Hero {id}"),
        class_name: "Warrior".to_string(),
        race: "Human".to_string(),
        drive: HeroDrive::Duty,
        resolve: 60,
        level,
        experience: 0,
        delves,
        kills: 0,
        gold_stolen: 0,
        escapes: delves.saturating_sub(1),
        deepest_floor: 2,
        status: HeroStatus::Inside,
        death_floor: 0,
        death_day: 0,
        journal: Vec::new(),
    }
}

fn party_of(id: u64, members: Vec<Adventurer>) -> AdventurerParty {
    AdventurerParty {
        id,
        members,
        current_floor: 1,
        current_room: 0,
        retreating: false,
        casualties: 0,
        loot: 0,
        entry_time: 0,
        target_floor: 1,
        snared_ticks: 0,
        alarmed: false,
        sieging: false,
        prev_room: 0,
        doctrine: ExpeditionDoctrine::Survey,
    }
}

fn empty_catalog() -> Catalog {
    Catalog { monsters: Vec::new(), species: Vec::new(), evolutions: Vec::new(), traits: Vec::new(), upgrades: Vec::new(), classes: Vec::new() }
}

#[test]
fn fresh_expeditions_only_test_the_upper_dungeon() {
    let mut state = GameState::new();
    state.total_floors = 10;
    let members = vec![expedition_member(1, 1), expedition_member(2, 2)];

    assert_eq!(expedition_target_floor(&state, &members), 2);
}

#[test]
fn strong_returning_heroes_push_expeditions_deeper() {
    let mut state = GameState::new();
    state.total_floors = 10;
    state.known_adventurers.push(veteran_record(1, 6, 5));
    let members = vec![expedition_member(1, 6), expedition_member(2, 3)];

    assert_eq!(expedition_target_floor(&state, &members), 6);
}

#[test]
fn realm_threat_pushes_parties_toward_the_deep_core() {
    let mut calm = GameState::new();
    calm.total_floors = 10;
    let members = vec![expedition_member(1, 3)];
    let calm_target = expedition_target_floor(&calm, &members);

    calm.total_deaths = 50;
    let desperate_target = expedition_target_floor(&calm, &members);

    assert_eq!(calm_target, 3);
    assert_eq!(desperate_target, 6);
}

#[test]
fn expedition_targets_never_exceed_the_built_dungeon() {
    let mut state = GameState::new();
    state.total_floors = 3;
    state.total_deaths = state.siege_threshold();
    state.prestige = 20;
    state.known_adventurers.push(veteran_record(1, 10, 20));
    let members = vec![expedition_member(1, 10)];

    assert_eq!(expedition_target_floor(&state, &members), 3);
}

#[test]
fn discovery_drives_an_expedition_one_floor_deeper() {
    let mut state = GameState::new();
    state.total_floors = 10;
    let duty = vec![expedition_member(1, 3)];
    let mut discovery = vec![expedition_member(1, 3)];
    discovery[0].drive = HeroDrive::Discovery;

    assert_eq!(expedition_target_floor(&state, &discovery), expedition_target_floor(&state, &duty) + 1);
}

fn settle_survivor(hp: i32, drive: HeroDrive) -> HeroRecord {
    let mut state = GameState::new();
    let mut record = veteran_record(1, 3, 2);
    record.drive = drive;
    record.resolve = 50;
    state.known_adventurers.push(record);

    let mut member = expedition_member(1, 3);
    member.drive = drive;
    member.hp = hp;
    member.max_hp = 100;
    let mut party = party_of(90, vec![member]);
    party.current_floor = 3;
    party.retreating = true;
    party.loot = 30;
    party.target_floor = 3;
    state.adventurer_parties.push(party);

    settle_departing_party(&mut state, 0);
    state.known_adventurers.remove(0)
}

#[test]
fn survival_hardens_confident_heroes_but_grievous_wounds_shake_them() {
    let healthy = settle_survivor(80, HeroDrive::Duty);
    let wounded = settle_survivor(20, HeroDrive::Duty);

    assert_eq!(healthy.resolve, 55);
    assert_eq!(wounded.resolve, 42);
    assert!(healthy.escapes > 0);
    assert_eq!(healthy.deepest_floor, 3);
}

#[test]
fn discovery_heroes_learn_more_from_the_same_escape() {
    let duty = settle_survivor(80, HeroDrive::Duty);
    let discovery = settle_survivor(80, HeroDrive::Discovery);
    assert!(discovery.experience > duty.experience);
}

#[test]
fn an_escape_is_banked_and_remembered() {
    let healthy = settle_survivor(80, HeroDrive::Duty);
    // 15 + 3 floors * 8 + 2 delves * 3.
    assert_eq!(healthy.experience, 45);
    assert_eq!(healthy.gold_stolen, 30);
    assert_eq!(healthy.escapes, 2);
    assert_eq!(healthy.status, HeroStatus::Alive);
    assert_eq!(healthy.journal.len(), 1);
    assert_eq!(healthy.journal[0].event, JournalEvent::Escaped { floor: 3, gold: 30, experience: 45 });
    let wounded = settle_survivor(20, HeroDrive::Duty);
    assert_eq!(wounded.journal.len(), 2);
    assert_eq!(wounded.journal[1].event, JournalEvent::GrievouslyWounded);
}

#[test]
fn the_fallen_are_entombed_when_their_party_leaves() {
    let mut state = GameState::new();
    state.known_adventurers.push(veteran_record(1, 3, 2));
    state.known_adventurers.push(veteran_record(2, 3, 2));
    let mut fallen = expedition_member(2, 3);
    fallen.alive = false;
    fallen.hp = 0;
    let mut party = party_of(5, vec![expedition_member(1, 3), fallen]);
    party.current_floor = 2;
    party.loot = 31;
    party.retreating = true;
    state.adventurer_parties.push(party);
    state.adventurer_parties.push(party_of(6, vec![expedition_member(3, 1)]));

    handle_retreating_parties(&mut state, &empty_catalog());
    assert_eq!(state.adventurer_parties.len(), 1);
    assert_eq!(state.adventurer_parties[0].id, 6);
    assert_eq!(state.raids_completed, 1);
    assert_eq!(state.known_adventurers[0].status, HeroStatus::Alive);
    assert_eq!(state.known_adventurers[0].gold_stolen, 31, "the lone survivor keeps the whole haul");
    assert_eq!(state.known_adventurers[1].status, HeroStatus::Dead);
    assert_eq!(state.known_adventurers[1].death_floor, 2);
}

#[test]
fn an_emptied_dungeon_recovers_its_defenders_and_traps() {
    let mut cat = empty_catalog();
    cat.upgrades.push(dungeon_core::catalog::UpgradeTemplate { name: "Spike Trap".to_string(), mana_cost: 40, effect_kind: "Damage".to_string() });
    let mut state = GameState::new();
    state.mana = 100;
    state.floors[0].rooms[0].upgrades.push(RoomUpgrade {
        name: "Spike Trap".to_string(),
        upgrade_type: RoomUpgradeType::Trap,
        disarmed: true,
        effect_kind: "Damage".to_string(),
    });
    state.floors[0].rooms[0].monsters.push(Monster {
        id: 9,
        kind: "Wisp".to_string(),
        hp: 0,
        max_hp: 10,
        alive: false,
        is_boss: false,
        fusion_rank: 1,
        scaled_stats: Stats { hp: 10, attack: 1, defense: 0 },
        active_traits: Vec::new(),
    });
    let mut party = party_of(5, vec![expedition_member(1, 3)]);
    party.retreating = true;
    state.adventurer_parties.push(party);

    handle_retreating_parties(&mut state, &cat);
    assert!(state.adventurer_parties.is_empty());
    assert!(state.floors[0].rooms[0].monsters[0].alive);
    assert!(!state.floors[0].rooms[0].upgrades[0].disarmed);
    // An unknown kind reknits for nothing; the trap costs a quarter of 40.
    assert_eq!(state.mana, 90);
}

#[test]
fn traps_stay_down_when_mana_runs_short() {
    let mut cat = empty_catalog();
    cat.upgrades.push(dungeon_core::catalog::UpgradeTemplate { name: "Spike Trap".to_string(), mana_cost: 40, effect_kind: "Damage".to_string() });
    let mut state = GameState::new();
    state.mana = 5;
    state.floors[0].rooms[0].upgrades.push(RoomUpgrade {
        name: "Spike Trap".to_string(),
        upgrade_type: RoomUpgradeType::Trap,
        disarmed: true,
        effect_kind: "Damage".to_string(),
    });
    assert_eq!(rearm_traps(&mut state, &cat), 0);
    assert!(state.floors[0].rooms[0].upgrades[0].disarmed);
    state.mana = 25;
    assert_eq!(rearm_traps(&mut state, &cat), 10);
    assert_eq!(state.mana, 15);
    assert!(matches!(state.log.last(), Some(LogEntry::TrapRearmed { cost: 10, .. })));
}

#[test]
fn a_party_walks_the_corridor_and_leaves_with_its_loot() {
    let mut state = GameState::new();
    state.mana = 1_000;
    add_room(&mut state, None).unwrap();
    let mut party = party_of(5, vec![expedition_member(1, 1)]);
    party.loot = 12;
    state.adventurer_parties.push(party);

    assert_eq!(process_single_party(&mut state, 5), PartyStep::Pass { party_idx: 0, floor_idx: 0, room_idx: 0 });
    assert!(state.floors[0].rooms[0].explored);
    advance_party(&mut state, 0);
    assert_eq!(state.adventurer_parties[0].current_room, 1);
    assert_eq!(state.adventurer_parties[0].prev_room, 0);
    advance_party(&mut state, 0);
    assert_eq!(state.adventurer_parties[0].current_room, 2);
    // The Core sink at its target depth: the party leaves.
    advance_party(&mut state, 0);
    assert!(state.adventurer_parties[0].retreating);
    assert_eq!(state.gold, 12);
    assert!(matches!(state.log.last(), Some(LogEntry::ExplorationComplete { loot: 12 })));
    assert_eq!(process_single_party(&mut state, 5), PartyStep::Idle);
    assert_eq!(process_single_party(&mut state, 77), PartyStep::Idle);
}

#[test]
fn a_defended_room_calls_for_a_fight() {
    let mut state = GameState::new();
    state.floors[0].rooms[0].monsters.push(Monster {
        id: 9,
        kind: "Goblin".to_string(),
        hp: 10,
        max_hp: 10,
        alive: true,
        is_boss: false,
        fusion_rank: 1,
        scaled_stats: Stats { hp: 10, attack: 3, defense: 1 },
        active_traits: Vec::new(),
    });
    state.adventurer_parties.push(party_of(5, vec![expedition_member(1, 1)]));
    assert_eq!(process_single_party(&mut state, 5), PartyStep::Fight { party_idx: 0, floor_idx: 0, room_idx: 0 });
}

#[test]
fn nerve_reads_the_living_members() {
    let mut party = party_of(5, vec![expedition_member(1, 1)]);
    // Base three, one for duty.
    assert_eq!(party_nerve(&party), 4);
    party.members[0].race = "Halfling".to_string();
    party.members[0].resolve = 20;
    assert_eq!(party_nerve(&party), 2);
    party.members[0].class_name = "Paladin".to_string();
    party.members[0].race = "Dwarf".to_string();
    party.members[0].resolve = 90;
    party.members[0].drive = HeroDrive::Glory;
    assert_eq!(party_nerve(&party), 5, "never above five");
}

#[test]
fn heavy_losses_turn_a_party_back() {
    let mut state = GameState::new();
    let mut party = party_of(5, vec![expedition_member(1, 1)]);
    party.casualties = 3;
    state.adventurer_parties.push(party);
    check_retreat(&mut state, 0);
    assert!(!state.adventurer_parties[0].retreating, "nerve four holds at three losses");
    state.adventurer_parties[0].casualties = 4;
    check_retreat(&mut state, 0);
    assert!(state.adventurer_parties[0].retreating);
    assert!(matches!(state.log.last(), Some(LogEntry::PartyRetreats)));
}

#[test]
fn party_shape_follows_the_realms_threat() {
    let mut state = GameState::new();
    state.total_floors = 4;
    assert_eq!(party_size_range(&state), Some((2, 5)));
    assert_eq!(threat_party_shape(&state, 3), (3, 1, 5));
    state.total_deaths = 100;
    assert_eq!(party_size_range(&state), None);
    assert_eq!(threat_party_shape(&state, 3), (2, 5, 9));
}

#[test]
fn a_party_may_move_on_only_while_its_counts_stay_in_range() {
    let mut state = GameState::new();
    state.adventurer_parties.push(party_of(1, vec![expedition_member(1, 1)]));
    assert!(advance_allowed(&state, 0));
    assert!(!advance_allowed(&state, 1));
    state.gold = i32::MAX;
    state.adventurer_parties[0].loot = 1;
    assert!(!advance_allowed(&state, 0));
    state.adventurer_parties[0].loot = 0;
    assert!(advance_allowed(&state, 0));
}

#[test]
fn an_oversized_party_cannot_path() {
    let state = GameState::new();
    let small = party_of(1, vec![expedition_member(1, 1)]);
    assert!(pathing_within(&state.floors[0], &small));
    let crowd = party_of(
        2,
        (0..1_000_001)
            .map(|i| Adventurer {
                name: String::new(),
                class_name: String::new(),
                race: String::new(),
                ..expedition_member(i, 1)
            })
            .collect(),
    );
    assert!(!pathing_within(&state.floors[0], &crowd));
}

#[test]
fn a_siege_needs_sizes_the_assault_can_hold() {
    let mut state = GameState::new();
    let mut siege = party_of(1, vec![expedition_member(1, 3), expedition_member(2, 3)]);
    siege.sieging = true;
    state.adventurer_parties.push(siege);
    assert!(assault_allowed(&state, 0));
    assert!(repel_allowed(&state));
    assert!(advance_allowed(&state, 0));
    state.adventurer_parties[0].members[1].scaled_stats.attack = i32::MAX;
    assert!(!assault_allowed(&state, 0));
    assert!(!advance_allowed(&state, 0));
    state.adventurer_parties[0].members[1].scaled_stats.attack = 10;
    state.prestige = 2_000_000;
    assert!(!assault_allowed(&state, 0));
    assert!(!repel_allowed(&GameState { prestige: i32::MAX, ..GameState::new() }));
}

#[test]
fn the_defenders_are_counted_across_every_floor() {
    let mut state = GameState::new();
    assert_eq!(defender_count(&state), Some(0));
    let guard = |id: u64| Monster {
        id,
        kind: "Goblin".to_string(),
        hp: 10,
        max_hp: 10,
        alive: true,
        is_boss: false,
        fusion_rank: 1,
        scaled_stats: Stats { hp: 10, attack: 3, defense: 1 },
        active_traits: Vec::new(),
    };
    state.floors[0].rooms[0].monsters.push(guard(7));
    state.floors[0].rooms[1].monsters.push(guard(8));
    state.floors[0].rooms[1].monsters.push(guard(9));
    assert_eq!(defender_count(&state), Some(3));
}
