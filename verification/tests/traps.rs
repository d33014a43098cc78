use dungeon_core::state::{
    Adventurer, AdventurerParty, ExpeditionDoctrine, GameState, HeroDrive, LogEntry, Room, RoomType,
    RoomUpgrade, RoomUpgradeType, SoundEvent, Stats,
};
use dungeon_core::traps::{spring_trap, spring_undefended_trap, TrapOutcome, TrapRoll};

fn member(id: u64, class_name: &str, hp: i32, level: i32) -> Adventurer {
    Adventurer {
        id,
        name: format!("Hero {id}"),
        class_name: class_name.to_string(),
        race: "Human".to_string(),
        drive: HeroDrive::Duty,
        resolve: 50,
        level,
        hp,
        max_hp: hp,
        alive: true,
        experience: 0,
        gold: 0,
        scaled_stats: Stats { hp, attack: 5, defense: 0 },
        conditions: Vec::new(),
    }
}

fn party(members: Vec<Adventurer>, loot: i32) -> AdventurerParty {
    AdventurerParty {
        id: 1,
        members,
        current_floor: 1,
        current_room: 2,
        retreating: false,
        casualties: 0,
        loot,
        entry_time: 0,
        target_floor: 1,
        snared_ticks: 0,
        alarmed: false,
        sieging: false,
        prev_room: 0,
        doctrine: ExpeditionDoctrine::Survey,
    }
}

/// The effect each trap of these tests was installed with.
fn effect_of(name: &str) -> &'static str {
    match name {
        "Poison Darts" => "Poison",
        "Fire Vent" => "Burn",
        "Net Trap" => "Snare",
        "Alarm Bell" => "Alarm",
        "Mana Drain" => "ManaSiphon",
        "Pickpocket Pit" => "GoldSteal",
        "Spike Trap" => "Damage",
        _ => "",
    }
}

/// A dungeon with a trap room (the third room of the first floor) holding
/// the named trap, and one party of `members` inside.
fn trapped(trap: Option<&str>, members: Vec<Adventurer>, loot: i32) -> GameState {
    let mut s = GameState::new();
    let mut room = Room::new(99, RoomType::Normal, 2, 1);
    if let Some(name) = trap {
        room.upgrades.push(RoomUpgrade {
            name: name.to_string(),
            upgrade_type: RoomUpgradeType::Trap,
            disarmed: false,
            effect_kind: effect_of(name).to_string(),
        });
    }
    s.floors[0].rooms.push(room);
    s.adventurer_parties.push(party(members, loot));
    s
}

fn roll(victim_roll: usize, power: i32) -> TrapRoll {
    TrapRoll { triggered: true, rogue_disarms: false, victim_roll, power }
}

#[test]
fn a_room_without_a_trap_leaves_the_party_be() {
    let mut s = trapped(None, vec![member(10, "Warrior", 50, 2)], 0);
    let out = spring_trap(&mut s, 0, 0, 2, roll(0, 9));
    assert_eq!(out, TrapOutcome::Quiet);
    assert_eq!(s.adventurer_parties[0].members[0].hp, 50);
    assert!(s.log.is_empty());
    assert!(s.sounds.is_empty());
}

#[test]
fn a_trap_that_does_not_trigger_stays_quiet() {
    let mut s = trapped(Some("Spike Trap"), vec![member(10, "Warrior", 50, 2)], 0);
    let quiet = TrapRoll { triggered: false, rogue_disarms: false, victim_roll: 0, power: 9 };
    assert_eq!(spring_trap(&mut s, 0, 0, 2, quiet), TrapOutcome::Quiet);
    assert_eq!(s.adventurer_parties[0].members[0].hp, 50);
}

#[test]
fn a_disarmed_trap_stays_down() {
    let mut s = trapped(Some("Spike Trap"), vec![member(10, "Warrior", 50, 2)], 0);
    s.floors[0].rooms[2].upgrades[0].disarmed = true;
    assert_eq!(spring_trap(&mut s, 0, 0, 2, roll(0, 9)), TrapOutcome::Quiet);
    assert_eq!(s.adventurer_parties[0].members[0].hp, 50);
}

#[test]
fn a_living_rogue_disarms_the_trap() {
    let mut s = trapped(Some("Spike Trap"), vec![member(10, "Rogue", 50, 2)], 0);
    let lucky = TrapRoll { triggered: true, rogue_disarms: true, victim_roll: 0, power: 9 };
    assert_eq!(spring_trap(&mut s, 0, 0, 2, lucky), TrapOutcome::Disarmed);
    assert!(s.floors[0].rooms[2].upgrades[0].disarmed);
    assert_eq!(s.adventurer_parties[0].members[0].hp, 50);
    assert!(matches!(s.log.last(), Some(LogEntry::TrapDisarmed)));
    assert_eq!(s.sounds, vec![SoundEvent::Trap]);
}

#[test]
fn without_a_rogue_the_disarm_dice_do_not_matter() {
    let mut s = trapped(Some("Spike Trap"), vec![member(10, "Warrior", 50, 2)], 0);
    let lucky = TrapRoll { triggered: true, rogue_disarms: true, victim_roll: 0, power: 9 };
    assert_eq!(spring_trap(&mut s, 0, 0, 2, lucky), TrapOutcome::Sprung);
    assert_eq!(s.adventurer_parties[0].members[0].hp, 41);
    assert!(!s.floors[0].rooms[2].upgrades[0].disarmed);
}

#[test]
fn poison_afflicts_the_victim_for_four_ticks() {
    let mut s = trapped(Some("Poison Darts"), vec![member(10, "Warrior", 50, 2)], 0);
    assert_eq!(spring_trap(&mut s, 0, 0, 2, roll(0, 6)), TrapOutcome::Sprung);
    let c = &s.adventurer_parties[0].members[0].conditions;
    assert_eq!(c.len(), 1);
    assert_eq!(c[0].kind, "Poison");
    assert_eq!(c[0].ticks, 4);
    assert_eq!(c[0].power, 6);
    assert_eq!(s.adventurer_parties[0].members[0].hp, 50);
}

#[test]
fn burn_afflicts_with_at_least_one_power() {
    let mut s = trapped(Some("Fire Vent"), vec![member(10, "Warrior", 50, 2)], 0);
    spring_trap(&mut s, 0, 0, 2, roll(0, 0));
    let c = &s.adventurer_parties[0].members[0].conditions;
    assert_eq!(c[0].kind, "Burn");
    assert_eq!(c[0].power, 1);
}

#[test]
fn a_snare_holds_the_party_at_least_as_long_as_it_rolled() {
    let mut s = trapped(Some("Net Trap"), vec![member(10, "Warrior", 50, 2)], 0);
    s.adventurer_parties[0].snared_ticks = 1;
    spring_trap(&mut s, 0, 0, 2, roll(0, 3));
    assert_eq!(s.adventurer_parties[0].snared_ticks, 3);
    s.adventurer_parties[0].snared_ticks = 5;
    spring_trap(&mut s, 0, 0, 2, roll(0, 3));
    assert_eq!(s.adventurer_parties[0].snared_ticks, 5);
}

#[test]
fn an_alarm_rouses_the_defenders() {
    let mut s = trapped(Some("Alarm Bell"), vec![member(10, "Warrior", 50, 2)], 0);
    spring_trap(&mut s, 0, 0, 2, roll(0, 3));
    assert!(s.adventurer_parties[0].alarmed);
    assert!(matches!(s.log.last(), Some(LogEntry::TrapAlarm)));
}

#[test]
fn a_siphon_fills_the_core_up_to_its_capacity() {
    let mut s = trapped(Some("Mana Drain"), vec![member(10, "Warrior", 50, 2)], 0);
    s.mana = 190;
    spring_trap(&mut s, 0, 0, 2, roll(0, 30));
    assert_eq!(s.mana, 200);
    s.mana = 100;
    spring_trap(&mut s, 0, 0, 2, roll(0, 30));
    assert_eq!(s.mana, 130);
}

#[test]
fn a_thief_takes_no_more_than_the_party_carries() {
    let mut s = trapped(Some("Pickpocket Pit"), vec![member(10, "Warrior", 50, 2)], 12);
    spring_trap(&mut s, 0, 0, 2, roll(0, 30));
    assert_eq!(s.adventurer_parties[0].loot, 0);
    assert_eq!(s.gold, 12);
    assert!(matches!(s.log.last(), Some(LogEntry::TrapSteals { gold: 12 })));
}

#[test]
fn a_damage_trap_wounds_the_victim() {
    let mut s = trapped(Some("Spike Trap"), vec![member(10, "Warrior", 50, 2)], 0);
    spring_trap(&mut s, 0, 0, 2, roll(0, 9));
    assert_eq!(s.adventurer_parties[0].members[0].hp, 41);
    assert!(matches!(s.log.last(), Some(LogEntry::TrapHits { victim: 10, damage: 9 })));
}

#[test]
fn a_killing_trap_pays_ten_mana_per_level() {
    let mut s = trapped(Some("Spike Trap"), vec![member(10, "Warrior", 5, 4)], 0);
    s.mana = 100;
    spring_trap(&mut s, 0, 0, 2, roll(0, 9));
    let m = &s.adventurer_parties[0].members[0];
    assert!(!m.alive);
    assert_eq!(m.hp, 0);
    assert_eq!(s.adventurer_parties[0].casualties, 1);
    assert_eq!(s.total_deaths, 1);
    assert_eq!(s.mana, 140);
    assert!(matches!(s.log.last(), Some(LogEntry::TrapKills { victim: 10, mana: 40 })));
}

#[test]
fn a_trap_corridor_springs_on_a_passing_party() {
    let mut s = trapped(Some("Net Trap"), vec![member(10, "Warrior", 50, 2)], 0);
    assert_eq!(spring_undefended_trap(&mut s, 0, 0, 2, roll(0, 2)), TrapOutcome::Sprung);
    assert_eq!(s.adventurer_parties[0].snared_ticks, 2);
}

#[test]
fn an_older_trap_without_an_effect_deals_damage() {
    let mut s = trapped(Some("Rusty Blade"), vec![member(10, "Warrior", 50, 2)], 0);
    assert_eq!(spring_trap(&mut s, 0, 0, 2, roll(0, 7)), TrapOutcome::Sprung);
    assert_eq!(s.adventurer_parties[0].members[0].hp, 43);
}

#[test]
fn the_die_draws_among_the_living() {
    let mut fallen = member(10, "Warrior", 50, 2);
    fallen.alive = false;
    fallen.hp = 0;
    let mut s = trapped(
        Some("Spike Trap"),
        vec![fallen, member(11, "Warrior", 50, 2), member(12, "Warrior", 50, 2)],
        0,
    );
    spring_trap(&mut s, 0, 0, 2, roll(3, 9));
    assert_eq!(s.adventurer_parties[0].members[0].hp, 0);
    assert_eq!(s.adventurer_parties[0].members[1].hp, 50);
    assert_eq!(s.adventurer_parties[0].members[2].hp, 41);
}

#[test]
fn a_trap_on_a_wiped_party_strikes_no_one() {
    let mut fallen = member(10, "Warrior", 50, 2);
    fallen.alive = false;
    let mut s = trapped(Some("Spike Trap"), vec![fallen], 0);
    assert_eq!(spring_trap(&mut s, 0, 0, 2, roll(0, 9)), TrapOutcome::Sprung);
    assert_eq!(s.adventurer_parties[0].members[0].hp, 50);
    assert_eq!(s.sounds, vec![SoundEvent::Trap]);
}
