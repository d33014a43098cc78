use dungeon_core::endgame::Recruit;
use dungeon_core::spawning::{enlistment_allowed, spawn_party, Enlistment};
use dungeon_core::state::{
    DungeonStatus, ExpeditionDoctrine, GameState, HeroDrive, HeroRecord, HeroStatus, JournalEvent, LogEntry,
    Stats,
};

fn recruit(id: u64, name: &str) -> Recruit {
    Recruit {
        id,
        name: name.to_string(),
        class_name: "Mage".to_string(),
        race: "Elf".to_string(),
        stats: Stats { hp: 60, attack: 12, defense: 3 },
    }
}

fn veteran(id: u64, delves: i32) -> HeroRecord {
    HeroRecord {
        id,
        name: "Brann".to_string(),
        class_name: "Warrior".to_string(),
        race: "Dwarf".to_string(),
        drive: HeroDrive::Glory,
        resolve: 70,
        level: 5,
        experience: 10,
        delves,
        kills: 2,
        gold_stolen: 40,
        escapes: 1,
        deepest_floor: 1,
        status: HeroStatus::Alive,
        death_floor: 0,
        death_day: 0,
        journal: Vec::new(),
    }
}

fn open_dungeon() -> GameState {
    let mut s = GameState::new();
    s.status = DungeonStatus::Open;
    s.day = 2;
    s.hour = 5;
    s
}

#[test]
fn a_closed_dungeon_admits_no_party() {
    let mut s = GameState::new();
    let slots = vec![Enlistment::Fresh { recruit: recruit(7, "Ilse"), drive: HeroDrive::Fortune, level: 2 }];
    assert!(!spawn_party(&mut s, slots, 99, ExpeditionDoctrine::Survey));
    assert!(s.adventurer_parties.is_empty());
    assert!(s.known_adventurers.is_empty());
}

#[test]
fn no_party_comes_before_the_spawn_hour() {
    let mut s = open_dungeon();
    s.next_party_spawn = 2 * 24 + 6;
    let slots = vec![Enlistment::Fresh { recruit: recruit(7, "Ilse"), drive: HeroDrive::Fortune, level: 2 }];
    assert!(!spawn_party(&mut s, slots, 99, ExpeditionDoctrine::Survey));
    assert!(s.adventurer_parties.is_empty());
}

#[test]
fn spawn_time_counts_absolute_hours_across_the_day_wrap() {
    let mut s = open_dungeon();
    s.next_party_spawn = 24;
    s.day = 1;
    s.hour = 0;
    let slots = vec![Enlistment::Fresh { recruit: recruit(7, "Ilse"), drive: HeroDrive::Fortune, level: 2 }];
    assert!(spawn_party(&mut s, slots, 99, ExpeditionDoctrine::Survey));
    assert_eq!(s.next_party_spawn, 25);
}

#[test]
fn a_newcomer_enters_the_ledger_and_the_party() {
    let mut s = open_dungeon();
    let slots = vec![Enlistment::Fresh { recruit: recruit(7, "Ilse"), drive: HeroDrive::Fortune, level: 2 }];
    assert!(spawn_party(&mut s, slots, 99, ExpeditionDoctrine::Profit));
    let h = &s.known_adventurers[0];
    assert_eq!(h.id, 7);
    assert_eq!(h.name, "Ilse");
    assert_eq!(h.delves, 1);
    assert_eq!(h.resolve, 50);
    assert_eq!(h.status, HeroStatus::Inside);
    assert_eq!(h.journal.len(), 1);
    assert_eq!(h.journal[0].event, JournalEvent::FirstDelve { drive: HeroDrive::Fortune });
    let p = &s.adventurer_parties[0];
    assert_eq!(p.id, 99);
    assert_eq!(p.members.len(), 1);
    assert_eq!(p.members[0].hp, 60);
    assert_eq!(p.members[0].max_hp, 60);
    assert_eq!(p.members[0].level, 2);
    assert_eq!(p.current_floor, 1);
    assert_eq!(p.current_room, 0);
    assert_eq!(p.entry_time, 5);
    assert_eq!(p.target_floor, 1);
    assert_eq!(p.doctrine, ExpeditionDoctrine::Profit);
    assert_eq!(s.next_party_spawn, 2 * 24 + 5 + 1);
    assert!(matches!(s.log.last(), Some(LogEntry::PartyEnters { size: 1, target_floor: 1 })));
}

#[test]
fn a_veteran_returns_for_another_delve() {
    let mut s = open_dungeon();
    s.known_adventurers.push(veteran(3, 2));
    let slots = vec![
        Enlistment::Returning { id: 3, stats: Stats { hp: 120, attack: 20, defense: 8 } },
        Enlistment::Fresh { recruit: recruit(7, "Ilse"), drive: HeroDrive::Discovery, level: 1 },
    ];
    assert!(spawn_party(&mut s, slots, 99, ExpeditionDoctrine::Survey));
    let h = &s.known_adventurers[0];
    assert_eq!(h.delves, 3);
    assert_eq!(h.status, HeroStatus::Inside);
    assert_eq!(h.journal[0].event, JournalEvent::Returned { delve: 3 });
    assert_eq!(s.known_adventurers.len(), 2);
    let p = &s.adventurer_parties[0];
    assert_eq!(p.members[0].id, 3);
    assert_eq!(p.members[0].name, "Brann");
    assert_eq!(p.members[0].level, 5);
    assert_eq!(p.members[0].resolve, 70);
    assert_eq!(p.members[0].hp, 120);
    assert_eq!(p.members[1].id, 7);
}

#[test]
fn a_party_inside_blocks_the_next() {
    let mut s = open_dungeon();
    let first = vec![Enlistment::Fresh { recruit: recruit(7, "Ilse"), drive: HeroDrive::Fortune, level: 2 }];
    assert!(spawn_party(&mut s, first, 99, ExpeditionDoctrine::Survey));
    s.hour = 9;
    let second = vec![Enlistment::Fresh { recruit: recruit(8, "Oren"), drive: HeroDrive::Fortune, level: 2 }];
    assert!(!spawn_party(&mut s, second, 100, ExpeditionDoctrine::Survey));
    assert_eq!(s.adventurer_parties.len(), 1);
}

#[test]
fn only_living_heroes_may_return_and_each_once() {
    let mut s = open_dungeon();
    s.known_adventurers.push(veteran(3, 2));
    let mut dead = veteran(4, 1);
    dead.status = HeroStatus::Dead;
    s.known_adventurers.push(dead);
    let stats = Stats { hp: 120, attack: 20, defense: 8 };
    assert!(enlistment_allowed(&s, &vec![Enlistment::Returning { id: 3, stats }]));
    assert!(!enlistment_allowed(&s, &vec![Enlistment::Returning { id: 4, stats }]));
    assert!(!enlistment_allowed(&s, &vec![Enlistment::Returning { id: 9, stats }]));
    assert!(!enlistment_allowed(
        &s,
        &vec![Enlistment::Returning { id: 3, stats }, Enlistment::Returning { id: 3, stats }]
    ));
}
