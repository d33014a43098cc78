use dungeon_core::battle::{apply_combat_tick, Bounty, Exchange, Fall, Hit};
use dungeon_core::catalog::{Catalog, MonsterTemplate, TraitDef};
use dungeon_core::state::{
    Adventurer, AdventurerParty, ExpeditionDoctrine, GameState, HeroDrive, HeroRecord, HeroStatus,
    ActiveTrait, LogEntry, Monster, Room, RoomBattleOrder, RoomType, SoundEvent, Stats,
};

fn template(name: &str, undead: bool) -> MonsterTemplate {
    MonsterTemplate {
        name: name.to_string(),
        species: "Beast".to_string(),
        element: None,
        boss_only: false,
        base_cost: 10,
        souls_cost: 0,
        hp: 30,
        attack: 5,
        defense: 2,
        tier: 1,
        undead,
        starter: true,
        traits: Vec::new(),
    }
}

fn slime(name: &str, tier: i32) -> MonsterTemplate {
    MonsterTemplate {
        name: name.to_string(),
        species: "Slime".to_string(),
        element: Some("Nature".to_string()),
        boss_only: false,
        base_cost: 10,
        souls_cost: 0,
        hp: 30,
        attack: 4,
        defense: 1,
        tier,
        undead: false,
        starter: true,
        traits: vec!["split".to_string()],
    }
}

fn catalog() -> Catalog {
    Catalog {
        monsters: vec![template("Goblin", false), template("Skeleton", true), slime("Big Slime", 2), slime("Green Slime", 1)],
        species: Vec::new(),
        evolutions: Vec::new(),
        traits: vec![
            TraitDef {
                id: "taunt".to_string(),
                name: "Taunt".to_string(),
                trait_type: "Passive".to_string(),
                effect_type: "Taunt".to_string(),
                hourly_heal_percent: 0,
            },
            TraitDef {
                id: "split".to_string(),
                name: "Split".to_string(),
                trait_type: "Passive".to_string(),
                effect_type: "SplitOnDeath".to_string(),
                hourly_heal_percent: 0,
            },
        ],
        upgrades: Vec::new(),
        classes: Vec::new(),
    }
}

fn monster(id: u64, kind: &str, hp: i32, boss: bool) -> Monster {
    Monster {
        id,
        kind: kind.to_string(),
        hp,
        max_hp: 500,
        alive: true,
        is_boss: boss,
        fusion_rank: 1,
        scaled_stats: Stats { hp: 500, attack: 30, defense: 0 },
        active_traits: Vec::new(),
    }
}

fn hero(id: u64, hp: i32, level: i32) -> Adventurer {
    Adventurer {
        id,
        name: format!("Hero {id}"),
        class_name: "Warrior".to_string(),
        race: "Human".to_string(),
        drive: HeroDrive::Duty,
        resolve: 50,
        level,
        hp,
        max_hp: hp.max(1),
        alive: true,
        experience: 0,
        gold: 0,
        scaled_stats: Stats { hp, attack: 5, defense: 0 },
        conditions: Vec::new(),
    }
}

fn record(id: u64) -> HeroRecord {
    HeroRecord {
        id,
        name: format!("Hero {id}"),
        class_name: "Warrior".to_string(),
        race: "Human".to_string(),
        drive: HeroDrive::Duty,
        resolve: 50,
        level: 3,
        experience: 0,
        delves: 1,
        kills: 0,
        gold_stolen: 0,
        escapes: 0,
        deepest_floor: 0,
        status: HeroStatus::Inside,
        death_floor: 0,
        death_day: 0,
        journal: Vec::new(),
    }
}

/// A dungeon whose third room holds `monsters`, with one party of `members`.
fn battlefield(monsters: Vec<Monster>, members: Vec<Adventurer>) -> GameState {
    let mut s = GameState::new();
    let mut room = Room::new(99, RoomType::Normal, 2, 1);
    room.monsters = monsters;
    s.floors[0].rooms.push(room);
    let ids: Vec<u64> = members.iter().map(|m| m.id).collect();
    s.adventurer_parties.push(AdventurerParty {
        id: 1,
        members,
        current_floor: 1,
        current_room: 2,
        retreating: false,
        casualties: 0,
        loot: 0,
        entry_time: 0,
        target_floor: 1,
        snared_ticks: 0,
        alarmed: false,
        sieging: false,
        prev_room: 0,
        doctrine: ExpeditionDoctrine::Survey,
    });
    for id in ids {
        s.known_adventurers.push(record(id));
    }
    s
}

const BOUNTY: Bounty = Bounty { defender: 20, boss: 50 };

/// An exchange in which every member deals `blow` to any defender, and every
/// defender deals `hit` to any member, over `members` members and
/// `defenders` defenders; a fall pays 30 mana and teaches 15 experience.
fn exchange(members: usize, defenders: usize, blow: i32, hit: Hit, rolls: Vec<usize>) -> Exchange {
    Exchange {
        blows: vec![vec![blow; defenders]; members],
        hits: vec![vec![hit; members]; defenders],
        leech: vec![0; defenders],
        falls: vec![Fall { mana: 30, experience: 15 }; members],
        rolls,
        split_ids: vec![900, 901],
        bounty: BOUNTY,
    }
}

fn plain(damage: i32) -> Hit {
    Hit { damage, heal: 0 }
}

#[test]
fn an_empty_room_sees_no_fight() {
    let cat = catalog();
    let mut dead = monster(1, "Goblin", 0, false);
    dead.alive = false;
    let mut s = battlefield(vec![dead], vec![hero(10, 100, 3)]);
    let kills = apply_combat_tick(&mut s, &cat, 0, 0, 2, &exchange(1, 1, 9, plain(9), vec![0]));
    assert_eq!(kills, (0, 0));
    assert_eq!(s.adventurer_parties[0].members[0].hp, 100);
    assert!(s.log.is_empty());
    assert!(s.sounds.is_empty());
}

#[test]
fn every_living_member_strikes_the_front_defender_once() {
    let cat = catalog();
    let mut s = battlefield(
        vec![monster(1, "Goblin", 500, false), monster(2, "Goblin", 50, false)],
        vec![hero(10, 300, 3), hero(11, 300, 3)],
    );
    let mut x = exchange(2, 2, 10, plain(0), vec![0, 0]);
    x.blows[1][0] = 7;
    let kills = apply_combat_tick(&mut s, &cat, 0, 0, 2, &x);
    assert_eq!(kills, (0, 0));
    assert_eq!(s.floors[0].rooms[2].monsters[0].hp, 483);
    assert_eq!(s.floors[0].rooms[2].monsters[1].hp, 50);
    assert_eq!(s.sounds[0], SoundEvent::Combat);
}

#[test]
fn blows_re_aim_after_a_kill() {
    let cat = catalog();
    let mut s = battlefield(
        vec![monster(1, "Goblin", 8, false), monster(2, "Goblin", 50, false)],
        vec![hero(10, 300, 3), hero(11, 300, 3)],
    );
    let kills = apply_combat_tick(&mut s, &cat, 0, 0, 2, &exchange(2, 2, 9, plain(0), vec![0, 0]));
    assert_eq!(kills, (1, 0));
    assert!(!s.floors[0].rooms[2].monsters[0].alive);
    assert_eq!(s.floors[0].rooms[2].monsters[1].hp, 41);
    assert_eq!(s.known_adventurers[0].kills, 1);
    assert_eq!(s.known_adventurers[1].kills, 0);
}

#[test]
fn a_living_taunter_draws_every_blow() {
    let cat = catalog();
    let mut taunter = monster(2, "Goblin", 100, false);
    taunter.active_traits.push(ActiveTrait { id: "taunt".to_string(), name: "Taunt".to_string(), cooldown_timer: 0 });
    let mut s = battlefield(vec![monster(1, "Goblin", 100, false), taunter], vec![hero(10, 300, 3), hero(11, 300, 3)]);
    apply_combat_tick(&mut s, &cat, 0, 0, 2, &exchange(2, 2, 10, plain(0), vec![0, 0]));
    assert_eq!(s.floors[0].rooms[2].monsters[0].hp, 100);
    assert_eq!(s.floors[0].rooms[2].monsters[1].hp, 80);
}

#[test]
fn the_fallen_strike_no_blow() {
    let cat = catalog();
    let mut fallen = hero(10, 300, 3);
    fallen.alive = false;
    fallen.hp = 0;
    let mut s = battlefield(vec![monster(1, "Goblin", 100, false)], vec![fallen, hero(11, 300, 3)]);
    apply_combat_tick(&mut s, &cat, 0, 0, 2, &exchange(2, 1, 10, plain(0), vec![0]));
    assert_eq!(s.floors[0].rooms[2].monsters[0].hp, 90);
}

#[test]
fn each_standing_defender_strikes_whom_its_die_draws() {
    let cat = catalog();
    let mut s = battlefield(
        vec![monster(1, "Goblin", 500, false), monster(2, "Goblin", 500, false)],
        vec![hero(10, 300, 3), hero(11, 300, 3), hero(12, 300, 3)],
    );
    let kills = apply_combat_tick(&mut s, &cat, 0, 0, 2, &exchange(3, 2, 1, plain(30), vec![4, 2]));
    assert_eq!(kills, (0, 0));
    let p = &s.adventurer_parties[0];
    assert_eq!(p.members[0].hp, 300);
    assert_eq!(p.members[1].hp, 270);
    assert_eq!(p.members[2].hp, 270);
}

#[test]
fn a_cull_room_strikes_the_most_wounded() {
    let cat = catalog();
    let mut s = battlefield(
        vec![monster(1, "Goblin", 500, false), monster(2, "Goblin", 500, false)],
        vec![hero(10, 300, 3), hero(11, 300, 3)],
    );
    s.floors[0].rooms[2].battle_order = RoomBattleOrder::CullWounded;
    s.adventurer_parties[0].members[1].hp = 100;
    apply_combat_tick(&mut s, &cat, 0, 0, 2, &exchange(2, 2, 1, plain(30), vec![0, 0]));
    let p = &s.adventurer_parties[0];
    assert_eq!(p.members[0].hp, 300);
    assert_eq!(p.members[1].hp, 40);
}

#[test]
fn at_least_one_damage_lands() {
    let cat = catalog();
    let mut s = battlefield(vec![monster(1, "Goblin", 500, false)], vec![hero(10, 300, 3)]);
    apply_combat_tick(&mut s, &cat, 0, 0, 2, &exchange(1, 1, 0, plain(-4), vec![0]));
    assert_eq!(s.floors[0].rooms[2].monsters[0].hp, 499);
    assert_eq!(s.adventurer_parties[0].members[0].hp, 299);
}

#[test]
fn a_snared_party_cannot_strike_and_the_snare_wears_off() {
    let cat = catalog();
    let mut s = battlefield(vec![monster(1, "Goblin", 500, false)], vec![hero(10, 300, 3)]);
    s.adventurer_parties[0].snared_ticks = 2;
    apply_combat_tick(&mut s, &cat, 0, 0, 2, &exchange(1, 1, 40, plain(45), vec![0]));
    assert_eq!(s.floors[0].rooms[2].monsters[0].hp, 500);
    assert_eq!(s.adventurer_parties[0].members[0].hp, 255);
    assert_eq!(s.adventurer_parties[0].snared_ticks, 1);
}

#[test]
fn a_slain_defender_pays_loot_and_credits_its_slayer() {
    let cat = catalog();
    let mut s = battlefield(
        vec![monster(1, "Goblin", 8, false), monster(2, "Goblin", 10, true)],
        vec![hero(10, 300, 3), hero(11, 300, 3)],
    );
    let mut x = exchange(2, 2, 9, plain(1), vec![0, 0]);
    x.blows[1][1] = 12;
    let kills = apply_combat_tick(&mut s, &cat, 0, 0, 2, &x);
    assert_eq!(kills, (2, 0));
    let room = &s.floors[0].rooms[2];
    assert!(!room.monsters[0].alive && room.monsters[0].hp == 0);
    assert!(!room.monsters[1].alive);
    assert_eq!(s.adventurer_parties[0].loot, 70);
    assert_eq!(s.souls, 1);
    assert_eq!(s.known_adventurers[0].kills, 1);
    assert_eq!(s.known_adventurers[1].kills, 1);
    assert!(matches!(s.log[0], LogEntry::DefenderSlain { monster: 1, boss: false, gold: 20, souls: 0 }));
    assert!(matches!(s.log[1], LogEntry::DefenderSlain { monster: 2, boss: true, gold: 50, souls: 1 }));
    assert_eq!(s.sounds, vec![SoundEvent::Combat, SoundEvent::Death, SoundEvent::Death]);
    assert_eq!(s.adventurer_parties[0].members[0].hp, 300);
}

#[test]
fn a_fallen_invader_feeds_the_core_and_teaches_the_lines_that_fought() {
    let cat = catalog();
    let mut s = battlefield(
        vec![monster(1, "Goblin", 500, false), monster(2, "Goblin", 500, false), monster(3, "Skeleton", 500, false)],
        vec![hero(10, 20, 3)],
    );
    s.mana = 100;
    let kills = apply_combat_tick(&mut s, &cat, 0, 0, 2, &exchange(1, 3, 1, plain(25), vec![0, 0, 0]));
    assert_eq!(kills, (0, 1));
    let p = &s.adventurer_parties[0];
    assert!(!p.members[0].alive && p.members[0].hp == 0);
    assert_eq!(p.casualties, 1);
    assert_eq!(s.total_deaths, 1);
    assert_eq!(s.mana, 130);
    assert_eq!(s.type_experience.len(), 2);
    assert_eq!(s.type_experience[0].kind, "Goblin");
    assert_eq!(s.type_experience[0].experience, 30);
    assert_eq!(s.type_experience[1].kind, "Skeleton");
    assert_eq!(s.type_experience[1].experience, 15);
    assert!(matches!(s.log[0], LogEntry::InvaderSlain { victim: 10, mana: 30, experience: 15 }));
    assert_eq!(s.sounds, vec![SoundEvent::Combat, SoundEvent::Death]);
}

#[test]
fn life_stolen_mends_up_to_full_health_but_not_the_undead() {
    let cat = catalog();
    let mut s = battlefield(
        vec![monster(1, "Goblin", 490, false), monster(2, "Skeleton", 100, false)],
        vec![hero(10, 300, 3)],
    );
    let x = exchange(1, 2, 0, Hit { damage: 20, heal: 15 }, vec![0, 0]);
    apply_combat_tick(&mut s, &cat, 0, 0, 2, &x);
    assert_eq!(s.floors[0].rooms[2].monsters[0].hp, 500);
    assert_eq!(s.floors[0].rooms[2].monsters[1].hp, 100);
    assert_eq!(s.adventurer_parties[0].members[0].hp, 260);
}

#[test]
fn mana_leech_fills_the_core_up_to_its_capacity() {
    let cat = catalog();
    let mut s = battlefield(vec![monster(1, "Goblin", 500, false)], vec![hero(10, 5, 3), hero(11, 300, 3)]);
    s.mana = 190;
    let mut x = exchange(2, 1, 1, plain(20), vec![0]);
    x.leech[0] = 25;
    x.falls[0] = Fall { mana: 0, experience: 0 };
    apply_combat_tick(&mut s, &cat, 0, 0, 2, &x);
    assert_eq!(s.mana, 200);
    assert!(matches!(s.log[0], LogEntry::ManaLeech { mana: 25 }));
}

#[test]
fn a_wiped_party_retreats() {
    let cat = catalog();
    let mut s = battlefield(vec![monster(1, "Goblin", 500, false)], vec![hero(10, 5, 3)]);
    apply_combat_tick(&mut s, &cat, 0, 0, 2, &exchange(1, 1, 1, plain(20), vec![0]));
    assert!(s.adventurer_parties[0].retreating);
    assert!(matches!(s.log.last(), Some(LogEntry::PartyWiped)));
}

#[test]
fn once_the_party_falls_the_rest_strike_nothing() {
    let cat = catalog();
    let mut s = battlefield(
        vec![monster(1, "Goblin", 500, false), monster(2, "Goblin", 500, false)],
        vec![hero(10, 5, 3)],
    );
    let kills = apply_combat_tick(&mut s, &cat, 0, 0, 2, &exchange(1, 2, 1, plain(20), vec![0, 0]));
    assert_eq!(kills, (0, 1));
    assert_eq!(s.total_deaths, 1);
}

#[test]
fn a_splitting_defender_leaves_a_spawn_that_fights_on() {
    let cat = catalog();
    let mut big = monster(1, "Big Slime", 8, false);
    big.active_traits.push(ActiveTrait { id: "split".to_string(), name: "Split".to_string(), cooldown_timer: 0 });
    let mut s = battlefield(vec![big], vec![hero(10, 300, 3), hero(11, 300, 3)]);
    let kills = apply_combat_tick(&mut s, &cat, 0, 0, 2, &exchange(2, 2, 9, plain(5), vec![0, 0]));
    assert_eq!(kills, (1, 0));
    let room = &s.floors[0].rooms[2];
    assert_eq!(room.monsters.len(), 2);
    let spawn = &room.monsters[1];
    assert_eq!(spawn.id, 900);
    assert_eq!(spawn.kind, "Green Slime");
    assert_eq!(spawn.max_hp, 30);
    assert_eq!(spawn.hp, 15 - 9);
    assert!(spawn.alive);
    assert_eq!(spawn.active_traits.len(), 1);
    assert!(matches!(s.log[0], LogEntry::DefenderSplits { parent: 1, spawn: 900 }));
    assert_eq!(s.adventurer_parties[0].members[0].hp, 295);
}
