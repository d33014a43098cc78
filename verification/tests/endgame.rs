use dungeon_core::endgame::{
    assault_core, buy_core_power, core_dread_bonus, core_location, core_mana_regen_bonus, core_power,
    core_powers, core_smite_cooldown_reduction, core_smite_damage_bonus, maybe_launch_siege, prereqs_met,
    repel_siege, siege_due, siege_level, Recruit,
};
use dungeon_core::state::{
    Adventurer, AdventurerParty, DungeonError, DungeonStatus, ExpeditionDoctrine, GameState, HeroDrive,
    HeroRecord, HeroStatus, LogEntry, SoundEvent, Stats,
};

#[test]
fn repel_grants_prestige_and_resets_threat() {
    let mut s = GameState::new();
    s.total_deaths = 100;
    s.threat_warned = 4;
    s.siege_active = true;
    let hp_before = s.core_max_hp;
    repel_siege(&mut s);
    assert_eq!(s.prestige, 1);
    assert!(!s.siege_active);
    assert_eq!(s.total_deaths, 0);
    assert!(s.core_max_hp > hp_before);
    assert!(s.take_sound_events().contains(&SoundEvent::Prestige));
}

#[test]
fn buying_bulwark_raises_core_hp() {
    let mut s = GameState::new();
    s.souls = 10;
    let hp_before = s.core_max_hp;
    buy_core_power(&mut s, "bulwark_core").unwrap();
    assert!(s.core_max_hp > hp_before);
    assert!(s.has_core_power("bulwark_core"));
    // Can't buy twice.
    assert!(buy_core_power(&mut s, "bulwark_core").is_err());
}

#[test]
fn tier_two_power_gated_behind_prerequisite() {
    let mut s = GameState::new();
    s.souls = 100;
    // Aquifer needs Wellspring, which needs Deep Roots.
    assert!(buy_core_power(&mut s, "aquifer").is_err());
    buy_core_power(&mut s, "deep_roots").unwrap();
    assert!(buy_core_power(&mut s, "aquifer").is_err());
    buy_core_power(&mut s, "wellspring").unwrap();
    assert!(buy_core_power(&mut s, "aquifer").is_ok());
}

#[test]
fn regen_bonus_sums_across_owned_powers() {
    let mut s = GameState::new();
    s.souls = 100;
    assert_eq!(core_mana_regen_bonus(&s), 0);
    buy_core_power(&mut s, "deep_roots").unwrap();
    buy_core_power(&mut s, "wellspring").unwrap();
    assert_eq!(core_mana_regen_bonus(&s), 2);
}

#[test]
fn smite_bonuses_stack_and_max_mana_bakes_in() {
    let mut s = GameState::new();
    s.souls = 100;
    buy_core_power(&mut s, "dread_aura").unwrap();
    buy_core_power(&mut s, "searing_smite").unwrap();
    buy_core_power(&mut s, "cataclysm").unwrap();
    assert_eq!(core_smite_damage_bonus(&s), 65);
    // Dread stacks: dread_aura only so far.
    assert_eq!(core_dread_bonus(&s), 1);
    // MaxMana effect is baked in at purchase time.
    let mana_before = s.max_mana;
    buy_core_power(&mut s, "deep_roots").unwrap();
    buy_core_power(&mut s, "mana_font").unwrap();
    assert_eq!(s.max_mana, mana_before + 150);
}

#[test]
fn tree_prerequisites_reference_real_shallower_nodes() {
    for power in core_powers().iter() {
        for req in power.requires.iter() {
            let dep = core_power(req).unwrap_or_else(|| panic!("{} requires unknown '{}'", power.id, req));
            assert!(
                dep.tier < power.tier,
                "{} (tier {}) must require a shallower node, not {} (tier {})",
                power.id,
                power.tier,
                dep.id,
                dep.tier
            );
        }
    }
}

#[test]
fn buying_explains_every_refusal() {
    let mut s = GameState::new();
    s.souls = 2;
    assert_eq!(buy_core_power(&mut s, "no_such_power"), Err(DungeonError::UnknownPower));
    assert_eq!(buy_core_power(&mut s, "deep_roots"), Err(DungeonError::NotEnoughSouls { need: 3 }));
    s.souls = 100;
    buy_core_power(&mut s, "dread_aura").unwrap();
    buy_core_power(&mut s, "searing_smite").unwrap();
    buy_core_power(&mut s, "cataclysm").unwrap();
    // Worldbreaker needs cataclysm (owned) and quickening (not yet).
    assert_eq!(buy_core_power(&mut s, "worldbreaker"), Err(DungeonError::NeedsPower { requirement: 1 }));
    assert!(!prereqs_met(&s, &core_power("worldbreaker").unwrap()));
    buy_core_power(&mut s, "quickening").unwrap();
    assert!(prereqs_met(&s, &core_power("worldbreaker").unwrap()));
    buy_core_power(&mut s, "worldbreaker").unwrap();
    assert_eq!(core_smite_cooldown_reduction(&s), 8);
    assert_eq!(s.souls, 100 - 3 - 4 - 8 - 5 - 12);
    assert_eq!(buy_core_power(&mut s, "worldbreaker"), Err(DungeonError::AlreadyAwakened));
    assert!(matches!(s.log.last(), Some(LogEntry::CorePowerAwakened { power: 14 })));
}

fn champion(id: u64, hp: i32, attack: i32) -> Adventurer {
    Adventurer {
        id,
        name: format!("Champion {id}"),
        class_name: "Paladin".to_string(),
        race: "Human".to_string(),
        drive: HeroDrive::Duty,
        resolve: 80,
        level: 8,
        hp,
        max_hp: hp,
        alive: true,
        experience: 0,
        gold: 0,
        scaled_stats: Stats { hp, attack, defense: 5 },
        conditions: Vec::new(),
    }
}

fn record(id: u64) -> HeroRecord {
    HeroRecord {
        id,
        name: format!("Champion {id}"),
        class_name: "Paladin".to_string(),
        race: "Human".to_string(),
        drive: HeroDrive::Duty,
        resolve: 80,
        level: 8,
        experience: 0,
        delves: 1,
        kills: 0,
        gold_stolen: 0,
        escapes: 0,
        deepest_floor: 0,
        status: HeroStatus::Inside,
        death_floor: 0,
        death_day: 0,
        journal: Vec::new(),
    }
}

fn siege_party(members: Vec<Adventurer>) -> AdventurerParty {
    AdventurerParty {
        id: 50,
        members,
        current_floor: 1,
        current_room: 1,
        retreating: false,
        casualties: 0,
        loot: 0,
        entry_time: 0,
        target_floor: 1,
        snared_ticks: 0,
        alarmed: false,
        sieging: true,
        prev_room: 0,
        doctrine: ExpeditionDoctrine::Vengeance,
    }
}

fn recruits(n: u64) -> Vec<Recruit> {
    (1..=n)
        .map(|id| Recruit {
            id,
            name: format!("Champion {id}"),
            class_name: "Paladin".to_string(),
            race: "Human".to_string(),
            stats: Stats { hp: 120, attack: 20, defense: 8 },
        })
        .collect()
}

#[test]
fn siege_musters_at_peak_threat() {
    let mut s = GameState::new();
    s.total_deaths = 100; // tier 4
    assert_eq!(s.threat_tier(), 4);
    assert!(maybe_launch_siege(&mut s, recruits(5), 77, ExpeditionDoctrine::Vengeance));
    assert!(s.siege_active);
    assert_eq!(s.adventurer_parties.len(), 1);
    assert!(s.adventurer_parties[0].sieging);
    assert!(s.take_sound_events().contains(&SoundEvent::Siege));
    // A second call must not stack another siege.
    assert!(!maybe_launch_siege(&mut s, recruits(5), 78, ExpeditionDoctrine::Vengeance));
    assert_eq!(s.adventurer_parties.len(), 1);
}

#[test]
fn a_siege_musters_only_at_peak_fury_in_a_quiet_dungeon() {
    let mut s = GameState::new();
    assert!(!siege_due(&s));
    assert!(!maybe_launch_siege(&mut s, recruits(5), 77, ExpeditionDoctrine::Vengeance));
    assert!(s.adventurer_parties.is_empty());
    s.total_deaths = 100;
    s.adventurer_parties.push(siege_party(Vec::new()));
    assert!(!siege_due(&s), "an ordinary raid inside holds the army back");
    s.adventurer_parties.clear();
    assert!(siege_due(&s));
    s.hour = 7;
    s.total_floors = 3;
    s.prestige = 2;
    assert_eq!(siege_level(&s), 12);
    assert!(maybe_launch_siege(&mut s, recruits(5), 77, ExpeditionDoctrine::Vengeance));
    assert_eq!(s.status, DungeonStatus::Open);
    assert_eq!(s.known_adventurers.len(), 5);
    assert!(s.known_adventurers.iter().all(|h| h.level == 12 && h.delves == 1 && h.status == HeroStatus::Inside));
    let party = &s.adventurer_parties[0];
    assert_eq!(party.id, 77);
    assert_eq!(party.members.len(), 5);
    assert!(party.members.iter().all(|m| m.level == 12 && m.hp == 120 && m.max_hp == 120 && m.alive));
    assert_eq!((party.current_floor, party.current_room, party.target_floor, party.entry_time), (1, 0, 1, 7));
    assert!(matches!(s.log.last(), Some(LogEntry::SiegeBegins)));
    assert!(!siege_due(&s), "a second siege never stacks");
}

#[test]
fn the_core_trades_blows_with_a_besieging_party() {
    let mut s = GameState::new();
    s.known_adventurers.push(record(1));
    s.known_adventurers.push(record(2));
    s.known_adventurers.push(record(3));
    // The core bites for 18 + 8 * floors + 12 * prestige = 26.
    s.adventurer_parties.push(siege_party(vec![champion(1, 20, 30), champion(2, 50, 40), champion(3, 10, 5)]));
    let spent = assault_core(&mut s, 0);
    assert!(!spent);
    assert_eq!(s.core_hp, 1000 - 75);
    let party = &s.adventurer_parties[0];
    assert!(!party.members[0].alive, "the first assailant falls");
    assert_eq!(party.members[1].hp, 24, "the second is struck");
    assert_eq!(party.members[2].hp, 10, "only two are struck");
    assert_eq!(party.casualties, 1);
    assert_eq!(s.total_deaths, 1);
    assert_eq!(s.known_adventurers[0].status, HeroStatus::Dead);
    assert_eq!(s.known_adventurers[1].status, HeroStatus::Inside);
    assert!(matches!(s.log.last(), Some(LogEntry::WardsStruckDown { hero: 1 })));
    assert_eq!(s.take_sound_events(), vec![SoundEvent::CoreDamage]);
}

#[test]
fn an_overwhelming_assault_topples_the_core() {
    let mut s = GameState::new();
    s.core_hp = 50;
    s.adventurer_parties.push(siege_party(vec![champion(1, 20, 60)]));
    assert!(assault_core(&mut s, 0));
    assert_eq!(s.core_hp, 0);
    assert!(s.game_over);
    assert!(matches!(s.log.last(), Some(LogEntry::CoreFallen)));
}

#[test]
fn the_core_stands_on_the_first_floor_holding_one() {
    let mut s = GameState::new();
    assert_eq!(core_location(&s), Some((1, 1)));
    s.floors[0].rooms.pop();
    assert_eq!(core_location(&s), None);
}
