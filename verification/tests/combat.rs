use dungeon_core::catalog::{AdventurerClass, Catalog, MonsterTemplate, TraitDef};
use dungeon_core::combat::{
    adventurer_element, has_passive, monster_element, target_adventurer_idx, target_monster_idx,
};
use dungeon_core::state::{
    ActiveTrait, Adventurer, AdventurerParty, ExpeditionDoctrine, HeroDrive, Monster, RoomBattleOrder,
    Stats,
};

fn trait_def(id: &str, trait_type: &str, effect_type: &str) -> TraitDef {
    TraitDef {
        id: id.to_string(),
        name: id.to_string(),
        trait_type: trait_type.to_string(),
        effect_type: effect_type.to_string(),
        hourly_heal_percent: 0,
    }
}

fn template(name: &str, element: Option<&str>) -> MonsterTemplate {
    MonsterTemplate {
        name: name.to_string(),
        species: "Beast".to_string(),
        element: element.map(|e| e.to_string()),
        boss_only: false,
        base_cost: 10,
        souls_cost: 0,
        hp: 30,
        attack: 5,
        defense: 2,
        tier: 1,
        undead: false,
        starter: true,
        traits: Vec::new(),
    }
}

fn catalog() -> Catalog {
    Catalog {
        monsters: vec![template("Fire Imp", Some("Fire")), template("Rat", None)],
        species: Vec::new(),
        evolutions: Vec::new(),
        traits: vec![
            trait_def("taunt", "Passive", "Taunt"),
            trait_def("roar", "Active", "Taunt"),
            trait_def("thick_hide", "Passive", "DamageReductionMult"),
        ],
        upgrades: Vec::new(),
        classes: vec![
            AdventurerClass { name: "Mage".to_string(), element: "Arcane".to_string() },
            AdventurerClass { name: "Warrior".to_string(), element: String::new() },
        ],
    }
}

fn monster(id: u64, alive: bool, traits: &[&str]) -> Monster {
    Monster {
        id,
        kind: "Rat".to_string(),
        hp: if alive { 10 } else { 0 },
        max_hp: 10,
        alive,
        is_boss: false,
        fusion_rank: 1,
        scaled_stats: Stats { hp: 10, attack: 3, defense: 1 },
        active_traits: traits
            .iter()
            .map(|t| ActiveTrait { id: t.to_string(), name: t.to_string(), cooldown_timer: 0 })
            .collect(),
    }
}

#[test]
fn only_a_passive_of_the_named_effect_counts() {
    let cat = catalog();
    assert!(has_passive(&monster(1, true, &["taunt"]), &cat, "Taunt"));
    assert!(!has_passive(&monster(1, true, &["roar"]), &cat, "Taunt"));
    assert!(!has_passive(&monster(1, true, &["thick_hide"]), &cat, "Taunt"));
    assert!(has_passive(&monster(1, true, &["thick_hide"]), &cat, "DamageReductionMult"));
    assert!(!has_passive(&monster(1, true, &["unknown"]), &cat, "Taunt"));
    assert!(!has_passive(&monster(1, true, &[]), &cat, "Taunt"));
}

#[test]
fn adventurers_strike_the_living_taunter_before_the_front() {
    let cat = catalog();
    let monsters = vec![
        monster(1, false, &["taunt"]),
        monster(2, true, &[]),
        monster(3, true, &["taunt"]),
        monster(4, true, &["taunt"]),
    ];
    assert_eq!(target_monster_idx(&monsters, &cat), Some(2));
}

#[test]
fn without_a_taunter_the_first_living_defender_is_struck() {
    let cat = catalog();
    let monsters = vec![monster(1, false, &[]), monster(2, true, &["roar"]), monster(3, true, &[])];
    assert_eq!(target_monster_idx(&monsters, &cat), Some(1));
    let fallen = vec![monster(1, false, &["taunt"]), monster(2, false, &[])];
    assert_eq!(target_monster_idx(&fallen, &cat), None);
    assert_eq!(target_monster_idx(&[], &cat), None);
}

#[test]
fn elements_come_from_the_tables_and_default_to_neutral() {
    let cat = catalog();
    assert_eq!(monster_element(&cat, "Fire Imp"), "Fire");
    assert_eq!(monster_element(&cat, "Rat"), "");
    assert_eq!(monster_element(&cat, "Dragon"), "");
    assert_eq!(adventurer_element(&cat, "Mage"), "Arcane");
    assert_eq!(adventurer_element(&cat, "Warrior"), "");
    assert_eq!(adventurer_element(&cat, "Bard"), "");
}

fn invader(id: u64, name: &str, hp: i32, max_hp: i32) -> Adventurer {
    Adventurer {
        id,
        name: name.to_string(),
        class_name: "Warrior".to_string(),
        race: "Human".to_string(),
        drive: HeroDrive::Duty,
        resolve: 50,
        level: 3,
        hp,
        max_hp,
        alive: hp > 0,
        experience: 0,
        gold: 0,
        scaled_stats: Stats { hp: max_hp, attack: 5, defense: 0 },
        conditions: Vec::new(),
    }
}

fn lone_invader(hp: i32) -> AdventurerParty {
    AdventurerParty {
        id: 1,
        members: vec![invader(10, "Tess", hp, hp)],
        current_floor: 1,
        current_room: 2,
        retreating: false,
        casualties: 0,
        loot: 0,
        entry_time: 0,
        target_floor: 1,
        snared_ticks: 0,
        alarmed: false,
        sieging: false,
        prev_room: 0,
        doctrine: ExpeditionDoctrine::Survey,
    }
}

#[test]
fn cull_order_focuses_the_most_wounded_living_hero() {
    let mut party = lone_invader(100);
    let mut second = invader(11, "Healthy", 100, 100);
    party.members[0].name = "Wounded".to_string();
    party.members[0].hp = 20;
    second.hp = 80;
    party.members.push(second);
    // Whatever the dice would have picked, the cull strikes the wounded hero.
    assert_eq!(target_adventurer_idx(&party, RoomBattleOrder::CullWounded, Some(1)), Some(0));
}

#[test]
fn other_orders_strike_where_the_dice_fall() {
    let party = lone_invader(100);
    assert_eq!(target_adventurer_idx(&party, RoomBattleOrder::Balanced, Some(0)), Some(0));
    assert_eq!(target_adventurer_idx(&party, RoomBattleOrder::HoldLine, None), None);
}

#[test]
fn a_cull_weighs_health_share_before_raw_health_and_skips_the_dead() {
    let mut party = lone_invader(100);
    party.members = vec![
        invader(1, "Fallen", 0, 100),
        invader(2, "Giant", 50, 1000),
        invader(3, "Imp", 10, 20),
        invader(4, "Twin", 50, 1000),
    ];
    // The giant keeps 50 of 1000 (a twentieth); the imp half its health.
    assert_eq!(target_adventurer_idx(&party, RoomBattleOrder::CullWounded, None), Some(1));
    party.members[1].alive = false;
    party.members[1].hp = 0;
    assert_eq!(target_adventurer_idx(&party, RoomBattleOrder::CullWounded, None), Some(3));
    party.members.truncate(1);
    assert_eq!(target_adventurer_idx(&party, RoomBattleOrder::CullWounded, None), None);
}
