use dungeon_core::catalog::{Catalog, EvolutionPath, MonsterTemplate, SpeciesData, TraitDef, UpgradeTemplate};
use dungeon_core::monsters::fusion::{fusion_plan, fusion_target_rank, merge_monsters, FusionPlan};
use dungeon_core::monsters::swap::{plan_swap, retirement_refund, swap_monster, SwapKind, SwapPlan};
use dungeon_core::monsters::{
    garrison_sane, monster_placement_refusal, place_monster, placement_refusal, process_evolution_unlocks,
    process_hourly_traits, remove_monster, respawn_monsters, unlock_species,
};
use dungeon_core::rooms::add_room;
use dungeon_core::rules::{get_monster_mana_cost, get_scaled_stats, room_monster_capacity};
use dungeon_core::state::{
    ActiveTrait, AdventurerParty, DungeonError, ExpeditionDoctrine, GameState, LogEntry, Monster,
    PlacementRefusal, RoomType, Stats,
};

#[allow(clippy::too_many_arguments)]
fn template(
    name: &str,
    species: &str,
    element: Option<&str>,
    boss_only: bool,
    base_cost: i32,
    stats: (i32, i32, i32),
    undead: bool,
    starter: bool,
) -> MonsterTemplate {
    MonsterTemplate {
        name: name.to_string(),
        species: species.to_string(),
        element: element.map(|e| e.to_string()),
        boss_only,
        base_cost,
        souls_cost: 0,
        hp: stats.0,
        attack: stats.1,
        defense: stats.2,
        tier: 1,
        undead,
        starter,
        traits: Vec::new(),
    }
}

fn species(name: &str, starter: bool, unlock_cost: i32) -> SpeciesData {
    SpeciesData {
        name: name.to_string(),
        display_name: name.to_string(),
        starter,
        unlock_cost,
        starting_monster: None,
    }
}

/// The monster tables these tests play with.
fn catalog() -> Catalog {
    let mut troll = template("Troll", "Giant", None, false, 60, (120, 16, 8), false, false);
    troll.traits.push("regeneration".to_string());
    Catalog {
        monsters: vec![
            template("Goblin", "Goblinoid", Some("Earth"), false, 20, (40, 8, 3), false, true),
            template("Orc", "Goblinoid", Some("Earth"), false, 40, (70, 14, 6), false, false),
            template("Goblin King", "Goblinoid", Some("Earth"), true, 80, (150, 20, 10), false, false),
            template("Green Slime", "Slime", Some("Water"), false, 15, (35, 5, 2), false, true),
            template("Clay Golem", "Construct", Some("Earth"), false, 30, (80, 6, 8), false, true),
            template("Skeleton", "Undead", None, false, 20, (30, 7, 2), true, true),
            troll,
        ],
        species: vec![
            species("Goblinoid", true, 100),
            species("Slime", true, 100),
            species("Construct", false, 150),
            species("Undead", false, 200),
            SpeciesData {
                name: "Giant".to_string(),
                display_name: "Giants".to_string(),
                starter: false,
                unlock_cost: 300,
                starting_monster: Some("Troll".to_string()),
            },
        ],
        evolutions: vec![EvolutionPath {
            from_monster: "Goblin".to_string(),
            to_monster: "Orc".to_string(),
            experience_required: 150,
            min_floor: 1,
            gold_cost: 50,
        }],
        traits: vec![TraitDef {
            id: "regeneration".to_string(),
            name: "Regeneration".to_string(),
            trait_type: "Passive".to_string(),
            effect_type: "Regeneration".to_string(),
            hourly_heal_percent: 10,
        }],
        upgrades: vec![UpgradeTemplate { name: "Spike Trap".to_string(), mana_cost: 40, effect_kind: "Damage".to_string() }],
        classes: Vec::new(),
    }
}

fn dead_monster(kind: &str, max_hp: i32) -> Monster {
    Monster {
        id: 1,
        kind: kind.to_string(),
        hp: 0,
        max_hp,
        alive: false,
        is_boss: false,
        fusion_rank: 1,
        scaled_stats: Stats { hp: max_hp, attack: 5, defense: 2 },
        active_traits: Vec::new(),
    }
}

fn unlock(s: &mut GameState, cat: &Catalog, name: &str) {
    let template = cat.get_monster_template(name).expect("template exists");
    if !s.unlocked_species.contains(&template.species) {
        s.unlocked_species.push(template.species.clone());
    }
    s.unlocked_monsters.push(template.name.clone());
}

/// A dungeon with one Normal room on floor 1 and Goblins unlocked.
fn dungeon_with_a_combat_room(cat: &Catalog) -> GameState {
    let mut s = GameState::new();
    s.mana = 100_000;
    add_room(&mut s, None).expect("room built");
    unlock(&mut s, cat, "Goblin");
    s
}

fn raiding_party() -> AdventurerParty {
    AdventurerParty {
        id: 1,
        members: Vec::new(),
        current_floor: 1,
        current_room: 1,
        retreating: false,
        casualties: 0,
        loot: 0,
        entry_time: 0,
        target_floor: 1,
        snared_ticks: 0,
        alarmed: false,
        sieging: false,
        prev_room: 0,
        doctrine: ExpeditionDoctrine::Survey,
    }
}

#[test]
fn undead_respawn_free_and_whole_at_zero_mana() {
    let cat = catalog();
    let mut s = GameState::new();
    s.mana = 0;
    s.floors[0].rooms[0].monsters.push(dead_monster("Skeleton", 40));
    respawn_monsters(&mut s, &cat);
    let m = &s.floors[0].rooms[0].monsters[0];
    assert!(m.alive);
    assert_eq!(m.hp, m.max_hp, "undead rise whole");
    assert_eq!(s.mana, 0, "undead cost nothing");
}

#[test]
fn living_respawn_charges_mana_when_affordable() {
    let cat = catalog();
    let mut s = GameState::new();
    s.mana = 100;
    s.floors[0].rooms[0].monsters.push(dead_monster("Goblin", 40));
    respawn_monsters(&mut s, &cat);
    let m = &s.floors[0].rooms[0].monsters[0];
    assert!(m.alive);
    assert_eq!(m.hp, m.max_hp);
    assert!(s.mana < 100, "the living cost mana to reknit");
}

#[test]
fn a_room_takes_its_fill_and_then_refuses_more() {
    let cat = catalog();
    let mut s = dungeon_with_a_combat_room(&cat);
    let capacity = room_monster_capacity(1, false);
    for _ in 0..capacity {
        place_monster(&mut s, &cat, 1, 1, "Goblin").expect("slot available");
    }

    let err = place_monster(&mut s, &cat, 1, 1, "Goblin").expect_err("room is full");
    assert_eq!(err, DungeonError::Refused { why: PlacementRefusal::Full });
    assert_eq!(s.floors[0].rooms[1].monsters.len(), capacity);
}

#[test]
fn boss_rooms_hold_one_throne_slot_for_a_boss_unique() {
    let cat = catalog();
    let mut s = dungeon_with_a_combat_room(&cat);
    let room = &mut s.floors[0].rooms[1];
    room.room_type = RoomType::Boss;
    room.floor_number = 3;
    unlock(&mut s, &cat, "Goblin King");

    place_monster(&mut s, &cat, 1, 1, "Goblin").expect("one ordinary guard fits");
    let reserved = place_monster(&mut s, &cat, 1, 1, "Goblin").expect_err("throne held open");
    assert_eq!(reserved, DungeonError::Refused { why: PlacementRefusal::Reserved });
    place_monster(&mut s, &cat, 1, 1, "Goblin King").expect("unique claims throne");
    assert_eq!(s.floors[0].rooms[1].monsters.len(), 2);
}

#[test]
fn an_over_capacity_room_keeps_its_defenders() {
    let cat = catalog();
    let mut s = dungeon_with_a_combat_room(&cat);
    let capacity = room_monster_capacity(1, false);
    for _ in 0..capacity + 3 {
        s.floors[0].rooms[1].monsters.push(dead_monster("Goblin", 40));
    }

    assert!(place_monster(&mut s, &cat, 1, 1, "Goblin").is_err());
    assert_eq!(s.floors[0].rooms[1].monsters.len(), capacity + 3);
}

#[test]
fn a_dismissal_frees_the_slot_it_held() {
    let cat = catalog();
    let mut s = dungeon_with_a_combat_room(&cat);
    let capacity = room_monster_capacity(1, false);
    for _ in 0..capacity {
        place_monster(&mut s, &cat, 1, 1, "Goblin").expect("slot available");
    }
    let victim = s.floors[0].rooms[1].monsters[0].id;

    remove_monster(&mut s, &cat, 1, 1, victim).expect("dismissed");
    place_monster(&mut s, &cat, 1, 1, "Goblin").expect("the freed slot takes a new defender");
}

#[test]
fn a_line_unlocks_its_variant_once_the_pool_fills() {
    let cat = catalog();
    let mut s = dungeon_with_a_combat_room(&cat);
    place_monster(&mut s, &cat, 1, 1, "Goblin").expect("placed");
    // Goblin -> Orc wants 150 pooled XP and a floor-1 posting.
    s.add_type_experience("Goblin", 150);

    process_evolution_unlocks(&mut s, &cat);
    assert!(s.unlocked_monsters.iter().any(|m| m == "Orc"));
}

#[test]
fn the_pool_belongs_to_the_line_not_the_creature() {
    let cat = catalog();
    let mut s = dungeon_with_a_combat_room(&cat);
    place_monster(&mut s, &cat, 1, 1, "Goblin").expect("placed");
    place_monster(&mut s, &cat, 1, 1, "Goblin").expect("placed");
    s.add_type_experience("Goblin", 75);
    s.add_type_experience("Goblin", 75);

    assert_eq!(s.type_experience("Goblin"), 150);
    process_evolution_unlocks(&mut s, &cat);
    assert!(s.unlocked_monsters.iter().any(|m| m == "Orc"));
}

#[test]
fn a_line_the_dungeon_does_not_field_learns_nothing() {
    let cat = catalog();
    let mut s = dungeon_with_a_combat_room(&cat);
    s.add_type_experience("Goblin", 5_000);

    process_evolution_unlocks(&mut s, &cat);
    assert!(!s.unlocked_monsters.iter().any(|m| m == "Orc"));
}

#[test]
fn living_respawn_wounded_when_broke() {
    let cat = catalog();
    let mut s = GameState::new();
    s.mana = 0;
    s.floors[0].rooms[0].monsters.push(dead_monster("Goblin", 40));
    respawn_monsters(&mut s, &cat);
    let m = &s.floors[0].rooms[0].monsters[0];
    assert!(m.alive, "never lost outright");
    assert!(m.hp > 0 && m.hp < m.max_hp, "crawls back wounded");
}

// Fusion.

fn fusion_dungeon(cat: &Catalog) -> GameState {
    let mut state = GameState::new();
    state.mana = 100_000;
    add_room(&mut state, None).unwrap();
    state.floors[0].rooms[1].floor_number = 3;
    unlock(&mut state, cat, "Goblin");
    state
}

fn place_pair(state: &mut GameState, cat: &Catalog) {
    place_monster(state, cat, 1, 1, "Goblin").unwrap();
    place_monster(state, cat, 1, 1, "Goblin").unwrap();
}

#[test]
fn same_element_defenders_can_awaken_a_resonance_instead_of_a_rank() {
    let cat = catalog();
    let mut state = fusion_dungeon(&cat);
    state.unlocked_species.push("Construct".to_string());
    state.unlocked_monsters.push("Clay Golem".to_string());
    place_monster(&mut state, &cat, 1, 1, "Goblin").unwrap();
    place_monster(&mut state, &cat, 1, 1, "Clay Golem").unwrap();
    let primary = state.floors[0].rooms[1].monsters[0].id;
    assert!(matches!(
        fusion_plan(&state.floors[0].rooms[1], &cat, primary),
        Some(FusionPlan::Resonance(_))
    ));

    merge_monsters(&mut state, &cat, 1, 1, primary).unwrap();
    let monster = &state.floors[0].rooms[1].monsters[0];
    assert_eq!(monster.fusion_rank, 1);
    assert!(monster.active_traits.iter().any(|t| t.id == "resonance_strike"));
    assert!(state.log.iter().any(|entry| matches!(entry, LogEntry::ResonanceAwakened { .. })));
}

#[test]
fn identical_rank_one_defenders_fuse_and_free_a_slot() {
    let cat = catalog();
    let mut state = fusion_dungeon(&cat);
    place_pair(&mut state, &cat);
    let id = state.floors[0].rooms[1].monsters[0].id;
    let base_attack = state.floors[0].rooms[1].monsters[0].scaled_stats.attack;

    merge_monsters(&mut state, &cat, 1, 1, id).unwrap();

    let room = &state.floors[0].rooms[1];
    assert_eq!(room.monsters.len(), 1);
    assert_eq!(room.monsters[0].id, id, "primary identity survives");
    assert_eq!(room.monsters[0].fusion_rank, 2);
    assert!(room.monsters[0].scaled_stats.attack > base_attack);
    assert!(room.monsters[0].scaled_stats.attack < base_attack * 2);
}

#[test]
fn four_basic_defenders_can_compress_into_one_rank_three_veteran() {
    let cat = catalog();
    let mut state = fusion_dungeon(&cat);
    place_pair(&mut state, &cat);
    let first = state.floors[0].rooms[1].monsters[0].id;
    merge_monsters(&mut state, &cat, 1, 1, first).unwrap();
    place_pair(&mut state, &cat);
    let rank_one = state.floors[0].rooms[1]
        .monsters
        .iter()
        .find(|monster| monster.fusion_rank == 1)
        .unwrap()
        .id;
    merge_monsters(&mut state, &cat, 1, 1, rank_one).unwrap();
    let rank_two_ids: Vec<u64> = state.floors[0].rooms[1].monsters.iter().map(|m| m.id).collect();
    merge_monsters(&mut state, &cat, 1, 1, rank_two_ids[0]).unwrap();

    let room = &state.floors[0].rooms[1];
    assert_eq!(room.monsters.len(), 1);
    assert_eq!(room.monsters[0].fusion_rank, 3);
    assert_eq!(fusion_target_rank(room, &cat, room.monsters[0].id), None);
}

#[test]
fn unequal_ranks_cannot_fuse() {
    let cat = catalog();
    let mut state = fusion_dungeon(&cat);
    place_pair(&mut state, &cat);
    state.floors[0].rooms[1].monsters[0].fusion_rank = 2;
    let id = state.floors[0].rooms[1].monsters[0].id;
    assert!(merge_monsters(&mut state, &cat, 1, 1, id).is_err());
}

#[test]
fn fusion_is_locked_during_a_raid() {
    let cat = catalog();
    let mut state = fusion_dungeon(&cat);
    place_pair(&mut state, &cat);
    let id = state.floors[0].rooms[1].monsters[0].id;
    state.adventurer_parties.push(raiding_party());

    let error = merge_monsters(&mut state, &cat, 1, 1, id).unwrap_err();
    assert_eq!(error, DungeonError::RaidInProgress);
    assert_eq!(state.floors[0].rooms[1].monsters.len(), 2);
}

// Swaps.

fn swap_dungeon(cat: &Catalog) -> GameState {
    let mut s = GameState::new();
    s.mana = 100_000;
    s.gold = 100_000;
    add_room(&mut s, None).expect("room built");
    unlock(&mut s, cat, "Goblin");
    unlock(&mut s, cat, "Orc");
    s
}

fn only_monster(s: &GameState) -> &Monster {
    &s.floors[0].rooms[1].monsters[0]
}

#[test]
fn a_variant_of_the_same_line_is_an_upgrade() {
    let cat = catalog();
    let mut s = swap_dungeon(&cat);
    place_monster(&mut s, &cat, 1, 1, "Goblin").expect("placed");
    let id = only_monster(&s).id;

    let plan = plan_swap(&s, &cat, 1, 1, id, "Orc").expect("plan");
    assert_eq!(plan.kind, SwapKind::Upgrade);
}

#[test]
fn an_unrelated_monster_is_a_replacement() {
    let cat = catalog();
    let mut s = swap_dungeon(&cat);
    unlock(&mut s, &cat, "Green Slime");
    place_monster(&mut s, &cat, 1, 1, "Goblin").expect("placed");
    let id = only_monster(&s).id;

    let plan = plan_swap(&s, &cat, 1, 1, id, "Green Slime").expect("plan");
    assert_eq!(plan.kind, SwapKind::Replace);
}

#[test]
fn growing_a_line_undercuts_evicting_it() {
    let cat = catalog();
    let mut s = swap_dungeon(&cat);
    place_monster(&mut s, &cat, 1, 1, "Goblin").expect("placed");
    let id = only_monster(&s).id;

    let upgrade = plan_swap(&s, &cat, 1, 1, id, "Orc").expect("plan");
    let orc_cost = get_monster_mana_cost(cat.get_monster_template("Orc").expect("template").base_cost, 1, false);
    let refund = retirement_refund(&s.floors[0].rooms[1], &cat, "Goblin", 1);
    let replace_equivalent = orc_cost - refund;

    assert_eq!(upgrade.kind, SwapKind::Upgrade);
    assert!(
        upgrade.mana < replace_equivalent,
        "upgrade {} should undercut replace {}",
        upgrade.mana,
        replace_equivalent
    );
}

#[test]
fn an_upgrade_keeps_the_slot_and_takes_the_new_form() {
    let cat = catalog();
    let mut s = swap_dungeon(&cat);
    place_monster(&mut s, &cat, 1, 1, "Goblin").expect("placed");
    let id = only_monster(&s).id;
    let held_before = s.floors[0].rooms[1].monsters.len();

    swap_monster(&mut s, &cat, 1, 1, id, "Orc").expect("upgraded");

    let monster = only_monster(&s);
    assert_eq!(monster.id, id, "same creature, grown up");
    assert_eq!(monster.kind, "Orc");
    assert_eq!(monster.hp, monster.max_hp, "the new form arrives whole");
    assert_eq!(s.floors[0].rooms[1].monsters.len(), held_before);
}

#[test]
fn a_fused_veteran_keeps_its_rank_when_it_evolves() {
    let cat = catalog();
    let mut s = swap_dungeon(&cat);
    place_monster(&mut s, &cat, 1, 1, "Goblin").expect("placed");
    let id = only_monster(&s).id;
    s.floors[0].rooms[1].monsters[0].fusion_rank = 2;

    swap_monster(&mut s, &cat, 1, 1, id, "Orc").expect("upgraded");

    let monster = only_monster(&s);
    let orc = cat.get_monster_template("Orc").unwrap();
    let base_orc_hp = get_scaled_stats(Stats { hp: orc.hp, attack: orc.attack, defense: orc.defense }, 1, false).hp;
    assert_eq!(monster.fusion_rank, 2);
    assert!(monster.max_hp > base_orc_hp);
}

#[test]
fn a_replacement_evicts_the_occupant() {
    let cat = catalog();
    let mut s = swap_dungeon(&cat);
    unlock(&mut s, &cat, "Green Slime");
    place_monster(&mut s, &cat, 1, 1, "Goblin").expect("placed");
    let id = only_monster(&s).id;

    swap_monster(&mut s, &cat, 1, 1, id, "Green Slime").expect("replaced");

    let monster = only_monster(&s);
    assert_ne!(monster.id, id, "a different creature stands there now");
    assert_eq!(monster.kind, "Green Slime");
    assert_eq!(s.floors[0].rooms[1].monsters.len(), 1, "still one slot used");
}

#[test]
fn a_swap_the_dungeon_cannot_afford_costs_it_nothing() {
    let cat = catalog();
    let mut s = swap_dungeon(&cat);
    place_monster(&mut s, &cat, 1, 1, "Goblin").expect("placed");
    let id = only_monster(&s).id;
    s.mana = 0;
    s.gold = 0;

    assert!(swap_monster(&mut s, &cat, 1, 1, id, "Orc").is_err());
    assert_eq!(only_monster(&s).kind, "Goblin");
    assert_eq!(only_monster(&s).id, id);
}

#[test]
fn replacing_a_seated_boss_cannot_break_the_throne_reserve() {
    let cat = catalog();
    let mut s = swap_dungeon(&cat);
    unlock(&mut s, &cat, "Goblin King");
    let room = &mut s.floors[0].rooms[1];
    room.room_type = RoomType::Boss;
    room.floor_number = 3;
    place_monster(&mut s, &cat, 1, 1, "Goblin").expect("guard fits");
    place_monster(&mut s, &cat, 1, 1, "Goblin King").expect("king fits");
    let king_id = s.floors[0].rooms[1].monsters[1].id;

    assert!(plan_swap(&s, &cat, 1, 1, king_id, "Goblin").is_none());
    assert!(swap_monster(&mut s, &cat, 1, 1, king_id, "Goblin").is_err());
    assert_eq!(s.floors[0].rooms[1].monsters[1].kind, "Goblin King");
}

#[test]
fn defenders_cannot_be_restructured_mid_raid() {
    let cat = catalog();
    let mut s = swap_dungeon(&cat);
    place_monster(&mut s, &cat, 1, 1, "Goblin").expect("placed");
    let id = only_monster(&s).id;
    s.floors[0].rooms[1].monsters[0].hp = 1;
    s.adventurer_parties.push(raiding_party());

    assert!(swap_monster(&mut s, &cat, 1, 1, id, "Orc").is_err());
    assert_eq!(only_monster(&s).hp, 1, "still wounded");
}

// Further cases of the rules above.

#[test]
fn placement_refusals_read_as_button_labels() {
    let cat = catalog();
    let mut s = dungeon_with_a_combat_room(&cat);
    assert_eq!(monster_placement_refusal(&s.floors[0].rooms[1], &cat, "Goblin King"), Some("Boss only"));
    assert_eq!(monster_placement_refusal(&s.floors[0].rooms[1], &cat, "Goblin"), None);
    assert_eq!(monster_placement_refusal(&s.floors[0].rooms[1], &cat, "Nobody"), None);
    place_monster(&mut s, &cat, 1, 1, "Goblin").unwrap();
    place_monster(&mut s, &cat, 1, 1, "Goblin").unwrap();
    assert_eq!(placement_refusal(&s.floors[0].rooms[1], &cat, "Goblin"), Some(PlacementRefusal::Full));
    assert_eq!(monster_placement_refusal(&s.floors[0].rooms[1], &cat, "Goblin"), Some("Full"));
}

#[test]
fn placing_a_monster_charges_its_summon_cost_and_scales_it() {
    let cat = catalog();
    let mut s = dungeon_with_a_combat_room(&cat);
    s.mana = 1_000;
    place_monster(&mut s, &cat, 1, 1, "Goblin").unwrap();
    // Floor 1: the base cost, base stats.
    assert_eq!(s.mana, 980);
    let goblin = &s.floors[0].rooms[1].monsters[0];
    assert_eq!(goblin.kind, "Goblin");
    assert_eq!(goblin.hp, 40);
    assert_eq!(goblin.max_hp, 40);
    assert_eq!(goblin.fusion_rank, 1);
    assert_eq!(goblin.id, 5);
    assert_eq!(s.next_id, 6);
}

#[test]
fn placement_errors_name_what_is_missing() {
    let cat = catalog();
    let mut s = dungeon_with_a_combat_room(&cat);
    assert_eq!(place_monster(&mut s, &cat, 1, 1, "Nobody"), Err(DungeonError::UnknownMonster));
    assert_eq!(place_monster(&mut s, &cat, 1, 1, "Green Slime"), Err(DungeonError::SpeciesLocked));
    assert_eq!(place_monster(&mut s, &cat, 1, 1, "Orc"), Err(DungeonError::MonsterLocked));
    assert_eq!(place_monster(&mut s, &cat, 9, 1, "Goblin"), Err(DungeonError::FloorNotFound));
    assert_eq!(place_monster(&mut s, &cat, 1, 7, "Goblin"), Err(DungeonError::RoomNotFound));
    assert_eq!(place_monster(&mut s, &cat, 1, 0, "Goblin"), Err(DungeonError::NotBuildable));
    unlock(&mut s, &cat, "Goblin King");
    assert_eq!(place_monster(&mut s, &cat, 1, 1, "Goblin King"), Err(DungeonError::BossRoomOnly));
    s.mana = 5;
    assert_eq!(place_monster(&mut s, &cat, 1, 1, "Goblin"), Err(DungeonError::NotEnoughMana { need: 20 }));
}

#[test]
fn a_dismissal_refunds_half_the_summon_cost() {
    let cat = catalog();
    let mut s = dungeon_with_a_combat_room(&cat);
    s.mana = 100;
    s.max_mana = 200;
    place_monster(&mut s, &cat, 1, 1, "Goblin").unwrap();
    assert_eq!(s.mana, 80);
    let id = s.floors[0].rooms[1].monsters[0].id;
    remove_monster(&mut s, &cat, 1, 1, id).unwrap();
    assert_eq!(s.mana, 90);
    assert!(s.floors[0].rooms[1].monsters.is_empty());
    assert_eq!(remove_monster(&mut s, &cat, 1, 1, id), Err(DungeonError::MonsterNotFound));
}

#[test]
fn unlocking_a_species_grants_its_starter_forms() {
    let cat = catalog();
    let mut s = GameState::new();
    s.gold = 500;
    // A starter species picked first is free.
    unlock_species(&mut s, &cat, "Goblinoid").unwrap();
    assert_eq!(s.gold, 500);
    assert_eq!(s.unlocked_monsters, vec!["Goblin".to_string()]);
    assert_eq!(unlock_species(&mut s, &cat, "Goblinoid"), Err(DungeonError::AlreadyUnlocked));
    // The next one costs its price.
    unlock_species(&mut s, &cat, "Slime").unwrap();
    assert_eq!(s.gold, 400);
    // A species without starter forms grants its starting form.
    s.gold = 100;
    assert_eq!(unlock_species(&mut s, &cat, "Giant"), Err(DungeonError::NotEnoughGold { need: 300 }));
    s.gold = 300;
    unlock_species(&mut s, &cat, "Giant").unwrap();
    assert!(s.unlocked_monsters.iter().any(|m| m == "Troll"));
    assert_eq!(unlock_species(&mut s, &cat, "Dragons"), Err(DungeonError::UnknownSpecies));
}

#[test]
fn regenerating_defenders_mend_each_hour_but_the_undead_do_not() {
    let cat = catalog();
    let mut s = GameState::new();
    let mut troll = dead_monster("Troll", 120);
    troll.alive = true;
    troll.hp = 50;
    troll.active_traits.push(ActiveTrait {
        id: "regeneration".to_string(),
        name: "Regeneration".to_string(),
        cooldown_timer: 0,
    });
    let mut skeleton = dead_monster("Skeleton", 30);
    skeleton.alive = true;
    skeleton.hp = 10;
    skeleton.active_traits.push(ActiveTrait {
        id: "regeneration".to_string(),
        name: "Regeneration".to_string(),
        cooldown_timer: 0,
    });
    s.floors[0].rooms[0].monsters.push(troll);
    s.floors[0].rooms[0].monsters.push(skeleton);
    process_hourly_traits(&mut s, &cat);
    // Ten percent of 120, rounded up.
    assert_eq!(s.floors[0].rooms[0].monsters[0].hp, 62);
    assert_eq!(s.floors[0].rooms[0].monsters[1].hp, 10);
    s.floors[0].rooms[0].monsters[0].hp = 115;
    process_hourly_traits(&mut s, &cat);
    assert_eq!(s.floors[0].rooms[0].monsters[0].hp, 120, "never past the maximum");
}

#[test]
fn respawn_reports_the_mana_it_spent_and_waits_for_an_empty_dungeon() {
    let cat = catalog();
    let mut s = GameState::new();
    s.mana = 100;
    s.floors[0].rooms[0].monsters.push(dead_monster("Goblin", 40));
    s.adventurer_parties.push(raiding_party());
    assert_eq!(respawn_monsters(&mut s, &cat), 0);
    assert!(!s.floors[0].rooms[0].monsters[0].alive);
    s.adventurer_parties.clear();
    assert_eq!(respawn_monsters(&mut s, &cat), 10);
    assert_eq!(s.mana, 90);
    assert!(matches!(
        s.log.last(),
        Some(LogEntry::DefendersRespawned { free: 0, paid: 1, wounded: 0 })
    ));
}

#[test]
fn swap_labels_show_what_the_click_takes() {
    let plan = SwapPlan { kind: SwapKind::Upgrade, mana: 12, gold: 5, souls: 0 };
    assert_eq!(plan.label(), "Upgrade · 12M 5G");
    let plan = SwapPlan { kind: SwapKind::Replace, mana: -7, gold: 0, souls: 3 };
    assert_eq!(plan.label(), "Replace · -7M 3S");
}

#[test]
fn fusing_ranks_up_the_stats_by_the_rank_multiplier() {
    let cat = catalog();
    let mut state = fusion_dungeon(&cat);
    place_pair(&mut state, &cat);
    let id = state.floors[0].rooms[1].monsters[0].id;
    assert_eq!(fusion_target_rank(&state.floors[0].rooms[1], &cat, id), Some(2));
    merge_monsters(&mut state, &cat, 1, 1, id).unwrap();
    let veteran = &state.floors[0].rooms[1].monsters[0];
    // Goblin on floor 1: 40 / 8 / 3, times 1.35 rounded.
    assert_eq!(veteran.scaled_stats, Stats { hp: 54, attack: 11, defense: 4 });
    assert_eq!(veteran.hp, 54);
    assert!(matches!(
        state.log.last(),
        Some(LogEntry::DefendersFused { from_rank: 1, to_rank: 2, .. })
    ));
}

#[test]
fn the_tables_are_checked_against_the_data_limit() {
    let mut cat = catalog();
    assert!(cat.check());
    cat.monsters[0].base_cost = 10_001;
    assert!(!cat.check());
    let mut cat = catalog();
    cat.traits[0].hourly_heal_percent = 101;
    assert!(!cat.check());
    let mut cat = catalog();
    cat.species[0].unlock_cost = -1;
    assert!(!cat.check());
}

#[test]
fn a_garrison_with_a_negative_maximum_health_is_not_sane() {
    let mut state = GameState::new();
    assert!(garrison_sane(&state));
    state.floors[0].rooms[0].monsters.push(dead_monster("Goblin", 40));
    assert!(garrison_sane(&state));
    state.floors[0].rooms[1].monsters.push(dead_monster("Goblin", -1));
    assert!(!garrison_sane(&state));
}
