use dungeon_core::rooms::{
    add_room, branch_cost, branch_from, next_build_preview, set_battle_order, BuildPreview,
};
use dungeon_core::state::{
    AdventurerParty, DungeonError, ExpeditionDoctrine, GameState, Room, RoomBattleOrder, RoomType,
};

#[test]
fn a_branch_rejoins_the_route_without_orphaning_the_floor() {
    let mut state = GameState::new();
    state.mana = 1_000;
    add_room(&mut state, None).unwrap();
    branch_from(&mut state, 1, 0).unwrap();
    let floor = &state.floors[0];
    let entrance = floor.room_at(0).unwrap();
    assert_eq!(entrance.exits.len(), 2);
    let branch = floor.room_at(*entrance.exits.last().unwrap()).unwrap();
    assert_eq!(branch.exits, vec![1]);
    assert!(floor.validate_graph().is_ok());
}

#[test]
fn a_fork_cannot_be_forked_again_without_a_single_successor() {
    let mut state = GameState::new();
    state.mana = 1_000;
    branch_from(&mut state, 1, 0).unwrap();
    assert!(branch_from(&mut state, 1, 0).is_err());
}

#[test]
fn building_after_a_branch_keeps_both_routes_connected() {
    let mut state = GameState::new();
    state.mana = 1_000;
    branch_from(&mut state, 1, 0).unwrap();
    add_room(&mut state, None).unwrap();
    let floor = &state.floors[0];
    assert_eq!(floor.room_at(0).unwrap().exits.len(), 2);
    assert!(floor.validate_graph().is_ok());
}

#[test]
fn moving_the_core_to_a_new_floor_removes_the_old_sink_edge() {
    let mut state = GameState::new();
    state.mana = 1_000_000;
    while state.total_floors < 3 {
        add_room(&mut state, None).unwrap();
    }

    for floor in state.floors.iter().filter(|floor| !floor.is_deepest) {
        assert!(floor.rooms.iter().all(|room| {
            room.exits.iter().all(|exit| floor.rooms.iter().any(|target| target.position == *exit))
        }));
        let last = floor.rooms.iter().max_by_key(|room| room.position).unwrap();
        assert!(last.exits.is_empty());
    }
}

#[test]
fn battle_orders_are_persistent_room_rules_with_real_tradeoffs() {
    let mut room = Room::new(1, RoomType::Normal, 1, 1);
    assert_eq!(room.battle_order, RoomBattleOrder::Balanced);

    room.battle_order = RoomBattleOrder::HoldLine;
    assert!(room.defender_attack_percent() < 100);
    assert!(room.defender_damage_taken_percent() < 100);

    room.battle_order = RoomBattleOrder::CullWounded;
    assert_eq!(room.defender_attack_percent(), 100);
    assert!(room.defender_damage_taken_percent() > 100);

    room.battle_order = RoomBattleOrder::BreakFormation;
    assert!(room.defender_attack_percent() > 100);
    assert!(room.defender_damage_taken_percent() > 100);
}

#[test]
fn a_keeper_can_issue_orders_only_between_raids() {
    let mut state = GameState::new();
    state.mana = 1_000;
    add_room(&mut state, None).unwrap();
    set_battle_order(&mut state, 1, 1, RoomBattleOrder::HoldLine).unwrap();
    assert_eq!(state.floors[0].room_at(1).unwrap().battle_order, RoomBattleOrder::HoldLine);

    state.adventurer_parties.push(AdventurerParty {
        id: 9,
        members: Vec::new(),
        current_floor: 1,
        current_room: 0,
        retreating: false,
        casualties: 0,
        loot: 0,
        entry_time: 0,
        target_floor: 1,
        snared_ticks: 0,
        alarmed: false,
        sieging: false,
        prev_room: 0,
        doctrine: ExpeditionDoctrine::Survey,
    });
    assert!(set_battle_order(&mut state, 1, 1, RoomBattleOrder::CullWounded).is_err());
    assert_eq!(state.floors[0].room_at(1).unwrap().battle_order, RoomBattleOrder::HoldLine);
}

#[test]
fn building_costs_grow_with_the_dungeon() {
    let mut state = GameState::new();
    state.mana = 1_000;
    add_room(&mut state, None).unwrap();
    // Two rooms stood before: 50 + 25 * 2.
    assert_eq!(state.mana, 900);
    assert_eq!(state.floors[0].rooms.len(), 3);
    assert_eq!(state.floors[0].room_at(1).unwrap().room_type, RoomType::Normal);
    assert_eq!(state.floors[0].room_at(2).unwrap().room_type, RoomType::Core);
    assert_eq!(branch_cost(&state, 1, 0), Ok(125));
    assert_eq!(branch_cost(&state, 1, 2), Err(DungeonError::NotSingleRoute));
    assert_eq!(branch_cost(&state, 2, 0), Err(DungeonError::FloorNotFound));
    state.mana = 0;
    assert!(matches!(add_room(&mut state, None), Err(DungeonError::NotEnoughMana { .. })));
}

#[test]
fn the_preview_names_the_next_room_and_its_price() {
    let state = GameState::new();
    assert_eq!(
        next_build_preview(&state),
        Some(BuildPreview { floor: 1, room_type: RoomType::Normal, cost: 100, new_floor: false })
    );
}

#[test]
fn every_build_costs_what_its_preview_promised() {
    let mut state = GameState::new();
    state.mana = 100_000;
    state.max_mana = 100_000;
    // Five ordinary rooms, the Boss room, then a new floor.
    for _ in 0..8 {
        let preview = next_build_preview(&state).unwrap();
        let floors_before = state.floors.len();
        let mana_before = state.mana;
        add_room(&mut state, None).unwrap();
        assert_eq!(state.mana, mana_before - preview.cost);
        assert_eq!(preview.new_floor, state.floors.len() == floors_before + 1);
        if preview.new_floor {
            assert_eq!(state.total_floors, preview.floor);
        }
    }
    assert_eq!(state.floors.len(), 2);
}

#[test]
fn the_last_ordinary_slot_previews_a_boss_room_and_a_full_floor_a_new_floor() {
    let mut state = GameState::new();
    state.mana = 100_000;
    for _ in 0..4 {
        add_room(&mut state, None).unwrap();
    }
    let boss = next_build_preview(&state).unwrap();
    assert_eq!(boss.room_type, RoomType::Boss);
    assert_eq!(boss.cost, 2 * (50 + 25 * 6));
    add_room(&mut state, None).unwrap();
    let dig = next_build_preview(&state).unwrap();
    assert!(dig.new_floor);
    assert_eq!(dig.floor, 2);
    assert_eq!(dig.cost, 50 + 25 * 7);
}

#[test]
fn no_deepest_floor_means_no_preview() {
    let mut state = GameState::new();
    state.floors[0].is_deepest = false;
    assert_eq!(next_build_preview(&state), None);
}
