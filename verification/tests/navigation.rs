use dungeon_core::navigation::{keyboard_room_selection, RoomNavigation};
use dungeon_core::state::{Floor, GameState, Room, RoomType};

#[test]
fn keyboard_navigation_follows_edges_and_defaults_to_entrance() {
    let mut state = GameState::new();
    assert_eq!(keyboard_room_selection(&state, RoomNavigation::Right), Some((1, 1)));

    state.selected_room = Some((1, 1));
    assert_eq!(keyboard_room_selection(&state, RoomNavigation::Left), Some((1, 0)));
}

/// Floor 1: Entrance(0) → {1, 2} → Core(3). Floor 2 (listed first in the
/// dungeon's vector, but numbered lower-down): rooms at 0, 4 and 10.
fn two_floor_state() -> GameState {
    let mut state = GameState::new();
    let mut lower = Floor::new(2, 2, true);
    lower.rooms = vec![
        Room::new(20, RoomType::Normal, 10, 2),
        Room::new(21, RoomType::Entrance, 0, 2),
        Room::new(22, RoomType::Normal, 4, 2),
    ];
    let mut upper = Floor::new(1, 1, false);
    upper.rooms = vec![
        Room::new(10, RoomType::Entrance, 0, 1),
        Room::new(11, RoomType::Normal, 2, 1),
        Room::new(12, RoomType::Normal, 1, 1),
        Room::new(13, RoomType::Core, 3, 1),
    ];
    upper.rooms[0].exits = vec![2, 1];
    upper.rooms[1].exits = vec![3];
    upper.rooms[2].exits = vec![3];
    state.floors = vec![lower, upper];
    state
}

#[test]
fn without_a_selection_the_move_starts_at_the_top_floor_entrance() {
    let state = two_floor_state();
    assert_eq!(keyboard_room_selection(&state, RoomNavigation::Right), Some((1, 2)));
    assert_eq!(keyboard_room_selection(&state, RoomNavigation::Left), None);
    assert_eq!(keyboard_room_selection(&state, RoomNavigation::Up), None);
    assert_eq!(keyboard_room_selection(&state, RoomNavigation::Down), Some((2, 0)));
}

#[test]
fn moving_left_picks_the_lowest_room_leading_in() {
    let mut state = two_floor_state();
    state.selected_room = Some((1, 3));
    assert_eq!(keyboard_room_selection(&state, RoomNavigation::Left), Some((1, 1)));
    assert_eq!(keyboard_room_selection(&state, RoomNavigation::Right), None);
}

#[test]
fn moving_between_floors_keeps_the_nearest_room() {
    let mut state = two_floor_state();
    state.selected_room = Some((1, 3));
    assert_eq!(keyboard_room_selection(&state, RoomNavigation::Down), Some((2, 4)));
    state.selected_room = Some((2, 10));
    assert_eq!(keyboard_room_selection(&state, RoomNavigation::Up), Some((1, 3)));
    assert_eq!(keyboard_room_selection(&state, RoomNavigation::Down), None);
}

#[test]
fn a_selection_the_dungeon_does_not_hold_goes_nowhere() {
    let mut state = two_floor_state();
    state.selected_room = Some((5, 0));
    assert_eq!(keyboard_room_selection(&state, RoomNavigation::Right), None);
    state.selected_room = Some((1, 9));
    assert_eq!(keyboard_room_selection(&state, RoomNavigation::Down), None);
    let mut empty = GameState::new();
    empty.floors.clear();
    assert_eq!(keyboard_room_selection(&empty, RoomNavigation::Right), None);
}
