use dungeon_core::layout::{layout_floor, RoomLayout};
use dungeon_core::state::{Floor, Room, RoomType};

fn node(layout: &[RoomLayout], position: usize) -> RoomLayout {
    *layout.iter().find(|node| node.position == position).unwrap()
}

#[test]
fn a_diamond_gets_two_lanes_and_a_shared_later_column() {
    let mut floor = Floor::new(1, 1, true);
    floor.rooms = vec![
        Room::new(1, RoomType::Entrance, 0, 1),
        Room::new(2, RoomType::Normal, 1, 1),
        Room::new(3, RoomType::Normal, 2, 1),
        Room::new(4, RoomType::Core, 3, 1),
    ];
    floor.room_at(0).unwrap();
    floor.rooms[0].exits = vec![1, 2];
    floor.rooms[1].exits = vec![3];
    floor.rooms[2].exits = vec![3];
    let layout = layout_floor(&floor);
    let first = node(&layout, 1);
    let second = node(&layout, 2);
    let core = node(&layout, 3);
    assert_eq!(first.depth, second.depth);
    assert_ne!(first.lane, second.lane);
    assert_eq!(core.depth, first.depth + 1);
}

#[test]
fn a_floor_without_an_entrance_lays_out_nothing() {
    let mut floor = Floor::new(1, 1, true);
    floor.rooms = vec![Room::new(1, RoomType::Normal, 0, 1), Room::new(2, RoomType::Core, 1, 1)];
    floor.rooms[0].exits = vec![1];
    assert!(layout_floor(&floor).is_empty());
}

#[test]
fn the_column_is_the_longest_route_and_the_first_lane_sticks() {
    // Entrance(0) → {1, 3}; 1 → 2 → 3; 3 → Core(4).
    // Room 3 is one passage from the Entrance along one route and three along
    // the other: it takes the deeper column but keeps the lane of slot 1.
    let mut floor = Floor::new(1, 1, true);
    floor.rooms = vec![
        Room::new(1, RoomType::Entrance, 0, 1),
        Room::new(2, RoomType::Normal, 1, 1),
        Room::new(3, RoomType::Normal, 2, 1),
        Room::new(4, RoomType::Normal, 3, 1),
        Room::new(5, RoomType::Core, 4, 1),
    ];
    floor.rooms[0].exits = vec![1, 3];
    floor.rooms[1].exits = vec![2];
    floor.rooms[2].exits = vec![3];
    floor.rooms[3].exits = vec![4];
    let layout = layout_floor(&floor);
    assert_eq!(
        layout,
        vec![
            RoomLayout { position: 0, depth: 0, lane: 0 },
            RoomLayout { position: 1, depth: 1, lane: 0 },
            RoomLayout { position: 2, depth: 2, lane: 0 },
            RoomLayout { position: 3, depth: 3, lane: 1 },
            RoomLayout { position: 4, depth: 4, lane: 1 },
        ]
    );
}

#[test]
fn a_three_way_fork_fans_out_by_slot_and_sorts_by_column_then_lane() {
    let mut floor = Floor::new(1, 1, true);
    floor.rooms = vec![
        Room::new(1, RoomType::Entrance, 0, 1),
        Room::new(2, RoomType::Normal, 3, 1),
        Room::new(3, RoomType::Normal, 2, 1),
        Room::new(4, RoomType::Normal, 1, 1),
        Room::new(5, RoomType::Core, 4, 1),
    ];
    floor.rooms[0].exits = vec![3, 2, 1];
    floor.rooms[1].exits = vec![4];
    floor.rooms[2].exits = vec![4];
    floor.rooms[3].exits = vec![4];
    let layout = layout_floor(&floor);
    assert_eq!(
        layout,
        vec![
            RoomLayout { position: 0, depth: 0, lane: 0 },
            RoomLayout { position: 3, depth: 1, lane: 0 },
            RoomLayout { position: 2, depth: 1, lane: 1 },
            RoomLayout { position: 1, depth: 1, lane: 2 },
            RoomLayout { position: 4, depth: 2, lane: 0 },
        ]
    );
}

#[test]
fn an_exit_to_an_empty_position_still_gets_a_place_and_unreachable_rooms_none() {
    let mut floor = Floor::new(1, 1, true);
    floor.rooms = vec![
        Room::new(1, RoomType::Entrance, 0, 1),
        Room::new(2, RoomType::Normal, 5, 1),
    ];
    floor.rooms[0].exits = vec![7];
    let layout = layout_floor(&floor);
    assert_eq!(
        layout,
        vec![
            RoomLayout { position: 0, depth: 0, lane: 0 },
            RoomLayout { position: 7, depth: 1, lane: 0 },
        ]
    );
}

#[test]
fn a_repeated_exit_takes_its_first_slot() {
    let mut floor = Floor::new(1, 1, true);
    floor.rooms = vec![
        Room::new(1, RoomType::Entrance, 0, 1),
        Room::new(2, RoomType::Normal, 1, 1),
        Room::new(3, RoomType::Core, 2, 1),
    ];
    floor.rooms[0].exits = vec![2, 1, 2];
    floor.rooms[1].exits = vec![2];
    let layout = layout_floor(&floor);
    assert_eq!(node(&layout, 1), RoomLayout { position: 1, depth: 1, lane: 1 });
    assert_eq!(node(&layout, 2), RoomLayout { position: 2, depth: 2, lane: 0 });
}
