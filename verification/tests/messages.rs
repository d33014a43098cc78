use dungeon_core::messages::{push_decimal, LogCategory, LogFilter};
use dungeon_core::state::{DungeonError, DungeonStatus, LogEntry, PlacementRefusal};

#[test]
fn numbers_are_written_in_decimal() {
    let mut s = String::new();
    push_decimal(&mut s, 0);
    s.push(' ');
    push_decimal(&mut s, 1207);
    s.push(' ');
    push_decimal(&mut s, -45);
    s.push(' ');
    push_decimal(&mut s, i32::MIN);
    assert_eq!(s, "0 1207 -45 -2147483648");
}

#[test]
fn refusals_read_as_the_keeper_sees_them() {
    assert_eq!(DungeonError::ManaFull.message(), "Mana is already full.");
    assert_eq!(DungeonError::NotEnoughGold { need: 50 }.message(), "Not enough gold! Need 50 gold.");
    assert_eq!(DungeonError::NotEnoughMana { need: 120 }.message(), "Not enough mana! Need 120 mana.");
    assert_eq!(DungeonError::NotEnoughSouls { need: 3 }.message(), "Not enough souls! Need 3 souls.");
    assert_eq!(
        DungeonError::Refused { why: PlacementRefusal::Full }.message(),
        "This room cannot take that monster (full)."
    );
    assert_eq!(
        DungeonError::RaidInProgress.message(),
        "Cannot reshape the dungeon while adventurers are inside!"
    );
}

#[test]
fn the_event_log_filters_by_category() {
    let fight = LogEntry::InvaderSlain { victim: 1, mana: 30, experience: 15 };
    let walk = LogEntry::PartyWiped;
    let clock = LogEntry::StatusChanged { status: DungeonStatus::Open };
    let build = LogEntry::RoomAdded { boss: false, floor: 1, cost: 50 };
    assert_eq!(fight.category(), LogCategory::Combat);
    assert_eq!(walk.category(), LogCategory::Adventure);
    assert_eq!(clock.category(), LogCategory::System);
    assert_eq!(build.category(), LogCategory::Building);
    assert!(LogFilter::All.matches(&fight));
    assert!(LogFilter::Combat.matches(&fight));
    assert!(!LogFilter::Combat.matches(&walk));
    assert!(LogFilter::Building.matches(&build));
    assert!(!LogFilter::System.matches(&build));
}
