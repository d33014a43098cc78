use dungeon_core::tooltip::{clear_tooltips, TooltipSlot};

#[test]
fn the_last_hint_asked_for_is_the_one_drawn() {
    let mut slot: TooltipSlot<(i32, i32)> = TooltipSlot::new();
    slot.queue("Goblin", (1, 2));
    slot.queue("Trap room", (3, 4));
    assert_eq!(slot.take(), Some(("Trap room".to_string(), (3, 4))));
    assert_eq!(slot.take(), None);
}

#[test]
fn a_cleared_slot_draws_nothing() {
    let mut slot: TooltipSlot<(i32, i32)> = TooltipSlot::new();
    slot.queue("Goblin", (1, 2));
    clear_tooltips(&mut slot);
    assert_eq!(slot.take(), None);
}
