use dungeon_core::milestones::{
    achieved_count, check_milestones, met, milestone, milestones, prestige_rank, ASCENSION_PRESTIGE,
};
use dungeon_core::state::{GameState, HeroDrive, HeroRecord, HeroStatus, LogEntry};

#[test]
fn ranks_climb_with_prestige() {
    assert_eq!(prestige_rank(0), "Fledgling Core");
    assert_eq!(prestige_rank(1), "Rooted Core");
    assert_eq!(prestige_rank(3), "Dread Warren");
    assert_eq!(prestige_rank(6), "Abyssal Throne");
    assert_eq!(prestige_rank(9), "Nightmare Bastion");
    assert_eq!(prestige_rank(10), "Eternal Core");
    assert_eq!(prestige_rank(99), "Eternal Core");
}

fn unlock_once_and_stay() {
    let mut s = GameState::new();
    assert_eq!(achieved_count(&s), 0);
    s.raids_completed = 10;
    let n = check_milestones(&mut s);
    // first_raid and veteran_keeper both clear at 10 raids.
    assert!(n >= 2);
    assert!(s.milestones.iter().any(|id| id == "first_raid"));
    assert!(s.milestones.iter().any(|id| id == "veteran_keeper"));
    // Re-checking unlocks nothing new, and a counter reset can't revoke it.
    assert_eq!(check_milestones(&mut s), 0);
    s.raids_completed = 0;
    assert!(s.milestones.iter().any(|id| id == "veteran_keeper"));
}

#[test]
fn milestones_milestones_unlock_once_and_stay() {
    unlock_once_and_stay();
}

#[test]
fn tests_milestones_unlock_once_and_stay() {
    unlock_once_and_stay();
}

#[test]
fn ascension_milestone_gated_on_prestige_ten() {
    let mut s = GameState::new();
    s.prestige = 9;
    check_milestones(&mut s);
    assert!(!s.milestones.iter().any(|id| id == "eternal"));
    s.prestige = ASCENSION_PRESTIGE;
    check_milestones(&mut s);
    assert!(s.milestones.iter().any(|id| id == "eternal"));
}

fn every_condition_is_wired() {
    let mut s = GameState::new();
    s.raids_completed = 1_000;
    s.prestige = 1_000;
    s.total_floors = 1_000;
    for _ in 0..50 {
        s.core_powers.push("x".to_string());
        s.unlocked_monsters.push("m".to_string());
    }
    for i in 0..50 {
        s.known_adventurers.push(HeroRecord {
            id: i,
            name: String::new(),
            class_name: String::new(),
            race: String::new(),
            drive: HeroDrive::Duty,
            resolve: 50,
            level: 1,
            experience: 0,
            delves: 0,
            kills: 0,
            gold_stolen: 0,
            escapes: 0,
            deepest_floor: 0,
            status: HeroStatus::Alive,
            death_floor: 0,
            death_day: 0,
            journal: Vec::new(),
        });
    }
    for m in milestones().iter() {
        assert!(met(&s, m.id), "milestone '{}' has no wired condition", m.id);
    }
}

#[test]
fn milestones_every_milestone_condition_is_wired() {
    every_condition_is_wired();
}

#[test]
fn tests_every_milestone_condition_is_wired() {
    every_condition_is_wired();
}

#[test]
fn ascension_is_proclaimed_after_its_milestone() {
    let mut s = GameState::new();
    s.prestige = ASCENSION_PRESTIGE;
    assert_eq!(check_milestones(&mut s), 3);
    assert_eq!(s.milestones, vec!["first_prestige", "dread_sovereign", "eternal"]);
    assert_eq!(achieved_count(&s), 3);
    assert!(matches!(s.log[s.log.len() - 2], LogEntry::MilestoneAchieved { milestone: 11 }));
    assert!(matches!(s.log[s.log.len() - 1], LogEntry::Ascended));
    assert_eq!(milestone("eternal").map(|m| m.tier), Some(4));
    assert!(milestone("nothing").is_none());
    assert!(!met(&s, "nothing"));
}

#[test]
fn a_check_adds_to_the_count_exactly_what_it_reports() {
    let mut s = GameState::new();
    s.raids_completed = 12;
    s.total_floors = 4;
    let before = achieved_count(&s);
    let newly = check_milestones(&mut s);
    assert_eq!(newly, 3);
    assert_eq!(achieved_count(&s), before + newly);
    let again = check_milestones(&mut s);
    assert_eq!(again, 0);
    assert_eq!(achieved_count(&s), before + newly);
}
