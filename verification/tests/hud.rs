use dungeon_core::hud::{adventurer_status, threat_label, AdventurerStatus};
use dungeon_core::state::{AdventurerParty, ExpeditionDoctrine, GameState};

fn party_at(room: usize) -> AdventurerParty {
    AdventurerParty {
        id: 1,
        members: Vec::new(),
        current_floor: 1,
        current_room: room,
        retreating: false,
        casualties: 0,
        loot: 0,
        entry_time: 0,
        target_floor: 1,
        snared_ticks: 0,
        alarmed: false,
        sieging: false,
        prev_room: 0,
        doctrine: ExpeditionDoctrine::Survey,
    }
}

#[test]
fn the_alert_tracks_where_the_intruders_stand() {
    let mut state = GameState::new();
    assert_eq!(adventurer_status(&state), AdventurerStatus::SafeToRebuild);
    state.adventurer_parties.push(party_at(0));
    assert_eq!(adventurer_status(&state), AdventurerStatus::Approaching);
    state.adventurer_parties[0].current_room = 7;
    assert_eq!(adventurer_status(&state), AdventurerStatus::PartyInside);
    state.adventurer_parties.push(party_at(1));
    assert_eq!(adventurer_status(&state), AdventurerStatus::CoreUnderThreat);
    state.adventurer_parties[1].current_floor = 2;
    assert_eq!(adventurer_status(&state), AdventurerStatus::PartyInside);
}

#[test]
fn alerts_read_as_captions_and_icons() {
    assert_eq!(AdventurerStatus::SafeToRebuild.label(), "SAFE TO REBUILD");
    assert_eq!(AdventurerStatus::SafeToRebuild.icon(), "+");
    assert_eq!(AdventurerStatus::CoreUnderThreat.label(), "CORE UNDER THREAT");
    assert_eq!(AdventurerStatus::Approaching.label(), "ADVENTURERS APPROACHING");
    assert_eq!(AdventurerStatus::PartyInside.label(), "PARTY INSIDE");
    assert_eq!(AdventurerStatus::PartyInside.icon(), "!");
}

#[test]
fn the_threat_label_climbs_with_the_death_toll() {
    let mut state = GameState::new();
    let mut seen = Vec::new();
    for deaths in [0, 9, 10, 25, 50, 100] {
        state.total_deaths = deaths;
        seen.push(threat_label(&state));
    }
    assert_eq!(seen, vec!["Calm", "Calm", "Wary", "Alarmed", "Hunted", "Besieged"]);
}
