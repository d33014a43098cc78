//! What the top bar tells the keeper: how hunted the dungeon is and where
//! the intruders stand.

use vstd::prelude::*;
use crate::rules::threat_tier_for;
use crate::state::{AdventurerParty, Floor, GameState, RoomType};

verus! {

/// The intruder alert shown on the top bar.
#[derive(Clone, Copy, Debug, PartialEq, Eq, Structural)]
pub enum AdventurerStatus {
    /// No party inside: building and restructuring are open.
    SafeToRebuild,
    /// A party stands in a Core room.
    CoreUnderThreat,
    /// A party stands at an entrance position.
    Approaching,
    /// Parties are inside, away from the Core.
    PartyInside,
}

impl AdventurerStatus {
    /// The alert's caption.
    pub fn label(&self) -> (r: &'static str)
        ensures
            r@ == match *self {
                AdventurerStatus::SafeToRebuild => "SAFE TO REBUILD"@,
                AdventurerStatus::CoreUnderThreat => "CORE UNDER THREAT"@,
                AdventurerStatus::Approaching => "ADVENTURERS APPROACHING"@,
                AdventurerStatus::PartyInside => "PARTY INSIDE"@,
            },
    {
        match self {
            AdventurerStatus::SafeToRebuild => "SAFE TO REBUILD",
            AdventurerStatus::CoreUnderThreat => "CORE UNDER THREAT",
            AdventurerStatus::Approaching => "ADVENTURERS APPROACHING",
            AdventurerStatus::PartyInside => "PARTY INSIDE",
        }
    }

    /// The alert's icon: a plus when safe, a bang otherwise.
    pub fn icon(&self) -> (r: &'static str)
        ensures
            r@ == if *self == AdventurerStatus::SafeToRebuild {
                "+"@
            } else {
                "!"@
            },
    {
        match self {
            AdventurerStatus::SafeToRebuild => "+",
            _ => "!",
        }
    }
}

/// Party `p` stands in a Core room of some floor.
pub open spec fn at_core(floors: Seq<Floor>, p: AdventurerParty) -> bool {
    exists|f: int, i: int|
        0 <= f < floors.len() && 0 <= i < floors[f].rooms.len() && floors[f].number == p.current_floor
            && #[trigger] floors[f].rooms[i].position == p.current_room && floors[f].rooms[i].room_type
            == RoomType::Core
}

/// The alert for `s`: safe with no party inside; the Core under threat when
/// a party stands in a Core room; intruders approaching when a party stands
/// at position 0; otherwise a party inside.
pub open spec fn status_of(s: GameState) -> AdventurerStatus {
    let ps = s.adventurer_parties@;
    if ps.len() == 0 {
        AdventurerStatus::SafeToRebuild
    } else if exists|k: int| 0 <= k < ps.len() && at_core(s.floors@, #[trigger] ps[k]) {
        AdventurerStatus::CoreUnderThreat
    } else if exists|k: int| 0 <= k < ps.len() && (#[trigger] ps[k]).current_room == 0 {
        AdventurerStatus::Approaching
    } else {
        AdventurerStatus::PartyInside
    }
}

fn party_at_core(floors: &Vec<Floor>, party: &AdventurerParty) -> (r: bool)
    ensures
        r == at_core(floors@, *party),
{
    let mut f: usize = 0;
    while f < floors.len()
        invariant
            0 <= f <= floors@.len(),
            forall|g: int, i: int|
                0 <= g < f && 0 <= i < floors@[g].rooms.len() && floors@[g].number == party.current_floor
                    ==> !(#[trigger] floors@[g].rooms[i].position == party.current_room
                    && floors@[g].rooms[i].room_type == RoomType::Core),
        decreases floors@.len() - f,
    {
        if floors[f].number == party.current_floor {
            let mut i: usize = 0;
            while i < floors[f].rooms.len()
                invariant
                    0 <= f < floors@.len(),
                    floors@[f as int].number == party.current_floor,
                    0 <= i <= floors@[f as int].rooms.len(),
                    forall|g: int, j: int|
                        0 <= g < f && 0 <= j < floors@[g].rooms.len() && floors@[g].number == party.current_floor
                            ==> !(#[trigger] floors@[g].rooms[j].position == party.current_room
                            && floors@[g].rooms[j].room_type == RoomType::Core),
                    forall|j: int|
                        0 <= j < i ==> !(#[trigger] floors@[f as int].rooms[j].position == party.current_room
                            && floors@[f as int].rooms[j].room_type == RoomType::Core),
                decreases floors@[f as int].rooms.len() - i,
            {
                if floors[f].rooms[i].position == party.current_room && floors[f].rooms[i].room_type
                    == RoomType::Core {
                    return true;
                }
                i = i + 1;
            }
        }
        f = f + 1;
    }
    false
}

/// The intruder alert for the top bar.
pub fn adventurer_status(state: &GameState) -> (r: AdventurerStatus)
    ensures
        r == status_of(*state),
{
    let parties = &state.adventurer_parties;
    if parties.len() == 0 {
        return AdventurerStatus::SafeToRebuild;
    }
    let mut k: usize = 0;
    while k < parties.len()
        invariant
            parties == &state.adventurer_parties,
            0 <= k <= parties@.len(),
            forall|j: int| 0 <= j < k ==> !at_core(state.floors@, #[trigger] parties@[j]),
        decreases parties@.len() - k,
    {
        if party_at_core(&state.floors, &parties[k]) {
            return AdventurerStatus::CoreUnderThreat;
        }
        k = k + 1;
    }
    let mut k: usize = 0;
    while k < parties.len()
        invariant
            parties == &state.adventurer_parties,
            0 <= k <= parties@.len(),
            forall|j: int| 0 <= j < parties@.len() ==> !at_core(state.floors@, #[trigger] parties@[j]),
            forall|j: int| 0 <= j < k ==> (#[trigger] parties@[j]).current_room != 0,
        decreases parties@.len() - k,
    {
        if parties[k].current_room == 0 {
            return AdventurerStatus::Approaching;
        }
        k = k + 1;
    }
    AdventurerStatus::PartyInside
}

/// The top bar's name for the realm's threat tier.
pub open spec fn threat_name(tier: int) -> Seq<char> {
    if tier == 0 {
        "Calm"@
    } else if tier == 1 {
        "Wary"@
    } else if tier == 2 {
        "Alarmed"@
    } else if tier == 3 {
        "Hunted"@
    } else {
        "Besieged"@
    }
}

/// The top bar's name for the realm's current threat tier.
pub fn threat_label(state: &GameState) -> (r: &'static str)
    ensures
        r@ == threat_name(threat_tier_for(state.total_deaths as int)),
{
    match state.threat_tier() {
        0 => "Calm",
        1 => "Wary",
        2 => "Alarmed",
        3 => "Hunted",
        _ => "Besieged",
    }
}

} // verus!
