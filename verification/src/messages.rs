//! What the keeper reads: the text of a refused command, and the category
//! of each chronicle line by which the event log is filtered.

use vstd::prelude::*;
use vstd::string::StringExecFns;
use crate::state::{DungeonError, LogEntry, PlacementRefusal};

verus! {

/// The character of decimal digit `d`.
pub open spec fn digit_char(d: int) -> char {
    (48 + d) as char
}

/// The decimal digits of `n`, most significant first.
pub open spec fn digits(n: nat) -> Seq<char>
    decreases n,
{
    if n < 10 {
        seq![digit_char(n as int)]
    } else {
        digits(n / 10).push(digit_char((n % 10) as int))
    }
}

/// `n` written in decimal, with a leading minus sign when negative.
pub open spec fn decimal(n: int) -> Seq<char> {
    if n < 0 {
        seq!['-'] + digits((-n) as nat)
    } else {
        digits(n as nat)
    }
}

fn digit_str(d: u64) -> (r: &'static str)
    requires
        d < 10,
    ensures
        r@ == seq![digit_char(d as int)],
{
    proof {
        reveal_strlit("0");
        reveal_strlit("1");
        reveal_strlit("2");
        reveal_strlit("3");
        reveal_strlit("4");
        reveal_strlit("5");
        reveal_strlit("6");
        reveal_strlit("7");
        reveal_strlit("8");
        reveal_strlit("9");
    }
    match d {
        0 => "0",
        1 => "1",
        2 => "2",
        3 => "3",
        4 => "4",
        5 => "5",
        6 => "6",
        7 => "7",
        8 => "8",
        _ => "9",
    }
}

fn push_digits(out: &mut String, n: u64)
    ensures
        final(out)@ == old(out)@ + digits(n as nat),
    decreases n,
{
    if n >= 10 {
        push_digits(out, n / 10);
    }
    let d = digit_str(n % 10);
    out.append(d);
    proof {
        if n >= 10 {
            assert(old(out)@ + digits((n / 10) as nat) + seq![digit_char((n % 10) as int)] =~= old(out)@
                + digits(n as nat));
        } else {
            assert(old(out)@ + seq![digit_char((n % 10) as int)] =~= old(out)@ + digits(n as nat));
        }
    }
}

/// Append `n` in decimal to `out`.
pub fn push_decimal(out: &mut String, n: i32)
    ensures
        final(out)@ == old(out)@ + decimal(n as int),
{
    if n < 0 {
        out.append("-");
        proof {
            reveal_strlit("-");
        }
        let m: i64 = 0 - n as i64;
        push_digits(out, m as u64);
        proof {
            assert(old(out)@ + seq!['-'] + digits(m as nat) =~= old(out)@ + decimal(n as int));
        }
    } else {
        push_digits(out, n as u64);
    }
}

/// Why a placement was refused, in a few words.
pub open spec fn refusal_text(why: PlacementRefusal) -> Seq<char> {
    match why {
        PlacementRefusal::BossOnly => "boss only"@,
        PlacementRefusal::BossSet => "boss set"@,
        PlacementRefusal::Reserved => "reserved for the boss"@,
        PlacementRefusal::Full => "full"@,
    }
}

/// The text of a refused command.
pub open spec fn error_text(e: DungeonError) -> Seq<char> {
    match e {
        DungeonError::ManaFull => "Mana is already full."@,
        DungeonError::NotEnoughGold { need } => "Not enough gold! Need "@ + decimal(need as int) + " gold."@,
        DungeonError::NotEnoughMana { need } => "Not enough mana! Need "@ + decimal(need as int) + " mana."@,
        DungeonError::NotEnoughSouls { need } => "Not enough souls! Need "@ + decimal(need as int) + " souls."@,
        DungeonError::RaidInProgress => "Cannot reshape the dungeon while adventurers are inside!"@,
        DungeonError::FloorNotFound => "Floor not found"@,
        DungeonError::RoomNotFound => "Room not found"@,
        DungeonError::NotSingleRoute => "Choose a room with exactly one route ahead to branch from it."@,
        DungeonError::CoreHasNoRoute => "The core has no route beyond it to branch."@,
        DungeonError::FloorFull => "This floor has no room for another branch."@,
        DungeonError::FloorHasNoCore => "Floor has no core"@,
        DungeonError::BrokenRoute => "The chosen room has no route to branch."@,
        DungeonError::UnknownMonster => "Unknown monster"@,
        DungeonError::SpeciesLocked => "That species is not unlocked!"@,
        DungeonError::MonsterLocked => "That monster is not unlocked! Evolve to unlock higher tiers."@,
        DungeonError::NotBuildable => "Cannot place monsters in entrance or core rooms!"@,
        DungeonError::BossRoomOnly => "That monster can only be summoned in a Boss room!"@,
        DungeonError::Refused { why } => "This room cannot take that monster ("@ + refusal_text(why) + ")."@,
        DungeonError::MonsterNotFound => "Monster not found in this room"@,
        DungeonError::AlreadyUnlocked => "That species is already unlocked!"@,
        DungeonError::UnknownSpecies => "Unknown species"@,
        DungeonError::NoFusionPartner => "No matching defender of the same rank to fuse with."@,
        DungeonError::OccupantGone => "Fusion partner disappeared"@,
        DungeonError::AlreadyAwakened => "That core power is already awakened."@,
        DungeonError::UnknownPower => "Unknown core power"@,
        DungeonError::NeedsPower { .. } => "Awaken its prerequisite first."@,
    }
}

fn owned(s: &str) -> (r: String)
    ensures
        r@ == s@,
{
    s.to_owned()
}

impl DungeonError {
    /// The text the keeper reads for this refusal.
    pub fn message(&self) -> (r: String)
        ensures
            r@ == error_text(*self),
    {
        proof {
            reveal_strlit("Mana is already full.");
            reveal_strlit("Not enough gold! Need ");
            reveal_strlit(" gold.");
            reveal_strlit("Not enough mana! Need ");
            reveal_strlit(" mana.");
            reveal_strlit("Not enough souls! Need ");
            reveal_strlit(" souls.");
            reveal_strlit("This room cannot take that monster (");
            reveal_strlit(").");
            reveal_strlit("boss only");
            reveal_strlit("boss set");
            reveal_strlit("reserved for the boss");
            reveal_strlit("full");
        }
        match *self {
            DungeonError::ManaFull => owned("Mana is already full."),
            DungeonError::NotEnoughGold { need } => {
                let mut s = owned("Not enough gold! Need ");
                push_decimal(&mut s, need);
                s.append(" gold.");
                s
            },
            DungeonError::NotEnoughMana { need } => {
                let mut s = owned("Not enough mana! Need ");
                push_decimal(&mut s, need);
                s.append(" mana.");
                s
            },
            DungeonError::NotEnoughSouls { need } => {
                let mut s = owned("Not enough souls! Need ");
                push_decimal(&mut s, need);
                s.append(" souls.");
                s
            },
            DungeonError::RaidInProgress => owned("Cannot reshape the dungeon while adventurers are inside!"),
            DungeonError::FloorNotFound => owned("Floor not found"),
            DungeonError::RoomNotFound => owned("Room not found"),
            DungeonError::NotSingleRoute => owned("Choose a room with exactly one route ahead to branch from it."),
            DungeonError::CoreHasNoRoute => owned("The core has no route beyond it to branch."),
            DungeonError::FloorFull => owned("This floor has no room for another branch."),
            DungeonError::FloorHasNoCore => owned("Floor has no core"),
            DungeonError::BrokenRoute => owned("The chosen room has no route to branch."),
            DungeonError::UnknownMonster => owned("Unknown monster"),
            DungeonError::SpeciesLocked => owned("That species is not unlocked!"),
            DungeonError::MonsterLocked => owned("That monster is not unlocked! Evolve to unlock higher tiers."),
            DungeonError::NotBuildable => owned("Cannot place monsters in entrance or core rooms!"),
            DungeonError::BossRoomOnly => owned("That monster can only be summoned in a Boss room!"),
            DungeonError::Refused { why } => {
                let mut s = owned("This room cannot take that monster (");
                let w = match why {
                    PlacementRefusal::BossOnly => "boss only",
                    PlacementRefusal::BossSet => "boss set",
                    PlacementRefusal::Reserved => "reserved for the boss",
                    PlacementRefusal::Full => "full",
                };
                s.append(w);
                s.append(").");
                s
            },
            DungeonError::MonsterNotFound => owned("Monster not found in this room"),
            DungeonError::AlreadyUnlocked => owned("That species is already unlocked!"),
            DungeonError::UnknownSpecies => owned("Unknown species"),
            DungeonError::NoFusionPartner => owned("No matching defender of the same rank to fuse with."),
            DungeonError::OccupantGone => owned("Fusion partner disappeared"),
            DungeonError::AlreadyAwakened => owned("That core power is already awakened."),
            DungeonError::UnknownPower => owned("Unknown core power"),
            DungeonError::NeedsPower { .. } => owned("Awaken its prerequisite first."),
        }
    }
}

/// The part of the chronicle a line belongs to.
#[derive(Clone, Copy, Debug, PartialEq, Eq, Structural)]
pub enum LogCategory {
    Combat,
    Adventure,
    Building,
    System,
}

/// Which lines the event log shows.
#[derive(Clone, Copy, Debug, PartialEq, Eq, Structural)]
pub enum LogFilter {
    All,
    Combat,
    Adventure,
    Building,
    System,
}

/// The category of a chronicle line: fights, traps, the core's wounds and
/// sieges are combat; a party's comings and goings are adventure; building,
/// summoning, unlocking and re-arming are building; the clock, the threat,
/// milestones and core powers are system.
pub open spec fn log_category(e: LogEntry) -> LogCategory {
    match e {
        LogEntry::ManaChannelled { .. } | LogEntry::RoomAdded { .. } | LogEntry::BranchAdded { .. }
        | LogEntry::FloorCreated { .. } | LogEntry::MonsterSpawned { .. } | LogEntry::MonsterDismissed { .. }
        | LogEntry::DefendersRespawned { .. } | LogEntry::SpeciesUnlocked { .. } | LogEntry::VariantUnlocked { .. }
        | LogEntry::DefendersFused { .. } | LogEntry::TrapRearmed { .. } | LogEntry::MonsterGrew { .. }
        | LogEntry::ResonanceAwakened { .. } => LogCategory::Building,
        LogEntry::PartyDescends { .. } | LogEntry::ExplorationComplete { .. } | LogEntry::PartyMoved { .. }
        | LogEntry::PartyWiped | LogEntry::PartyRetreats | LogEntry::PartyEnters { .. } => LogCategory::Adventure,
        LogEntry::StatusChanged { .. } | LogEntry::ThreatRose { .. } | LogEntry::MilestoneAchieved { .. }
        | LogEntry::Ascended | LogEntry::CorePowerAwakened { .. } => LogCategory::System,
        _ => LogCategory::Combat,
    }
}

impl LogEntry {
    /// The part of the chronicle this line belongs to (see `log_category`).
    pub fn category(&self) -> (c: LogCategory)
        ensures
            c == log_category(*self),
    {
        match self {
            LogEntry::ManaChannelled { .. } | LogEntry::RoomAdded { .. } | LogEntry::BranchAdded { .. }
            | LogEntry::FloorCreated { .. } | LogEntry::MonsterSpawned { .. } | LogEntry::MonsterDismissed { .. }
            | LogEntry::DefendersRespawned { .. } | LogEntry::SpeciesUnlocked { .. } | LogEntry::VariantUnlocked { .. }
            | LogEntry::DefendersFused { .. } | LogEntry::TrapRearmed { .. } | LogEntry::MonsterGrew { .. }
            | LogEntry::ResonanceAwakened { .. } => LogCategory::Building,
            LogEntry::PartyDescends { .. } | LogEntry::ExplorationComplete { .. } | LogEntry::PartyMoved { .. }
            | LogEntry::PartyWiped | LogEntry::PartyRetreats | LogEntry::PartyEnters { .. } => LogCategory::Adventure,
            LogEntry::StatusChanged { .. } | LogEntry::ThreatRose { .. } | LogEntry::MilestoneAchieved { .. }
            | LogEntry::Ascended | LogEntry::CorePowerAwakened { .. } => LogCategory::System,
            _ => LogCategory::Combat,
        }
    }
}

/// Whether `filter` shows a line of category `c`.
pub open spec fn shows(filter: LogFilter, c: LogCategory) -> bool {
    match filter {
        LogFilter::All => true,
        LogFilter::Combat => c == LogCategory::Combat,
        LogFilter::Adventure => c == LogCategory::Adventure,
        LogFilter::Building => c == LogCategory::Building,
        LogFilter::System => c == LogCategory::System,
    }
}

impl LogFilter {
    /// Whether the event log under this filter shows `entry`.
    pub fn matches(&self, entry: &LogEntry) -> (r: bool)
        ensures
            r == shows(*self, log_category(*entry)),
    {
        let c = entry.category();
        match self {
            LogFilter::All => true,
            LogFilter::Combat => c == LogCategory::Combat,
            LogFilter::Adventure => c == LogCategory::Adventure,
            LogFilter::Building => c == LogCategory::Building,
            LogFilter::System => c == LogCategory::System,
        }
    }
}

} // verus!
