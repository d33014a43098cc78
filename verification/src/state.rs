//! The dungeon model: floors of rooms joined by directed exits, the monsters
//! that defend them, the adventurer parties that raid them, and the keeper's
//! resources.

use vstd::prelude::*;
use crate::rules::{threat_tier_for, threat_tier_of, SIEGE_THRESHOLD};

verus! {

/// What a room is for. Every floor runs from its Entrance to a Core sink.
#[derive(Clone, Copy, Debug, PartialEq, Eq, Structural)]
pub enum RoomType {
    Entrance,
    Normal,
    Boss,
    Core,
}

/// Whether adventurers may enter.
#[derive(Clone, Copy, Debug, PartialEq, Eq, Structural)]
pub enum DungeonStatus {
    Open,
    Closing,
    Closed,
}

/// The three combat stats every creature carries.
#[derive(Clone, Copy, Debug, PartialEq, Eq, Structural)]
pub struct Stats {
    pub hp: i32,
    pub attack: i32,
    pub defense: i32,
}

/// A trait instance carried by a placed monster.
pub struct ActiveTrait {
    pub id: String,
    pub name: String,
    pub cooldown_timer: i32,
}

/// A placed defender.
pub struct Monster {
    pub id: u64,
    pub kind: String,
    pub hp: i32,
    pub max_hp: i32,
    pub alive: bool,
    pub is_boss: bool,
    pub fusion_rank: u8,
    pub scaled_stats: Stats,
    pub active_traits: Vec<ActiveTrait>,
}

/// Which family a room upgrade belongs to.
#[derive(Clone, Copy, Debug, PartialEq, Eq, Structural)]
pub enum RoomUpgradeType {
    Trap,
    Reinforcement,
    Treasure,
    Evolution,
    Attunement,
    Growth,
}

/// An upgrade installed in a room. A trap that a Rogue sprang stays
/// `disarmed` until it is re-armed between raids.
pub struct RoomUpgrade {
    pub name: String,
    pub upgrade_type: RoomUpgradeType,
    pub disarmed: bool,
    /// What a trap does when it springs: "Poison", "Burn", "Snare",
    /// "Alarm", "ManaSiphon", "GoldSteal" or "Damage" (any other kind,
    /// as on an older trap, deals damage too).
    pub effect_kind: String,
}

/// The standing order a room's defenders fight under.
#[derive(Clone, Copy, Debug, PartialEq, Eq, Structural)]
pub enum RoomBattleOrder {
    Balanced,
    HoldLine,
    CullWounded,
    BreakFormation,
}

/// One room of a floor. `exits` are the positions of the rooms a party may
/// walk to next; a room without exits is the floor's sink.
pub struct Room {
    pub id: u64,
    pub room_type: RoomType,
    pub position: usize,
    pub floor_number: i32,
    pub exits: Vec<usize>,
    pub monsters: Vec<Monster>,
    pub loot: i32,
    pub explored: bool,
    pub upgrades: Vec<RoomUpgrade>,
    pub battle_order: RoomBattleOrder,
}

impl Room {
    /// A fresh, empty room.
    pub fn new(id: u64, room_type: RoomType, position: usize, floor_number: i32) -> (r: Room)
        ensures
            r.is_fresh(id, room_type, position, floor_number),
            r.exits@.len() == 0,
    {
        Room {
            id,
            room_type,
            position,
            floor_number,
            exits: Vec::new(),
            monsters: Vec::new(),
            loot: 0,
            explored: false,
            upgrades: Vec::new(),
            battle_order: RoomBattleOrder::Balanced,
        }
    }

    /// This room is what `Room::new` builds from these arguments, whatever
    /// exits it has been given since.
    pub open spec fn is_fresh(self, id: u64, room_type: RoomType, position: usize, floor_number: i32) -> bool {
        &&& self.id == id
        &&& self.room_type == room_type
        &&& self.position == position
        &&& self.floor_number == floor_number
        &&& self.monsters@.len() == 0
        &&& self.loot == 0
        &&& !self.explored
        &&& self.upgrades@.len() == 0
        &&& self.battle_order == RoomBattleOrder::Balanced
    }

    /// Two rooms hold the same things; only where they stand and where they
    /// lead may differ.
    pub open spec fn same_contents(self, other: Room) -> bool {
        &&& self.id == other.id
        &&& self.room_type == other.room_type
        &&& self.floor_number == other.floor_number
        &&& self.monsters == other.monsters
        &&& self.loot == other.loot
        &&& self.explored == other.explored
        &&& self.upgrades == other.upgrades
        &&& self.battle_order == other.battle_order
    }

    /// Two rooms differ at most in their defenders.
    pub open spec fn same_but_monsters(self, other: Room) -> bool {
        &&& self.id == other.id
        &&& self.room_type == other.room_type
        &&& self.position == other.position
        &&& self.floor_number == other.floor_number
        &&& self.exits == other.exits
        &&& self.loot == other.loot
        &&& self.explored == other.explored
        &&& self.upgrades == other.upgrades
        &&& self.battle_order == other.battle_order
    }

    /// Two rooms differ at most in where they lead.
    pub open spec fn same_but_exits(self, other: Room) -> bool {
        self.same_contents(other) && self.position == other.position
    }

    /// `k` is the first defender of this room with identity `id`.
    pub open spec fn is_first_id(self, id: u64, k: int) -> bool {
        &&& 0 <= k < self.monsters.len()
        &&& self.monsters[k].id == id
        &&& forall|j: int| 0 <= j < k ==> self.monsters[j].id != id
    }

    /// Some defender of this room has identity `id`.
    pub open spec fn holds_monster(self, id: u64) -> bool {
        exists|k: int| 0 <= k < self.monsters.len() && self.monsters[k].id == id
    }

    /// Index of the first defender with identity `id` (meaningful when
    /// `holds_monster(id)`).
    pub open spec fn monster_slot(self, id: u64) -> int {
        choose|k: int| self.is_first_id(id, k)
    }

    /// Index of the first defender with identity `id`, if any.
    pub fn monster_idx(&self, id: u64) -> (r: Option<usize>)
        ensures
            r is Some <==> self.holds_monster(id),
            r is Some ==> r->0 == self.monster_slot(id) && self.is_first_id(id, r->0 as int),
    {
        let mut k: usize = 0;
        while k < self.monsters.len()
            invariant
                0 <= k <= self.monsters.len(),
                forall|j: int| 0 <= j < k ==> self.monsters[j].id != id,
            decreases self.monsters.len() - k,
        {
            if self.monsters[k].id == id {
                proof {
                    let c = self.monster_slot(id);
                    assert(self.is_first_id(id, k as int));
                    assert(self.is_first_id(id, c));
                    if c < k {
                        assert(self.monsters[c].id != id);
                    }
                    if c > k {
                        assert(self.monsters[k as int].id != id);
                    }
                }
                return Some(k);
            }
            k = k + 1;
        }
        None
    }
}

/// One floor of the dungeon.
pub struct Floor {
    pub id: u64,
    pub number: i32,
    pub is_deepest: bool,
    pub rooms: Vec<Room>,
}

impl Floor {
    /// A floor with no rooms yet.
    pub fn new(id: u64, number: i32, is_deepest: bool) -> (f: Floor)
        ensures
            f.id == id,
            f.number == number,
            f.is_deepest == is_deepest,
            f.rooms@.len() == 0,
    {
        Floor { id, number, is_deepest, rooms: Vec::new() }
    }

    /// Some room of this floor stands at `pos`.
    pub open spec fn has_room(self, pos: usize) -> bool {
        exists|i: int| 0 <= i < self.rooms.len() && self.rooms[i].position == pos
    }

    /// `i` is the first room standing at `pos`.
    pub open spec fn is_first_at(self, pos: usize, i: int) -> bool {
        &&& 0 <= i < self.rooms.len()
        &&& self.rooms[i].position == pos
        &&& forall|j: int| 0 <= j < i ==> self.rooms[j].position != pos
    }

    /// Index of the first room standing at `pos` (meaningful when `has_room(pos)`).
    pub open spec fn room_index(self, pos: usize) -> int {
        choose|i: int| self.is_first_at(pos, i)
    }

    /// The room a party finds at `pos`: the first one standing there.
    pub open spec fn room_of(self, pos: usize) -> Room {
        self.rooms[self.room_index(pos)]
    }

    /// Index of the room at `pos`, if any.
    pub fn room_idx(&self, pos: usize) -> (r: Option<usize>)
        ensures
            r is Some <==> self.has_room(pos),
            r is Some ==> r->0 == self.room_index(pos) && self.is_first_at(pos, r->0 as int),
    {
        let mut i: usize = 0;
        while i < self.rooms.len()
            invariant
                0 <= i <= self.rooms.len(),
                forall|j: int| 0 <= j < i ==> self.rooms[j].position != pos,
            decreases self.rooms.len() - i,
        {
            if self.rooms[i].position == pos {
                proof {
                    lemma_first_unique(*self, pos, i as int);
                }
                return Some(i);
            }
            i = i + 1;
        }
        None
    }

    /// The room at `pos`, if any.
    pub fn room_at(&self, pos: usize) -> (r: Option<&Room>)
        ensures
            r is Some <==> self.has_room(pos),
            r is Some ==> *r->0 == self.room_of(pos),
    {
        match self.room_idx(pos) {
            Some(i) => Some(&self.rooms[i]),
            None => None,
        }
    }
}

/// The first room at a position is the only index with that property.
pub proof fn lemma_first_unique(floor: Floor, pos: usize, i: int)
    requires
        floor.is_first_at(pos, i),
    ensures
        floor.room_index(pos) == i,
        floor.has_room(pos),
{
    let k = floor.room_index(pos);
    assert(floor.is_first_at(pos, k));
    if k < i {
        assert(floor.rooms[k].position != pos);
    }
    if i < k {
        assert(floor.rooms[i].position != pos);
    }
}

/// Whenever some room stands at `pos`, a first one does.
pub proof fn lemma_first_exists(floor: Floor, pos: usize)
    requires
        floor.has_room(pos),
    ensures
        floor.is_first_at(pos, floor.room_index(pos)),
{
    let i = choose|i: int| 0 <= i < floor.rooms.len() && floor.rooms[i].position == pos;
    lemma_first_below(floor, pos, i);
}

proof fn lemma_first_below(floor: Floor, pos: usize, i: int)
    requires
        0 <= i < floor.rooms.len(),
        floor.rooms[i].position == pos,
    ensures
        floor.is_first_at(pos, floor.room_index(pos)),
    decreases i,
{
    if forall|j: int| 0 <= j < i ==> floor.rooms[j].position != pos {
        lemma_first_unique(floor, pos, i);
    } else {
        let j = choose|j: int| 0 <= j < i && floor.rooms[j].position == pos;
        lemma_first_below(floor, pos, j);
    }
}

/// What drives a hero into the depths.
#[derive(Clone, Copy, Debug, PartialEq, Eq, Structural)]
pub enum HeroDrive {
    Duty,
    Glory,
    Fortune,
    Discovery,
}

/// The realm's purpose for an expedition.
#[derive(Clone, Copy, Debug, PartialEq, Eq, Structural)]
pub enum ExpeditionDoctrine {
    Survey,
    Profit,
    Vengeance,
    RelicHunt,
}

/// A lasting affliction on an invader, such as a trap's poison or burn:
/// its kind, how many more combat ticks it lasts, and its power per tick.
pub struct Condition {
    pub kind: String,
    pub ticks: i32,
    pub power: i32,
}

/// One invader inside the dungeon.
pub struct Adventurer {
    pub id: u64,
    pub name: String,
    pub class_name: String,
    pub race: String,
    pub drive: HeroDrive,
    pub resolve: i32,
    pub level: i32,
    pub hp: i32,
    pub max_hp: i32,
    pub alive: bool,
    pub experience: i32,
    pub gold: i32,
    pub scaled_stats: Stats,
    pub conditions: Vec<Condition>,
}

/// A band of invaders moving through the dungeon together.
pub struct AdventurerParty {
    pub id: u64,
    pub members: Vec<Adventurer>,
    pub current_floor: i32,
    pub current_room: usize,
    pub retreating: bool,
    pub casualties: i32,
    pub loot: i32,
    pub entry_time: i32,
    pub target_floor: i32,
    pub snared_ticks: i32,
    pub alarmed: bool,
    pub sieging: bool,
    pub prev_room: usize,
    pub doctrine: ExpeditionDoctrine,
}

/// Where a known hero is now.
#[derive(Clone, Copy, Debug, PartialEq, Eq, Structural)]
pub enum HeroStatus {
    Alive,
    Inside,
    Dead,
}

/// Something a hero lived through, for their journal.
#[derive(Clone, Copy, Debug, PartialEq, Eq, Structural)]
pub enum JournalEvent {
    /// Escaped from this floor carrying this much gold and having learnt this much.
    Escaped { floor: i32, gold: i32, experience: i32 },
    /// Crawled out with a quarter of their health or less.
    GrievouslyWounded,
    /// Grew to this level.
    ReachedLevel { level: i32 },
    /// Fell on this floor.
    Fell { floor: i32 },
    /// Came back for this delve.
    Returned { delve: i32 },
    /// Entered for the first time, driven by this.
    FirstDelve { drive: HeroDrive },
}

/// A dated journal line.
#[derive(Clone, Copy, Debug, PartialEq, Eq, Structural)]
pub struct JournalEntry {
    pub day: i32,
    pub event: JournalEvent,
}

/// The ledger entry the dungeon keeps on every hero it has met.
pub struct HeroRecord {
    pub id: u64,
    pub name: String,
    pub class_name: String,
    pub race: String,
    pub drive: HeroDrive,
    pub resolve: i32,
    pub level: i32,
    pub experience: i32,
    pub delves: i32,
    pub kills: i32,
    pub gold_stolen: i32,
    pub escapes: i32,
    pub deepest_floor: i32,
    pub status: HeroStatus,
    pub death_floor: i32,
    pub death_day: i32,
    pub journal: Vec<JournalEntry>,
}

/// Experience pooled by every defender of one monster line.
pub struct TypeExperience {
    pub kind: String,
    pub experience: i32,
}

/// A cue for the audio layer.
#[derive(Clone, Copy, Debug, PartialEq, Eq, Structural)]
pub enum SoundEvent {
    Income,
    Threat,
    Siege,
    Prestige,
    CoreDamage,
    Trap,
    Death,
    Combat,
}

/// One line of the dungeon chronicle, kept as structured data; the
/// presentation layer turns it into prose.
pub enum LogEntry {
    /// Gold poured into the core: how much gold went in, how much mana came out.
    ManaChannelled { gold: i32, mana: i32 },
    /// A room was built on a floor for this much mana.
    RoomAdded { boss: bool, floor: i32, cost: i32 },
    /// A parallel room grew from `source` on a floor for this much mana.
    BranchAdded { source: usize, floor: i32, cost: i32 },
    /// A new deepest floor was dug; the core now holds `max_mana`.
    FloorCreated { floor: i32, cost: i32, max_mana: i32 },
    /// A monster was summoned into a room for this much mana.
    MonsterSpawned { name: String, boss: bool, floor: i32, room: usize, cost: i32 },
    /// A defender was dismissed and this much mana refunded.
    MonsterDismissed { name: String, floor: i32, room: usize, refund: i32 },
    /// Fallen defenders rose again: undead for free, living ones for mana,
    /// and living ones that mana could not pay for came back wounded.
    DefendersRespawned { free: u64, paid: u64, wounded: u64 },
    /// A species was unlocked for this much gold; these forms became summonable.
    SpeciesUnlocked { species: String, cost: i32, forms: Vec<String> },
    /// A monster line's pooled experience unlocked a new form.
    VariantUnlocked { name: String },
    /// Two defenders of a line at `from_rank` fused into one at `to_rank`.
    DefendersFused { kind: String, from_rank: u8, to_rank: u8, floor: i32, room: usize },
    /// The dungeon's doors changed: now open, closing, or closed.
    StatusChanged { status: DungeonStatus },
    /// Word of the dead spread: the realm's threat rose to this tier.
    ThreatRose { tier: i32 },
    /// A party descended to this floor.
    PartyDescends { floor: i32 },
    /// A party finished its expedition and left carrying this much loot,
    /// which the dungeon banks.
    ExplorationComplete { loot: i32 },
    /// A party took the route to this room of this floor, for this reason.
    PartyMoved { room: usize, floor: i32, reason: &'static str },
    /// The entire party has been wiped out.
    PartyWiped,
    /// The party is retreating after heavy casualties.
    PartyRetreats,
    /// A sprung trap was re-armed for this much mana.
    TrapRearmed { name: String, cost: i32 },
    /// The milestone at this position of the track was achieved.
    MilestoneAchieved { milestone: usize },
    /// The dungeon has ascended: the realm will never be rid of it.
    Ascended,
    /// The core power at this position of the tree was awakened.
    CorePowerAwakened { power: usize },
    /// A besieging party struck the core for `damage`, leaving it at `hp` of `max_hp`.
    CoreDamaged { damage: i32, hp: i32, max_hp: i32 },
    /// The core's wards struck down this hero.
    WardsStruckDown { hero: u64 },
    /// The core has fallen; the dungeon is undone.
    CoreFallen,
    /// The realm's army storms the dungeon, bound for the core.
    SiegeBegins,
    /// The siege was broken: prestige rose to this count.
    SiegeBroken { prestige: i32 },
    /// A defender grew into the next form of its own line.
    MonsterGrew { from: String, to: String, floor: i32, room: usize },
    /// A defender absorbed a same-element defender of line `partner`,
    /// awakening its resonance.
    ResonanceAwakened { kind: String, partner: String, floor: i32 },
    /// A Rogue sprang the trap safely; it stays down until re-armed.
    TrapDisarmed,
    /// The trap afflicted invader `victim` with a condition of this kind
    /// and power per tick.
    TrapAfflicts { victim: u64, kind: String, power: i32 },
    /// The trap held the party fast for this many ticks.
    TrapSnares { ticks: i32 },
    /// The trap sounded the alarm: every defender fights harder.
    TrapAlarm,
    /// The trap drank this much of the party's magic into the core.
    TrapSiphons { mana: i32 },
    /// The trap pocketed this much gold of the party's haul.
    TrapSteals { gold: i32 },
    /// The trap killed invader `victim`; the core drew this much mana.
    TrapKills { victim: u64, mana: i32 },
    /// The trap dealt this much damage to invader `victim`.
    TrapHits { victim: u64, damage: i32 },
    /// Defender `monster` fell; the party took `gold` and the keeper `souls`.
    DefenderSlain { monster: u64, boss: bool, gold: i32, souls: i32 },
    /// Defender `parent` split as it fell, leaving defender `spawn`.
    DefenderSplits { parent: u64, spawn: u64 },
    /// Fallen invaders' life drained this much mana into the core.
    ManaLeech { mana: i32 },
    /// An invader fell; the core drew `mana` and the lines that fought
    /// learnt `experience` each.
    InvaderSlain { victim: u64, mana: i32, experience: i32 },
    /// A party of `size` entered, bound for floor `target_floor`.
    PartyEnters { size: usize, target_floor: i32 },
}

/// Why a keeper's command was refused.
#[derive(Clone, Copy, Debug, PartialEq, Eq, Structural)]
pub enum DungeonError {
    /// Mana is already at its cap.
    ManaFull,
    /// The treasury holds less gold than `need`.
    NotEnoughGold { need: i32 },
    /// The core holds less mana than `need`.
    NotEnoughMana { need: i32 },
    /// The keeper holds fewer souls than `need`.
    NotEnoughSouls { need: i32 },
    /// The dungeon cannot be reshaped while adventurers are inside.
    RaidInProgress,
    /// No floor has that number.
    FloorNotFound,
    /// No room stands at that position.
    RoomNotFound,
    /// A branch must grow from a room with exactly one route ahead.
    NotSingleRoute,
    /// The Core has no route beyond it.
    CoreHasNoRoute,
    /// The floor has no room for another branch.
    FloorFull,
    /// A branched floor lost its Core.
    FloorHasNoCore,
    /// Some exit names a position where no room stands.
    BrokenRoute,
    /// No monster template has that name.
    UnknownMonster,
    /// The monster's species has not been unlocked.
    SpeciesLocked,
    /// The monster's form has not been unlocked.
    MonsterLocked,
    /// Entrances and Cores take no defenders.
    NotBuildable,
    /// A boss-only monster needs a Boss room.
    BossRoomOnly,
    /// The room refuses the newcomer.
    Refused { why: PlacementRefusal },
    /// No defender with that identity stands in the room.
    MonsterNotFound,
    /// The species is already unlocked.
    AlreadyUnlocked,
    /// No species has that name.
    UnknownSpecies,
    /// The defender has neither an identical equal-rank partner nor a
    /// same-element resonance partner in its room.
    NoFusionPartner,
    /// The defender a swap was aimed at is no longer there, or its room
    /// would not take the newcomer in its place.
    OccupantGone,
    /// That core power is already awakened.
    AlreadyAwakened,
    /// No core power has that id.
    UnknownPower,
    /// The requirement at this position of the power's list is not yet owned.
    NeedsPower { requirement: usize },
}

/// Why a room cannot take a newcomer into a free slot.
#[derive(Clone, Copy, Debug, PartialEq, Eq, Structural)]
pub enum PlacementRefusal {
    /// A boss-only monster outside a Boss room.
    BossOnly,
    /// The Boss room's throne is already taken.
    BossSet,
    /// The last ordinary slot of a Boss room is kept for its throne.
    Reserved,
    /// Every slot is taken.
    Full,
}

/// The keeper's whole world.
pub struct GameState {
    pub day: i32,
    pub hour: i32,
    pub mana: i32,
    pub max_mana: i32,
    pub gold: i32,
    pub souls: i32,
    pub status: DungeonStatus,
    pub speed: i32,
    pub floors: Vec<Floor>,
    pub total_floors: i32,
    pub total_deaths: i32,
    pub threat_warned: i32,
    pub raids_completed: i32,
    pub prestige: i32,
    pub core_hp: i32,
    pub core_max_hp: i32,
    pub core_powers: Vec<String>,
    pub adventurer_parties: Vec<AdventurerParty>,
    pub known_adventurers: Vec<HeroRecord>,
    pub type_experience: Vec<TypeExperience>,
    pub next_id: u64,
    pub unlocked_species: Vec<String>,
    pub unlocked_monsters: Vec<String>,
    pub milestones: Vec<String>,
    pub siege_active: bool,
    pub game_over: bool,
    /// The room the keeper is inspecting: floor number and room position.
    pub selected_room: Option<(i32, usize)>,
    /// The absolute hour (day times twenty-four plus hour) before which no
    /// new party may come.
    pub next_party_spawn: i64,
    pub log: Vec<LogEntry>,
    pub sounds: Vec<SoundEvent>,
}

/// Mana the core starts with.
pub const STARTING_MANA: i32 = 100;
/// Mana the core holds at first.
pub const STARTING_MAX_MANA: i32 = 200;
/// Health the core starts with.
pub const STARTING_CORE_HP: i32 = 1000;

/// `s` is a new game: day one at midnight, a closed dungeon of one floor
/// (identity 1, the deepest) holding an Entrance (identity 2, position 0)
/// that leads to the Core (identity 3, position 1); starting mana and core
/// health; nothing else yet.
pub open spec fn is_new_game(s: GameState) -> bool {
    &&& s.day == 1
    &&& s.hour == 0
    &&& s.mana == STARTING_MANA
    &&& s.max_mana == STARTING_MAX_MANA
    &&& s.gold == 0
    &&& s.souls == 0
    &&& s.status == DungeonStatus::Closed
    &&& s.speed == 1
    &&& s.floors.len() == 1
    &&& s.floors[0].id == 1
    &&& s.floors[0].number == 1
    &&& s.floors[0].is_deepest
    &&& s.floors[0].rooms.len() == 2
    &&& s.floors[0].rooms[0].is_fresh(2, RoomType::Entrance, 0, 1)
    &&& s.floors[0].rooms[0].exits@ == seq![1usize]
    &&& s.floors[0].rooms[1].is_fresh(3, RoomType::Core, 1, 1)
    &&& s.floors[0].rooms[1].exits@.len() == 0
    &&& s.total_floors == 1
    &&& s.total_deaths == 0
    &&& s.threat_warned == 0
    &&& s.raids_completed == 0
    &&& s.prestige == 0
    &&& s.core_hp == STARTING_CORE_HP
    &&& s.core_max_hp == STARTING_CORE_HP
    &&& s.core_powers@.len() == 0
    &&& s.adventurer_parties@.len() == 0
    &&& s.known_adventurers@.len() == 0
    &&& s.type_experience@.len() == 0
    &&& s.next_id == 4
    &&& s.unlocked_species@.len() == 0
    &&& s.unlocked_monsters@.len() == 0
    &&& s.milestones@.len() == 0
    &&& !s.siege_active
    &&& !s.game_over
    &&& s.selected_room is None
    &&& s.next_party_spawn == 0
    &&& s.log@.len() == 0
    &&& s.sounds@.len() == 0
}

impl GameState {
    /// A new game.
    pub fn new() -> (s: GameState)
        ensures
            is_new_game(s),
    {
        let mut entrance = Room::new(2, RoomType::Entrance, 0, 1);
        entrance.exits.push(1);
        let core = Room::new(3, RoomType::Core, 1, 1);
        let mut floor = Floor::new(1, 1, true);
        floor.rooms.push(entrance);
        floor.rooms.push(core);
        let mut floors = Vec::new();
        floors.push(floor);
        let s = GameState {
            day: 1,
            hour: 0,
            mana: STARTING_MANA,
            max_mana: STARTING_MAX_MANA,
            gold: 0,
            souls: 0,
            status: DungeonStatus::Closed,
            speed: 1,
            floors,
            total_floors: 1,
            total_deaths: 0,
            threat_warned: 0,
            raids_completed: 0,
            prestige: 0,
            core_hp: STARTING_CORE_HP,
            core_max_hp: STARTING_CORE_HP,
            core_powers: Vec::new(),
            adventurer_parties: Vec::new(),
            known_adventurers: Vec::new(),
            type_experience: Vec::new(),
            next_id: 4,
            unlocked_species: Vec::new(),
            unlocked_monsters: Vec::new(),
            milestones: Vec::new(),
            siege_active: false,
            game_over: false,
            selected_room: None,
            next_party_spawn: 0,
            log: Vec::new(),
            sounds: Vec::new(),
        };
        proof {
            assert(s.floors[0].rooms[0].exits@ =~= seq![1usize]);
        }
        s
    }

    /// The sound cues queued since they were last taken, oldest first; the
    /// queue is left empty.
    pub fn take_sound_events(&mut self) -> (r: Vec<SoundEvent>)
        ensures
            r@ == old(self).sounds@,
            final(self).sounds@.len() == 0,
            *final(self) == (GameState { sounds: final(self).sounds, ..*old(self) }),
    {
        let mut taken: Vec<SoundEvent> = Vec::new();
        std::mem::swap(&mut taken, &mut self.sounds);
        taken
    }
}

/// How many rooms these floors hold altogether.
pub open spec fn rooms_in(floors: Seq<Floor>) -> int
    decreases floors.len(),
{
    if floors.len() == 0 {
        0
    } else {
        rooms_in(floors.drop_last()) + floors.last().rooms.len()
    }
}

/// A prefix of the floors never holds more rooms than the whole dungeon.
pub proof fn lemma_rooms_in_prefix(floors: Seq<Floor>, i: int)
    requires
        0 <= i <= floors.len(),
    ensures
        0 <= rooms_in(floors.subrange(0, i)) <= rooms_in(floors),
    decreases floors.len() - i,
{
    if i < floors.len() {
        lemma_rooms_in_prefix(floors, i + 1);
        assert(floors.subrange(0, i + 1).drop_last() =~= floors.subrange(0, i));
        lemma_rooms_in_nonneg(floors.subrange(0, i));
    } else {
        assert(floors.subrange(0, i) =~= floors);
        lemma_rooms_in_nonneg(floors);
    }
}

pub proof fn lemma_rooms_in_nonneg(floors: Seq<Floor>)
    ensures
        rooms_in(floors) >= 0,
    decreases floors.len(),
{
    if floors.len() > 0 {
        lemma_rooms_in_nonneg(floors.drop_last());
    }
}

/// `t` is `s` with at most the room at floor index `fi`, room index `ri`
/// changed, and that room at most in its defenders.
pub open spec fn only_room_changed(s: Seq<Floor>, t: Seq<Floor>, fi: int, ri: int) -> bool {
    &&& 0 <= fi < s.len()
    &&& 0 <= ri < s[fi].rooms.len()
    &&& t.len() == s.len()
    &&& forall|j: int| 0 <= j < s.len() && j != fi ==> #[trigger] t[j] == s[j]
    &&& t[fi].id == s[fi].id
    &&& t[fi].number == s[fi].number
    &&& t[fi].is_deepest == s[fi].is_deepest
    &&& t[fi].rooms.len() == s[fi].rooms.len()
    &&& forall|k: int| 0 <= k < s[fi].rooms.len() && k != ri ==> #[trigger] t[fi].rooms[k] == s[fi].rooms[k]
    &&& t[fi].rooms[ri].same_but_monsters(s[fi].rooms[ri])
}

impl GameState {
    /// `i` is the first floor numbered `n`.
    pub open spec fn is_first_floor(self, n: i32, i: int) -> bool {
        &&& 0 <= i < self.floors.len()
        &&& self.floors[i].number == n
        &&& forall|j: int| 0 <= j < i ==> self.floors[j].number != n
    }

    /// Some floor is numbered `n`.
    pub open spec fn has_floor(self, n: i32) -> bool {
        exists|i: int| 0 <= i < self.floors.len() && self.floors[i].number == n
    }

    /// Index of the first floor numbered `n` (meaningful when `has_floor(n)`).
    pub open spec fn floor_index(self, n: i32) -> int {
        choose|i: int| self.is_first_floor(n, i)
    }

    /// Index of the first floor numbered `n`, if any.
    pub fn floor_idx(&self, n: i32) -> (r: Option<usize>)
        ensures
            r is Some <==> self.has_floor(n),
            r is Some ==> r->0 == self.floor_index(n) && self.is_first_floor(n, r->0 as int),
    {
        let mut i: usize = 0;
        while i < self.floors.len()
            invariant
                0 <= i <= self.floors.len(),
                forall|j: int| 0 <= j < i ==> self.floors[j].number != n,
            decreases self.floors.len() - i,
        {
            if self.floors[i].number == n {
                proof {
                    let k = self.floor_index(n);
                    assert(self.is_first_floor(n, i as int));
                    assert(self.is_first_floor(n, k));
                    if k < i {
                        assert(self.floors[k].number != n);
                    }
                    if k > i {
                        assert(self.floors[i as int].number != n);
                    }
                }
                return Some(i);
            }
            i = i + 1;
        }
        None
    }

    /// The floor a build with no explicit target goes to: the first deepest
    /// floor, or floor 1 when none is marked deepest.
    pub open spec fn default_build_floor(self) -> i32 {
        if exists|i: int| 0 <= i < self.floors.len() && self.floors[i].is_deepest {
            self.floors[choose|i: int|
                0 <= i < self.floors.len() && self.floors[i].is_deepest && forall|j: int|
                    0 <= j < i ==> !self.floors[j].is_deepest].number
        } else {
            1
        }
    }

    /// The floor a build with no explicit target goes to.
    pub fn deepest_floor_number(&self) -> (r: i32)
        ensures
            r == self.default_build_floor(),
    {
        let mut i: usize = 0;
        while i < self.floors.len()
            invariant
                0 <= i <= self.floors.len(),
                forall|j: int| 0 <= j < i ==> !self.floors[j].is_deepest,
            decreases self.floors.len() - i,
        {
            if self.floors[i].is_deepest {
                proof {
                    let k = choose|k: int|
                        0 <= k < self.floors.len() && self.floors[k].is_deepest && forall|j: int|
                            0 <= j < k ==> !self.floors[j].is_deepest;
                    assert(0 <= i < self.floors.len() && self.floors[i as int].is_deepest && forall|j: int|
                            0 <= j < i ==> !self.floors[j].is_deepest);
                    if k < i {
                        assert(!self.floors[k].is_deepest);
                    }
                    if k > i {
                        assert(!self.floors[i as int].is_deepest);
                    }
                }
                return self.floors[i].number;
            }
            i = i + 1;
        }
        1
    }

    /// The realm's current threat tier (0 calm .. 4 siege pitch).
    pub open spec fn spec_threat_tier(self) -> int {
        threat_tier_for(self.total_deaths as int)
    }

    /// The realm's current threat tier (0 calm .. 4 siege pitch).
    pub fn threat_tier(&self) -> (r: i32)
        ensures
            r == self.spec_threat_tier(),
            0 <= r <= 4,
    {
        threat_tier_of(self.total_deaths)
    }

    /// Deaths at which the realm musters a siege.
    pub fn siege_threshold(&self) -> (r: i32)
        ensures
            r == SIEGE_THRESHOLD,
    {
        SIEGE_THRESHOLD
    }

    /// How many rooms the dungeon holds on all floors.
    pub open spec fn room_total(self) -> int {
        rooms_in(self.floors@)
    }

    /// How many rooms the dungeon holds on all floors.
    pub fn total_room_count(&self) -> (r: usize)
        requires
            self.room_total() <= usize::MAX,
        ensures
            r == self.room_total(),
    {
        let mut total: usize = 0;
        let mut i: usize = 0;
        while i < self.floors.len()
            invariant
                0 <= i <= self.floors.len(),
                total == rooms_in(self.floors@.subrange(0, i as int)),
                self.room_total() <= usize::MAX,
            decreases self.floors.len() - i,
        {
            proof {
                lemma_rooms_in_prefix(self.floors@, i + 1);
                assert(self.floors@.subrange(0, i + 1).drop_last() =~= self.floors@.subrange(
                    0,
                    i as int,
                ));
            }
            total = total + self.floors[i].rooms.len();
            i = i + 1;
        }
        proof {
            assert(self.floors@.subrange(0, i as int) =~= self.floors@);
        }
        total
    }
}


/// The first floor with a number is the only index with that property.
pub proof fn lemma_first_floor_unique(s: GameState, n: i32, i: int)
    requires
        s.is_first_floor(n, i),
    ensures
        s.floor_index(n) == i,
        s.has_floor(n),
{
    let k = s.floor_index(n);
    assert(s.is_first_floor(n, k));
    if k < i {
        assert(s.floors[k].number != n);
    }
    if i < k {
        assert(s.floors[i].number != n);
    }
}

/// The first defender with an identity is the only index with that property.
pub proof fn lemma_first_id_unique(room: Room, id: u64, k: int)
    requires
        room.is_first_id(id, k),
    ensures
        room.monster_slot(id) == k,
        room.holds_monster(id),
{
    let c = room.monster_slot(id);
    assert(room.is_first_id(id, c));
    if c < k {
        assert(room.monsters[c].id != id);
    }
    if k < c {
        assert(room.monsters[k].id != id);
    }
}

/// What the ledger knows of a hero.
pub struct HeroView {
    pub id: u64,
    pub name: Seq<char>,
    pub class_name: Seq<char>,
    pub race: Seq<char>,
    pub drive: HeroDrive,
    pub resolve: i32,
    pub level: i32,
    pub experience: i32,
    pub delves: i32,
    pub kills: i32,
    pub gold_stolen: i32,
    pub escapes: i32,
    pub deepest_floor: i32,
    pub status: HeroStatus,
    pub death_floor: i32,
    pub death_day: i32,
    pub journal: Seq<JournalEntry>,
}

impl View for HeroRecord {
    type V = HeroView;

    open spec fn view(&self) -> HeroView {
        HeroView {
            id: self.id,
            name: self.name@,
            class_name: self.class_name@,
            race: self.race@,
            drive: self.drive,
            resolve: self.resolve,
            level: self.level,
            experience: self.experience,
            delves: self.delves,
            kills: self.kills,
            gold_stolen: self.gold_stolen,
            escapes: self.escapes,
            deepest_floor: self.deepest_floor,
            status: self.status,
            death_floor: self.death_floor,
            death_day: self.death_day,
            journal: self.journal@,
        }
    }
}

/// The ledger as the heroes it knows.
pub open spec fn ledger_views(records: Seq<HeroRecord>) -> Seq<HeroView> {
    records.map_values(|r: HeroRecord| r@)
}

/// `c` is the first entry of the ledger view for hero `id`.
pub open spec fn is_first_view(views: Seq<HeroView>, id: u64, c: int) -> bool {
    &&& 0 <= c < views.len()
    &&& views[c].id == id
    &&& forall|j: int| 0 <= j < c ==> views[j].id != id
}

/// The ledger view with hero `id` marked fallen on `floor` on `day`.
pub open spec fn fallen_view(views: Seq<HeroView>, id: u64, floor: i32, day: i32) -> Seq<HeroView> {
    if exists|c: int| is_first_view(views, id, c) {
        let c = choose|c: int| is_first_view(views, id, c);
        views.update(c, HeroView { status: HeroStatus::Dead, death_floor: floor, death_day: day, ..views[c] })
    } else {
        views
    }
}

/// Marking a hero fallen reads the same on the ledger and on its view.
pub proof fn lemma_fallen_view(records: Seq<HeroRecord>, id: u64, floor: i32, day: i32)
    ensures
        ledger_views(mark_fallen(records, id, floor, day)) == fallen_view(ledger_views(records), id, floor, day),
{
    let views = ledger_views(records);
    assert forall|c: int| is_first_record(records, id, c) <==> is_first_view(views, id, c) by {
        if is_first_record(records, id, c) {
            assert forall|j: int| 0 <= j < c implies views[j].id != id by {
                assert(views[j] == records[j]@);
            }
        }
        if is_first_view(views, id, c) {
            assert forall|j: int| 0 <= j < c implies records[j].id != id by {
                assert(views[j] == records[j]@);
            }
        }
    }
    if exists|c: int| is_first_record(records, id, c) {
        let c = choose|c: int| is_first_record(records, id, c);
        let w = choose|w: int| is_first_view(views, id, w);
        assert(is_first_view(views, id, c));
        assert(is_first_view(views, id, w));
        if w < c {
            assert(views[w].id != id);
        }
        if c < w {
            assert(views[c].id != id);
        }
        assert(ledger_views(mark_fallen(records, id, floor, day)) =~= fallen_view(views, id, floor, day));
    } else {
        assert(!exists|w: int| is_first_view(views, id, w));
        assert(ledger_views(mark_fallen(records, id, floor, day)) =~= fallen_view(views, id, floor, day));
    }
}

/// `c` is the first ledger entry for hero `id`.
pub open spec fn is_first_record(records: Seq<HeroRecord>, id: u64, c: int) -> bool {
    &&& 0 <= c < records.len()
    &&& records[c].id == id
    &&& forall|j: int| 0 <= j < c ==> records[j].id != id
}

/// The ledger with hero `id` marked fallen on `floor` on `day` (unchanged
/// when the ledger has no entry for that hero).
pub open spec fn mark_fallen(records: Seq<HeroRecord>, id: u64, floor: i32, day: i32) -> Seq<HeroRecord> {
    if exists|c: int| is_first_record(records, id, c) {
        let c = choose|c: int| is_first_record(records, id, c);
        records.update(
            c,
            HeroRecord { status: HeroStatus::Dead, death_floor: floor, death_day: day, ..records[c] },
        )
    } else {
        records
    }
}

impl GameState {
    /// Mark hero `id` fallen on `floor` today in the ledger.
    pub fn record_hero_death(&mut self, id: u64, floor: i32)
        ensures
            final(self).known_adventurers@ == mark_fallen(old(self).known_adventurers@, id, floor, old(self).day),
            *final(self) == (GameState { known_adventurers: final(self).known_adventurers, ..*old(self) }),
    {
        let ghost before = self.known_adventurers@;
        let mut c: usize = 0;
        while c < self.known_adventurers.len()
            invariant
                0 <= c <= self.known_adventurers.len(),
                *self == *old(self),
                before == old(self).known_adventurers@,
                forall|j: int| 0 <= j < c ==> before[j].id != id,
            decreases self.known_adventurers.len() - c,
        {
            if self.known_adventurers[c].id == id {
                proof {
                    assert(is_first_record(before, id, c as int));
                    let w = choose|w: int| is_first_record(before, id, w);
                    if w < c {
                        assert(before[w].id != id);
                    }
                    if w > c {
                        assert(before[c as int].id != id);
                    }
                }
                let day = self.day;
                self.known_adventurers[c].status = HeroStatus::Dead;
                self.known_adventurers[c].death_floor = floor;
                self.known_adventurers[c].death_day = day;
                proof {
                    assert(self.known_adventurers@ =~= mark_fallen(before, id, floor, day));
                }
                return;
            }
            c = c + 1;
        }
        proof {
            assert(!exists|w: int| is_first_record(before, id, w));
        }
    }
}

/// `a + b`, held within the range of an `i32`.
pub open spec fn clamp_add(a: int, b: int) -> int {
    if a + b > i32::MAX {
        i32::MAX as int
    } else if a + b < i32::MIN {
        i32::MIN as int
    } else {
        a + b
    }
}

/// Index of the first of these pools that belongs to line `kind`.
pub open spec fn first_pool_of(pools: Seq<TypeExperience>, kind: Seq<char>) -> int {
    choose|i: int|
        0 <= i < pools.len() && pools[i].kind@ == kind && forall|j: int|
            0 <= j < i ==> pools[j].kind@ != kind
}

impl GameState {
    /// `i` is the first experience pool of line `kind`.
    pub open spec fn is_first_pool(self, kind: Seq<char>, i: int) -> bool {
        &&& 0 <= i < self.type_experience.len()
        &&& self.type_experience[i].kind@ == kind
        &&& forall|j: int| 0 <= j < i ==> self.type_experience[j].kind@ != kind
    }

    /// Some experience pool belongs to line `kind`.
    pub open spec fn has_pool(self, kind: Seq<char>) -> bool {
        exists|i: int| 0 <= i < self.type_experience.len() && self.type_experience[i].kind@ == kind
    }

    /// Index of the first pool of line `kind` (meaningful when `has_pool(kind)`).
    pub open spec fn pool_index(self, kind: Seq<char>) -> int {
        first_pool_of(self.type_experience@, kind)
    }

    /// Experience pooled by every defender of line `kind` (none for a line
    /// that never earned any).
    pub open spec fn type_xp(self, kind: Seq<char>) -> int {
        if self.has_pool(kind) {
            self.type_experience[self.pool_index(kind)].experience as int
        } else {
            0
        }
    }

    fn pool_idx(&self, kind: &str) -> (r: Option<usize>)
        ensures
            r is Some <==> self.has_pool(kind@),
            r is Some ==> r->0 == self.pool_index(kind@) && self.is_first_pool(kind@, r->0 as int),
    {
        let key = kind.to_owned();
        let mut i: usize = 0;
        while i < self.type_experience.len()
            invariant
                0 <= i <= self.type_experience.len(),
                key@ == kind@,
                forall|j: int| 0 <= j < i ==> self.type_experience[j].kind@ != kind@,
            decreases self.type_experience.len() - i,
        {
            if self.type_experience[i].kind == key {
                proof {
                    let k = self.pool_index(kind@);
                    assert(self.is_first_pool(kind@, i as int));
                    assert(self.is_first_pool(kind@, k));
                    if k < i {
                        assert(self.type_experience[k].kind@ != kind@);
                    }
                    if k > i {
                        assert(self.type_experience[i as int].kind@ != kind@);
                    }
                }
                return Some(i);
            }
            i = i + 1;
        }
        None
    }

    /// Experience pooled by every defender of line `kind`.
    pub fn type_experience(&self, kind: &str) -> (r: i32)
        ensures
            r == self.type_xp(kind@),
    {
        match self.pool_idx(kind) {
            Some(i) => self.type_experience[i].experience,
            None => 0,
        }
    }

    /// Add `amount` to the experience pool of line `kind`, opening the pool if
    /// the line has none yet. A pool never runs past the range of an `i32`.
    pub fn add_type_experience(&mut self, kind: &str, amount: i32)
        ensures
            old(self).has_pool(kind@) ==> {
                let i = old(self).pool_index(kind@);
                final(self).type_experience@ == old(self).type_experience@.update(
                    i,
                    TypeExperience {
                        experience: clamp_add(
                            old(self).type_experience[i].experience as int,
                            amount as int,
                        ) as i32,
                        ..old(self).type_experience[i]
                    },
                )
            },
            !old(self).has_pool(kind@) ==> {
                &&& final(self).type_experience@.len() == old(self).type_experience@.len() + 1
                &&& final(self).type_experience@.drop_last() == old(self).type_experience@
                &&& final(self).type_experience@.last().kind@ == kind@
                &&& final(self).type_experience@.last().experience == amount
            },
            final(self).type_xp(kind@) == clamp_add(old(self).type_xp(kind@), amount as int),
            *final(self) == (GameState { type_experience: final(self).type_experience, ..*old(self) }),
    {
        match self.pool_idx(kind) {
            Some(i) => {
                let sum: i64 = self.type_experience[i].experience as i64 + amount as i64;
                let v: i32 = if sum > i32::MAX as i64 {
                    i32::MAX
                } else if sum < i32::MIN as i64 {
                    i32::MIN
                } else {
                    sum as i32
                };
                self.type_experience[i].experience = v;
                proof {
                    assert(self.is_first_pool(kind@, i as int));
                    lemma_first_pool_unique(*self, kind@, i as int);
                }
            },
            None => {
                self.type_experience.push(TypeExperience { kind: kind.to_owned(), experience: amount });
                proof {
                    let n = self.type_experience.len() - 1;
                    assert(forall|j: int| 0 <= j < n ==> self.type_experience[j] == old(self).type_experience[j]);
                    assert(self.is_first_pool(kind@, n));
                    lemma_first_pool_unique(*self, kind@, n);
                }
            },
        }
    }
}

/// The first pool of a line is the only index with that property.
pub proof fn lemma_first_pool_unique(s: GameState, kind: Seq<char>, i: int)
    requires
        s.is_first_pool(kind, i),
    ensures
        s.pool_index(kind) == i,
        s.has_pool(kind),
{
    let k = s.pool_index(kind);
    assert(s.is_first_pool(kind, k));
    if k < i {
        assert(s.type_experience[k].kind@ != kind);
    }
    if i < k {
        assert(s.type_experience[i].kind@ != kind);
    }
}
} // verus!
