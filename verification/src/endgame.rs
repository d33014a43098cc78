//! The endgame: a soul-bought tree of permanent core powers, the realm's
//! siege once its fury peaks, and the prestige a broken siege grants.

use vstd::prelude::*;
use crate::catalog::names_contain;
use crate::milestones::{check_milestones, milestones_checked};
use crate::rules::threat_tier_for;
use crate::state::{
    Adventurer, AdventurerParty, DungeonError, DungeonStatus, ExpeditionDoctrine, Floor, GameState,
    HeroDrive, HeroRecord, HeroStatus, LogEntry, RoomType, SoundEvent, Stats,
};

verus! {

/// What awakening a core power does. Stat effects (`CoreHp`, `MaxMana`) are
/// baked in the moment the power is bought; the rest are passive and summed
/// from all owned powers wherever the simulation reads them.
#[derive(Clone, Copy, Debug, PartialEq, Eq, Structural)]
pub enum CorePowerEffect {
    /// Immediate, permanent core-health increase.
    CoreHp(i32),
    /// Immediate, permanent max-mana increase.
    MaxMana(i32),
    /// Permanent bonus to hourly mana regeneration.
    ManaRegen(i32),
    /// Invaders break this many casualties sooner (stacks).
    Dread(i32),
    /// Bonus flat damage added to every Core Smite.
    SmiteDamage(i32),
    /// Seconds shaved off the Core Smite cooldown.
    SmiteCooldown(i32),
}

/// A soul-bought permanent core power, a node of the core-power tree.
pub struct CorePower {
    pub id: &'static str,
    pub name: &'static str,
    pub description: &'static str,
    pub cost: i32,
    /// Depth in the tree (0 for a root).
    pub tier: u8,
    /// Powers that must already be owned before this one can be awakened.
    pub requires: Vec<&'static str>,
    pub effect: CorePowerEffect,
}

/// How many powers the tree holds.
pub const CORE_POWER_COUNT: usize = 15;

/// The id of the power at position `i` of the tree.
pub open spec fn power_id(i: int) -> Seq<char> {
    if i == 0 {
        "deep_roots"@
    } else if i == 1 {
        "bulwark_core"@
    } else if i == 2 {
        "dread_aura"@
    } else if i == 3 {
        "wellspring"@
    } else if i == 4 {
        "mana_font"@
    } else if i == 5 {
        "iron_heart"@
    } else if i == 6 {
        "searing_smite"@
    } else if i == 7 {
        "quickening"@
    } else if i == 8 {
        "aquifer"@
    } else if i == 9 {
        "grand_reservoir"@
    } else if i == 10 {
        "adamant_heart"@
    } else if i == 11 {
        "cataclysm"@
    } else if i == 12 {
        "terror_incarnate"@
    } else if i == 13 {
        "eternal_wellspring"@
    } else {
        "worldbreaker"@
    }
}

/// The soul price of the power at position `i` of the tree.
pub open spec fn power_cost(i: int) -> i32 {
    if i == 0 {
        3
    } else if i == 1 {
        4
    } else if i == 2 {
        3
    } else if i == 3 {
        5
    } else if i == 4 {
        4
    } else if i == 5 {
        6
    } else if i == 6 {
        4
    } else if i == 7 {
        5
    } else if i == 8 {
        8
    } else if i == 9 {
        7
    } else if i == 10 {
        9
    } else if i == 11 {
        8
    } else if i == 12 {
        7
    } else if i == 13 {
        12
    } else {
        12
    }
}

/// The depth in the tree (0 for a root) of the power at position `i`.
pub open spec fn power_tier(i: int) -> u8 {
    if i == 0 {
        0
    } else if i == 1 {
        0
    } else if i == 2 {
        0
    } else if i == 3 {
        1
    } else if i == 4 {
        1
    } else if i == 5 {
        1
    } else if i == 6 {
        1
    } else if i == 7 {
        1
    } else if i == 8 {
        2
    } else if i == 9 {
        2
    } else if i == 10 {
        2
    } else if i == 11 {
        2
    } else if i == 12 {
        2
    } else if i == 13 {
        3
    } else {
        3
    }
}

/// What awakening the power at position `i` does.
pub open spec fn power_effect(i: int) -> CorePowerEffect {
    if i == 0 {
        CorePowerEffect::ManaRegen(1)
    } else if i == 1 {
        CorePowerEffect::CoreHp(250)
    } else if i == 2 {
        CorePowerEffect::Dread(1)
    } else if i == 3 {
        CorePowerEffect::ManaRegen(1)
    } else if i == 4 {
        CorePowerEffect::MaxMana(150)
    } else if i == 5 {
        CorePowerEffect::CoreHp(400)
    } else if i == 6 {
        CorePowerEffect::SmiteDamage(20)
    } else if i == 7 {
        CorePowerEffect::SmiteCooldown(4)
    } else if i == 8 {
        CorePowerEffect::ManaRegen(2)
    } else if i == 9 {
        CorePowerEffect::MaxMana(300)
    } else if i == 10 {
        CorePowerEffect::CoreHp(750)
    } else if i == 11 {
        CorePowerEffect::SmiteDamage(45)
    } else if i == 12 {
        CorePowerEffect::Dread(1)
    } else if i == 13 {
        CorePowerEffect::ManaRegen(3)
    } else {
        CorePowerEffect::SmiteCooldown(4)
    }
}

/// The ids of the powers that must be owned before the power at position
/// `i` can be awakened.
pub open spec fn power_requires(i: int) -> Seq<Seq<char>> {
    if i == 0 {
        Seq::empty()
    } else if i == 1 {
        Seq::empty()
    } else if i == 2 {
        Seq::empty()
    } else if i == 3 {
        seq!["deep_roots"@]
    } else if i == 4 {
        seq!["deep_roots"@]
    } else if i == 5 {
        seq!["bulwark_core"@]
    } else if i == 6 {
        seq!["dread_aura"@]
    } else if i == 7 {
        seq!["dread_aura"@]
    } else if i == 8 {
        seq!["wellspring"@]
    } else if i == 9 {
        seq!["mana_font"@]
    } else if i == 10 {
        seq!["iron_heart"@]
    } else if i == 11 {
        seq!["searing_smite"@]
    } else if i == 12 {
        seq!["dread_aura"@]
    } else if i == 13 {
        seq!["aquifer"@]
    } else {
        seq!["cataclysm"@, "quickening"@]
    }
}

/// The display name of the power at position `i` of the tree.
pub open spec fn power_name(i: int) -> Seq<char> {
    if i == 0 {
        "Deep Roots"@
    } else if i == 1 {
        "Bulwark Core"@
    } else if i == 2 {
        "Dread Aura"@
    } else if i == 3 {
        "Wellspring"@
    } else if i == 4 {
        "Mana Font"@
    } else if i == 5 {
        "Iron Heart"@
    } else if i == 6 {
        "Searing Smite"@
    } else if i == 7 {
        "Quickening"@
    } else if i == 8 {
        "Aquifer"@
    } else if i == 9 {
        "Grand Reservoir"@
    } else if i == 10 {
        "Adamant Heart"@
    } else if i == 11 {
        "Cataclysm"@
    } else if i == 12 {
        "Terror Incarnate"@
    } else if i == 13 {
        "Eternal Wellspring"@
    } else {
        "Worldbreaker"@
    }
}

/// What the power at position `i` of the tree does, in the keeper's words.
pub open spec fn power_description(i: int) -> Seq<char> {
    if i == 0 {
        "The core drinks deeper: +1 mana regen forever."@
    } else if i == 1 {
        "Reinforce the heart: +250 core HP."@
    } else if i == 2 {
        "Invaders lose their nerve one casualty sooner."@
    } else if i == 3 {
        "The roots run deeper still: +1 more mana regen."@
    } else if i == 4 {
        "Widen the reservoir: +150 max mana."@
    } else if i == 5 {
        "Plate the heart: +400 core HP."@
    } else if i == 6 {
        "Core Smite sears hotter: +20 smite damage."@
    } else if i == 7 {
        "The heart recovers faster: -4s Core Smite cooldown."@
    } else if i == 8 {
        "Tap the deep aquifer: +2 mana regen."@
    } else if i == 9 {
        "A vast store of power: +300 max mana."@
    } else if i == 10 {
        "All but unbreakable: +750 core HP."@
    } else if i == 11 {
        "Ruinous force: +45 Core Smite damage."@
    } else if i == 12 {
        "Naked fear: invaders break one more casualty sooner."@
    } else if i == 13 {
        "An unending flood of power: +3 mana regen."@
    } else {
        "The heart's judgement is swift: -4s Core Smite cooldown."@
    }
}

/// The power at position `i` of the tree.
pub fn core_power_at(i: usize) -> (p: CorePower)
    requires
        i < CORE_POWER_COUNT,
    ensures
        p.id@ == power_id(i as int),
        p.name@ == power_name(i as int),
        p.description@ == power_description(i as int),
        p.cost == power_cost(i as int),
        p.tier == power_tier(i as int),
        p.effect == power_effect(i as int),
        p.requires@.map_values(|r: &'static str| r@) == power_requires(i as int),
{
    let p = if i == 0 {
        CorePower {
            id: "deep_roots",
            name: "Deep Roots",
            description: "The core drinks deeper: +1 mana regen forever.",
            cost: 3,
            tier: 0,
            requires: vec![],
            effect: CorePowerEffect::ManaRegen(1),
        }
    } else if i == 1 {
        CorePower {
            id: "bulwark_core",
            name: "Bulwark Core",
            description: "Reinforce the heart: +250 core HP.",
            cost: 4,
            tier: 0,
            requires: vec![],
            effect: CorePowerEffect::CoreHp(250),
        }
    } else if i == 2 {
        CorePower {
            id: "dread_aura",
            name: "Dread Aura",
            description: "Invaders lose their nerve one casualty sooner.",
            cost: 3,
            tier: 0,
            requires: vec![],
            effect: CorePowerEffect::Dread(1),
        }
    } else if i == 3 {
        CorePower {
            id: "wellspring",
            name: "Wellspring",
            description: "The roots run deeper still: +1 more mana regen.",
            cost: 5,
            tier: 1,
            requires: vec!["deep_roots"],
            effect: CorePowerEffect::ManaRegen(1),
        }
    } else if i == 4 {
        CorePower {
            id: "mana_font",
            name: "Mana Font",
            description: "Widen the reservoir: +150 max mana.",
            cost: 4,
            tier: 1,
            requires: vec!["deep_roots"],
            effect: CorePowerEffect::MaxMana(150),
        }
    } else if i == 5 {
        CorePower {
            id: "iron_heart",
            name: "Iron Heart",
            description: "Plate the heart: +400 core HP.",
            cost: 6,
            tier: 1,
            requires: vec!["bulwark_core"],
            effect: CorePowerEffect::CoreHp(400),
        }
    } else if i == 6 {
        CorePower {
            id: "searing_smite",
            name: "Searing Smite",
            description: "Core Smite sears hotter: +20 smite damage.",
            cost: 4,
            tier: 1,
            requires: vec!["dread_aura"],
            effect: CorePowerEffect::SmiteDamage(20),
        }
    } else if i == 7 {
        CorePower {
            id: "quickening",
            name: "Quickening",
            description: "The heart recovers faster: -4s Core Smite cooldown.",
            cost: 5,
            tier: 1,
            requires: vec!["dread_aura"],
            effect: CorePowerEffect::SmiteCooldown(4),
        }
    } else if i == 8 {
        CorePower {
            id: "aquifer",
            name: "Aquifer",
            description: "Tap the deep aquifer: +2 mana regen.",
            cost: 8,
            tier: 2,
            requires: vec!["wellspring"],
            effect: CorePowerEffect::ManaRegen(2),
        }
    } else if i == 9 {
        CorePower {
            id: "grand_reservoir",
            name: "Grand Reservoir",
            description: "A vast store of power: +300 max mana.",
            cost: 7,
            tier: 2,
            requires: vec!["mana_font"],
            effect: CorePowerEffect::MaxMana(300),
        }
    } else if i == 10 {
        CorePower {
            id: "adamant_heart",
            name: "Adamant Heart",
            description: "All but unbreakable: +750 core HP.",
            cost: 9,
            tier: 2,
            requires: vec!["iron_heart"],
            effect: CorePowerEffect::CoreHp(750),
        }
    } else if i == 11 {
        CorePower {
            id: "cataclysm",
            name: "Cataclysm",
            description: "Ruinous force: +45 Core Smite damage.",
            cost: 8,
            tier: 2,
            requires: vec!["searing_smite"],
            effect: CorePowerEffect::SmiteDamage(45),
        }
    } else if i == 12 {
        CorePower {
            id: "terror_incarnate",
            name: "Terror Incarnate",
            description: "Naked fear: invaders break one more casualty sooner.",
            cost: 7,
            tier: 2,
            requires: vec!["dread_aura"],
            effect: CorePowerEffect::Dread(1),
        }
    } else if i == 13 {
        CorePower {
            id: "eternal_wellspring",
            name: "Eternal Wellspring",
            description: "An unending flood of power: +3 mana regen.",
            cost: 12,
            tier: 3,
            requires: vec!["aquifer"],
            effect: CorePowerEffect::ManaRegen(3),
        }
    } else {
        CorePower {
            id: "worldbreaker",
            name: "Worldbreaker",
            description: "The heart's judgement is swift: -4s Core Smite cooldown.",
            cost: 12,
            tier: 3,
            requires: vec!["cataclysm", "quickening"],
            effect: CorePowerEffect::SmiteCooldown(4),
        }
    };
    proof {
        assert(p.requires@.map_values(|r: &'static str| r@) =~= power_requires(i as int));
    }
    p
}


/// The whole core-power tree, in order: three roots branching into an
/// economy line, a bulwark line and an offense line.
pub fn core_powers() -> (r: Vec<CorePower>)
    ensures
        r@.len() == CORE_POWER_COUNT,
        forall|i: int|
            0 <= i < CORE_POWER_COUNT ==> #[trigger] r@[i].id@ == power_id(i) && r@[i].name@ == power_name(i)
                && r@[i].description@ == power_description(i) && r@[i].cost == power_cost(i)
                && r@[i].tier == power_tier(i) && r@[i].effect == power_effect(i)
                && r@[i].requires@.map_values(|q: &'static str| q@) == power_requires(i),
{
    let mut r: Vec<CorePower> = Vec::new();
    let mut i: usize = 0;
    while i < CORE_POWER_COUNT
        invariant
            0 <= i <= CORE_POWER_COUNT,
            r@.len() == i,
            forall|j: int|
                0 <= j < i ==> #[trigger] r@[j].id@ == power_id(j) && r@[j].name@ == power_name(j)
                    && r@[j].description@ == power_description(j) && r@[j].cost == power_cost(j)
                    && r@[j].tier == power_tier(j) && r@[j].effect == power_effect(j)
                    && r@[j].requires@.map_values(|q: &'static str| q@) == power_requires(j),
        decreases CORE_POWER_COUNT - i,
    {
        r.push(core_power_at(i));
        i = i + 1;
    }
    r
}

/// `i` is the first power of the tree with id `id`.
pub open spec fn is_first_power(id: Seq<char>, i: int) -> bool {
    &&& 0 <= i < CORE_POWER_COUNT
    &&& power_id(i) == id
    &&& forall|j: int| 0 <= j < i ==> power_id(j) != id
}

/// Some power of the tree has id `id`.
pub open spec fn is_power(id: Seq<char>) -> bool {
    exists|i: int| 0 <= i < CORE_POWER_COUNT && power_id(i) == id
}

/// Position of the first power with id `id` (meaningful when `is_power(id)`).
pub open spec fn power_index(id: Seq<char>) -> int {
    choose|i: int| is_first_power(id, i)
}

/// Position in the tree of the power with id `id`, if any.
fn power_position(id: &str) -> (r: Option<usize>)
    ensures
        r is Some <==> is_power(id@),
        r is Some ==> is_first_power(id@, r->0 as int) && r->0 == power_index(id@),
{
    let key = id.to_owned();
    let mut i: usize = 0;
    while i < CORE_POWER_COUNT
        invariant
            0 <= i <= CORE_POWER_COUNT,
            key@ == id@,
            forall|j: int| 0 <= j < i ==> power_id(j) != id@,
        decreases CORE_POWER_COUNT - i,
    {
        let p = core_power_at(i);
        if p.id.to_owned() == key {
            proof {
                assert(is_first_power(id@, i as int));
                let c = power_index(id@);
                assert(is_first_power(id@, c));
                if c < i {
                    assert(power_id(c) != id@);
                }
                if c > i {
                    assert(power_id(i as int) != id@);
                }
            }
            return Some(i);
        }
        i = i + 1;
    }
    None
}

/// Look up a power by id.
pub fn core_power(id: &str) -> (r: Option<CorePower>)
    ensures
        r is Some <==> is_power(id@),
        r is Some ==> {
            let i = power_index(id@);
            &&& r->0.id@ == power_id(i)
            &&& r->0.name@ == power_name(i)
            &&& r->0.description@ == power_description(i)
            &&& r->0.cost == power_cost(i)
            &&& r->0.tier == power_tier(i)
            &&& r->0.effect == power_effect(i)
            &&& r->0.requires@.map_values(|q: &'static str| q@) == power_requires(i)
        },
{
    match power_position(id) {
        Some(i) => Some(core_power_at(i)),
        None => None,
    }
}

/// The keeper owns the power with id `id`.
pub open spec fn owns_power(s: GameState, id: Seq<char>) -> bool {
    names_contain(s.core_powers@, id)
}

impl GameState {
    /// Does the keeper own the power with id `id`?
    pub fn has_core_power(&self, id: &str) -> (r: bool)
        ensures
            r == owns_power(*self, id@),
    {
        crate::catalog::contains_name(&self.core_powers, id)
    }
}

/// Are all of a power's prerequisites already owned?
pub fn prereqs_met(state: &GameState, power: &CorePower) -> (r: bool)
    ensures
        r == forall|j: int| 0 <= j < power.requires@.len() ==> owns_power(*state, #[trigger] power.requires@[j]@),
{
    let mut j: usize = 0;
    while j < power.requires.len()
        invariant
            0 <= j <= power.requires@.len(),
            forall|k: int| 0 <= k < j ==> owns_power(*state, #[trigger] power.requires@[k]@),
        decreases power.requires@.len() - j,
    {
        if !state.has_core_power(power.requires[j]) {
            return false;
        }
        j = j + 1;
    }
    true
}

/// A passive boon that owned powers add up to.
#[derive(Clone, Copy, Debug, PartialEq, Eq, Structural)]
pub enum Boon {
    Regen,
    Dread,
    SmiteDamage,
    SmiteCooldown,
}

/// What an effect adds to a boon.
pub open spec fn boon_value(e: CorePowerEffect, b: Boon) -> int {
    match (e, b) {
        (CorePowerEffect::ManaRegen(v), Boon::Regen) => v as int,
        (CorePowerEffect::Dread(v), Boon::Dread) => v as int,
        (CorePowerEffect::SmiteDamage(v), Boon::SmiteDamage) => v as int,
        (CorePowerEffect::SmiteCooldown(v), Boon::SmiteCooldown) => v as int,
        _ => 0,
    }
}

/// A boon summed over the powers among the first `n` of the tree that the
/// ids in `owned` name.
pub open spec fn boon_total(owned: Seq<String>, b: Boon, n: int) -> int
    decreases n,
{
    if n <= 0 {
        0
    } else {
        boon_total(owned, b, n - 1) + if names_contain(owned, power_id(n - 1)) {
            boon_value(power_effect(n - 1), b)
        } else {
            0
        }
    }
}

fn sum_boon(state: &GameState, b: Boon) -> (r: i32)
    ensures
        r == boon_total(state.core_powers@, b, CORE_POWER_COUNT as int),
{
    let mut total: i32 = 0;
    let mut i: usize = 0;
    while i < CORE_POWER_COUNT
        invariant
            0 <= i <= CORE_POWER_COUNT,
            total == boon_total(state.core_powers@, b, i as int),
            0 <= total <= 50 * i,
        decreases CORE_POWER_COUNT - i,
    {
        let p = core_power_at(i);
        if state.has_core_power(p.id) {
            let v = match (p.effect, b) {
                (CorePowerEffect::ManaRegen(v), Boon::Regen) => v,
                (CorePowerEffect::Dread(v), Boon::Dread) => v,
                (CorePowerEffect::SmiteDamage(v), Boon::SmiteDamage) => v,
                (CorePowerEffect::SmiteCooldown(v), Boon::SmiteCooldown) => v,
                _ => 0,
            };
            total = total + v;
        }
        i = i + 1;
    }
    total
}

/// Summed permanent mana-regeneration bonus from owned core powers.
pub fn core_mana_regen_bonus(state: &GameState) -> (r: i32)
    ensures
        r == boon_total(state.core_powers@, Boon::Regen, CORE_POWER_COUNT as int),
{
    sum_boon(state, Boon::Regen)
}

/// Summed "invaders break sooner" bonus from owned core powers.
pub fn core_dread_bonus(state: &GameState) -> (r: i32)
    ensures
        r == boon_total(state.core_powers@, Boon::Dread, CORE_POWER_COUNT as int),
{
    sum_boon(state, Boon::Dread)
}

/// Summed flat Core Smite damage bonus from owned core powers.
pub fn core_smite_damage_bonus(state: &GameState) -> (r: i32)
    ensures
        r == boon_total(state.core_powers@, Boon::SmiteDamage, CORE_POWER_COUNT as int),
{
    sum_boon(state, Boon::SmiteDamage)
}

/// Summed Core Smite cooldown reduction (seconds) from owned core powers.
pub fn core_smite_cooldown_reduction(state: &GameState) -> (r: i32)
    ensures
        r == boon_total(state.core_powers@, Boon::SmiteCooldown, CORE_POWER_COUNT as int),
{
    sum_boon(state, Boon::SmiteCooldown)
}

/// Every prerequisite of every power of the tree names a power of the tree
/// that sits at a shallower depth.
pub proof fn law_prerequisites_shallower(i: int, j: int)
    requires
        0 <= i < CORE_POWER_COUNT,
        0 <= j < power_requires(i).len(),
    ensures
        is_power(power_requires(i)[j]),
        power_tier(power_index(power_requires(i)[j])) < power_tier(i),
{
    if i == 3 {
        lemma_power_at(0);
        assert(power_requires(i)[j] == power_id(0));
    } else if i == 4 {
        lemma_power_at(0);
        assert(power_requires(i)[j] == power_id(0));
    } else if i == 5 {
        lemma_power_at(1);
        assert(power_requires(i)[j] == power_id(1));
    } else if i == 6 {
        lemma_power_at(2);
        assert(power_requires(i)[j] == power_id(2));
    } else if i == 7 {
        lemma_power_at(2);
        assert(power_requires(i)[j] == power_id(2));
    } else if i == 8 {
        lemma_power_at(3);
        assert(power_requires(i)[j] == power_id(3));
    } else if i == 9 {
        lemma_power_at(4);
        assert(power_requires(i)[j] == power_id(4));
    } else if i == 10 {
        lemma_power_at(5);
        assert(power_requires(i)[j] == power_id(5));
    } else if i == 11 {
        lemma_power_at(6);
        assert(power_requires(i)[j] == power_id(6));
    } else if i == 12 {
        lemma_power_at(2);
        assert(power_requires(i)[j] == power_id(2));
    } else if i == 13 {
        lemma_power_at(8);
        assert(power_requires(i)[j] == power_id(8));
    } else if i == 14 {
        if j == 0 {
            lemma_power_at(11);
        assert(power_requires(i)[j] == power_id(11));
        } else {
            lemma_power_at(7);
        assert(power_requires(i)[j] == power_id(7));
        }
    }
}

/// No two powers of the tree share an id.
proof fn lemma_ids_distinct()
    ensures
        forall|a: int, b: int| 0 <= a < b < CORE_POWER_COUNT ==> power_id(a) != power_id(b),
{
    reveal_strlit("deep_roots");
    reveal_strlit("bulwark_core");
    reveal_strlit("dread_aura");
    reveal_strlit("wellspring");
    reveal_strlit("mana_font");
    reveal_strlit("iron_heart");
    reveal_strlit("searing_smite");
    reveal_strlit("quickening");
    reveal_strlit("aquifer");
    reveal_strlit("grand_reservoir");
    reveal_strlit("adamant_heart");
    reveal_strlit("cataclysm");
    reveal_strlit("terror_incarnate");
    reveal_strlit("eternal_wellspring");
    reveal_strlit("worldbreaker");
    assert forall|a: int, b: int| 0 <= a < b < CORE_POWER_COUNT implies power_id(a) != power_id(b) by {
        assert(power_id(a).len() != power_id(b).len() || power_id(a)[0] != power_id(b)[0] || power_id(a)[1]
            != power_id(b)[1] || power_id(a)[2] != power_id(b)[2]);
    }
}

/// The power at position `d` is the one its id finds.
proof fn lemma_power_at(d: int)
    requires
        0 <= d < CORE_POWER_COUNT,
    ensures
        power_index(power_id(d)) == d,
        is_power(power_id(d)),
{
    lemma_ids_distinct();
    assert(is_first_power(power_id(d), d));
    lemma_power_index(power_id(d), d);
}

proof fn lemma_power_index(id: Seq<char>, d: int)
    requires
        is_first_power(id, d),
    ensures
        power_index(id) == d,
        is_power(id),
{
    let c = power_index(id);
    assert(is_first_power(id, c));
    if c < d {
        assert(power_id(c) != id);
    }
    if d < c {
        assert(power_id(d) != id);
    }
}


/// `j` is the first requirement of power `i` the keeper does not own.
pub open spec fn first_missing(s: GameState, i: int, j: int) -> bool {
    &&& 0 <= j < power_requires(i).len()
    &&& !owns_power(s, power_requires(i)[j])
    &&& forall|k: int| 0 <= k < j ==> owns_power(s, #[trigger] power_requires(i)[k])
}

/// What `buy_core_power` answers for these arguments.
pub open spec fn buy_result(s: GameState, id: Seq<char>) -> Result<(), DungeonError> {
    let i = power_index(id);
    if owns_power(s, id) {
        Err(DungeonError::AlreadyAwakened)
    } else if !is_power(id) {
        Err(DungeonError::UnknownPower)
    } else if exists|j: int| first_missing(s, i, j) {
        Err(DungeonError::NeedsPower { requirement: (choose|j: int| first_missing(s, i, j)) as usize })
    } else if s.souls < power_cost(i) {
        Err(DungeonError::NotEnoughSouls { need: power_cost(i) })
    } else {
        Ok(())
    }
}

/// Purchase a permanent core power with souls. Fails if already owned, if
/// any prerequisite is missing, or if souls are short. Stat effects are baked
/// in at once; passive effects are read wherever they apply.
pub fn buy_core_power(state: &mut GameState, id: &str) -> (r: Result<(), DungeonError>)
    requires
        old(state).core_max_hp <= i32::MAX - 750,
        old(state).core_hp <= i32::MAX - 750,
        old(state).max_mana <= i32::MAX - 300,
    ensures
        r == buy_result(*old(state), id@),
        r is Err ==> *final(state) == *old(state),
        r is Ok ==> {
            let s = *old(state);
            let i = power_index(id@);
            let (hp_gain, mana_gain) = match power_effect(i) {
                CorePowerEffect::CoreHp(n) => (n as int, 0int),
                CorePowerEffect::MaxMana(n) => (0int, n as int),
                _ => (0int, 0int),
            };
            &&& final(state).core_powers@.len() == s.core_powers@.len() + 1
            &&& final(state).core_powers@.drop_last() == s.core_powers@
            &&& final(state).core_powers@.last()@ == id@
            &&& final(state).log@ == s.log@.push(LogEntry::CorePowerAwakened { power: i as usize })
            &&& *final(state) == (GameState {
                souls: (s.souls - power_cost(i)) as i32,
                core_max_hp: (s.core_max_hp + hp_gain) as i32,
                core_hp: (s.core_hp + hp_gain) as i32,
                max_mana: (s.max_mana + mana_gain) as i32,
                core_powers: final(state).core_powers,
                log: final(state).log,
                ..s
            })
        },
{
    if state.has_core_power(id) {
        return Err(DungeonError::AlreadyAwakened);
    }
    let i = match power_position(id) {
        Some(i) => i,
        None => return Err(DungeonError::UnknownPower),
    };
    let power = core_power_at(i);
    let mut j: usize = 0;
    while j < power.requires.len()
        invariant
            0 <= j <= power.requires@.len(),
            power.requires@.map_values(|q: &'static str| q@) == power_requires(i as int),
            !owns_power(*state, id@),
            is_power(id@),
            i == power_index(id@),
            forall|k: int| 0 <= k < j ==> owns_power(*state, #[trigger] power_requires(i as int)[k]),
        decreases power.requires@.len() - j,
    {
        proof {
            assert(power.requires@.map_values(|q: &'static str| q@)[j as int] == power.requires@[j as int]@);
        }
        if !state.has_core_power(power.requires[j]) {
            proof {
                assert(first_missing(*state, i as int, j as int));
                let c = choose|c: int| first_missing(*state, i as int, c);
                if c < j {
                    assert(owns_power(*state, power_requires(i as int)[c]));
                }
                if j < c {
                    assert(owns_power(*state, power_requires(i as int)[j as int]));
                }
            }
            return Err(DungeonError::NeedsPower { requirement: j });
        }
        j = j + 1;
    }
    if state.souls < power.cost {
        return Err(DungeonError::NotEnoughSouls { need: power.cost });
    }
    state.souls = state.souls - power.cost;
    state.core_powers.push(id.to_owned());
    match power.effect {
        CorePowerEffect::CoreHp(n) => {
            state.core_max_hp = state.core_max_hp + n;
            state.core_hp = state.core_hp + n;
        },
        CorePowerEffect::MaxMana(n) => {
            state.max_mana = state.max_mana + n;
        },
        _ => {},
    }
    state.log.push(LogEntry::CorePowerAwakened { power: i });
    Ok(())
}


/// The floor holds a Core room.
pub open spec fn floor_has_core(floor: Floor) -> bool {
    exists|i: int| 0 <= i < floor.rooms.len() && floor.rooms[i].room_type == RoomType::Core
}

/// Where the core stands: the number of the first floor holding a Core room,
/// and the position of that floor's first Core room.
pub open spec fn core_spot(s: GameState) -> Option<(i32, usize)> {
    if exists|f: int| 0 <= f < s.floors.len() && floor_has_core(s.floors[f]) {
        let f = choose|f: int|
            0 <= f < s.floors.len() && floor_has_core(s.floors[f]) && forall|g: int|
                0 <= g < f ==> !floor_has_core(#[trigger] s.floors[g]);
        let r = choose|r: int| s.floors[f].is_first_core(r);
        Some((s.floors[f].number, s.floors[f].rooms[r].position))
    } else {
        None
    }
}

/// Where the core stands, if any floor holds one.
pub fn core_location(state: &GameState) -> (r: Option<(i32, usize)>)
    ensures
        r == core_spot(*state),
{
    let mut f: usize = 0;
    while f < state.floors.len()
        invariant
            0 <= f <= state.floors.len(),
            forall|g: int| 0 <= g < f ==> !floor_has_core(#[trigger] state.floors[g]),
        decreases state.floors.len() - f,
    {
        match state.floors[f].core_index() {
            Some(r) => {
                proof {
                    let s = *state;
                    let c = choose|c: int|
                        0 <= c < s.floors.len() && floor_has_core(s.floors[c]) && forall|g: int|
                            0 <= g < c ==> !floor_has_core(#[trigger] s.floors[g]);
                    assert(floor_has_core(s.floors[f as int]));
                    assert(0 <= f < s.floors.len() && floor_has_core(s.floors[f as int]) && forall|g: int|
                        0 <= g < f ==> !floor_has_core(#[trigger] s.floors[g]));
                    if c < f {
                        assert(!floor_has_core(s.floors[c]));
                    }
                    if c > f {
                        assert(!floor_has_core(s.floors[f as int]));
                    }
                    let fl = s.floors[f as int];
                    let w = choose|w: int| fl.is_first_core(w);
                    assert(fl.is_first_core(r as int));
                    if w < r {
                        assert(fl.rooms[w].room_type != RoomType::Core);
                    }
                    if w > r {
                        assert(fl.rooms[r as int].room_type != RoomType::Core);
                    }
                }
                return Some((state.floors[f].number, state.floors[f].rooms[r].position));
            },
            None => {},
        }
        f = f + 1;
    }
    None
}

/// The realm musters its army once its fury has peaked (threat tier four),
/// provided no siege is under way and no ordinary raid is inside.
pub open spec fn siege_ready(s: GameState) -> bool {
    !s.siege_active && threat_tier_for(s.total_deaths as int) >= 4 && s.adventurer_parties.len() == 0
}

/// Has the realm's fury peaked, with the dungeon quiet enough for a siege?
pub fn siege_due(state: &GameState) -> (r: bool)
    ensures
        r == siege_ready(*state),
{
    !state.siege_active && state.threat_tier() >= 4 && state.adventurer_parties.len() == 0
}

/// One soldier of the realm's army as the dice drew it: identity, name,
/// class and race, with stats already scaled for the siege level.
pub struct Recruit {
    pub id: u64,
    pub name: String,
    pub class_name: String,
    pub race: String,
    pub stats: Stats,
}

/// The level of the realm's elite: deeper dungeons and more repelled sieges
/// draw stronger champions.
pub open spec fn siege_level_of(s: GameState) -> int {
    5 + s.total_floors + 2 * s.prestige
}

/// The level of the realm's elite (see `siege_level_of`).
pub fn siege_level(state: &GameState) -> (r: i32)
    requires
        i32::MIN <= siege_level_of(*state) <= i32::MAX,
    ensures
        r == siege_level_of(*state),
{
    (5 + state.total_floors as i64 + 2 * state.prestige as i64) as i32
}

/// `a` is recruit `r` marching at `level`: a dutiful champion of resolve 80,
/// whole and alive, carrying nothing yet.
pub open spec fn is_champion(a: Adventurer, r: Recruit, level: int) -> bool {
    &&& a.id == r.id
    &&& a.name@ == r.name@
    &&& a.class_name@ == r.class_name@
    &&& a.race@ == r.race@
    &&& a.drive == HeroDrive::Duty
    &&& a.resolve == 80
    &&& a.level == level
    &&& a.hp == r.stats.hp
    &&& a.max_hp == r.stats.hp
    &&& a.alive
    &&& a.experience == 0
    &&& a.gold == 0
    &&& a.scaled_stats == r.stats
    &&& a.conditions@.len() == 0
}

/// `h` is the ledger entry of recruit `r` entering at `level`: one delve, no
/// deeds yet, inside the dungeon.
pub open spec fn is_champion_record(h: HeroRecord, r: Recruit, level: int) -> bool {
    &&& h.id == r.id
    &&& h.name@ == r.name@
    &&& h.class_name@ == r.class_name@
    &&& h.race@ == r.race@
    &&& h.drive == HeroDrive::Duty
    &&& h.resolve == 80
    &&& h.level == level
    &&& h.experience == 0
    &&& h.delves == 1
    &&& h.kills == 0
    &&& h.gold_stolen == 0
    &&& h.escapes == 0
    &&& h.deepest_floor == 0
    &&& h.status == HeroStatus::Inside
    &&& h.death_floor == 0
    &&& h.death_day == 0
    &&& h.journal@.len() == 0
}

/// `p` is the siege party of `s` made of `recruits`: at the entrance of
/// the first floor, bound for the deepest, entered this hour, sieging.
pub open spec fn is_siege_party(
    p: AdventurerParty,
    s: GameState,
    recruits: Seq<Recruit>,
    party_id: u64,
    doctrine: ExpeditionDoctrine,
) -> bool {
    &&& p.id == party_id
    &&& p.members@.len() == recruits.len()
    &&& forall|k: int| 0 <= k < recruits.len() ==> is_champion(#[trigger] p.members@[k], recruits[k], siege_level_of(s))
    &&& p.current_floor == 1
    &&& p.current_room == 0
    &&& !p.retreating
    &&& p.casualties == 0
    &&& p.loot == 0
    &&& p.entry_time == s.hour
    &&& p.target_floor == s.default_build_floor()
    &&& p.snared_ticks == 0
    &&& !p.alarmed
    &&& p.sieging
    &&& p.prev_room == 0
    &&& p.doctrine == doctrine
}

/// At peak fury the realm musters its army for a siege on the core: when a
/// siege is due (see `siege_ready`) the recruits, drawn by the caller's dice,
/// enter the ledger and march as one sieging party under `party_id`; the
/// dungeon is thrown open and the siege announced. Returns whether the siege
/// was launched; otherwise nothing changes.
pub fn maybe_launch_siege(
    state: &mut GameState,
    recruits: Vec<Recruit>,
    party_id: u64,
    doctrine: ExpeditionDoctrine,
) -> (launched: bool)
    requires
        siege_ready(*old(state)) ==> i32::MIN <= siege_level_of(*old(state)) <= i32::MAX,
    ensures
        launched == siege_ready(*old(state)),
        !launched ==> *final(state) == *old(state),
        launched ==> {
            let s = *old(state);
            let n = s.known_adventurers@.len();
            &&& final(state).known_adventurers@.len() == n + recruits@.len()
            &&& final(state).known_adventurers@.subrange(0, n as int) == s.known_adventurers@
            &&& forall|k: int|
                0 <= k < recruits@.len() ==> is_champion_record(
                    #[trigger] final(state).known_adventurers@[n + k],
                    recruits@[k],
                    siege_level_of(s),
                )
            &&& final(state).adventurer_parties@.len() == s.adventurer_parties@.len() + 1
            &&& final(state).adventurer_parties@.drop_last() == s.adventurer_parties@
            &&& is_siege_party(final(state).adventurer_parties@.last(), s, recruits@, party_id, doctrine)
            &&& final(state).log@ == s.log@.push(LogEntry::SiegeBegins)
            &&& final(state).sounds@ == s.sounds@.push(SoundEvent::Siege)
            &&& *final(state) == (GameState {
                known_adventurers: final(state).known_adventurers,
                adventurer_parties: final(state).adventurer_parties,
                siege_active: true,
                status: DungeonStatus::Open,
                log: final(state).log,
                sounds: final(state).sounds,
                ..s
            })
        },
{
    if !siege_due(state) {
        return false;
    }
    let ghost s = *state;
    let level = siege_level(state);
    let target = state.deepest_floor_number();
    let mut members: Vec<Adventurer> = Vec::new();
    let mut i: usize = 0;
    while i < recruits.len()
        invariant
            0 <= i <= recruits@.len(),
            level == siege_level_of(s),
            state.known_adventurers@.len() == s.known_adventurers@.len() + i,
            state.known_adventurers@.subrange(0, s.known_adventurers@.len() as int) == s.known_adventurers@,
            forall|k: int|
                0 <= k < i ==> is_champion_record(
                    #[trigger] state.known_adventurers@[s.known_adventurers@.len() + k],
                    recruits@[k],
                    level as int,
                ),
            members@.len() == i,
            forall|k: int| 0 <= k < i ==> is_champion(#[trigger] members@[k], recruits@[k], level as int),
            *state == (GameState { known_adventurers: state.known_adventurers, ..s }),
        decreases recruits@.len() - i,
    {
        let r = &recruits[i];
        let ghost before = state.known_adventurers@;
        state.known_adventurers.push(
            HeroRecord {
                id: r.id,
                name: r.name.clone(),
                class_name: r.class_name.clone(),
                race: r.race.clone(),
                drive: HeroDrive::Duty,
                resolve: 80,
                level,
                experience: 0,
                delves: 1,
                kills: 0,
                gold_stolen: 0,
                escapes: 0,
                deepest_floor: 0,
                status: HeroStatus::Inside,
                death_floor: 0,
                death_day: 0,
                journal: Vec::new(),
            },
        );
        members.push(
            Adventurer {
                id: r.id,
                name: r.name.clone(),
                class_name: r.class_name.clone(),
                race: r.race.clone(),
                drive: HeroDrive::Duty,
                resolve: 80,
                level,
                hp: r.stats.hp,
                max_hp: r.stats.hp,
                alive: true,
                experience: 0,
                gold: 0,
                scaled_stats: r.stats,
                conditions: Vec::new(),
            },
        );
        proof {
            assert(state.known_adventurers@.subrange(0, s.known_adventurers@.len() as int) =~= before.subrange(
                0,
                s.known_adventurers@.len() as int,
            ));
        }
        i = i + 1;
    }
    let party = AdventurerParty {
        id: party_id,
        members,
        current_floor: 1,
        current_room: 0,
        retreating: false,
        casualties: 0,
        loot: 0,
        entry_time: state.hour,
        target_floor: target,
        snared_ticks: 0,
        alarmed: false,
        sieging: true,
        prev_room: 0,
        doctrine,
    };
    state.adventurer_parties.push(party);
    state.siege_active = true;
    state.status = DungeonStatus::Open;
    state.log.push(LogEntry::SiegeBegins);
    state.sounds.push(SoundEvent::Siege);
    proof {
        assert(state.adventurer_parties@.drop_last() =~= s.adventurer_parties@);
    }
    true
}

/// The dungeon once a siege is broken, before its milestones are checked.
pub open spec fn siege_broken(s: GameState) -> GameState {
    GameState {
        siege_active: false,
        prestige: (s.prestige + 1) as i32,
        core_max_hp: (s.core_max_hp + 150) as i32,
        core_hp: (s.core_max_hp + 150) as i32,
        max_mana: (s.max_mana + 100) as i32,
        total_deaths: 0,
        threat_warned: 0,
        ..s
    }
}

/// The counters a broken siege raises stay within `i32`.
pub open spec fn repel_safe(s: GameState) -> bool {
    &&& s.prestige < i32::MAX
    &&& s.core_max_hp <= i32::MAX - 150
    &&& s.max_mana <= i32::MAX - 100
}

/// `after` is `before` once its siege was broken (see `siege_broken`) and
/// the milestones it crossed were checked.
pub open spec fn siege_repelled(before: GameState, after: GameState) -> bool {
    let mid = siege_broken(before);
    let fresh = crate::milestones::newly_achieved(mid, crate::milestones::MILESTONE_COUNT as int);
    &&& crate::milestones::views(after.milestones@) == crate::milestones::views(
        before.milestones@,
    ) + fresh.map_values(|j: int| crate::milestones::milestone_id(j))
    &&& after.log@ == before.log@.push(
        LogEntry::SiegeBroken { prestige: (before.prestige + 1) as i32 },
    ) + crate::milestones::milestone_entries(fresh)
    &&& after.sounds@ == before.sounds@.push(SoundEvent::Prestige)
    &&& after == (GameState {
        milestones: after.milestones,
        log: after.log,
        sounds: after.sounds,
        ..mid
    })
}

/// The siege has been broken: grant a prestige, a permanent boon (a sturdier
/// heart, restored to full, and a wider mana reservoir), and reset the
/// realm's fury so the long game can continue. A broken siege can cross
/// prestige milestones, so they are checked.
pub fn repel_siege(state: &mut GameState)
    requires
        repel_safe(*old(state)),
    ensures
        siege_repelled(*old(state), *final(state)),
{
    state.siege_active = false;
    state.prestige = state.prestige + 1;
    state.core_max_hp = state.core_max_hp + 150;
    state.core_hp = state.core_max_hp;
    state.max_mana = state.max_mana + 100;
    state.total_deaths = 0;
    state.threat_warned = 0;
    state.log.push(LogEntry::SiegeBroken { prestige: state.prestige });
    state.sounds.push(SoundEvent::Prestige);
    let ghost pre = *state;
    check_milestones(state);
    proof {
        let mid = siege_broken(*old(state));
        assert(crate::milestones::newly_achieved(pre, crate::milestones::MILESTONE_COUNT as int)
            == crate::milestones::newly_achieved(mid, crate::milestones::MILESTONE_COUNT as int)) by {
            crate::milestones::lemma_newly_same(pre, mid, crate::milestones::MILESTONE_COUNT as int);
        }
    }
}



/// The summed attack of the living members among these invaders.
pub open spec fn alive_attack(ms: Seq<Adventurer>) -> int
    decreases ms.len(),
{
    if ms.len() == 0 {
        0
    } else {
        alive_attack(ms.drop_last()) + if ms.last().alive {
            ms.last().scaled_stats.attack as int
        } else {
            0
        }
    }
}

/// How hard the core bites back: harder the deeper and more prestigious the
/// dungeon is.
pub open spec fn core_bite(s: GameState) -> int {
    18 + s.total_floors * 8 + s.prestige * 12
}

/// How many of the first `k` invaders are alive.
pub open spec fn alive_before(ms: Seq<Adventurer>, k: int) -> int
    decreases k,
{
    if k <= 0 {
        0
    } else {
        alive_before(ms, k - 1) + if ms[k - 1].alive {
            1int
        } else {
            0int
        }
    }
}

/// The core's wards strike invader `k`: one of the first two living ones.
pub open spec fn ward_target(ms: Seq<Adventurer>, k: int) -> bool {
    ms[k].alive && alive_before(ms, k) < 2
}

/// An invader once the wards struck it for `bite`.
pub open spec fn warded(m: Adventurer, bite: int) -> Adventurer {
    if m.hp - bite <= 0 {
        Adventurer { hp: 0, alive: false, ..m }
    } else {
        Adventurer { hp: (m.hp - bite) as i32, ..m }
    }
}

/// The identities of the invaders among the first `n` that the wards strike
/// down, in order.
pub open spec fn ward_fallen(ms: Seq<Adventurer>, bite: int, n: int) -> Seq<u64>
    decreases n,
{
    if n <= 0 {
        Seq::empty()
    } else {
        let prior = ward_fallen(ms, bite, n - 1);
        if ward_target(ms, n - 1) && ms[n - 1].hp - bite <= 0 {
            prior.push(ms[n - 1].id)
        } else {
            prior
        }
    }
}

/// The ledger once these heroes, in order, were marked fallen.
pub open spec fn ledger_after(records: Seq<HeroRecord>, ids: Seq<u64>, floor: i32, day: i32) -> Seq<HeroRecord>
    decreases ids.len(),
{
    if ids.len() == 0 {
        records
    } else {
        crate::state::mark_fallen(ledger_after(records, ids.drop_last(), floor, day), ids.last(), floor, day)
    }
}

proof fn lemma_ward_fallen_bound(ms: Seq<Adventurer>, bite: int, n: int)
    requires
        0 <= n <= ms.len(),
    ensures
        ward_fallen(ms, bite, n).len() <= alive_before(ms, n),
        ward_fallen(ms, bite, n).len() <= 2,
    decreases n,
{
    if n > 0 {
        lemma_ward_fallen_bound(ms, bite, n - 1);
    }
}

/// Strike the first two living members of `party` for `bite`; the struck
/// down are counted as casualties. Returns who fell, in order.
fn ward_strike(party: &mut AdventurerParty, bite: i32) -> (fallen: Vec<u64>)
    requires
        bite >= 0,
        old(party).casualties <= i32::MAX - 2,
        forall|k: int|
            0 <= k < old(party).members.len() && ward_target(old(party).members@, k) ==> old(party).members[k].hp
                - bite >= i32::MIN,
    ensures
        ({
            let ms = old(party).members@;
            &&& final(party).members.len() == ms.len()
            &&& forall|k: int|
                0 <= k < ms.len() ==> #[trigger] final(party).members@[k] == if ward_target(ms, k) {
                    warded(ms[k], bite as int)
                } else {
                    ms[k]
                }
            &&& fallen@ == ward_fallen(ms, bite as int, ms.len() as int)
            &&& *final(party) == (AdventurerParty {
                members: final(party).members,
                casualties: (old(party).casualties + fallen@.len()) as i32,
                ..*old(party)
            })
        }),
{
    let ghost ms = party.members@;
    let ghost p0 = *party;
    let mut fallen: Vec<u64> = Vec::new();
    let mut strikes: usize = 0;
    let mut k: usize = 0;
    while k < party.members.len()
        invariant
            0 <= k <= party.members.len(),
            party.members.len() == ms.len(),
            bite >= 0,
            p0.casualties <= i32::MAX - 2,
            forall|j: int| 0 <= j < ms.len() && ward_target(ms, j) ==> ms[j].hp - bite >= i32::MIN,
            strikes == if alive_before(ms, k as int) < 2 { alive_before(ms, k as int) } else { 2 },
            forall|j: int|
                0 <= j < k ==> #[trigger] party.members@[j] == if ward_target(ms, j) {
                    warded(ms[j], bite as int)
                } else {
                    ms[j]
                },
            forall|j: int| k <= j < ms.len() ==> #[trigger] party.members@[j] == ms[j],
            fallen@ == ward_fallen(ms, bite as int, k as int),
            fallen@.len() <= 2,
            *party == (AdventurerParty {
                members: party.members,
                casualties: (p0.casualties + fallen@.len()) as i32,
                ..p0
            }),
        decreases ms.len() - k,
    {
        proof {
            lemma_ward_fallen_bound(ms, bite as int, k + 1);
        }
        if party.members[k].alive && strikes < 2 {
            proof {
                assert(party.members@[k as int] == ms[k as int]);
                assert(ward_target(ms, k as int));
            }
            strikes = strikes + 1;
            let hp = party.members[k].hp - bite;
            if hp <= 0 {
                party.members[k].hp = 0;
                party.members[k].alive = false;
                party.casualties = party.casualties + 1;
                fallen.push(party.members[k].id);
            } else {
                party.members[k].hp = hp;
            }
        }
        k = k + 1;
    }
    fallen
}

/// Every member of these invaders has fallen.
pub open spec fn all_fallen(ms: Seq<Adventurer>) -> bool {
    forall|k: int| 0 <= k < ms.len() ==> !(#[trigger] ms[k]).alive
}

fn party_spent(party: &AdventurerParty) -> (r: bool)
    ensures
        r == all_fallen(party.members@),
{
    let mut k: usize = 0;
    while k < party.members.len()
        invariant
            0 <= k <= party.members.len(),
            forall|j: int| 0 <= j < k ==> !(#[trigger] party.members@[j]).alive,
        decreases party.members.len() - k,
    {
        if party.members[k].alive {
            return false;
        }
        k = k + 1;
    }
    true
}

fn living_attack(party: &AdventurerParty) -> (r: i32)
    requires
        forall|n: int|
            0 <= n <= party.members.len() ==> i32::MIN <= #[trigger] alive_attack(party.members@.take(n))
                <= i32::MAX,
    ensures
        r == alive_attack(party.members@),
{
    let mut total: i32 = 0;
    let mut k: usize = 0;
    while k < party.members.len()
        invariant
            0 <= k <= party.members.len(),
            total == alive_attack(party.members@.take(k as int)),
            forall|n: int|
                0 <= n <= party.members.len() ==> i32::MIN <= #[trigger] alive_attack(party.members@.take(n))
                    <= i32::MAX,
        decreases party.members.len() - k,
    {
        proof {
            assert(party.members@.take(k + 1).drop_last() =~= party.members@.take(k as int));
            assert(i32::MIN <= alive_attack(party.members@.take(k + 1)) <= i32::MAX);
        }
        if party.members[k].alive {
            total = total + party.members[k].scaled_stats.attack;
        }
        k = k + 1;
    }
    proof {
        assert(party.members@.take(k as int) =~= party.members@);
    }
    total
}

/// The sizes an assault on the core is proved for: the party's attack, the
/// core's health and bite, the struck members' health and the casualty and
/// death counters all stay within `i32`.
pub open spec fn assault_safe(s: GameState, party_idx: usize) -> bool {
    &&& party_idx < s.adventurer_parties.len()
    &&& {
        let ms = s.adventurer_parties[party_idx as int].members@;
        &&& forall|n: int|
            0 <= n <= ms.len() ==> i32::MIN <= #[trigger] alive_attack(ms.take(n)) <= i32::MAX
        &&& i32::MIN <= s.core_hp - alive_attack(ms) <= i32::MAX
        &&& 0 <= s.total_floors <= 1_000_000
        &&& 0 <= s.prestige <= 1_000_000
        &&& forall|k: int|
            0 <= k < ms.len() && ward_target(ms, k) ==> ms[k].hp - core_bite(s) >= i32::MIN
        &&& s.adventurer_parties[party_idx as int].casualties <= i32::MAX - 2
        &&& s.total_deaths <= i32::MAX - 2
    }
}

/// Does the dungeon meet the sizes `repel_safe` asks of breaking a siege?
pub fn repel_allowed(state: &GameState) -> (r: bool)
    ensures
        r == repel_safe(*state),
{
    state.prestige < i32::MAX && state.core_max_hp <= i32::MAX - 150 && state.max_mana <= i32::MAX - 100
}

/// Does party `party_idx` meet the sizes `assault_safe` asks of an assault
/// on the core?
pub fn assault_allowed(state: &GameState, party_idx: usize) -> (r: bool)
    ensures
        r == assault_safe(*state, party_idx),
{
    if party_idx >= state.adventurer_parties.len() {
        return false;
    }
    let ghost ms = state.adventurer_parties[party_idx as int].members@;
    let members = &state.adventurer_parties[party_idx].members;
    let mut sum: i64 = 0;
    let mut i: usize = 0;
    proof {
        assert(ms.take(0) =~= Seq::<Adventurer>::empty());
    }
    while i < members.len()
        invariant
            ms == members@,
            party_idx < state.adventurer_parties.len(),
            ms == state.adventurer_parties@[party_idx as int].members@,
            0 <= i <= ms.len(),
            sum == alive_attack(ms.take(i as int)),
            forall|n: int| 0 <= n <= i ==> i32::MIN <= #[trigger] alive_attack(ms.take(n)) <= i32::MAX,
        decreases ms.len() - i,
    {
        proof {
            assert(ms.take(i + 1).drop_last() =~= ms.take(i as int));
            assert(ms.take(i + 1).last() == ms[i as int]);
        }
        let next: i64 = sum + if members[i].alive {
            members[i].scaled_stats.attack as i64
        } else {
            0
        };
        if next < i32::MIN as i64 || next > i32::MAX as i64 {
            proof {
                assert(!(i32::MIN <= alive_attack(ms.take(i + 1)) <= i32::MAX));
                assert(!assault_safe(*state, party_idx)) by {
                    if assault_safe(*state, party_idx) {
                        let n = i + 1;
                        assert(i32::MIN <= alive_attack(ms.take(n)) <= i32::MAX);
                    }
                }
            }
            return false;
        }
        sum = next;
        i = i + 1;
    }
    proof {
        assert(ms.take(i as int) =~= ms);
    }
    let left: i64 = state.core_hp as i64 - sum;
    if left < i32::MIN as i64 || left > i32::MAX as i64 {
        return false;
    }
    if !(0 <= state.total_floors && state.total_floors <= 1_000_000 && 0 <= state.prestige
        && state.prestige <= 1_000_000) {
        return false;
    }
    let bite: i64 = 18 + state.total_floors as i64 * 8 + state.prestige as i64 * 12;
    let mut seen_alive: i64 = 0;
    let mut k: usize = 0;
    while k < members.len()
        invariant
            ms == members@,
            party_idx < state.adventurer_parties.len(),
            ms == state.adventurer_parties@[party_idx as int].members@,
            0 <= k <= ms.len(),
            bite == core_bite(*state),
            seen_alive == if alive_before(ms, k as int) < 2 { alive_before(ms, k as int) } else { 2 },
            forall|j: int| 0 <= j < k && ward_target(ms, j) ==> ms[j].hp - core_bite(*state) >= i32::MIN,
        decreases ms.len() - k,
    {
        if members[k].alive && seen_alive < 2 {
            if (members[k].hp as i64) - bite < i32::MIN as i64 {
                proof {
                    assert(ward_target(ms, k as int));
                    assert(!assault_safe(*state, party_idx)) by {
                        if assault_safe(*state, party_idx) {
                            assert(ms[k as int].hp - core_bite(*state) >= i32::MIN);
                        }
                    }
                }
                return false;
            }
        }
        if members[k].alive && seen_alive < 2 {
            seen_alive = seen_alive + 1;
        }
        k = k + 1;
    }
    state.adventurer_parties[party_idx].casualties <= i32::MAX - 2 && state.total_deaths <= i32::MAX - 2
}

/// `after` is the dungeon once party `party_idx` of `before` assaulted the
/// core, the assault reporting `spent`: the party batters the heart with the
/// attack of its living members; should the heart fall, the game is over.
/// Otherwise the wards strike the first two living assailants, the fallen
/// enter the ledger, and a spent party turns to retreat.
pub open spec fn assault_outcome(before: GameState, party_idx: usize, after: GameState, spent: bool) -> bool {
    let s = before;
    let p = s.adventurer_parties[party_idx as int];
    let ms = p.members@;
    let hp = s.core_hp - alive_attack(ms);
    let bite = core_bite(s);
    let fallen = ward_fallen(ms, bite, ms.len() as int);
    let q = after.adventurer_parties[party_idx as int];
    if hp <= 0 {
        &&& spent
        &&& after == (GameState {
            core_hp: 0,
            game_over: true,
            log: after.log,
            ..s
        })
        &&& after.log@ == s.log@.push(LogEntry::CoreFallen)
    } else {
        &&& after.adventurer_parties.len() == s.adventurer_parties.len()
        &&& forall|j: int|
            0 <= j < s.adventurer_parties.len() && j != party_idx ==> #[trigger] after.adventurer_parties[j]
                == s.adventurer_parties[j]
        &&& q.members.len() == ms.len()
        &&& forall|k: int|
            0 <= k < ms.len() ==> #[trigger] q.members@[k] == if ward_target(ms, k) {
                warded(ms[k], bite)
            } else {
                ms[k]
            }
        &&& spent == all_fallen(q.members@)
        &&& q == (AdventurerParty {
            members: q.members,
            casualties: (p.casualties + fallen.len()) as i32,
            retreating: p.retreating || spent,
            ..p
        })
        &&& after.known_adventurers@ == ledger_after(
            s.known_adventurers@,
            fallen,
            p.current_floor,
            s.day,
        )
        &&& after.log@ == s.log@.push(
            LogEntry::CoreDamaged { damage: alive_attack(ms) as i32, hp: hp as i32, max_hp: s.core_max_hp },
        ) + fallen.map_values(|id: u64| LogEntry::WardsStruckDown { hero: id })
        &&& after.sounds@ == s.sounds@.push(SoundEvent::CoreDamage)
        &&& after == (GameState {
            core_hp: hp as i32,
            total_deaths: (s.total_deaths + fallen.len()) as i32,
            adventurer_parties: after.adventurer_parties,
            known_adventurers: after.known_adventurers,
            log: after.log,
            sounds: after.sounds,
            ..s
        })
    }
}

/// A besieging party has reached the core. The party batters the heart with
/// the attack of its living members; should the heart fall, the game is
/// over. Otherwise the core's wards strike the first two living assailants
/// (harder the deeper and more prestigious the dungeon), and the fallen are
/// entered in the ledger. Returns whether the party is spent (repelled, and
/// then retreating), or the core fell.
pub fn assault_core(state: &mut GameState, party_idx: usize) -> (spent: bool)
    requires
        assault_safe(*old(state), party_idx),
    ensures
        assault_outcome(*old(state), party_idx, *final(state), spent),

{
    let attack = living_attack(&state.adventurer_parties[party_idx]);
    let hp = state.core_hp - attack;
    if hp <= 0 {
        state.core_hp = 0;
        state.game_over = true;
        state.log.push(LogEntry::CoreFallen);
        return true;
    }
    state.core_hp = hp;
    state.log.push(LogEntry::CoreDamaged { damage: attack, hp, max_hp: state.core_max_hp });
    state.sounds.push(SoundEvent::CoreDamage);
    let bite = 18 + state.total_floors * 8 + state.prestige * 12;
    let floor = state.adventurer_parties[party_idx].current_floor;
    let ghost s1 = *state;
    let fallen = ward_strike(&mut state.adventurer_parties[party_idx], bite);
    proof {
        lemma_ward_fallen_bound(
            old(state).adventurer_parties[party_idx as int].members@,
            bite as int,
            old(state).adventurer_parties[party_idx as int].members@.len() as int,
        );
    }
    let ghost s2 = *state;
    let mut d: usize = 0;
    while d < fallen.len()
        invariant
            0 <= d <= fallen@.len(),
            fallen@.len() <= 2,
            state.known_adventurers@ == ledger_after(s2.known_adventurers@, fallen@.take(d as int), floor, s2.day),
            state.total_deaths == s2.total_deaths + d,
            s2.total_deaths <= i32::MAX - 2,
            state.log@ == s2.log@ + fallen@.take(d as int).map_values(
                |id: u64| LogEntry::WardsStruckDown { hero: id },
            ),
            *state == (GameState {
                known_adventurers: state.known_adventurers,
                total_deaths: state.total_deaths,
                log: state.log,
                ..s2
            }),
        decreases fallen@.len() - d,
    {
        proof {
            assert(fallen@.take(d + 1).drop_last() =~= fallen@.take(d as int));
            assert(fallen@.take(d + 1).map_values(|id: u64| LogEntry::WardsStruckDown { hero: id })
                =~= fallen@.take(d as int).map_values(|id: u64| LogEntry::WardsStruckDown { hero: id }).push(
                LogEntry::WardsStruckDown { hero: fallen@[d as int] },
            ));
        }
        let id = fallen[d];
        state.record_hero_death(id, floor);
        state.total_deaths = state.total_deaths + 1;
        state.log.push(LogEntry::WardsStruckDown { hero: id });
        d = d + 1;
    }
    proof {
        assert(fallen@.take(d as int) =~= fallen@);
    }
    let spent = party_spent(&state.adventurer_parties[party_idx]);
    if spent {
        state.adventurer_parties[party_idx].retreating = true;
    }
    spent
}

/// Only the living batter the Core: taking any one member out of a party
/// lowers its summed attack by exactly that member's attack when they are
/// alive, and leaves it as it was when they have fallen.
pub proof fn law_only_the_living_strike(ms: Seq<Adventurer>, i: int)
    requires
        0 <= i < ms.len(),
    ensures
        alive_attack(ms) == alive_attack(ms.remove(i)) + if ms[i].alive {
            ms[i].scaled_stats.attack as int
        } else {
            0
        },
    decreases ms.len(),
{
    if i == ms.len() - 1 {
        assert(ms.remove(i) =~= ms.drop_last());
    } else {
        law_only_the_living_strike(ms.drop_last(), i);
        assert(ms.drop_last().remove(i) =~= ms.remove(i).drop_last());
        assert(ms.remove(i).last() == ms.last());
    }
}

/// A party with no one standing batters the Core with nothing.
pub proof fn law_the_fallen_strike_nothing(ms: Seq<Adventurer>)
    requires
        all_fallen(ms),
    ensures
        alive_attack(ms) == 0,
    decreases ms.len(),
{
    if ms.len() > 0 {
        assert(!ms[ms.len() - 1].alive);
        law_the_fallen_strike_nothing(ms.drop_last());
    }
}

} // verus!
