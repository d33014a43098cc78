//! The game's data tables: monster templates, species, evolution paths,
//! traits and room upgrades. Every lookup finds the first entry of a name.

use vstd::prelude::*;

verus! {

/// Everything the dungeon needs to know to summon one kind of monster.
pub struct MonsterTemplate {
    pub name: String,
    pub species: String,
    pub element: Option<String>,
    pub boss_only: bool,
    pub base_cost: i32,
    pub souls_cost: i32,
    pub hp: i32,
    pub attack: i32,
    pub defense: i32,
    pub tier: i32,
    pub undead: bool,
    /// Summonable as soon as its species is unlocked.
    pub starter: bool,
    pub traits: Vec<String>,
}

/// A monster species the keeper can unlock.
pub struct SpeciesData {
    pub name: String,
    pub display_name: String,
    pub starter: bool,
    pub unlock_cost: i32,
    /// The form granted when a species with no starter templates is unlocked.
    pub starting_monster: Option<String>,
}

/// One step along a monster line.
pub struct EvolutionPath {
    pub from_monster: String,
    pub to_monster: String,
    pub experience_required: i32,
    pub min_floor: i32,
    pub gold_cost: i32,
}

/// A monster trait. `trait_type` is "Passive" or "Active"; `effect_type`
/// names what it does (such as "Taunt"); `hourly_heal_percent` is the share
/// of maximum health an hourly healing trait restores (zero for every other
/// trait).
pub struct TraitDef {
    pub id: String,
    pub name: String,
    pub trait_type: String,
    pub effect_type: String,
    pub hourly_heal_percent: i32,
}

/// An adventurer class and the element its attacks carry (empty: neutral).
pub struct AdventurerClass {
    pub name: String,
    pub element: String,
}

/// A room upgrade as sold in the build menu.
pub struct UpgradeTemplate {
    pub name: String,
    pub mana_cost: i32,
    /// What a trap of this kind does when it springs: "Poison", "Burn",
    /// "Snare", "Alarm", "ManaSiphon", "GoldSteal" or "Damage" (any other
    /// kind deals damage too).
    pub effect_kind: String,
}

/// All game data tables.
pub struct Catalog {
    pub monsters: Vec<MonsterTemplate>,
    pub species: Vec<SpeciesData>,
    pub evolutions: Vec<EvolutionPath>,
    pub traits: Vec<TraitDef>,
    pub upgrades: Vec<UpgradeTemplate>,
    pub classes: Vec<AdventurerClass>,
}

/// Upper bound on any price, stat or threshold in the tables.
pub const DATA_LIMIT: i32 = 10_000;

impl MonsterTemplate {
    /// Prices and stats stay within the data limit.
    pub open spec fn wf(self) -> bool {
        &&& 0 <= self.base_cost <= DATA_LIMIT
        &&& 0 <= self.souls_cost <= DATA_LIMIT
        &&& 0 <= self.hp <= DATA_LIMIT
        &&& 0 <= self.attack <= DATA_LIMIT
        &&& 0 <= self.defense <= DATA_LIMIT
    }
}

impl Catalog {
    /// Every table entry stays within the data limit.
    pub open spec fn wf(self) -> bool {
        &&& forall|i: int| 0 <= i < self.monsters.len() ==> #[trigger] self.monsters[i].wf()
        &&& forall|i: int|
            0 <= i < self.species.len() ==> 0 <= #[trigger] self.species[i].unlock_cost
                <= DATA_LIMIT
        &&& forall|i: int|
            0 <= i < self.evolutions.len() ==> 0 <= #[trigger] self.evolutions[i].gold_cost
                <= DATA_LIMIT
        &&& forall|i: int|
            0 <= i < self.upgrades.len() ==> 0 <= #[trigger] self.upgrades[i].mana_cost
                <= DATA_LIMIT
        &&& forall|i: int|
            0 <= i < self.traits.len() ==> 0 <= #[trigger] self.traits[i].hourly_heal_percent
                <= 100
    }

    /// `i` is the first monster template called `name`.
    pub open spec fn is_first_monster(self, name: Seq<char>, i: int) -> bool {
        &&& 0 <= i < self.monsters.len()
        &&& self.monsters[i].name@ == name
        &&& forall|j: int| 0 <= j < i ==> self.monsters[j].name@ != name
    }

    /// Some monster template is called `name`.
    pub open spec fn has_monster(self, name: Seq<char>) -> bool {
        exists|i: int| 0 <= i < self.monsters.len() && self.monsters[i].name@ == name
    }

    /// The template a name resolves to (meaningful when `has_monster(name)`).
    pub open spec fn monster_of(self, name: Seq<char>) -> MonsterTemplate {
        self.monsters[choose|i: int| self.is_first_monster(name, i)]
    }

    /// Index of the template called `name`, if any.
    pub fn monster_index(&self, name: &str) -> (r: Option<usize>)
        ensures
            r is Some <==> self.has_monster(name@),
            r is Some ==> self.is_first_monster(name@, r->0 as int) && self.monster_of(name@)
                == self.monsters[r->0 as int],
    {
        let key = name.to_owned();
        let mut i: usize = 0;
        while i < self.monsters.len()
            invariant
                0 <= i <= self.monsters.len(),
                key@ == name@,
                forall|j: int| 0 <= j < i ==> self.monsters[j].name@ != name@,
            decreases self.monsters.len() - i,
        {
            if self.monsters[i].name == key {
                proof {
                    let k = choose|k: int| self.is_first_monster(name@, k);
                    assert(self.is_first_monster(name@, i as int));
                    if k != i {
                        assert(self.is_first_monster(name@, k));
                        if k < i {
                            assert(self.monsters[k].name@ != name@);
                        } else {
                            assert(self.monsters[i as int].name@ != name@);
                        }
                    }
                }
                return Some(i);
            }
            i = i + 1;
        }
        None
    }

    /// The template called `name`, if any.
    pub fn get_monster_template(&self, name: &str) -> (r: Option<&MonsterTemplate>)
        ensures
            r is Some <==> self.has_monster(name@),
            r is Some ==> *r->0 == self.monster_of(name@),
    {
        match self.monster_index(name) {
            Some(i) => Some(&self.monsters[i]),
            None => None,
        }
    }
}

impl Catalog {
    /// `i` is the first species called `name`.
    pub open spec fn is_first_species(self, name: Seq<char>, i: int) -> bool {
        &&& 0 <= i < self.species.len()
        &&& self.species[i].name@ == name
        &&& forall|j: int| 0 <= j < i ==> self.species[j].name@ != name
    }

    /// Some species is called `name`.
    pub open spec fn has_species(self, name: Seq<char>) -> bool {
        exists|i: int| 0 <= i < self.species.len() && self.species[i].name@ == name
    }

    /// The species a name resolves to (meaningful when `has_species(name)`).
    pub open spec fn species_of(self, name: Seq<char>) -> SpeciesData {
        self.species[choose|i: int| self.is_first_species(name, i)]
    }

    /// Index of the species called `name`, if any.
    pub fn species_index(&self, name: &str) -> (r: Option<usize>)
        ensures
            r is Some <==> self.has_species(name@),
            r is Some ==> self.is_first_species(name@, r->0 as int) && self.species_of(name@)
                == self.species[r->0 as int],
    {
        let key = name.to_owned();
        let mut i: usize = 0;
        while i < self.species.len()
            invariant
                0 <= i <= self.species.len(),
                key@ == name@,
                forall|j: int| 0 <= j < i ==> self.species[j].name@ != name@,
            decreases self.species.len() - i,
        {
            if self.species[i].name == key {
                proof {
                    let k = choose|k: int| self.is_first_species(name@, k);
                    assert(self.is_first_species(name@, i as int));
                    if k != i {
                        assert(self.is_first_species(name@, k));
                        if k < i {
                            assert(self.species[k].name@ != name@);
                        } else {
                            assert(self.species[i as int].name@ != name@);
                        }
                    }
                }
                return Some(i);
            }
            i = i + 1;
        }
        None
    }
}

impl Catalog {
    /// The share of maximum health (in percent) trait `id` restores every
    /// hour: its entry's value, or nothing when the table has no such trait.
    pub open spec fn heal_percent(self, id: Seq<char>) -> int {
        if exists|i: int| 0 <= i < self.traits.len() && self.traits[i].id@ == id {
            self.traits[choose|i: int|
                0 <= i < self.traits.len() && self.traits[i].id@ == id && forall|j: int|
                    0 <= j < i ==> self.traits[j].id@ != id].hourly_heal_percent as int
        } else {
            0
        }
    }

    /// The share of maximum health (in percent) trait `id` restores every hour.
    pub fn get_heal_percent(&self, id: &String) -> (r: i32)
        requires
            self.wf(),
        ensures
            r == self.heal_percent(id@),
            0 <= r <= 100,
    {
        let mut i: usize = 0;
        while i < self.traits.len()
            invariant
                self.wf(),
                0 <= i <= self.traits.len(),
                forall|j: int| 0 <= j < i ==> self.traits[j].id@ != id@,
            decreases self.traits.len() - i,
        {
            if self.traits[i].id == *id {
                proof {
                    let k = choose|k: int|
                        0 <= k < self.traits.len() && self.traits[k].id@ == id@ && forall|j: int|
                            0 <= j < k ==> self.traits[j].id@ != id@;
                    assert(0 <= i < self.traits.len() && self.traits[i as int].id@ == id@ && forall|j: int|
                            0 <= j < i ==> self.traits[j].id@ != id@);
                    if k < i {
                        assert(self.traits[k].id@ != id@);
                    }
                    if k > i {
                        assert(self.traits[i as int].id@ != id@);
                    }
                    assert(0 <= self.traits[i as int].hourly_heal_percent <= 100);
                }
                return self.traits[i].hourly_heal_percent;
            }
            i = i + 1;
        }
        0
    }
}

impl Catalog {
    /// `i` is the first evolution path from line `from` to form `to`.
    pub open spec fn is_first_path(self, from: Seq<char>, to: Seq<char>, i: int) -> bool {
        &&& 0 <= i < self.evolutions.len()
        &&& self.evolutions[i].from_monster@ == from
        &&& self.evolutions[i].to_monster@ == to
        &&& forall|j: int|
            0 <= j < i ==> !(self.evolutions[j].from_monster@ == from && self.evolutions[j].to_monster@ == to)
    }

    /// Form `to` is one step along an evolution path from line `from`.
    pub open spec fn has_path(self, from: Seq<char>, to: Seq<char>) -> bool {
        exists|i: int|
            0 <= i < self.evolutions.len() && self.evolutions[i].from_monster@ == from
                && self.evolutions[i].to_monster@ == to
    }

    /// The first evolution path from `from` to `to` (meaningful when
    /// `has_path(from, to)`).
    pub open spec fn path_of(self, from: Seq<char>, to: Seq<char>) -> EvolutionPath {
        self.evolutions[choose|i: int| self.is_first_path(from, to, i)]
    }

    /// Index of the first evolution path from `from` to `to`, if any.
    pub fn path_index(&self, from: &String, to: &str) -> (r: Option<usize>)
        ensures
            r is Some <==> self.has_path(from@, to@),
            r is Some ==> self.is_first_path(from@, to@, r->0 as int) && self.path_of(from@, to@)
                == self.evolutions[r->0 as int],
    {
        let key = to.to_owned();
        let mut i: usize = 0;
        while i < self.evolutions.len()
            invariant
                0 <= i <= self.evolutions.len(),
                key@ == to@,
                forall|j: int|
                    0 <= j < i ==> !(self.evolutions[j].from_monster@ == from@ && self.evolutions[j].to_monster@
                        == to@),
            decreases self.evolutions.len() - i,
        {
            if self.evolutions[i].from_monster == *from && self.evolutions[i].to_monster == key {
                proof {
                    let k = choose|k: int| self.is_first_path(from@, to@, k);
                    assert(self.is_first_path(from@, to@, i as int));
                    if k != i {
                        assert(self.is_first_path(from@, to@, k));
                        if k < i {
                            assert(!(self.evolutions[k].from_monster@ == from@
                                && self.evolutions[k].to_monster@ == to@));
                        } else {
                            assert(!(self.evolutions[i as int].from_monster@ == from@
                                && self.evolutions[i as int].to_monster@ == to@));
                        }
                    }
                }
                return Some(i);
            }
            i = i + 1;
        }
        None
    }
}

/// Whenever some path leads from `from` to `to`, a first one does.
pub proof fn lemma_first_path_exists(cat: Catalog, from: Seq<char>, to: Seq<char>)
    requires
        cat.has_path(from, to),
    ensures
        cat.is_first_path(from, to, choose|i: int| cat.is_first_path(from, to, i)),
{
    let i = choose|i: int|
        0 <= i < cat.evolutions.len() && cat.evolutions[i].from_monster@ == from
            && cat.evolutions[i].to_monster@ == to;
    lemma_first_path_below(cat, from, to, i);
}

proof fn lemma_first_path_below(cat: Catalog, from: Seq<char>, to: Seq<char>, i: int)
    requires
        0 <= i < cat.evolutions.len(),
        cat.evolutions[i].from_monster@ == from,
        cat.evolutions[i].to_monster@ == to,
    ensures
        exists|c: int| cat.is_first_path(from, to, c),
    decreases i,
{
    if forall|j: int|
        0 <= j < i ==> !(cat.evolutions[j].from_monster@ == from && cat.evolutions[j].to_monster@ == to) {
        assert(cat.is_first_path(from, to, i));
    } else {
        let j = choose|j: int|
            0 <= j < i && cat.evolutions[j].from_monster@ == from && cat.evolutions[j].to_monster@ == to;
        lemma_first_path_below(cat, from, to, j);
    }
}

impl Catalog {
    /// Mana to re-arm a sprung trap called `name`: a quarter of its price in
    /// the build menu (nothing for an upgrade the table does not know).
    pub open spec fn rearm_cost(self, name: Seq<char>) -> int {
        if exists|i: int| 0 <= i < self.upgrades.len() && self.upgrades[i].name@ == name {
            self.upgrades[choose|i: int|
                0 <= i < self.upgrades.len() && self.upgrades[i].name@ == name && forall|j: int|
                    0 <= j < i ==> self.upgrades[j].name@ != name].mana_cost / 4
        } else {
            0
        }
    }

    /// Mana to re-arm a sprung trap called `name`.
    pub fn get_rearm_cost(&self, name: &String) -> (r: i32)
        requires
            self.wf(),
        ensures
            r == self.rearm_cost(name@),
            0 <= r <= DATA_LIMIT,
    {
        let mut i: usize = 0;
        while i < self.upgrades.len()
            invariant
                self.wf(),
                0 <= i <= self.upgrades.len(),
                forall|j: int| 0 <= j < i ==> self.upgrades[j].name@ != name@,
            decreases self.upgrades.len() - i,
        {
            if self.upgrades[i].name == *name {
                proof {
                    let k = choose|k: int|
                        0 <= k < self.upgrades.len() && self.upgrades[k].name@ == name@ && forall|j: int|
                            0 <= j < k ==> self.upgrades[j].name@ != name@;
                    assert(0 <= i < self.upgrades.len() && self.upgrades[i as int].name@ == name@
                        && forall|j: int| 0 <= j < i ==> self.upgrades[j].name@ != name@);
                    if k < i {
                        assert(self.upgrades[k].name@ != name@);
                    }
                    if k > i {
                        assert(self.upgrades[i as int].name@ != name@);
                    }
                    assert(0 <= self.upgrades[i as int].mana_cost <= DATA_LIMIT);
                }
                return self.upgrades[i].mana_cost / 4;
            }
            i = i + 1;
        }
        0
    }
}

impl Catalog {
    /// Does every table entry stay within the data limit?
    pub fn check(&self) -> (r: bool)
        ensures
            r == self.wf(),
    {
        let mut i: usize = 0;
        while i < self.monsters.len()
            invariant
                0 <= i <= self.monsters.len(),
                forall|j: int| 0 <= j < i ==> #[trigger] self.monsters[j].wf(),
            decreases self.monsters.len() - i,
        {
            let t = &self.monsters[i];
            if !(0 <= t.base_cost && t.base_cost <= DATA_LIMIT && 0 <= t.souls_cost && t.souls_cost <= DATA_LIMIT
                && 0 <= t.hp && t.hp <= DATA_LIMIT && 0 <= t.attack && t.attack <= DATA_LIMIT && 0 <= t.defense
                && t.defense <= DATA_LIMIT) {
                assert(!self.monsters[i as int].wf());
                return false;
            }
            i = i + 1;
        }
        let mut i: usize = 0;
        while i < self.species.len()
            invariant
                0 <= i <= self.species.len(),
                forall|j: int| 0 <= j < i ==> 0 <= #[trigger] self.species[j].unlock_cost <= DATA_LIMIT,
            decreases self.species.len() - i,
        {
            if !(0 <= self.species[i].unlock_cost && self.species[i].unlock_cost <= DATA_LIMIT) {
                assert(!(0 <= self.species[i as int].unlock_cost <= DATA_LIMIT));
                return false;
            }
            i = i + 1;
        }
        let mut i: usize = 0;
        while i < self.evolutions.len()
            invariant
                0 <= i <= self.evolutions.len(),
                forall|j: int| 0 <= j < i ==> 0 <= #[trigger] self.evolutions[j].gold_cost <= DATA_LIMIT,
            decreases self.evolutions.len() - i,
        {
            if !(0 <= self.evolutions[i].gold_cost && self.evolutions[i].gold_cost <= DATA_LIMIT) {
                assert(!(0 <= self.evolutions[i as int].gold_cost <= DATA_LIMIT));
                return false;
            }
            i = i + 1;
        }
        let mut i: usize = 0;
        while i < self.upgrades.len()
            invariant
                0 <= i <= self.upgrades.len(),
                forall|j: int| 0 <= j < i ==> 0 <= #[trigger] self.upgrades[j].mana_cost <= DATA_LIMIT,
            decreases self.upgrades.len() - i,
        {
            if !(0 <= self.upgrades[i].mana_cost && self.upgrades[i].mana_cost <= DATA_LIMIT) {
                assert(!(0 <= self.upgrades[i as int].mana_cost <= DATA_LIMIT));
                return false;
            }
            i = i + 1;
        }
        let mut i: usize = 0;
        while i < self.traits.len()
            invariant
                0 <= i <= self.traits.len(),
                forall|j: int| 0 <= j < i ==> 0 <= #[trigger] self.traits[j].hourly_heal_percent <= 100,
            decreases self.traits.len() - i,
        {
            if !(0 <= self.traits[i].hourly_heal_percent && self.traits[i].hourly_heal_percent <= 100) {
                assert(!(0 <= self.traits[i as int].hourly_heal_percent <= 100));
                return false;
            }
            i = i + 1;
        }
        true
    }
}

impl Catalog {
    /// `i` is the first trait with identity `id`.
    pub open spec fn is_first_trait(self, id: Seq<char>, i: int) -> bool {
        &&& 0 <= i < self.traits.len()
        &&& self.traits[i].id@ == id
        &&& forall|j: int| 0 <= j < i ==> self.traits[j].id@ != id
    }

    /// Some trait has identity `id`.
    pub open spec fn has_trait(self, id: Seq<char>) -> bool {
        exists|i: int| 0 <= i < self.traits.len() && self.traits[i].id@ == id
    }

    /// The trait an identity resolves to (meaningful when `has_trait(id)`).
    pub open spec fn trait_of(self, id: Seq<char>) -> TraitDef {
        self.traits[choose|i: int| self.is_first_trait(id, i)]
    }

    /// Index of the trait with identity `id`, if any.
    pub fn trait_index(&self, id: &String) -> (r: Option<usize>)
        ensures
            r is Some <==> self.has_trait(id@),
            r is Some ==> self.is_first_trait(id@, r->0 as int) && self.trait_of(id@) == self.traits[r->0 as int],
    {
        let mut i: usize = 0;
        while i < self.traits.len()
            invariant
                0 <= i <= self.traits.len(),
                forall|j: int| 0 <= j < i ==> self.traits[j].id@ != id@,
            decreases self.traits.len() - i,
        {
            if self.traits[i].id == *id {
                proof {
                    let k = choose|k: int| self.is_first_trait(id@, k);
                    assert(self.is_first_trait(id@, i as int));
                    if k != i {
                        assert(self.is_first_trait(id@, k));
                        if k < i {
                            assert(self.traits[k].id@ != id@);
                        } else {
                            assert(self.traits[i as int].id@ != id@);
                        }
                    }
                }
                return Some(i);
            }
            i = i + 1;
        }
        None
    }

    /// `i` is the first adventurer class called `name`.
    pub open spec fn is_first_class(self, name: Seq<char>, i: int) -> bool {
        &&& 0 <= i < self.classes.len()
        &&& self.classes[i].name@ == name
        &&& forall|j: int| 0 <= j < i ==> self.classes[j].name@ != name
    }

    /// Some adventurer class is called `name`.
    pub open spec fn has_class(self, name: Seq<char>) -> bool {
        exists|i: int| 0 <= i < self.classes.len() && self.classes[i].name@ == name
    }

    /// The class a name resolves to (meaningful when `has_class(name)`).
    pub open spec fn class_of(self, name: Seq<char>) -> AdventurerClass {
        self.classes[choose|i: int| self.is_first_class(name, i)]
    }

    /// Index of the adventurer class called `name`, if any.
    pub fn class_index(&self, name: &str) -> (r: Option<usize>)
        ensures
            r is Some <==> self.has_class(name@),
            r is Some ==> self.is_first_class(name@, r->0 as int) && self.class_of(name@) == self.classes[r->0 as int],
    {
        let key = name.to_owned();
        let mut i: usize = 0;
        while i < self.classes.len()
            invariant
                0 <= i <= self.classes.len(),
                key@ == name@,
                forall|j: int| 0 <= j < i ==> self.classes[j].name@ != name@,
            decreases self.classes.len() - i,
        {
            if self.classes[i].name == key {
                proof {
                    let k = choose|k: int| self.is_first_class(name@, k);
                    assert(self.is_first_class(name@, i as int));
                    if k != i {
                        assert(self.is_first_class(name@, k));
                        if k < i {
                            assert(self.classes[k].name@ != name@);
                        } else {
                            assert(self.classes[i as int].name@ != name@);
                        }
                    }
                }
                return Some(i);
            }
            i = i + 1;
        }
        None
    }
}

impl Catalog {
    /// `i` is the first upgrade template called `name`.
    pub open spec fn is_first_upgrade(self, name: Seq<char>, i: int) -> bool {
        &&& 0 <= i < self.upgrades.len()
        &&& self.upgrades[i].name@ == name
        &&& forall|j: int| 0 <= j < i ==> self.upgrades[j].name@ != name
    }

    /// Some upgrade template is called `name`.
    pub open spec fn has_upgrade(self, name: Seq<char>) -> bool {
        exists|i: int| 0 <= i < self.upgrades.len() && self.upgrades[i].name@ == name
    }

    /// The template a name resolves to (meaningful when `has_upgrade(name)`).
    pub open spec fn upgrade_of(self, name: Seq<char>) -> UpgradeTemplate {
        self.upgrades[choose|i: int| self.is_first_upgrade(name, i)]
    }

    /// Index of the upgrade template called `name`, if any.
    pub fn upgrade_index(&self, name: &String) -> (r: Option<usize>)
        ensures
            r is Some <==> self.has_upgrade(name@),
            r is Some ==> self.is_first_upgrade(name@, r->0 as int) && self.upgrade_of(name@) == self.upgrades[r->0 as int],
    {
        let mut i: usize = 0;
        while i < self.upgrades.len()
            invariant
                0 <= i <= self.upgrades.len(),
                forall|j: int| 0 <= j < i ==> self.upgrades[j].name@ != name@,
            decreases self.upgrades.len() - i,
        {
            if self.upgrades[i].name == *name {
                proof {
                    let k = choose|k: int| self.is_first_upgrade(name@, k);
                    assert(self.is_first_upgrade(name@, i as int));
                    if k != i {
                        assert(self.is_first_upgrade(name@, k));
                        if k < i {
                            assert(self.upgrades[k].name@ != name@);
                        } else {
                            assert(self.upgrades[i as int].name@ != name@);
                        }
                    }
                }
                return Some(i);
            }
            i = i + 1;
        }
        None
    }
}

/// Some of these strings reads `s`.
pub open spec fn names_contain(v: Seq<String>, s: Seq<char>) -> bool {
    exists|i: int| 0 <= i < v.len() && v[i]@ == s
}

/// Does any of these strings read `s`?
pub fn contains_name(v: &Vec<String>, s: &str) -> (r: bool)
    ensures
        r == names_contain(v@, s@),
{
    let key = s.to_owned();
    let mut i: usize = 0;
    while i < v.len()
        invariant
            0 <= i <= v.len(),
            key@ == s@,
            forall|j: int| 0 <= j < i ==> v@[j]@ != s@,
        decreases v.len() - i,
    {
        if v[i] == key {
            return true;
        }
        i = i + 1;
    }
    false
}

impl Catalog {
    /// The display name of trait `id`: its entry's name, or the id itself
    /// when the table has no such trait.
    pub open spec fn trait_name(self, id: Seq<char>) -> Seq<char> {
        if exists|i: int| 0 <= i < self.traits.len() && self.traits[i].id@ == id {
            self.traits[choose|i: int|
                0 <= i < self.traits.len() && self.traits[i].id@ == id && forall|j: int|
                    0 <= j < i ==> self.traits[j].id@ != id].name@
        } else {
            id
        }
    }

    /// The display name of trait `id`.
    pub fn get_trait_name(&self, id: &String) -> (r: String)
        ensures
            r@ == self.trait_name(id@),
    {
        let mut i: usize = 0;
        while i < self.traits.len()
            invariant
                0 <= i <= self.traits.len(),
                forall|j: int| 0 <= j < i ==> self.traits[j].id@ != id@,
            decreases self.traits.len() - i,
        {
            if self.traits[i].id == *id {
                proof {
                    let k = choose|k: int|
                        0 <= k < self.traits.len() && self.traits[k].id@ == id@ && forall|j: int|
                            0 <= j < k ==> self.traits[j].id@ != id@;
                    assert(0 <= i < self.traits.len() && self.traits[i as int].id@ == id@ && forall|j: int|
                            0 <= j < i ==> self.traits[j].id@ != id@);
                    if k < i {
                        assert(self.traits[k].id@ != id@);
                    }
                    if k > i {
                        assert(self.traits[i as int].id@ != id@);
                    }
                }
                return self.traits[i].name.clone();
            }
            i = i + 1;
        }
        id.clone()
    }
}

} // verus!
