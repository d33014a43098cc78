//! Which row of the unit sprite sheet draws a unit: one recognizable body per
//! monster species (evolutions share their line's silhouette) and one per
//! adventurer class.

use vstd::prelude::*;
use crate::catalog::Catalog;

verus! {

/// The sheet row of a monster species, if the sheet draws it.
pub open spec fn species_frame(species: Seq<char>) -> Option<usize> {
    if species == "Goblinoid"@ {
        Some(0usize)
    } else if species == "Slime"@ {
        Some(2usize)
    } else if species == "Undead"@ {
        Some(3usize)
    } else if species == "Beast"@ {
        Some(5usize)
    } else if species == "Demon"@ {
        Some(6usize)
    } else if species == "Draconic"@ {
        Some(6usize)
    } else if species == "Elemental"@ {
        Some(2usize)
    } else if species == "Construct"@ {
        Some(1usize)
    } else {
        None
    }
}

/// The sheet row of an adventurer class, if the sheet draws it.
pub open spec fn class_frame(class_name: Seq<char>) -> Option<usize> {
    if class_name == "Warrior"@ {
        Some(8usize)
    } else if class_name == "Rogue"@ {
        Some(9usize)
    } else if class_name == "Mage"@ {
        Some(10usize)
    } else if class_name == "Cleric"@ {
        Some(11usize)
    } else if class_name == "Paladin"@ {
        Some(12usize)
    } else if class_name == "Alchemist"@ {
        Some(13usize)
    } else if class_name == "Ranger"@ {
        Some(15usize)
    } else {
        None
    }
}

fn frame_of_species(species: &String) -> (r: Option<usize>)
    ensures
        r == species_frame(species@),
{
    if *species == "Goblinoid".to_owned() {
        Some(0)
    } else if *species == "Slime".to_owned() {
        Some(2)
    } else if *species == "Undead".to_owned() {
        Some(3)
    } else if *species == "Beast".to_owned() {
        Some(5)
    } else if *species == "Demon".to_owned() {
        Some(6)
    } else if *species == "Draconic".to_owned() {
        Some(6)
    } else if *species == "Elemental".to_owned() {
        Some(2)
    } else if *species == "Construct".to_owned() {
        Some(1)
    } else {
        None
    }
}

/// The sheet row of a monster, by its template's species; none for an
/// unknown monster or a species the sheet does not draw.
pub fn monster_frame(cat: &Catalog, name: &str) -> (r: Option<usize>)
    ensures
        r == if cat.has_monster(name@) {
            species_frame(cat.monster_of(name@).species@)
        } else {
            None
        },
{
    match cat.get_monster_template(name) {
        Some(t) => frame_of_species(&t.species),
        None => None,
    }
}

/// The sheet row of an adventurer class; none for a class the sheet does
/// not draw.
pub fn adventurer_frame(class_name: &str) -> (r: Option<usize>)
    ensures
        r == class_frame(class_name@),
{
    let name = class_name.to_owned();
    if name == "Warrior".to_owned() {
        Some(8)
    } else if name == "Rogue".to_owned() {
        Some(9)
    } else if name == "Mage".to_owned() {
        Some(10)
    } else if name == "Cleric".to_owned() {
        Some(11)
    } else if name == "Paladin".to_owned() {
        Some(12)
    } else if name == "Alchemist".to_owned() {
        Some(13)
    } else if name == "Ranger".to_owned() {
        Some(15)
    } else {
        None
    }
}

} // verus!
