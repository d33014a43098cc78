use dungeon_core::catalog::{Catalog, MonsterTemplate};
use dungeon_core::sprites::{adventurer_frame, monster_frame};

fn template(name: &str, species: &str) -> MonsterTemplate {
    MonsterTemplate {
        name: name.to_string(),
        species: species.to_string(),
        element: None,
        boss_only: false,
        base_cost: 10,
        souls_cost: 0,
        hp: 30,
        attack: 5,
        defense: 2,
        tier: 1,
        undead: false,
        starter: true,
        traits: Vec::new(),
    }
}

#[test]
fn a_monster_is_drawn_by_its_species_row() {
    let cat = Catalog {
        monsters: vec![
            template("Goblin", "Goblinoid"),
            template("Hobgoblin", "Goblinoid"),
            template("Wolf", "Beast"),
            template("Imp", "Demon"),
            template("Wyrmling", "Draconic"),
            template("Oddity", "Fungus"),
        ],
        species: Vec::new(),
        evolutions: Vec::new(),
        traits: Vec::new(),
        upgrades: Vec::new(),
        classes: Vec::new(),
    };
    assert_eq!(monster_frame(&cat, "Goblin"), Some(0));
    assert_eq!(monster_frame(&cat, "Hobgoblin"), Some(0));
    assert_eq!(monster_frame(&cat, "Wolf"), Some(5));
    assert_eq!(monster_frame(&cat, "Imp"), monster_frame(&cat, "Wyrmling"));
    assert_eq!(monster_frame(&cat, "Oddity"), None);
    assert_eq!(monster_frame(&cat, "Dragon"), None);
}

#[test]
fn each_class_has_its_own_row() {
    let rows: Vec<Option<usize>> = ["Warrior", "Rogue", "Mage", "Cleric", "Paladin", "Alchemist", "Ranger"]
        .iter()
        .map(|c| adventurer_frame(c))
        .collect();
    assert_eq!(rows, vec![Some(8), Some(9), Some(10), Some(11), Some(12), Some(13), Some(15)]);
    assert_eq!(adventurer_frame("Bard"), None);
}
