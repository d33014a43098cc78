//! Dungeon-keeper simulation core: the dungeon model, its economy, building,
//! monster management, party pathing and the prestige loop, each with a
//! contract proved by Verus.

pub mod state;
pub mod catalog;
pub mod rules;
pub mod economy;
pub mod pathing;
pub mod rooms;
pub mod monsters;
pub mod milestones;
pub mod endgame;
pub mod time;
pub mod adventure;
pub mod combat;
pub mod battle;
pub mod spawning;
pub mod traps;
pub mod layout;
pub mod navigation;
pub mod hud;
pub mod sprites;
pub mod tooltip;
pub mod messages;
