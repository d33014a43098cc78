# dungeon_core

The simulation core of a dungeon-keeper game, written in Verus: the keeper
builds rooms and floors, places and evolves defenders, and parties of
adventurers raid the dungeon until the realm musters a siege on the core.
Every function in `src/` carries a contract that Verus proves.

## Layout

- `src/state.rs` — the game state: floors, rooms, defenders, parties, the
  hero ledger, the event log and sound cues.
- `src/catalog.rs` — the game's data tables (monster templates, species,
  evolution paths, traits, upgrades, adventurer classes).
- `src/rules.rs` — prices, capacities, stat scaling and threat tiers.
- `src/economy.rs` — channelling gold into mana.
- `src/rooms.rs` — building rooms, branches and floors; battle orders; the
  next-build preview.
- `src/pathing.rs` — distance to the core and how a party picks its exit.
- `src/monsters.rs` (with `fusion.rs` and `swap.rs`) — placing, dismissing,
  respawning, healing, fusing and swapping defenders; unlocking species and
  evolved forms.
- `src/adventure.rs` — expeditions: target depth, stepping, descending,
  leaving, and the ledger of escaped and fallen heroes.
- `src/combat.rs` — nerve and retreat, trap re-arming, targeting and element
  lookups.
- `src/battle.rs` — one combat tick: who strikes whom (taunters first, then
  the front defender; the most wounded hero in a cull room, else the one the
  caller's die draws), deaths, casualties, kill credits, stolen life, mana
  leech, loot, souls, the monster lines' experience and the retreat check.
  The caller supplies only the damage numbers and the dice.
- `src/traps.rs` — springing a room's trap, with the effect it was installed
  with, on the caller's dice.
- `src/spawning.rs` — when a new party may come and how it is formed from
  returning veterans and newcomers.
- `src/tooltip.rs` — the frame's one pending hover hint.
- `src/endgame.rs` — the core-power tree, sieges, assaults on the core.
- `src/milestones.rs` — prestige ranks and the milestone track.
- `src/time.rs` — the hourly clock, dungeon status and game speed.
- `src/layout.rs`, `src/navigation.rs`, `src/hud.rs`, `src/sprites.rs` —
  what the dungeon board shows: room layout, keyboard selection, top-bar
  alerts and sprite rows.
- `app/lib.rs` — game-loop glue the library leaves to its caller: the
  floating-point mana income, letting parties in on the caller's dice, the
  per-tick party driver that feeds the library's traps and fights the
  caller's dice and floating-point damage, and the thread's tooltip slot.
  The per-blow damage formula, the split of slain slimes, lingering
  afflictions and monster abilities are not implemented here: the caller
  supplies the damage, and the rest is not modelled.
- `tests/` — the tests, run against the compiled library.
