//! Player-driven economy sinks: channelling surplus gold into mana.

use vstd::prelude::*;
use crate::state::{DungeonError, GameState, LogEntry};

verus! {

/// Gold spent per Channel the Hoard transaction.
pub const GOLD_CHANNEL_COST: i32 = 100;
/// Mana granted per Channel the Hoard transaction (5:1, intentionally lossy).
pub const GOLD_CHANNEL_MANA: i32 = 20;

/// Channelling needs a full transaction's worth of gold and room below the cap.
pub open spec fn channel_allowed(state: &GameState) -> bool {
    state.gold >= GOLD_CHANNEL_COST && state.mana < state.max_mana
}

/// Can the player channel gold into mana right now?
pub fn can_channel_gold(state: &GameState) -> (r: bool)
    ensures
        r == channel_allowed(state),
{
    state.gold >= GOLD_CHANNEL_COST && state.mana < state.max_mana
}

/// Mana a channelling would actually add: the fixed grant, cut off at the cap.
pub open spec fn channel_gain(mana: int, max_mana: int) -> int {
    if mana + GOLD_CHANNEL_MANA <= max_mana {
        GOLD_CHANNEL_MANA as int
    } else {
        max_mana - mana
    }
}

/// Channel a fixed chunk of gold into mana (capped at max mana). Refused when
/// mana is already full, or, failing that, when the treasury is short.
pub fn channel_gold_to_mana(state: &mut GameState) -> (r: Result<(), DungeonError>)
    ensures
        r is Err <==> !channel_allowed(old(state)),
        old(state).mana >= old(state).max_mana ==> r == Err::<(), DungeonError>(DungeonError::ManaFull),
        old(state).mana < old(state).max_mana && old(state).gold < GOLD_CHANNEL_COST ==> r
            == Err::<(), DungeonError>(DungeonError::NotEnoughGold { need: GOLD_CHANNEL_COST }),
        r is Err ==> *final(state) == *old(state),
        r is Ok ==> {
            let gained = channel_gain(old(state).mana as int, old(state).max_mana as int);
            &&& final(state).log@ == old(state).log@.push(
                LogEntry::ManaChannelled { gold: GOLD_CHANNEL_COST, mana: gained as i32 },
            )
            &&& *final(state) == (GameState {
                gold: (old(state).gold - GOLD_CHANNEL_COST) as i32,
                mana: (old(state).mana + gained) as i32,
                log: final(state).log,
                ..*old(state)
            })
        },
{
    if state.mana >= state.max_mana {
        return Err(DungeonError::ManaFull);
    }
    if state.gold < GOLD_CHANNEL_COST {
        return Err(DungeonError::NotEnoughGold { need: GOLD_CHANNEL_COST });
    }
    state.gold = state.gold - GOLD_CHANNEL_COST;
    let before = state.mana;
    let topped: i64 = state.mana as i64 + GOLD_CHANNEL_MANA as i64;
    state.mana = if topped < state.max_mana as i64 { topped as i32 } else { state.max_mana };
    let gained = state.mana - before;
    state.log.push(LogEntry::ManaChannelled { gold: GOLD_CHANNEL_COST, mana: gained });
    Ok(())
}

} // verus!
