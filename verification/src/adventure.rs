//! Adventurer parties inside the dungeon: how deep an expedition means to go,
//! how a party steps from room to room, descends, assaults the core or
//! leaves, and how the ledger remembers those who escaped and those who fell.

use vstd::prelude::*;
use crate::catalog::Catalog;
use crate::endgame::{
    assault_allowed, assault_core, assault_outcome, assault_safe, repel_allowed, repel_safe, repel_siege,
    siege_repelled,
};
use crate::pathing::{beelining, choice_reason, choose_exit, exit_chosen, pathing_bounded, pathing_within};
use crate::state::Floor;
use crate::rules::threat_tier_for;
use crate::state::{
    clamp_add, fallen_view, is_first_record, is_first_view, ledger_views, Adventurer, AdventurerParty,
    GameState, HeroDrive, HeroRecord, HeroStatus, HeroView, JournalEntry, JournalEvent, LogEntry,
};

verus! {

/// The larger of a running maximum (if any) and `b`.
pub open spec fn max_opt(a: Option<int>, b: int) -> Option<int> {
    match a {
        None => Some(b),
        Some(x) => Some(if x >= b { x } else { b }),
    }
}

/// The highest level among the first `n` members, if there are any.
pub open spec fn top_level(ms: Seq<Adventurer>, n: int) -> Option<int>
    decreases n,
{
    if n <= 0 {
        None
    } else {
        max_opt(top_level(ms, n - 1), ms[n - 1].level as int)
    }
}

/// The ledger entry for hero `id`: the first one (meaningful when one exists).
pub open spec fn record_of(records: Seq<HeroRecord>, id: u64) -> HeroRecord {
    records[choose|c: int| is_first_record(records, id, c)]
}

/// The ledger has an entry for hero `id`.
pub open spec fn has_record(records: Seq<HeroRecord>, id: u64) -> bool {
    exists|c: int| 0 <= c < records.len() && records[c].id == id
}

/// The most delves any of the first `n` members who returns from the
/// ledger has made, if any of them returns.
pub open spec fn top_delves(records: Seq<HeroRecord>, ms: Seq<Adventurer>, n: int) -> Option<int>
    decreases n,
{
    if n <= 0 {
        None
    } else if has_record(records, ms[n - 1].id) {
        max_opt(top_delves(records, ms, n - 1), record_of(records, ms[n - 1].id).delves as int)
    } else {
        top_delves(records, ms, n - 1)
    }
}

/// Some member is driven by discovery.
pub open spec fn any_discovery(ms: Seq<Adventurer>) -> bool {
    exists|i: int| 0 <= i < ms.len() && ms[i].drive == HeroDrive::Discovery
}

/// `v` held within `lo..=hi` (`lo <= hi`).
pub open spec fn clamp(v: int, lo: int, hi: int) -> int {
    if v < lo {
        lo
    } else if v > hi {
        hi
    } else {
        v
    }
}

/// The smaller of two integers.
pub open spec fn min_of(a: int, b: int) -> int {
    if a <= b {
        a
    } else {
        b
    }
}

/// The larger of two integers.
pub open spec fn max_of(a: int, b: int) -> int {
    if a >= b {
        a
    } else {
        b
    }
}

/// How far an expedition of `ms` intends to delve: two floors, plus one for
/// every two levels its strongest member has past the first, one for every
/// two delves its most seasoned returning veteran has past the first, the
/// realm's threat tier, the keeper's prestige (counting at most two), and one
/// more when anyone seeks discovery; never above the dungeon's depth nor
/// above the first floor.
pub open spec fn expedition_depth(s: GameState, ms: Seq<Adventurer>) -> int {
    let available = max_of(s.total_floors as int, 1);
    let strongest = match top_level(ms, ms.len() as int) {
        Some(l) => l,
        None => 1,
    };
    let delves = match top_delves(s.known_adventurers@, ms, ms.len() as int) {
        Some(d) => d,
        None => 1,
    };
    let strength_depth = max_of(strongest - 1, 0) / 2;
    let veteran_depth = max_of(delves - 1, 0) / 2;
    let discovery = if any_discovery(ms) {
        1int
    } else {
        0int
    };
    clamp(
        2 + strength_depth + veteran_depth + threat_tier_for(s.total_deaths as int) + min_of(
            s.prestige as int,
            2,
        ) + discovery,
        1,
        available,
    )
}

/// The delves of the ledger's entry for hero `id`, if it has one.
fn delves_of(records: &Vec<HeroRecord>, id: u64) -> (r: Option<i32>)
    ensures
        r is Some <==> has_record(records@, id),
        r is Some ==> r->0 == record_of(records@, id).delves,
{
    let mut c: usize = 0;
    while c < records.len()
        invariant
            0 <= c <= records.len(),
            forall|j: int| 0 <= j < c ==> records@[j].id != id,
        decreases records.len() - c,
    {
        if records[c].id == id {
            proof {
                assert(is_first_record(records@, id, c as int));
                let w = choose|w: int| is_first_record(records@, id, w);
                if w < c {
                    assert(records@[w].id != id);
                }
                if w > c {
                    assert(records@[c as int].id != id);
                }
            }
            return Some(records[c].delves);
        }
        c = c + 1;
    }
    None
}

/// How far this expedition intends to delve. Strong heroes, returning
/// veterans, a frightened realm and the curious all push deeper; a fresh
/// low-level party still tests only the upper dungeon.
pub fn expedition_target_floor(state: &GameState, members: &[Adventurer]) -> (r: i32)
    ensures
        r == expedition_depth(*state, members@),
{
    let mut strongest: Option<i32> = None;
    let mut delves: Option<i32> = None;
    let mut discovery = false;
    let mut i: usize = 0;
    while i < members.len()
        invariant
            0 <= i <= members@.len(),
            match strongest {
                Some(l) => top_level(members@, i as int) == Some(l as int),
                None => top_level(members@, i as int) is None,
            },
            match delves {
                Some(d) => top_delves(state.known_adventurers@, members@, i as int) == Some(d as int),
                None => top_delves(state.known_adventurers@, members@, i as int) is None,
            },
            discovery == exists|j: int| 0 <= j < i && members@[j].drive == HeroDrive::Discovery,
        decreases members@.len() - i,
    {
        let level = members[i].level;
        strongest = match strongest {
            Some(l) => Some(if l >= level { l } else { level }),
            None => Some(level),
        };
        match delves_of(&state.known_adventurers, members[i].id) {
            Some(d) => {
                delves = match delves {
                    Some(x) => Some(if x >= d { x } else { d }),
                    None => Some(d),
                };
            },
            None => {},
        }
        if members[i].drive == HeroDrive::Discovery {
            discovery = true;
        }
        i = i + 1;
    }
    let available: i64 = if state.total_floors >= 1 { state.total_floors as i64 } else { 1 };
    let strongest: i64 = match strongest {
        Some(l) => l as i64,
        None => 1,
    };
    let delves: i64 = match delves {
        Some(d) => d as i64,
        None => 1,
    };
    let strength_depth: i64 = if strongest - 1 >= 0 { (strongest - 1) / 2 } else { 0 };
    let veteran_depth: i64 = if delves - 1 >= 0 { (delves - 1) / 2 } else { 0 };
    let prestige_pressure: i64 = if state.prestige <= 2 { state.prestige as i64 } else { 2 };
    let discovery_depth: i64 = if discovery { 1 } else { 0 };
    let depth: i64 = 2 + strength_depth + veteran_depth + state.threat_tier() as i64 + prestige_pressure
        + discovery_depth;
    if depth < 1 {
        1
    } else if depth > available {
        available as i32
    } else {
        depth as i32
    }
}


/// Mark the room at floor index `floor_idx`, room index `room_idx` explored
/// (nothing happens when no room stands there).
pub fn mark_room_explored(state: &mut GameState, floor_idx: usize, room_idx: usize)
    ensures
        floor_idx < old(state).floors.len() && room_idx < old(state).floors[floor_idx as int].rooms.len() ==> {
            let room = old(state).floors[floor_idx as int].rooms[room_idx as int];
            &&& final(state).floors@ == old(state).floors@.update(
                floor_idx as int,
                Floor {
                    rooms: final(state).floors[floor_idx as int].rooms,
                    ..old(state).floors[floor_idx as int]
                },
            )
            &&& final(state).floors[floor_idx as int].rooms@ == old(state).floors[floor_idx as int].rooms@.update(
                room_idx as int,
                crate::state::Room { explored: true, ..room },
            )
        },
        !(floor_idx < old(state).floors.len() && room_idx < old(state).floors[floor_idx as int].rooms.len())
            ==> final(state).floors == old(state).floors,
        *final(state) == (GameState { floors: final(state).floors, ..*old(state) }),
{
    if floor_idx < state.floors.len() && room_idx < state.floors[floor_idx].rooms.len() {
        state.floors[floor_idx].rooms[room_idx].explored = true;
        proof {
            assert(state.floors@ =~= old(state).floors@.update(
                floor_idx as int,
                Floor { rooms: state.floors[floor_idx as int].rooms, ..old(state).floors[floor_idx as int] },
            ));
            assert(state.floors[floor_idx as int].rooms@ =~= old(state).floors[floor_idx as int].rooms@.update(
                room_idx as int,
                crate::state::Room { explored: true, ..old(state).floors[floor_idx as int].rooms[room_idx as int] },
            ));
        }
    }
}

/// What a party's turn in its room comes to.
#[derive(Clone, Copy, Debug, PartialEq, Eq, Structural)]
pub enum PartyStep {
    /// No such party, it is retreating, or it stands nowhere the dungeon knows.
    Idle,
    /// Living defenders hold the room: a fight is due there.
    Fight { party_idx: usize, floor_idx: usize, room_idx: usize },
    /// The room is undefended: its trap springs on the passing party, which
    /// then moves on.
    Pass { party_idx: usize, floor_idx: usize, room_idx: usize },
}

/// `k` is the first party with identity `id`.
pub open spec fn is_first_party(s: GameState, id: u64, k: int) -> bool {
    &&& 0 <= k < s.adventurer_parties.len()
    &&& s.adventurer_parties[k].id == id
    &&& forall|j: int| 0 <= j < k ==> s.adventurer_parties[j].id != id
}

/// The step party `id` takes in `s`, and where.
pub open spec fn party_step_of(s: GameState, id: u64) -> PartyStep {
    if !exists|k: int| is_first_party(s, id, k) {
        PartyStep::Idle
    } else {
        let k = choose|k: int| is_first_party(s, id, k);
        let p = s.adventurer_parties[k];
        if p.retreating || !s.has_floor(p.current_floor) || !s.floors[s.floor_index(
            p.current_floor,
        )].has_room(p.current_room) {
            PartyStep::Idle
        } else {
            let fi = s.floor_index(p.current_floor);
            let ri = s.floors[fi].room_index(p.current_room);
            if exists|m: int|
                0 <= m < s.floors[fi].rooms[ri].monsters.len() && s.floors[fi].rooms[ri].monsters[m].alive {
                PartyStep::Fight { party_idx: k as usize, floor_idx: fi as usize, room_idx: ri as usize }
            } else {
                PartyStep::Pass { party_idx: k as usize, floor_idx: fi as usize, room_idx: ri as usize }
            }
        }
    }
}

/// Index of the first party with identity `id`, if any.
fn party_index(state: &GameState, id: u64) -> (r: Option<usize>)
    ensures
        r is Some <==> exists|k: int| is_first_party(*state, id, k),
        r is Some ==> is_first_party(*state, id, r->0 as int) && r->0 == choose|k: int|
            is_first_party(*state, id, k),
{
    let mut k: usize = 0;
    while k < state.adventurer_parties.len()
        invariant
            0 <= k <= state.adventurer_parties.len(),
            forall|j: int| 0 <= j < k ==> state.adventurer_parties[j].id != id,
        decreases state.adventurer_parties.len() - k,
    {
        if state.adventurer_parties[k].id == id {
            proof {
                assert(is_first_party(*state, id, k as int));
                let w = choose|w: int| is_first_party(*state, id, w);
                if w < k {
                    assert(state.adventurer_parties[w].id != id);
                }
                if w > k {
                    assert(state.adventurer_parties[k as int].id != id);
                }
            }
            return Some(k);
        }
        k = k + 1;
    }
    proof {
        assert forall|w: int| !is_first_party(*state, id, w) by {
            if is_first_party(*state, id, w) {
                assert(state.adventurer_parties[w].id != id);
            }
        }
    }
    None
}

/// Do living defenders hold the room?
fn room_defended(room: &crate::state::Room) -> (r: bool)
    ensures
        r == exists|m: int| 0 <= m < room.monsters.len() && room.monsters[m].alive,
{
    let mut m: usize = 0;
    while m < room.monsters.len()
        invariant
            0 <= m <= room.monsters.len(),
            forall|j: int| 0 <= j < m ==> !room.monsters[j].alive,
        decreases room.monsters.len() - m,
    {
        if room.monsters[m].alive {
            return true;
        }
        m = m + 1;
    }
    false
}

/// Take party `party_id`'s turn as far as the keeper's rules decide it: a
/// party that is not retreating marks the room it stands in explored, and
/// the step says whether a fight is due there or the party passes through.
pub fn process_single_party(state: &mut GameState, party_id: u64) -> (step: PartyStep)
    ensures
        step == party_step_of(*old(state), party_id),
        match step {
            PartyStep::Fight { floor_idx, room_idx, .. } | PartyStep::Pass { floor_idx, room_idx, .. } => {
                let room = old(state).floors[floor_idx as int].rooms[room_idx as int];
                &&& final(state).floors@ == old(state).floors@.update(
                    floor_idx as int,
                    Floor {
                        rooms: final(state).floors[floor_idx as int].rooms,
                        ..old(state).floors[floor_idx as int]
                    },
                )
                &&& final(state).floors[floor_idx as int].rooms@ == old(state).floors[floor_idx as int].rooms@.update(
                    room_idx as int,
                    crate::state::Room { explored: true, ..room },
                )
                &&& *final(state) == (GameState { floors: final(state).floors, ..*old(state) })
            },
            PartyStep::Idle => *final(state) == *old(state),
        },
{
    let k = match party_index(state, party_id) {
        Some(k) => k,
        None => return PartyStep::Idle,
    };
    if state.adventurer_parties[k].retreating {
        return PartyStep::Idle;
    }
    let fi = match state.floor_idx(state.adventurer_parties[k].current_floor) {
        Some(fi) => fi,
        None => return PartyStep::Idle,
    };
    let ri = match state.floors[fi].room_idx(state.adventurer_parties[k].current_room) {
        Some(ri) => ri,
        None => return PartyStep::Idle,
    };
    let defended = room_defended(&state.floors[fi].rooms[ri]);
    mark_room_explored(state, fi, ri);
    if defended {
        PartyStep::Fight { party_idx: k, floor_idx: fi, room_idx: ri }
    } else {
        PartyStep::Pass { party_idx: k, floor_idx: fi, room_idx: ri }
    }
}


/// The routes out of the room at `pos` of `floor` (none when no room stands
/// there).
pub open spec fn exits_at(floor: Floor, pos: usize) -> Seq<usize> {
    if floor.has_room(pos) {
        floor.room_of(pos).exits@
    } else {
        Seq::empty()
    }
}

/// The reason a party gives for its route.
pub open spec fn route_reason(s: GameState, p: AdventurerParty, exits: Seq<usize>) -> Seq<char> {
    if exits.len() <= 1 {
        "following the only route"@
    } else if beelining(s, p) {
        "beelining for the Core"@
    } else {
        "weighing loot, danger, and personal ambitions"@
    }
}

/// What `advance_party` may assume of the dungeon: the pathing sizes hold on
/// every floor, a sieging party may assault the core and break the siege,
/// and the dungeon can bank the party's loot.
pub open spec fn advance_safe(s: GameState, party_idx: usize) -> bool {
    let p = s.adventurer_parties[party_idx as int];
    &&& party_idx < s.adventurer_parties.len()
    &&& forall|f: int| 0 <= f < s.floors.len() ==> pathing_bounded(#[trigger] s.floors[f], p)
    &&& p.sieging ==> assault_safe(s, party_idx) && repel_safe(s)
    &&& i32::MIN <= s.gold + p.loot <= i32::MAX
}

/// Does moving party `party_idx` on stay within the sizes `advance_safe`
/// asks: the party exists, its pathing on every floor is bounded, a sieging
/// party can assault the core and the siege be broken, and its loot can be
/// banked?
pub fn advance_allowed(state: &GameState, party_idx: usize) -> (r: bool)
    ensures
        r == advance_safe(*state, party_idx),
{
    if party_idx >= state.adventurer_parties.len() {
        return false;
    }
    let party = &state.adventurer_parties[party_idx];
    let mut f: usize = 0;
    while f < state.floors.len()
        invariant
            party_idx < state.adventurer_parties.len(),
            *party == state.adventurer_parties@[party_idx as int],
            0 <= f <= state.floors.len(),
            forall|g: int| 0 <= g < f ==> pathing_bounded(#[trigger] state.floors@[g], *party),
        decreases state.floors.len() - f,
    {
        if !pathing_within(&state.floors[f], party) {
            return false;
        }
        f = f + 1;
    }
    if party.sieging && !(assault_allowed(state, party_idx) && repel_allowed(state)) {
        return false;
    }
    let banked: i64 = state.gold as i64 + party.loot as i64;
    i32::MIN as i64 <= banked && banked <= i32::MAX as i64
}

/// `t` is `s` once party `party_idx` moved on from its room. On a floor the
/// dungeon lacks nothing happens. From a room with routes out, the party
/// takes the route `exit_chosen` names and says why. At the Core sink, a
/// sieging party at its target depth assaults the core (and a spent siege,
/// the core standing, is broken); otherwise a party short of its target
/// descends to the next floor's entrance while the dungeon runs that deep,
/// and a party at its target leaves: the dungeon banks its loot.
pub open spec fn advance_outcome(s: GameState, party_idx: usize, t: GameState) -> bool {
    let p = s.adventurer_parties[party_idx as int];
    let floor = s.floors[s.floor_index(p.current_floor)];
    let exits = exits_at(floor, p.current_room);
    if !s.has_floor(p.current_floor) {
        t == s
    } else if exits.len() == 0 {
        if p.sieging && p.current_floor >= p.target_floor {
            exists|mid: GameState, spent: bool|
                #[trigger] assault_outcome(s, party_idx, mid, spent) && if spent && !mid.game_over {
                    siege_repelled(mid, t)
                } else {
                    t == mid
                }
        } else if p.current_floor < p.target_floor && p.current_floor < s.floors.len() {
            &&& t.adventurer_parties@ == s.adventurer_parties@.update(
                party_idx as int,
                AdventurerParty { current_floor: (p.current_floor + 1) as i32, current_room: 0, ..p },
            )
            &&& t.log@ == s.log@.push(LogEntry::PartyDescends { floor: (p.current_floor + 1) as i32 })
            &&& t == (GameState { adventurer_parties: t.adventurer_parties, log: t.log, ..s })
        } else {
            &&& t.adventurer_parties@ == s.adventurer_parties@.update(
                party_idx as int,
                AdventurerParty { retreating: true, ..p },
            )
            &&& t.log@ == s.log@.push(LogEntry::ExplorationComplete { loot: p.loot })
            &&& t == (GameState {
                gold: (s.gold + p.loot) as i32,
                adventurer_parties: t.adventurer_parties,
                log: t.log,
                ..s
            })
        }
    } else {
        let next = t.adventurer_parties[party_idx as int].current_room;
        &&& exit_chosen(s, floor, p, exits, next)
        &&& t.adventurer_parties@ == s.adventurer_parties@.update(
            party_idx as int,
            AdventurerParty { prev_room: p.current_room, current_room: next, ..p },
        )
        &&& t.log@.len() == s.log@.len() + 1
        &&& t.log@.drop_last() == s.log@
        &&& t.log@.last() matches LogEntry::PartyMoved { room, floor: at, reason }
            && room == next && at == p.current_floor && reason@ == route_reason(s, p, exits)
        &&& t == (GameState { adventurer_parties: t.adventurer_parties, log: t.log, ..s })
    }
}

/// Move party `party_idx` on from its room: along the route `choose_exit`
/// picks, or, at the Core sink, down to the next floor, against the core
/// itself (a siege), or out of the dungeon with its loot.
pub fn advance_party(state: &mut GameState, party_idx: usize)
    requires
        advance_safe(*old(state), party_idx),
    ensures
        advance_outcome(*old(state), party_idx, *final(state)),
{
    let current_floor = state.adventurer_parties[party_idx].current_floor;
    let current_room = state.adventurer_parties[party_idx].current_room;
    let target_floor = state.adventurer_parties[party_idx].target_floor;
    let fi = match state.floor_idx(current_floor) {
        Some(fi) => fi,
        None => return,
    };
    let exits: Vec<usize> = match state.floors[fi].room_at(current_room) {
        Some(room) => room.exits.clone(),
        None => Vec::new(),
    };
    proof {
        let floor = state.floors[fi as int];
        if floor.has_room(current_room) {
            assert(exits@ == floor.room_of(current_room).exits@);
        }
        assert(exits@ =~= exits_at(floor, current_room));
    }
    if exits.len() == 0 {
        if state.adventurer_parties[party_idx].sieging && current_floor >= target_floor {
            let ghost s0 = *state;
            let spent = assault_core(state, party_idx);
            let ghost mid = *state;
            if spent && !state.game_over {
                repel_siege(state);
            }
            proof {
                assert(assault_outcome(s0, party_idx, mid, spent));
            }
            return;
        }
        if current_floor < target_floor && (current_floor < 0 || (current_floor as usize)
            < state.floors.len()) {
            state.adventurer_parties[party_idx].current_floor = current_floor + 1;
            state.adventurer_parties[party_idx].current_room = 0;
            state.log.push(LogEntry::PartyDescends { floor: current_floor + 1 });
            proof {
                let p = old(state).adventurer_parties[party_idx as int];
                assert(state.adventurer_parties@ =~= old(state).adventurer_parties@.update(
                    party_idx as int,
                    AdventurerParty { current_floor: (p.current_floor + 1) as i32, current_room: 0, ..p },
                ));
            }
        } else {
            let loot = state.adventurer_parties[party_idx].loot;
            state.gold = state.gold + loot;
            state.adventurer_parties[party_idx].retreating = true;
            state.log.push(LogEntry::ExplorationComplete { loot });
            proof {
                let p = old(state).adventurer_parties[party_idx as int];
                assert(state.adventurer_parties@ =~= old(state).adventurer_parties@.update(
                    party_idx as int,
                    AdventurerParty { retreating: true, ..p },
                ));
            }
        }
        return;
    }
    let next = choose_exit(state, &state.floors[fi], &state.adventurer_parties[party_idx], exits.as_slice());
    let reason = choice_reason(state, &state.adventurer_parties[party_idx], exits.as_slice());
    state.adventurer_parties[party_idx].prev_room = current_room;
    state.adventurer_parties[party_idx].current_room = next;
    state.log.push(LogEntry::PartyMoved { room: next, floor: current_floor, reason });
    proof {
        let p = old(state).adventurer_parties[party_idx as int];
        assert(state.adventurer_parties@ =~= old(state).adventurer_parties@.update(
            party_idx as int,
            AdventurerParty { prev_room: p.current_room, current_room: next, ..p },
        ));
        assert(state.log@.drop_last() =~= old(state).log@);
    }
}


/// Experience a hero needs to grow past `level`.
pub open spec fn xp_for_level(level: int) -> int {
    50 * max_of(level, 1)
}

/// A hero's level and experience once every level its experience affords,
/// up to the tenth, has been taken.
pub open spec fn level_up(level: int, exp: int) -> (int, int)
    decreases 10 - level,
{
    if level < 10 && exp >= xp_for_level(level) {
        level_up(level + 1, exp - xp_for_level(level))
    } else {
        (level, exp)
    }
}

/// `x` rounded to the nearest integer after scaling by five quarters, halves
/// away from zero.
pub open spec fn five_quarters(x: int) -> int {
    if x >= 0 {
        (5 * x + 2) / 4
    } else {
        -((-5 * x + 2) / 4)
    }
}

/// `v` held within the range of an `i32`.
pub open spec fn clamp32(v: int) -> int {
    clamp(v, i32::MIN as int, i32::MAX as int)
}

/// Experience a hero with `delves` delves earns escaping from `floor`: deep
/// escapes teach far more, and the curious learn a quarter more again.
pub open spec fn escape_xp(delves: i32, drive: HeroDrive, floor: i32) -> int {
    let base = 15 + floor * 8 + delves * 3;
    clamp32(
        if drive == HeroDrive::Discovery {
            five_quarters(base)
        } else {
            base
        },
    )
}

/// A hero escaping from `floor` with `share` gold, at `hp` of `max_hp`, on
/// `day`: back among the living, one escape more, its deepest floor noted,
/// experience banked and levels taken, the gold counted; shaken (resolve
/// down by eight, to no less than twenty) when it crawled out with a quarter
/// of its health or less, emboldened (up by five, to no more than a hundred)
/// otherwise; and its journal tells of it.
pub open spec fn escaped_view(v: HeroView, floor: i32, share: i32, day: i32, hp: i32, max_hp: i32) -> HeroView {
    let xp = escape_xp(v.delves, v.drive, floor);
    let (level, exp) = level_up(v.level as int, clamp_add(v.experience as int, xp));
    let wounded = hp * 4 <= max_of(max_hp as int, 1);
    let j1 = v.journal.push(
        JournalEntry { day, event: JournalEvent::Escaped { floor, gold: share, experience: xp as i32 } },
    );
    let j2 = if wounded {
        j1.push(JournalEntry { day, event: JournalEvent::GrievouslyWounded })
    } else {
        j1
    };
    let j3 = if level > v.level {
        j2.push(JournalEntry { day, event: JournalEvent::ReachedLevel { level: level as i32 } })
    } else {
        j2
    };
    HeroView {
        status: HeroStatus::Alive,
        escapes: clamp_add(v.escapes as int, 1) as i32,
        deepest_floor: max_of(v.deepest_floor as int, floor as int) as i32,
        experience: exp as i32,
        level: level as i32,
        gold_stolen: clamp_add(v.gold_stolen as int, share as int) as i32,
        resolve: (if wounded {
            max_of(v.resolve - 8, 20)
        } else {
            min_of(v.resolve + 5, 100)
        }) as i32,
        journal: j3,
        ..v
    }
}

/// The ledger view with hero `id`'s escape entered.
pub open spec fn escape_view(views: Seq<HeroView>, id: u64, floor: i32, share: i32, day: i32, hp: i32, max_hp: i32) -> Seq<HeroView> {
    if exists|c: int| is_first_view(views, id, c) {
        let c = choose|c: int| is_first_view(views, id, c);
        views.update(c, escaped_view(views[c], floor, share, day, hp, max_hp))
    } else {
        views
    }
}

/// The ledger view once the first `n` members of a departing party were
/// settled in order: survivors escape with `share` gold each, the fallen are
/// entombed on `floor`.
pub open spec fn settle_ledger(views: Seq<HeroView>, ms: Seq<Adventurer>, floor: i32, share: i32, day: i32, n: int) -> Seq<HeroView>
    decreases n,
{
    if n <= 0 {
        views
    } else {
        let prior = settle_ledger(views, ms, floor, share, day, n - 1);
        let m = ms[n - 1];
        if m.alive {
            escape_view(prior, m.id, floor, share, day, m.hp, m.max_hp)
        } else {
            fallen_view(prior, m.id, floor, day)
        }
    }
}

/// Each survivor's share of a departing party's loot (everything, when no
/// one survived).
pub open spec fn loot_share(p: AdventurerParty) -> int {
    let survivors = crate::combat::living_count(p.members@, p.members.len() as int);
    crate::combat::trunc_div(p.loot as int, max_of(survivors, 1))
}

/// Enter the escape of hero `id` in the ledger.
fn escape_hero(records: &mut Vec<HeroRecord>, id: u64, floor: i32, share: i32, day: i32, hp: i32, max_hp: i32)
    ensures
        ledger_views(final(records)@) == escape_view(ledger_views(old(records)@), id, floor, share, day, hp, max_hp),
{
    let ghost views = ledger_views(records@);
    let mut c: usize = 0;
    while c < records.len()
        invariant
            0 <= c <= records.len(),
            *records == *old(records),
            views == ledger_views(old(records)@),
            forall|j: int| 0 <= j < c ==> records@[j].id != id,
        decreases records.len() - c,
    {
        if records[c].id == id {
            proof {
                assert(is_first_view(views, id, c as int)) by {
                    assert forall|j: int| 0 <= j < c implies views[j].id != id by {
                        assert(views[j] == records@[j]@);
                    }
                }
                let w = choose|w: int| is_first_view(views, id, w);
                if w < c {
                    assert(views[w].id != id);
                }
                if w > c {
                    assert(views[c as int].id != id);
                }
            }
            let ghost v = records@[c as int]@;
            let xp = escape_gain(records[c].delves, records[c].drive, floor);
            let level_before = records[c].level;
            let banked: i64 = records[c].experience as i64 + xp as i64;
            let banked: i32 = if banked > i32::MAX as i64 {
                i32::MAX
            } else if banked < i32::MIN as i64 {
                i32::MIN
            } else {
                banked as i32
            };
            let (level, exp) = take_levels(level_before, banked);
            let wounded = hp as i64 * 4 <= (if max_hp >= 1 { max_hp as i64 } else { 1 });
            let escapes: i32 = if records[c].escapes == i32::MAX { i32::MAX } else { records[c].escapes + 1 };
            let gold: i64 = records[c].gold_stolen as i64 + share as i64;
            let gold: i32 = if gold > i32::MAX as i64 {
                i32::MAX
            } else if gold < i32::MIN as i64 {
                i32::MIN
            } else {
                gold as i32
            };
            let resolve: i64 = records[c].resolve as i64;
            let resolve: i32 = if wounded {
                if resolve - 8 >= 20 { (resolve - 8) as i32 } else { 20 }
            } else {
                if resolve + 5 <= 100 { (resolve + 5) as i32 } else { 100 }
            };
            let deepest = if records[c].deepest_floor >= floor { records[c].deepest_floor } else { floor };
            records[c].status = HeroStatus::Alive;
            records[c].escapes = escapes;
            records[c].deepest_floor = deepest;
            records[c].experience = exp;
            records[c].level = level;
            records[c].gold_stolen = gold;
            records[c].resolve = resolve;
            records[c].journal.push(
                JournalEntry { day, event: JournalEvent::Escaped { floor, gold: share, experience: xp } },
            );
            if wounded {
                records[c].journal.push(JournalEntry { day, event: JournalEvent::GrievouslyWounded });
            }
            if level > level_before {
                records[c].journal.push(JournalEntry { day, event: JournalEvent::ReachedLevel { level } });
            }
            proof {
                assert(records@[c as int]@ == escaped_view(v, floor, share, day, hp, max_hp));
                assert(ledger_views(records@) =~= escape_view(views, id, floor, share, day, hp, max_hp));
            }
            return;
        }
        c = c + 1;
    }
    proof {
        assert forall|w: int| !is_first_view(views, id, w) by {
            if is_first_view(views, id, w) {
                assert(records@[w].id != id);
                assert(views[w] == records@[w]@);
            }
        }
    }
}

/// Experience earned escaping from `floor`.
fn escape_gain(delves: i32, drive: HeroDrive, floor: i32) -> (r: i32)
    ensures
        r == escape_xp(delves, drive, floor),
{
    let base: i64 = 15 + floor as i64 * 8 + delves as i64 * 3;
    assert(-0x10_0000_0000 <= base <= 0x10_0000_0000);
    let scaled: i64 = if drive == HeroDrive::Discovery {
        if base >= 0 {
            (5 * base + 2) / 4
        } else {
            0 - (2 - 5 * base) / 4
        }
    } else {
        base
    };
    if scaled > i32::MAX as i64 {
        i32::MAX
    } else if scaled < i32::MIN as i64 {
        i32::MIN
    } else {
        scaled as i32
    }
}

/// Experience a hero needs to grow past `level`.
fn level_need(level: i32) -> (r: i64)
    ensures
        r == xp_for_level(level as int),
        r >= 50,
{
    if level >= 1 {
        50 * level as i64
    } else {
        50
    }
}

/// Take every level the experience affords, up to the tenth.
fn take_levels(level: i32, exp: i32) -> (r: (i32, i32))
    ensures
        (r.0 as int, r.1 as int) == level_up(level as int, exp as int),
{
    let mut lv = level;
    let mut xp = exp;
    while lv < 10 && (xp as i64) >= level_need(lv)
        invariant
            level_up(lv as int, xp as int) == level_up(level as int, exp as int),
        decreases 10 - lv,
    {
        xp = (xp as i64 - level_need(lv)) as i32;
        lv = lv + 1;
    }
    (lv, xp)
}


/// Settle the ledger for party `party_idx` as it leaves the dungeon:
/// survivors bank experience and their share of the loot and may level up;
/// the fallen are entombed on the floor the party reached.
pub fn settle_departing_party(state: &mut GameState, party_idx: usize)
    requires
        party_idx < old(state).adventurer_parties.len(),
    ensures
        ({
            let s = *old(state);
            let p = s.adventurer_parties[party_idx as int];
            &&& ledger_views(final(state).known_adventurers@) == settle_ledger(
                ledger_views(s.known_adventurers@),
                p.members@,
                p.current_floor,
                loot_share(p) as i32,
                s.day,
                p.members.len() as int,
            )
            &&& *final(state) == (GameState { known_adventurers: final(state).known_adventurers, ..s })
        }),
{
    let ghost s = *state;
    let ghost p = state.adventurer_parties@[party_idx as int];
    let ghost ms = p.members@;
    let floor = state.adventurer_parties[party_idx].current_floor;
    let day = state.day;
    let mut survivors: u64 = 0;
    let mut k: usize = 0;
    while k < state.adventurer_parties[party_idx].members.len()
        invariant
            party_idx < state.adventurer_parties.len(),
            *state == s,
            p == s.adventurer_parties[party_idx as int],
            ms == p.members@,
            0 <= k <= ms.len(),
            survivors == crate::combat::living_count(ms, k as int),
            survivors <= k,
        decreases ms.len() - k,
    {
        if state.adventurer_parties[party_idx].members[k].alive {
            survivors = survivors + 1;
        }
        k = k + 1;
    }
    let loot = state.adventurer_parties[party_idx].loot as i128;
    let n: i128 = if survivors >= 1 { survivors as i128 } else { 1 };
    let share: i32 = if loot >= 0 {
        (loot / n) as i32
    } else {
        (0 - (0 - loot) / n) as i32
    };
    let mut k: usize = 0;
    while k < state.adventurer_parties[party_idx].members.len()
        invariant
            party_idx < state.adventurer_parties.len(),
            p == s.adventurer_parties[party_idx as int],
            ms == p.members@,
            floor == p.current_floor,
            day == s.day,
            share == loot_share(p),
            0 <= k <= ms.len(),
            ledger_views(state.known_adventurers@) == settle_ledger(
                ledger_views(s.known_adventurers@),
                ms,
                floor,
                share,
                day,
                k as int,
            ),
            *state == (GameState { known_adventurers: state.known_adventurers, ..s }),
        decreases ms.len() - k,
    {
        let id = state.adventurer_parties[party_idx].members[k].id;
        if state.adventurer_parties[party_idx].members[k].alive {
            let hp = state.adventurer_parties[party_idx].members[k].hp;
            let max_hp = state.adventurer_parties[party_idx].members[k].max_hp;
            escape_hero(&mut state.known_adventurers, id, floor, share, day, hp, max_hp);
        } else {
            let ghost before = state.known_adventurers@;
            state.record_hero_death(id, floor);
            proof {
                crate::state::lemma_fallen_view(before, id, floor, day);
            }
        }
        k = k + 1;
    }
}

/// The ledger view once every retreating party among the first `n`, in
/// order, was settled.
pub open spec fn settle_parties(views: Seq<HeroView>, parties: Seq<AdventurerParty>, day: i32, n: int) -> Seq<HeroView>
    decreases n,
{
    if n <= 0 {
        views
    } else {
        let prior = settle_parties(views, parties, day, n - 1);
        let p = parties[n - 1];
        if p.retreating {
            settle_ledger(prior, p.members@, p.current_floor, loot_share(p) as i32, day, p.members.len() as int)
        } else {
            prior
        }
    }
}

/// The parties still inside once the retreating ones have left, in order.
pub open spec fn staying(parties: Seq<AdventurerParty>) -> Seq<AdventurerParty>
    decreases parties.len(),
{
    if parties.len() == 0 {
        Seq::empty()
    } else {
        let prior = staying(parties.drop_last());
        if parties.last().retreating {
            prior
        } else {
            prior.push(parties.last())
        }
    }
}

/// `t` is `s` once its retreating parties left: the ledger settles each of
/// them in order, they leave the dungeon, and every one that left counts as
/// a raid weathered. A dungeon left empty then sees its defenders respawn
/// and its traps re-armed, in that order.
pub open spec fn departures_handled(s: GameState, cat: Catalog, t: GameState) -> bool {
    let left = staying(s.adventurer_parties@);
    let settled = GameState {
        known_adventurers: t.known_adventurers,
        adventurer_parties: t.adventurer_parties,
        raids_completed: (s.raids_completed + (s.adventurer_parties.len() - left.len())) as i32,
        ..s
    };
    &&& ledger_views(t.known_adventurers@) == settle_parties(
        ledger_views(s.known_adventurers@),
        s.adventurer_parties@,
        s.day,
        s.adventurer_parties.len() as int,
    )
    &&& t.adventurer_parties@ == left
    &&& if left.len() == 0 {
        exists|mid: GameState, respawned: i32, rearmed: i32|
            #[trigger] crate::monsters::respawn_outcome(settled, cat, mid, respawned)
                && #[trigger] crate::combat::rearm_outcome(mid, cat, t, rearmed)
    } else {
        t == settled
    }
}

/// Settle and remove every retreating party; an emptied dungeon then
/// respawns its defenders and re-arms its traps.
pub fn handle_retreating_parties(state: &mut GameState, cat: &Catalog)
    requires
        cat.wf(),
        old(state).raids_completed + old(state).adventurer_parties.len() <= i32::MAX,
        crate::monsters::defenders_in(old(state).floors@) <= u64::MAX,
    ensures
        departures_handled(*old(state), *cat, *final(state)),
{
    let ghost s = *state;
    let mut i: usize = 0;
    while i < state.adventurer_parties.len()
        invariant
            0 <= i <= s.adventurer_parties.len(),
            state.adventurer_parties == s.adventurer_parties,
            ledger_views(state.known_adventurers@) == settle_parties(
                ledger_views(s.known_adventurers@),
                s.adventurer_parties@,
                s.day,
                i as int,
            ),
            *state == (GameState { known_adventurers: state.known_adventurers, ..s }),
        decreases s.adventurer_parties.len() - i,
    {
        if state.adventurer_parties[i].retreating {
            settle_departing_party(state, i);
        }
        i = i + 1;
    }
    let ghost all0 = state.adventurer_parties@;
    let mut all: Vec<AdventurerParty> = Vec::new();
    std::mem::swap(&mut all, &mut state.adventurer_parties);
    let mut kept: Vec<AdventurerParty> = Vec::new();
    let mut j: usize = 0;
    let total = all.len();
    while j < total
        invariant
            total == all0.len(),
            0 <= j <= total,
            all@ == all0.skip(j as int),
            kept@ == staying(all0.take(j as int)),
            kept@.len() <= j,
        decreases total - j,
    {
        proof {
            assert(all0.take(j + 1).drop_last() =~= all0.take(j as int));
            assert(all@[0] == all0[j as int]);
        }
        let party = all.remove(0);
        if !party.retreating {
            kept.push(party);
        }
        proof {
            assert(all@ =~= all0.skip(j + 1));
        }
        j = j + 1;
    }
    proof {
        assert(all0.take(j as int) =~= all0);
    }
    let departed = total - kept.len();
    state.adventurer_parties = kept;
    state.raids_completed = (state.raids_completed as i64 + departed as i64) as i32;
    let ghost settled = *state;
    if state.adventurer_parties.len() == 0 {
        let respawned = crate::monsters::respawn_monsters(state, cat);
        let ghost mid = *state;
        let rearmed = crate::combat::rearm_traps(state, cat);
        proof {
            assert(crate::monsters::respawn_outcome(settled, *cat, mid, respawned));
            assert(crate::combat::rearm_outcome(mid, *cat, *state, rearmed));
        }
    }
}


/// The smallest party the realm sends.
pub const MIN_PARTY_SIZE: usize = 2;
/// The largest party the realm sends.
pub const MAX_PARTY_SIZE: usize = 4;

/// The half-open range a raiding party's size is rolled from at the realm's
/// threat tier: calm sends the widest bands, a wary realm somewhat smaller
/// ones, and a furious realm always the smallest elite band (`None`: nothing
/// to roll).
pub open spec fn size_range(tier: int) -> Option<(usize, usize)> {
    if tier == 0 {
        Some((MIN_PARTY_SIZE, (MAX_PARTY_SIZE + 1) as usize))
    } else if tier == 1 || tier == 2 {
        Some((MIN_PARTY_SIZE, MAX_PARTY_SIZE))
    } else {
        None
    }
}

/// The range a raiding party's size is rolled from now, if it is rolled.
pub fn party_size_range(state: &GameState) -> (r: Option<(usize, usize)>)
    ensures
        r == size_range(threat_tier_for(state.total_deaths as int)),
{
    let tier = state.threat_tier();
    if tier == 0 {
        Some((MIN_PARTY_SIZE, MAX_PARTY_SIZE + 1))
    } else if tier == 1 || tier == 2 {
        Some((MIN_PARTY_SIZE, MAX_PARTY_SIZE))
    } else {
        None
    }
}

/// Party size and adventurer level range at the realm's current threat, the
/// size being `rolled` (from `party_size_range`) while the realm is not yet
/// furious. Low threat sends larger bands of weaker heroes; high threat
/// sends smaller, far more dangerous elites, levelled for the dungeon's depth.
pub fn threat_party_shape(state: &GameState, rolled: usize) -> (r: (usize, i32, i32))
    ensures
        ({
            let tier = threat_tier_for(state.total_deaths as int);
            let size = if size_range(tier) is Some { rolled } else { MIN_PARTY_SIZE };
            let deepest = max_of(state.total_floors as int, 1);
            let level_min = 1 + tier;
            &&& r.0 == max_of(size as int, 1)
            &&& r.1 == level_min
            &&& r.2 == max_of(3 + tier + deepest / 2, level_min)
        }),
{
    let tier = state.threat_tier();
    let deepest: i32 = if state.total_floors >= 1 { state.total_floors } else { 1 };
    let level_min = 1 + tier;
    let widest = 3 + tier + deepest / 2;
    let level_max = if widest >= level_min { widest } else { level_min };
    let size = if tier <= 2 { rolled } else { MIN_PARTY_SIZE };
    (if size >= 1 { size } else { 1 }, level_min, level_max)
}

} // verus!
