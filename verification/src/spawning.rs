//! New parties at the dungeon's door: when one may come, how returning
//! veterans and fresh recruits are entered in the ledger, and how the party
//! is formed.

use vstd::prelude::*;
use crate::adventure::{expedition_depth, expedition_target_floor, has_record, record_of};
use crate::endgame::Recruit;
use crate::state::{
    is_first_record, is_first_view, ledger_views, Adventurer, AdventurerParty, DungeonStatus,
    ExpeditionDoctrine, GameState, HeroDrive, HeroRecord, HeroStatus, HeroView, JournalEntry,
    JournalEvent, LogEntry, Stats,
};

verus! {

/// One place in a new party, as the dice filled it.
pub enum Enlistment {
    /// Known hero `id` returns for another delve, fighting with `stats`.
    Returning { id: u64, stats: Stats },
    /// A newcomer enters for the first time, driven by `drive`, at `level`.
    Fresh { recruit: Recruit, drive: HeroDrive, level: i32 },
}

/// The absolute hour of `s`: days counted in hours, plus the hour.
pub open spec fn absolute_hour(s: GameState) -> int {
    s.day * 24 + s.hour
}

/// A new party may come: the dungeon is open, no party is inside, and the
/// absolute hour has reached the next spawn time.
pub open spec fn spawn_due(s: GameState) -> bool {
    &&& s.status == DungeonStatus::Open
    &&& s.adventurer_parties@.len() == 0
    &&& absolute_hour(s) >= s.next_party_spawn
}

/// Place `k` of `slots` is a veteran's that may come back: a hero the
/// ledger knows, alive and outside, not named by an earlier place.
pub open spec fn returning_ok(s: GameState, slots: Seq<Enlistment>, k: int) -> bool {
    slots[k] matches Enlistment::Returning { id, .. } ==> {
        &&& has_record(s.known_adventurers@, id)
        &&& record_of(s.known_adventurers@, id).status == HeroStatus::Alive
        &&& forall|j: int| 0 <= j < k ==> !(#[trigger] slots[j] matches Enlistment::Returning { id: other, .. } && other == id)
    }
}

/// Every returning place names a living hero the ledger knows, each at most
/// once.
pub open spec fn enlistment_known(s: GameState, slots: Seq<Enlistment>) -> bool {
    forall|k: int| 0 <= k < slots.len() ==> #[trigger] returning_ok(s, slots, k)
}

/// Hero `v` back for one more delve on `day`: inside again, the delve
/// counted (saturating), and its journal tells of it.
pub open spec fn returned_view(v: HeroView, day: i32) -> HeroView {
    let delve = if v.delves == i32::MAX {
        v.delves
    } else {
        (v.delves + 1) as i32
    };
    HeroView {
        status: HeroStatus::Inside,
        delves: delve,
        journal: v.journal.push(JournalEntry { day, event: JournalEvent::Returned { delve } }),
        ..v
    }
}

/// The ledger view with hero `id`'s return entered.
pub open spec fn return_view(views: Seq<HeroView>, id: u64, day: i32) -> Seq<HeroView> {
    if exists|c: int| is_first_view(views, id, c) {
        let c = choose|c: int| is_first_view(views, id, c);
        views.update(c, returned_view(views[c], day))
    } else {
        views
    }
}

/// The ledger entry of a newcomer entering on `day`: one delve, resolve 50,
/// no deeds yet, inside, with a journal that tells what drove them.
pub open spec fn first_delve_view(r: Recruit, drive: HeroDrive, level: i32, day: i32) -> HeroView {
    HeroView {
        id: r.id,
        name: r.name@,
        class_name: r.class_name@,
        race: r.race@,
        drive,
        resolve: 50,
        level,
        experience: 0,
        delves: 1,
        kills: 0,
        gold_stolen: 0,
        escapes: 0,
        deepest_floor: 0,
        status: HeroStatus::Inside,
        death_floor: 0,
        death_day: 0,
        journal: seq![JournalEntry { day, event: JournalEvent::FirstDelve { drive } }],
    }
}

/// The ledger view once the first `n` places were filled in order.
pub open spec fn enlist_ledger(views: Seq<HeroView>, slots: Seq<Enlistment>, day: i32, n: int) -> Seq<HeroView>
    decreases n,
{
    if n <= 0 {
        views
    } else {
        let prior = enlist_ledger(views, slots, day, n - 1);
        match slots[n - 1] {
            Enlistment::Returning { id, .. } => return_view(prior, id, day),
            Enlistment::Fresh { recruit, drive, level } => prior.push(first_delve_view(recruit, drive, level, day)),
        }
    }
}

/// `a` is the member that place `slot` brings, the ledger being `ledger`
/// before the party formed: whole, alive, with nothing earned yet; a veteran
/// as the ledger knows them, a newcomer as recruited (resolve 50).
pub open spec fn enlisted(a: Adventurer, slot: Enlistment, ledger: Seq<HeroRecord>) -> bool {
    &&& a.hp == a.max_hp
    &&& a.alive
    &&& a.experience == 0
    &&& a.gold == 0
    &&& a.conditions@.len() == 0
    &&& match slot {
        Enlistment::Returning { id, stats } => {
            let r = record_of(ledger, id);
            &&& a.id == id
            &&& a.name@ == r.name@
            &&& a.class_name@ == r.class_name@
            &&& a.race@ == r.race@
            &&& a.drive == r.drive
            &&& a.resolve == r.resolve
            &&& a.level == r.level
            &&& a.max_hp == stats.hp
            &&& a.scaled_stats == stats
        },
        Enlistment::Fresh { recruit, drive, level } => {
            &&& a.id == recruit.id
            &&& a.name@ == recruit.name@
            &&& a.class_name@ == recruit.class_name@
            &&& a.race@ == recruit.race@
            &&& a.drive == drive
            &&& a.resolve == 50
            &&& a.level == level
            &&& a.max_hp == recruit.stats.hp
            &&& a.scaled_stats == recruit.stats
        },
    }
}

/// `p` is the party formed in `s` from `slots` under `party_id`, the ledger
/// then being `ledger`: at the entrance of the first floor, entered this
/// hour, bound as deep as its members intend (see `expedition_depth`).
pub open spec fn is_new_party(
    p: AdventurerParty,
    s: GameState,
    t: GameState,
    slots: Seq<Enlistment>,
    party_id: u64,
    doctrine: ExpeditionDoctrine,
) -> bool {
    &&& p.id == party_id
    &&& p.members@.len() == slots.len()
    &&& forall|k: int| 0 <= k < slots.len() ==> enlisted(#[trigger] p.members@[k], slots[k], s.known_adventurers@)
    &&& p.current_floor == 1
    &&& p.current_room == 0
    &&& !p.retreating
    &&& p.casualties == 0
    &&& p.loot == 0
    &&& p.entry_time == s.hour
    &&& p.target_floor == expedition_depth(t, p.members@)
    &&& p.snared_ticks == 0
    &&& !p.alarmed
    &&& !p.sieging
    &&& p.prev_room == 0
    &&& p.doctrine == doctrine
}

/// The identity of a ledger entry is kept: same hero, name, class, race,
/// drive, resolve and level.
pub open spec fn same_identity(a: HeroRecord, b: HeroRecord) -> bool {
    &&& a.id == b.id
    &&& a.name@ == b.name@
    &&& a.class_name@ == b.class_name@
    &&& a.race@ == b.race@
    &&& a.drive == b.drive
    &&& a.resolve == b.resolve
    &&& a.level == b.level
}

/// Enter hero `id`'s return in the ledger; returns where its entry stands.
fn return_hero(records: &mut Vec<HeroRecord>, id: u64, day: i32) -> (c: usize)
    requires
        has_record(old(records)@, id),
    ensures
        is_first_record(old(records)@, id, c as int),
        ledger_views(final(records)@) == return_view(ledger_views(old(records)@), id, day),
        final(records)@.len() == old(records)@.len(),
        forall|j: int| 0 <= j < old(records)@.len() ==> same_identity(#[trigger] final(records)@[j], old(records)@[j]),
{
    let ghost views = ledger_views(records@);
    let ghost w = choose|w: int| 0 <= w < records@.len() && records@[w].id == id;
    let mut c: usize = 0;
    while c < records.len()
        invariant
            0 <= c <= records.len(),
            *records == *old(records),
            views == ledger_views(old(records)@),
            0 <= w < records@.len() && records@[w].id == id,
            forall|j: int| 0 <= j < c ==> records@[j].id != id,
        decreases records.len() - c,
    {
        if records[c].id == id {
            proof {
                assert(is_first_view(views, id, c as int)) by {
                    assert forall|j: int| 0 <= j < c implies views[j].id != id by {
                        assert(views[j] == records@[j]@);
                    }
                }
                let u = choose|u: int| is_first_view(views, id, u);
                if u < c {
                    assert(views[u].id != id);
                }
                if u > c {
                    assert(views[c as int].id != id);
                }
            }
            let ghost v = records@[c as int]@;
            let delve: i32 = if records[c].delves == i32::MAX { i32::MAX } else { records[c].delves + 1 };
            records[c].status = HeroStatus::Inside;
            records[c].delves = delve;
            records[c].journal.push(JournalEntry { day, event: JournalEvent::Returned { delve } });
            proof {
                assert(records@[c as int]@ == returned_view(v, day));
                assert(ledger_views(records@) =~= return_view(views, id, day));
            }
            return c;
        }
        c = c + 1;
    }
    proof {
        assert(records@[w].id != id);
    }
    0
}

/// A new party comes when one is due (see `spawn_due`): each place of
/// `slots`, filled by the caller's dice, brings a returning veteran (marked
/// inside, one delve more) or a newcomer (entered in the ledger); the party
/// forms under `party_id` at the entrance, bound for the floor its members
/// aim at, and the next party may come an hour later. Returns whether a
/// party came; otherwise nothing changes.
pub fn spawn_party(
    state: &mut GameState,
    slots: Vec<Enlistment>,
    party_id: u64,
    doctrine: ExpeditionDoctrine,
) -> (spawned: bool)
    requires
        enlistment_known(*old(state), slots@),
    ensures
        spawned == spawn_due(*old(state)),
        !spawned ==> *final(state) == *old(state),
        spawned ==> {
            let s = *old(state);
            let t = *final(state);
            &&& ledger_views(t.known_adventurers@) == enlist_ledger(
                ledger_views(s.known_adventurers@),
                slots@,
                s.day,
                slots@.len() as int,
            )
            &&& t.adventurer_parties@.len() == 1
            &&& is_new_party(t.adventurer_parties@[0], s, t, slots@, party_id, doctrine)
            &&& t.next_party_spawn == absolute_hour(s) + 1
            &&& t.log@ == s.log@.push(
                LogEntry::PartyEnters { size: slots@.len() as usize, target_floor: t.adventurer_parties@[0].target_floor },
            )
            &&& t == (GameState {
                known_adventurers: t.known_adventurers,
                adventurer_parties: t.adventurer_parties,
                next_party_spawn: t.next_party_spawn,
                log: t.log,
                ..s
            })
        },
{
    let now: i64 = state.day as i64 * 24 + state.hour as i64;
    if state.status != DungeonStatus::Open || state.adventurer_parties.len() != 0 || now < state.next_party_spawn {
        return false;
    }
    let ghost s = *state;
    let day = state.day;
    let mut members: Vec<Adventurer> = Vec::new();
    let mut i: usize = 0;
    while i < slots.len()
        invariant
            0 <= i <= slots@.len(),
            day == s.day,
            enlistment_known(s, slots@),
            ledger_views(state.known_adventurers@) == enlist_ledger(ledger_views(s.known_adventurers@), slots@, day, i as int),
            state.known_adventurers@.len() >= s.known_adventurers@.len(),
            forall|j: int|
                0 <= j < s.known_adventurers@.len() ==> same_identity(
                    #[trigger] state.known_adventurers@[j],
                    s.known_adventurers@[j],
                ),
            members@.len() == i,
            forall|k: int| 0 <= k < i ==> enlisted(#[trigger] members@[k], slots@[k], s.known_adventurers@),
            *state == (GameState { known_adventurers: state.known_adventurers, ..s }),
        decreases slots@.len() - i,
    {
        let ghost before = state.known_adventurers@;
        match &slots[i] {
            Enlistment::Returning { id, stats } => {
                proof {
                    assert(slots@[i as int] matches Enlistment::Returning { .. });
                    assert(returning_ok(s, slots@, i as int));
                    let w = choose|w: int| 0 <= w < s.known_adventurers@.len() && s.known_adventurers@[w].id == *id;
                    assert(same_identity(before[w], s.known_adventurers@[w]));
                }
                let c = return_hero(&mut state.known_adventurers, *id, day);
                proof {
                    let w = choose|w: int| 0 <= w < s.known_adventurers@.len() && s.known_adventurers@[w].id == *id;
                    assert(c <= w) by {
                        if c > w {
                            assert(before[w].id == *id);
                        }
                    }
                    assert(same_identity(before[c as int], s.known_adventurers@[c as int]));
                    assert(is_first_record(s.known_adventurers@, *id, c as int)) by {
                        assert forall|j: int| 0 <= j < c implies s.known_adventurers@[j].id != *id by {
                            assert(same_identity(before[j], s.known_adventurers@[j]));
                        }
                    }
                    let u = choose|u: int| is_first_record(s.known_adventurers@, *id, u);
                    if u < c {
                        assert(s.known_adventurers@[u].id != *id);
                    }
                    if u > c {
                        assert(s.known_adventurers@[c as int].id != *id);
                    }
                    assert(record_of(s.known_adventurers@, *id) == s.known_adventurers@[c as int]);
                }
                let r = &state.known_adventurers[c];
                members.push(
                    Adventurer {
                        id: *id,
                        name: r.name.clone(),
                        class_name: r.class_name.clone(),
                        race: r.race.clone(),
                        drive: r.drive,
                        resolve: r.resolve,
                        level: r.level,
                        hp: stats.hp,
                        max_hp: stats.hp,
                        alive: true,
                        experience: 0,
                        gold: 0,
                        scaled_stats: *stats,
                        conditions: Vec::new(),
                    },
                );
            },
            Enlistment::Fresh { recruit, drive, level } => {
                let mut journal: Vec<JournalEntry> = Vec::new();
                journal.push(JournalEntry { day, event: JournalEvent::FirstDelve { drive: *drive } });
                state.known_adventurers.push(
                    HeroRecord {
                        id: recruit.id,
                        name: recruit.name.clone(),
                        class_name: recruit.class_name.clone(),
                        race: recruit.race.clone(),
                        drive: *drive,
                        resolve: 50,
                        level: *level,
                        experience: 0,
                        delves: 1,
                        kills: 0,
                        gold_stolen: 0,
                        escapes: 0,
                        deepest_floor: 0,
                        status: HeroStatus::Inside,
                        death_floor: 0,
                        death_day: 0,
                        journal,
                    },
                );
                proof {
                    assert(journal@ =~= seq![JournalEntry { day, event: JournalEvent::FirstDelve { drive: *drive } }]);
                    assert(ledger_views(state.known_adventurers@) =~= ledger_views(before).push(
                        first_delve_view(*recruit, *drive, *level, day),
                    ));
                    assert forall|j: int| 0 <= j < s.known_adventurers@.len() implies same_identity(
                        #[trigger] state.known_adventurers@[j],
                        s.known_adventurers@[j],
                    ) by {
                        assert(state.known_adventurers@[j] == before[j]);
                    }
                }
                members.push(
                    Adventurer {
                        id: recruit.id,
                        name: recruit.name.clone(),
                        class_name: recruit.class_name.clone(),
                        race: recruit.race.clone(),
                        drive: *drive,
                        resolve: 50,
                        level: *level,
                        hp: recruit.stats.hp,
                        max_hp: recruit.stats.hp,
                        alive: true,
                        experience: 0,
                        gold: 0,
                        scaled_stats: recruit.stats,
                        conditions: Vec::new(),
                    },
                );
            },
        }
        i = i + 1;
    }
    let target = expedition_target_floor(state, &members);
    let size = members.len();
    let party = AdventurerParty {
        id: party_id,
        members,
        current_floor: 1,
        current_room: 0,
        retreating: false,
        casualties: 0,
        loot: 0,
        entry_time: state.hour,
        target_floor: target,
        snared_ticks: 0,
        alarmed: false,
        sieging: false,
        prev_room: 0,
        doctrine,
    };
    state.adventurer_parties.push(party);
    state.next_party_spawn = now + 1;
    state.log.push(LogEntry::PartyEnters { size, target_floor: target });
    true
}

/// Whether a new party may come now (see `spawn_due`).
pub fn spawn_ready(state: &GameState) -> (r: bool)
    ensures
        r == spawn_due(*state),
{
    let now: i64 = state.day as i64 * 24 + state.hour as i64;
    state.status == DungeonStatus::Open && state.adventurer_parties.len() == 0 && now >= state.next_party_spawn
}

/// The first ledger entry of hero `id`, if any.
fn first_record_idx(records: &Vec<HeroRecord>, id: u64) -> (r: Option<usize>)
    ensures
        r is None <==> !has_record(records@, id),
        r is Some ==> r->0 < records@.len() && records@[r->0 as int].id == id && record_of(records@, id)
            == records@[r->0 as int],
{
    let mut c: usize = 0;
    while c < records.len()
        invariant
            0 <= c <= records@.len(),
            forall|j: int| 0 <= j < c ==> records@[j].id != id,
        decreases records@.len() - c,
    {
        if records[c].id == id {
            proof {
                assert(is_first_record(records@, id, c as int));
                let u = choose|u: int| is_first_record(records@, id, u);
                if u < c {
                    assert(records@[u].id != id);
                }
                if u > c {
                    assert(records@[c as int].id != id);
                }
            }
            return Some(c);
        }
        c = c + 1;
    }
    None
}

/// Whether every returning place of `slots` names a living hero the ledger
/// knows, each at most once (see `enlistment_known`).
pub fn enlistment_allowed(state: &GameState, slots: &Vec<Enlistment>) -> (r: bool)
    ensures
        r == enlistment_known(*state, slots@),
{
    let mut k: usize = 0;
    while k < slots.len()
        invariant
            0 <= k <= slots@.len(),
            forall|j: int| 0 <= j < k ==> #[trigger] returning_ok(*state, slots@, j),
        decreases slots@.len() - k,
    {
        match &slots[k] {
            Enlistment::Returning { id, .. } => {
                match first_record_idx(&state.known_adventurers, *id) {
                    None => {
                        proof {
                            assert(!returning_ok(*state, slots@, k as int));
                        }
                        return false;
                    },
                    Some(c) => {
                        if state.known_adventurers[c].status != HeroStatus::Alive {
                            proof {
                                assert(!returning_ok(*state, slots@, k as int));
                            }
                            return false;
                        }
                    },
                }
                let mut j: usize = 0;
                while j < k
                    invariant
                        0 <= j <= k < slots@.len(),
                        slots@[k as int] matches Enlistment::Returning { id: i2, .. } && i2 == *id,
                        forall|i: int| 0 <= i < j ==> !(#[trigger] slots@[i] matches Enlistment::Returning { id: other, .. } && other == *id),
                    decreases k - j,
                {
                    match &slots[j] {
                        Enlistment::Returning { id: other, .. } => {
                            if *other == *id {
                                proof {
                                    assert(!returning_ok(*state, slots@, k as int));
                                }
                                return false;
                            }
                        },
                        Enlistment::Fresh { .. } => {},
                    }
                    j = j + 1;
                }
                proof {
                    assert(returning_ok(*state, slots@, k as int));
                }
            },
            Enlistment::Fresh { .. } => {
                proof {
                    assert(returning_ok(*state, slots@, k as int));
                }
            },
        }
        k = k + 1;
    }
    true
}

} // verus!
