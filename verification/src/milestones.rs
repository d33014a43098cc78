//! A shaped destination for the prestige loop: named prestige ranks and a
//! milestone track. Ranks give prestige names to climb, and milestones give
//! the run concrete goals. Milestone conditions read only counters that never
//! decrease, and an achieved milestone is never taken back.

use vstd::prelude::*;
use crate::catalog::names_contain;
use crate::state::{GameState, LogEntry};

verus! {

/// The prestige count at which the dungeon is considered ascended: a soft
/// win state the player can reach and keep playing past.
pub const ASCENSION_PRESTIGE: i32 = 10;

/// How many milestones the track holds.
pub const MILESTONE_COUNT: usize = 12;

/// The name of the rank a prestige count falls in.
pub open spec fn rank_name(prestige: i32) -> Seq<char> {
    if prestige == 0 {
        "Fledgling Core"@
    } else if 1 <= prestige <= 2 {
        "Rooted Core"@
    } else if 3 <= prestige <= 4 {
        "Dread Warren"@
    } else if 5 <= prestige <= 7 {
        "Abyssal Throne"@
    } else if 8 <= prestige <= 9 {
        "Nightmare Bastion"@
    } else {
        "Eternal Core"@
    }
}

/// A named rank for a band of prestige levels, so the counter reads as a
/// climb rather than a bare number.
pub fn prestige_rank(prestige: i32) -> (r: &'static str)
    ensures
        r@ == rank_name(prestige),
{
    if prestige == 0 {
        "Fledgling Core"
    } else if 1 <= prestige && prestige <= 2 {
        "Rooted Core"
    } else if 3 <= prestige && prestige <= 4 {
        "Dread Warren"
    } else if 5 <= prestige && prestige <= 7 {
        "Abyssal Throne"
    } else if 8 <= prestige && prestige <= 9 {
        "Nightmare Bastion"
    } else {
        "Eternal Core"
    }
}

/// One goal on the milestone track. `tier` groups them by difficulty for
/// display (0 early, higher later).
#[derive(Clone, Copy, Debug)]
pub struct Milestone {
    pub id: &'static str,
    pub name: &'static str,
    pub description: &'static str,
    pub tier: u8,
}

/// The id of the milestone at position `i` of the track.
pub open spec fn milestone_id(i: int) -> Seq<char> {
    if i == 0 {
        "first_raid"@
    } else if i == 1 {
        "awakened"@
    } else if i == 2 {
        "deep_delver"@
    } else if i == 3 {
        "menagerie"@
    } else if i == 4 {
        "veteran_keeper"@
    } else if i == 5 {
        "first_prestige"@
    } else if i == 6 {
        "abyssal"@
    } else if i == 7 {
        "empowered"@
    } else if i == 8 {
        "renowned"@
    } else if i == 9 {
        "warden"@
    } else if i == 10 {
        "dread_sovereign"@
    } else {
        "eternal"@
    }
}

/// The display tier of the milestone at position `i` of the track.
pub open spec fn milestone_tier(i: int) -> u8 {
    if i <= 2 {
        0
    } else if i <= 5 {
        1
    } else if i <= 8 {
        2
    } else if i <= 10 {
        3
    } else {
        4
    }
}

/// The display name of the milestone at position `i` of the track.
pub open spec fn milestone_name(i: int) -> Seq<char> {
    if i == 0 {
        "First Blood"@
    } else if i == 1 {
        "Awakening"@
    } else if i == 2 {
        "Going Deep"@
    } else if i == 3 {
        "Menagerie"@
    } else if i == 4 {
        "Veteran Keeper"@
    } else if i == 5 {
        "Ascendant"@
    } else if i == 6 {
        "Abyssal Warren"@
    } else if i == 7 {
        "Empowered Heart"@
    } else if i == 8 {
        "Infamous"@
    } else if i == 9 {
        "Warden of the Deep"@
    } else if i == 10 {
        "Dread Sovereign"@
    } else {
        "Eternal Core"@
    }
}

/// What the milestone at position `i` of the track asks of the keeper.
pub open spec fn milestone_description(i: int) -> Seq<char> {
    if i == 0 {
        "Weather your first adventurer raid."@
    } else if i == 1 {
        "Awaken your first core power."@
    } else if i == 2 {
        "Excavate a dungeon three floors deep."@
    } else if i == 3 {
        "Unlock ten kinds of monster."@
    } else if i == 4 {
        "Weather ten raids."@
    } else if i == 5 {
        "Repel the realm's siege and claim your first prestige."@
    } else if i == 6 {
        "Excavate a dungeon six floors deep."@
    } else if i == 7 {
        "Awaken six core powers."@
    } else if i == 8 {
        "Lure twenty-five heroes to their doom."@
    } else if i == 9 {
        "Weather fifty raids."@
    } else if i == 10 {
        "Reach prestige three."@
    } else {
        "Reach prestige ten: the dungeon is ascended."@
    }
}

/// The milestone at position `i` of the track.
pub fn milestone_at(i: usize) -> (m: Milestone)
    requires
        i < MILESTONE_COUNT,
    ensures
        m.id@ == milestone_id(i as int),
        m.name@ == milestone_name(i as int),
        m.description@ == milestone_description(i as int),
        m.tier == milestone_tier(i as int),
{
    if i == 0 {
        Milestone { id: "first_raid", name: "First Blood", description: "Weather your first adventurer raid.", tier: 0 }
    } else if i == 1 {
        Milestone { id: "awakened", name: "Awakening", description: "Awaken your first core power.", tier: 0 }
    } else if i == 2 {
        Milestone { id: "deep_delver", name: "Going Deep", description: "Excavate a dungeon three floors deep.", tier: 0 }
    } else if i == 3 {
        Milestone { id: "menagerie", name: "Menagerie", description: "Unlock ten kinds of monster.", tier: 1 }
    } else if i == 4 {
        Milestone { id: "veteran_keeper", name: "Veteran Keeper", description: "Weather ten raids.", tier: 1 }
    } else if i == 5 {
        Milestone {
            id: "first_prestige",
            name: "Ascendant",
            description: "Repel the realm's siege and claim your first prestige.",
            tier: 1,
        }
    } else if i == 6 {
        Milestone { id: "abyssal", name: "Abyssal Warren", description: "Excavate a dungeon six floors deep.", tier: 2 }
    } else if i == 7 {
        Milestone { id: "empowered", name: "Empowered Heart", description: "Awaken six core powers.", tier: 2 }
    } else if i == 8 {
        Milestone { id: "renowned", name: "Infamous", description: "Lure twenty-five heroes to their doom.", tier: 2 }
    } else if i == 9 {
        Milestone { id: "warden", name: "Warden of the Deep", description: "Weather fifty raids.", tier: 3 }
    } else if i == 10 {
        Milestone { id: "dread_sovereign", name: "Dread Sovereign", description: "Reach prestige three.", tier: 3 }
    } else {
        Milestone {
            id: "eternal",
            name: "Eternal Core",
            description: "Reach prestige ten: the dungeon is ascended.",
            tier: 4,
        }
    }
}

/// The whole milestone track, in order.
pub fn milestones() -> (r: Vec<Milestone>)
    ensures
        r@.len() == MILESTONE_COUNT,
        forall|i: int|
            0 <= i < MILESTONE_COUNT ==> #[trigger] r@[i].id@ == milestone_id(i) && r@[i].name@ == milestone_name(i)
                && r@[i].description@ == milestone_description(i) && r@[i].tier == milestone_tier(i),
{
    let mut r: Vec<Milestone> = Vec::new();
    let mut i: usize = 0;
    while i < MILESTONE_COUNT
        invariant
            0 <= i <= MILESTONE_COUNT,
            r@.len() == i,
            forall|j: int|
                0 <= j < i ==> #[trigger] r@[j].id@ == milestone_id(j) && r@[j].name@ == milestone_name(j)
                    && r@[j].description@ == milestone_description(j) && r@[j].tier == milestone_tier(j),
        decreases MILESTONE_COUNT - i,
    {
        r.push(milestone_at(i));
        i = i + 1;
    }
    r
}

/// `i` is the first milestone of the track with id `id`.
pub open spec fn is_first_milestone(id: Seq<char>, i: int) -> bool {
    &&& 0 <= i < MILESTONE_COUNT
    &&& milestone_id(i) == id
    &&& forall|j: int| 0 <= j < i ==> milestone_id(j) != id
}

/// Look up a milestone by id.
pub fn milestone(id: &str) -> (r: Option<Milestone>)
    ensures
        r is Some <==> exists|i: int| 0 <= i < MILESTONE_COUNT && milestone_id(i) == id@,
        r is Some ==> exists|i: int|
            is_first_milestone(id@, i) && r->0.id@ == milestone_id(i) && r->0.name@ == milestone_name(i)
                && r->0.description@ == milestone_description(i) && r->0.tier == milestone_tier(i),
{
    let key = id.to_owned();
    let mut i: usize = 0;
    while i < MILESTONE_COUNT
        invariant
            0 <= i <= MILESTONE_COUNT,
            key@ == id@,
            forall|j: int| 0 <= j < i ==> milestone_id(j) != id@,
        decreases MILESTONE_COUNT - i,
    {
        let m = milestone_at(i);
        if m.id.to_owned() == key {
            assert(is_first_milestone(id@, i as int));
            return Some(m);
        }
        i = i + 1;
    }
    None
}

/// Whether the condition of the milestone with id `id` holds in `s`. Only
/// counters that never decrease are read.
pub open spec fn milestone_met(s: GameState, id: Seq<char>) -> bool {
    if id == "first_raid"@ {
        s.raids_completed >= 1
    } else if id == "veteran_keeper"@ {
        s.raids_completed >= 10
    } else if id == "warden"@ {
        s.raids_completed >= 50
    } else if id == "first_prestige"@ {
        s.prestige >= 1
    } else if id == "dread_sovereign"@ {
        s.prestige >= 3
    } else if id == "eternal"@ {
        s.prestige >= ASCENSION_PRESTIGE
    } else if id == "deep_delver"@ {
        s.total_floors >= 3
    } else if id == "abyssal"@ {
        s.total_floors >= 6
    } else if id == "awakened"@ {
        s.core_powers.len() > 0
    } else if id == "empowered"@ {
        s.core_powers.len() >= 6
    } else if id == "menagerie"@ {
        s.unlocked_monsters.len() >= 10
    } else if id == "renowned"@ {
        s.known_adventurers.len() >= 25
    } else {
        false
    }
}

/// Whether the given milestone's condition is currently satisfied.
pub fn met(state: &GameState, id: &str) -> (r: bool)
    ensures
        r == milestone_met(*state, id@),
{
    let key = id.to_owned();
    if key == "first_raid".to_owned() {
        state.raids_completed >= 1
    } else if key == "veteran_keeper".to_owned() {
        state.raids_completed >= 10
    } else if key == "warden".to_owned() {
        state.raids_completed >= 50
    } else if key == "first_prestige".to_owned() {
        state.prestige >= 1
    } else if key == "dread_sovereign".to_owned() {
        state.prestige >= 3
    } else if key == "eternal".to_owned() {
        state.prestige >= ASCENSION_PRESTIGE
    } else if key == "deep_delver".to_owned() {
        state.total_floors >= 3
    } else if key == "abyssal".to_owned() {
        state.total_floors >= 6
    } else if key == "awakened".to_owned() {
        state.core_powers.len() > 0
    } else if key == "empowered".to_owned() {
        state.core_powers.len() >= 6
    } else if key == "menagerie".to_owned() {
        state.unlocked_monsters.len() >= 10
    } else if key == "renowned".to_owned() {
        state.known_adventurers.len() >= 25
    } else {
        false
    }
}

/// The ids a list of strings reads.
pub open spec fn views(v: Seq<String>) -> Seq<Seq<char>> {
    v.map_values(|s: String| s@)
}

/// How many of the first `n` milestones of the track `achieved` holds.
pub open spec fn achieved_among(achieved: Seq<String>, n: int) -> int
    decreases n,
{
    if n <= 0 {
        0
    } else {
        achieved_among(achieved, n - 1) + if names_contain(achieved, milestone_id(n - 1)) {
            1int
        } else {
            0int
        }
    }
}

/// Count of milestones the keeper has achieved.
pub fn achieved_count(state: &GameState) -> (r: usize)
    ensures
        r == achieved_among(state.milestones@, MILESTONE_COUNT as int),
{
    let mut count: usize = 0;
    let mut i: usize = 0;
    while i < MILESTONE_COUNT
        invariant
            0 <= i <= MILESTONE_COUNT,
            count == achieved_among(state.milestones@, i as int),
            count <= i,
        decreases MILESTONE_COUNT - i,
    {
        let m = milestone_at(i);
        if crate::catalog::contains_name(&state.milestones, m.id) {
            count = count + 1;
        }
        i = i + 1;
    }
    count
}

/// The positions of the milestones among the first `n` of the track that a
/// check of `s` newly achieves, in track order.
pub open spec fn newly_achieved(s: GameState, n: int) -> Seq<int>
    decreases n,
{
    if n <= 0 {
        Seq::empty()
    } else {
        let prior = newly_achieved(s, n - 1);
        let i = n - 1;
        let held = views(s.milestones@) + prior.map_values(|j: int| milestone_id(j));
        if !held.contains(milestone_id(i)) && milestone_met(s, milestone_id(i)) {
            prior.push(i)
        } else {
            prior
        }
    }
}

/// The chronicle lines announcing the milestones at these positions: one
/// each, and a proclamation of ascension after the last milestone of the track.
pub open spec fn milestone_entries(achieved: Seq<int>) -> Seq<LogEntry>
    decreases achieved.len(),
{
    if achieved.len() == 0 {
        Seq::empty()
    } else {
        let prior = milestone_entries(achieved.drop_last());
        let i = achieved.last();
        let line = prior.push(LogEntry::MilestoneAchieved { milestone: i as usize });
        if i == MILESTONE_COUNT - 1 {
            line.push(LogEntry::Ascended)
        } else {
            line
        }
    }
}

/// `t` is `s` after a milestone check: every newly met milestone of the track
/// is added, in track order, and chronicled; nothing else changes.
pub open spec fn milestones_checked(s: GameState, t: GameState) -> bool {
    let fresh = newly_achieved(s, MILESTONE_COUNT as int);
    &&& views(t.milestones@) == views(s.milestones@) + fresh.map_values(|j: int| milestone_id(j))
    &&& t.log@ == s.log@ + milestone_entries(fresh)
    &&& t == (GameState { milestones: t.milestones, log: t.log, ..s })
}

/// Evaluate every milestone; unlock any newly met ones and chronicle them.
/// Returns how many were newly unlocked.
pub fn check_milestones(state: &mut GameState) -> (newly: usize)
    ensures
        milestones_checked(*old(state), *final(state)),
        newly == newly_achieved(*old(state), MILESTONE_COUNT as int).len(),
{
    let ghost s0 = *state;
    let mut newly: usize = 0;
    let mut i: usize = 0;
    while i < MILESTONE_COUNT
        invariant
            0 <= i <= MILESTONE_COUNT,
            newly == newly_achieved(s0, i as int).len(),
            newly <= i,
            views(state.milestones@) == views(s0.milestones@) + newly_achieved(s0, i as int).map_values(
                |j: int| milestone_id(j),
            ),
            state.log@ == s0.log@ + milestone_entries(newly_achieved(s0, i as int)),
            *state == (GameState { milestones: state.milestones, log: state.log, ..s0 }),
        decreases MILESTONE_COUNT - i,
    {
        let m = milestone_at(i);
        let ghost prior = newly_achieved(s0, i as int);
        let already = crate::catalog::contains_name(&state.milestones, m.id);
        proof {
            let held = views(s0.milestones@) + prior.map_values(|j: int| milestone_id(j));
            assert(already == held.contains(milestone_id(i as int))) by {
                if already {
                    let w = choose|w: int| 0 <= w < state.milestones@.len() && state.milestones@[w]@ == m.id@;
                    assert(views(state.milestones@)[w] == m.id@);
                }
                if held.contains(milestone_id(i as int)) {
                    let w = choose|w: int| 0 <= w < held.len() && held[w] == milestone_id(i as int);
                    assert(views(state.milestones@)[w] == state.milestones@[w]@);
                }
            }
        }
        if !already && met(state, m.id) {
            let ghost pre = state.milestones@;
            state.milestones.push(m.id.to_owned());
            proof {
                assert(views(state.milestones@) =~= views(pre).push(milestone_id(i as int)));
            }
            newly = newly + 1;
            state.log.push(LogEntry::MilestoneAchieved { milestone: i });
            if i == MILESTONE_COUNT - 1 {
                state.log.push(LogEntry::Ascended);
            }
            proof {
                let next = prior.push(i as int);
                assert(newly_achieved(s0, i + 1) == next);
                assert(next.map_values(|j: int| milestone_id(j)) =~= prior.map_values(|j: int| milestone_id(j)).push(
                    milestone_id(i as int),
                ));
                assert(views(state.milestones@) =~= views(s0.milestones@) + next.map_values(
                    |j: int| milestone_id(j),
                ));
                assert(next.drop_last() =~= prior);
                assert(state.log@ =~= s0.log@ + milestone_entries(next));
            }
        }
        i = i + 1;
    }
    newly
}

/// A milestone check settles: checking again at once unlocks nothing more.
pub proof fn law_milestone_check_settles(s: GameState, t: GameState)
    requires
        milestones_checked(s, t),
    ensures
        newly_achieved(t, MILESTONE_COUNT as int).len() == 0,
{
    lemma_settled(s, t, MILESTONE_COUNT as int);
}

/// A second milestone check at once adds nothing and changes nothing: it
/// unlocks no milestone, and the track, the chronicle and the rest of the
/// dungeon stay as the first check left them.
pub proof fn law_second_check_changes_nothing(s: GameState, t: GameState, u: GameState)
    requires
        milestones_checked(s, t),
        milestones_checked(t, u),
    ensures
        newly_achieved(t, MILESTONE_COUNT as int).len() == 0,
        views(u.milestones@) == views(t.milestones@),
        u.log@ == t.log@,
        u == (GameState { milestones: u.milestones, log: u.log, ..t }),
{
    law_milestone_check_settles(s, t);
    let fresh = newly_achieved(t, MILESTONE_COUNT as int);
    assert(fresh =~= Seq::<int>::empty());
    assert(fresh.map_values(|j: int| milestone_id(j)) =~= Seq::<Seq<char>>::empty());
    assert(views(t.milestones@) + fresh.map_values(|j: int| milestone_id(j)) =~= views(t.milestones@));
    assert(milestone_entries(fresh) =~= Seq::<LogEntry>::empty());
    assert(t.log@ + milestone_entries(fresh) =~= t.log@);
}

proof fn lemma_settled(s: GameState, t: GameState, n: int)
    requires
        milestones_checked(s, t),
        0 <= n <= MILESTONE_COUNT,
    ensures
        newly_achieved(t, n).len() == 0,
    decreases n,
{
    if n > 0 {
        lemma_settled(s, t, n - 1);
        let i = n - 1;
        let fresh = newly_achieved(s, MILESTONE_COUNT as int);
        assert(newly_achieved(t, n - 1) =~= Seq::<int>::empty());
        assert(milestone_met(t, milestone_id(i)) == milestone_met(s, milestone_id(i)));
        if milestone_met(s, milestone_id(i)) {
            lemma_held_after(s, i, MILESTONE_COUNT as int);
            let ids = views(s.milestones@) + fresh.map_values(|j: int| milestone_id(j));
            assert(ids.contains(milestone_id(i)));
            assert(views(t.milestones@) + newly_achieved(t, n - 1).map_values(|j: int| milestone_id(j))
                =~= views(t.milestones@));
        }
    }
}

/// Once checking has passed milestone `i`, a met milestone `i` is held.
proof fn lemma_held_after(s: GameState, i: int, n: int)
    requires
        0 <= i < n <= MILESTONE_COUNT,
        milestone_met(s, milestone_id(i)),
    ensures
        (views(s.milestones@) + newly_achieved(s, n).map_values(|j: int| milestone_id(j))).contains(
            milestone_id(i),
        ),
    decreases n,
{
    let prior = newly_achieved(s, n - 1);
    let base = views(s.milestones@) + prior.map_values(|j: int| milestone_id(j));
    let whole = views(s.milestones@) + newly_achieved(s, n).map_values(|j: int| milestone_id(j));
    if i < n - 1 {
        lemma_held_after(s, i, n - 1);
    }
    // Whatever the prefix held, the whole still holds: it only grows.
    if newly_achieved(s, n) != prior {
        assert(newly_achieved(s, n) == prior.push(n - 1));
        assert(whole =~= base.push(milestone_id(n - 1)));
        if i == n - 1 {
            assert(whole[whole.len() - 1] == milestone_id(i));
        } else {
            let w = choose|w: int| 0 <= w < base.len() && base[w] == milestone_id(i);
            assert(whole[w] == milestone_id(i));
        }
    } else if i == n - 1 {
        assert(base.contains(milestone_id(i)));
    }
}

/// An achieved milestone is never taken back: a check only adds to the track.
pub proof fn law_milestones_only_grow(s: GameState, t: GameState)
    requires
        milestones_checked(s, t),
    ensures
        views(t.milestones@).take(s.milestones@.len() as int) == views(s.milestones@),
        forall|id: Seq<char>| views(s.milestones@).contains(id) ==> views(t.milestones@).contains(id),
{
    let fresh = newly_achieved(s, MILESTONE_COUNT as int);
    assert(views(t.milestones@).take(s.milestones@.len() as int) =~= views(s.milestones@));
    assert forall|id: Seq<char>| views(s.milestones@).contains(id) implies views(t.milestones@).contains(id) by {
        let w = choose|w: int| 0 <= w < views(s.milestones@).len() && views(s.milestones@)[w] == id;
        assert(views(t.milestones@)[w] == id);
    }
}


/// A milestone check reads the same from two states that agree on the
/// milestones held and on every counter the conditions read.
pub proof fn lemma_newly_same(a: GameState, b: GameState, n: int)
    requires
        a.milestones == b.milestones,
        a.raids_completed == b.raids_completed,
        a.prestige == b.prestige,
        a.total_floors == b.total_floors,
        a.core_powers == b.core_powers,
        a.unlocked_monsters == b.unlocked_monsters,
        a.known_adventurers == b.known_adventurers,
    ensures
        newly_achieved(a, n) == newly_achieved(b, n),
    decreases n,
{
    if n > 0 {
        lemma_newly_same(a, b, n - 1);
        let id = milestone_id(n - 1);
        assert(milestone_met(a, id) == milestone_met(b, id));
    }
}


/// Every milestone of the track has a condition that can be met: a dungeon
/// deep, old, powerful and infamous enough has met them all.
pub proof fn law_every_milestone_wired(s: GameState)
    requires
        s.raids_completed >= 50,
        s.prestige >= ASCENSION_PRESTIGE,
        s.total_floors >= 6,
        s.core_powers.len() >= 6,
        s.unlocked_monsters.len() >= 10,
        s.known_adventurers.len() >= 25,
    ensures
        forall|i: int| 0 <= i < MILESTONE_COUNT ==> milestone_met(s, #[trigger] milestone_id(i)),
{
    reveal_strlit("first_raid");
    reveal_strlit("awakened");
    reveal_strlit("deep_delver");
    reveal_strlit("menagerie");
    reveal_strlit("veteran_keeper");
    reveal_strlit("first_prestige");
    reveal_strlit("abyssal");
    reveal_strlit("empowered");
    reveal_strlit("renowned");
    reveal_strlit("warden");
    reveal_strlit("dread_sovereign");
    reveal_strlit("eternal");
    assert forall|i: int| 0 <= i < MILESTONE_COUNT implies milestone_met(s, #[trigger] milestone_id(i)) by {
        if i == 0 {
        } else if i == 1 {
        } else if i == 2 {
        } else if i == 3 {
        } else if i == 4 {
        } else if i == 5 {
        } else if i == 6 {
        } else if i == 7 {
        } else if i == 8 {
        } else if i == 9 {
        } else if i == 10 {
        } else {
        }
    }
}

/// No two milestones of the track share an id.
proof fn lemma_ids_distinct(i: int, j: int)
    requires
        0 <= i < MILESTONE_COUNT,
        0 <= j < MILESTONE_COUNT,
        i != j,
    ensures
        milestone_id(i) != milestone_id(j),
{
    reveal_strlit("first_raid");
    reveal_strlit("awakened");
    reveal_strlit("deep_delver");
    reveal_strlit("menagerie");
    reveal_strlit("veteran_keeper");
    reveal_strlit("first_prestige");
    reveal_strlit("abyssal");
    reveal_strlit("empowered");
    reveal_strlit("renowned");
    reveal_strlit("warden");
    reveal_strlit("dread_sovereign");
    reveal_strlit("eternal");
    if milestone_id(i) == milestone_id(j) {
        assert(milestone_id(i).len() == milestone_id(j).len());
        assert(milestone_id(i)[0] == milestone_id(j)[0]);
        assert(milestone_id(i)[1] == milestone_id(j)[1]);
        assert(milestone_id(i)[2] == milestone_id(j)[2]);
    }
}

/// A milestone is newly achieved by a check exactly when the keeper does not
/// hold it yet and its condition is met; and the check only names positions
/// it went through.
proof fn lemma_newly_members(s: GameState, n: int)
    requires
        0 <= n <= MILESTONE_COUNT,
    ensures
        forall|k: int| 0 <= k < newly_achieved(s, n).len() ==> 0 <= #[trigger] newly_achieved(s, n)[k] < n,
        forall|i: int|
            0 <= i < n ==> (#[trigger] newly_achieved(s, n).contains(i) <==> (!names_contain(
                s.milestones@,
                milestone_id(i),
            ) && milestone_met(s, milestone_id(i)))),
        newly_achieved(s, n).len() == newly_count(s, n),
    decreases n,
{
    if n > 0 {
        lemma_newly_members(s, n - 1);
        let prior = newly_achieved(s, n - 1);
        let i = n - 1;
        let held = views(s.milestones@) + prior.map_values(|j: int| milestone_id(j));
        assert(held.contains(milestone_id(i)) <==> names_contain(s.milestones@, milestone_id(i))) by {
            if held.contains(milestone_id(i)) {
                let w = choose|w: int| 0 <= w < held.len() && held[w] == milestone_id(i);
                if w < views(s.milestones@).len() {
                    assert(s.milestones@[w]@ == milestone_id(i));
                } else {
                    let k = w - views(s.milestones@).len();
                    assert(held[w] == milestone_id(prior[k]));
                    lemma_ids_distinct(prior[k], i);
                }
            }
            if names_contain(s.milestones@, milestone_id(i)) {
                let w = choose|w: int| 0 <= w < s.milestones@.len() && s.milestones@[w]@ == milestone_id(i);
                assert(held[w] == milestone_id(i));
            }
        }
        let cur = newly_achieved(s, n);
        assert forall|j: int| 0 <= j < n implies (#[trigger] cur.contains(j) <==> (!names_contain(
            s.milestones@,
            milestone_id(j),
        ) && milestone_met(s, milestone_id(j)))) by {
            if j < i {
                assert(prior.contains(j) ==> cur.contains(j)) by {
                    if prior.contains(j) {
                        let w = choose|w: int| 0 <= w < prior.len() && prior[w] == j;
                        assert(cur[w] == j);
                    }
                }
                assert(cur.contains(j) ==> prior.contains(j)) by {
                    if cur.contains(j) {
                        let w = choose|w: int| 0 <= w < cur.len() && cur[w] == j;
                        if w < prior.len() {
                            assert(prior[w] == j);
                        }
                    }
                }
            } else {
                if cur.contains(j) && cur.len() == prior.len() {
                    let w = choose|w: int| 0 <= w < cur.len() && cur[w] == j;
                    assert(prior[w] < n - 1);
                }
                if cur.len() > prior.len() {
                    assert(cur[prior.len() as int] == j);
                }
            }
        }
    }
}

/// How many of the first `n` milestones of the track a check of `s` would
/// newly achieve: those not held yet whose condition is met.
pub open spec fn newly_count(s: GameState, n: int) -> int
    decreases n,
{
    if n <= 0 {
        0
    } else {
        newly_count(s, n - 1) + if !names_contain(s.milestones@, milestone_id(n - 1)) && milestone_met(
            s,
            milestone_id(n - 1),
        ) {
            1int
        } else {
            0int
        }
    }
}

proof fn lemma_counts_add_up(s: GameState, t: GameState, n: int)
    requires
        milestones_checked(s, t),
        0 <= n <= MILESTONE_COUNT,
    ensures
        achieved_among(t.milestones@, n) == achieved_among(s.milestones@, n) + newly_count(s, n),
    decreases n,
{
    if n > 0 {
        lemma_counts_add_up(s, t, n - 1);
        lemma_newly_members(s, MILESTONE_COUNT as int);
        let i = n - 1;
        let fresh = newly_achieved(s, MILESTONE_COUNT as int);
        let ids = views(s.milestones@) + fresh.map_values(|j: int| milestone_id(j));
        assert(views(t.milestones@) == ids);
        assert(names_contain(t.milestones@, milestone_id(i)) <==> (names_contain(s.milestones@, milestone_id(i))
            || fresh.contains(i))) by {
            if names_contain(t.milestones@, milestone_id(i)) {
                let w = choose|w: int| 0 <= w < t.milestones@.len() && t.milestones@[w]@ == milestone_id(i);
                assert(views(t.milestones@)[w] == milestone_id(i));
                if w < views(s.milestones@).len() {
                    assert(s.milestones@[w]@ == milestone_id(i));
                } else {
                    let k = w - views(s.milestones@).len();
                    assert(views(t.milestones@).len() == t.milestones@.len());
                    assert(ids.len() == views(s.milestones@).len() + fresh.len());
                    assert(0 <= k < fresh.len());
                    assert(fresh.map_values(|j: int| milestone_id(j))[k] == milestone_id(fresh[k]));
                    assert(ids[w] == milestone_id(fresh[k]));
                    if fresh[k] != i {
                        lemma_ids_distinct(fresh[k], i);
                    }
                }
            }
            if names_contain(s.milestones@, milestone_id(i)) {
                let w = choose|w: int| 0 <= w < s.milestones@.len() && s.milestones@[w]@ == milestone_id(i);
                assert(ids[w] == milestone_id(i));
                assert(views(t.milestones@).len() == t.milestones@.len());
                assert(views(t.milestones@)[w] == t.milestones@[w]@);
            }
            if fresh.contains(i) {
                let k = choose|k: int| 0 <= k < fresh.len() && fresh[k] == i;
                let w = views(s.milestones@).len() + k;
                assert(fresh.map_values(|j: int| milestone_id(j))[k] == milestone_id(i));
                assert(ids[w] == milestone_id(i));
                assert(views(t.milestones@).len() == t.milestones@.len());
                assert(views(t.milestones@)[w] == t.milestones@[w]@);
            }
        }
    }
}

/// A milestone check counts what it adds: the keeper's achieved count grows
/// by exactly the number of milestones the check reports newly unlocked
/// (each milestone being one the keeper did not hold whose condition is met).
pub proof fn law_check_counts_what_it_adds(s: GameState, t: GameState)
    requires
        milestones_checked(s, t),
    ensures
        achieved_among(t.milestones@, MILESTONE_COUNT as int) == achieved_among(s.milestones@, MILESTONE_COUNT as int)
            + newly_achieved(s, MILESTONE_COUNT as int).len(),
{
    lemma_newly_members(s, MILESTONE_COUNT as int);
    lemma_counts_add_up(s, t, MILESTONE_COUNT as int);
}

/// Each milestone of the track is won exactly at its documented threshold:
/// the first raid, ten raids and fifty; the first ascension, three and ten;
/// three floors and six; the first core power and six; ten forms of
/// monster; twenty-five heroes lured in.
pub proof fn law_milestone_thresholds(s: GameState)
    ensures
        milestone_met(s, "first_raid"@) <==> s.raids_completed >= 1,
        milestone_met(s, "veteran_keeper"@) <==> s.raids_completed >= 10,
        milestone_met(s, "warden"@) <==> s.raids_completed >= 50,
        milestone_met(s, "first_prestige"@) <==> s.prestige >= 1,
        milestone_met(s, "dread_sovereign"@) <==> s.prestige >= 3,
        milestone_met(s, "eternal"@) <==> s.prestige >= 10,
        milestone_met(s, "deep_delver"@) <==> s.total_floors >= 3,
        milestone_met(s, "abyssal"@) <==> s.total_floors >= 6,
        milestone_met(s, "awakened"@) <==> s.core_powers@.len() >= 1,
        milestone_met(s, "empowered"@) <==> s.core_powers@.len() >= 6,
        milestone_met(s, "menagerie"@) <==> s.unlocked_monsters@.len() >= 10,
        milestone_met(s, "renowned"@) <==> s.known_adventurers@.len() >= 25,
{
    reveal_strlit("first_raid");
    reveal_strlit("veteran_keeper");
    reveal_strlit("warden");
    reveal_strlit("first_prestige");
    reveal_strlit("dread_sovereign");
    reveal_strlit("eternal");
    reveal_strlit("deep_delver");
    reveal_strlit("abyssal");
    reveal_strlit("awakened");
    reveal_strlit("empowered");
    reveal_strlit("menagerie");
    reveal_strlit("renowned");
    assert("first_raid"@.len() == 10);
    assert("veteran_keeper"@.len() == 14);
    assert("warden"@.len() == 6);
    assert("first_prestige"@.len() == 14);
    assert("veteran_keeper"@[0] != "first_prestige"@[0]);
    assert("dread_sovereign"@.len() == 15);
    assert("eternal"@.len() == 7);
    assert("deep_delver"@.len() == 11);
    assert("abyssal"@.len() == 7);
    assert("eternal"@[0] != "abyssal"@[0]);
    assert("awakened"@.len() == 8);
    assert("empowered"@.len() == 9);
    assert("menagerie"@.len() == 9);
    assert("empowered"@[0] != "menagerie"@[0]);
    assert("renowned"@.len() == 8);
    assert("awakened"@[0] != "renowned"@[0]);
}

/// Unlocks are permanent: every milestone condition reads only counters
/// that never fall, so a dungeon at least as far along on every one of them
/// meets every milestone the other meets.
pub proof fn law_unlocks_are_permanent(s: GameState, t: GameState, id: Seq<char>)
    requires
        t.raids_completed >= s.raids_completed,
        t.prestige >= s.prestige,
        t.total_floors >= s.total_floors,
        t.core_powers@.len() >= s.core_powers@.len(),
        t.unlocked_monsters@.len() >= s.unlocked_monsters@.len(),
        t.known_adventurers@.len() >= s.known_adventurers@.len(),
        milestone_met(s, id),
    ensures
        milestone_met(t, id),
{
}

} // verus!
