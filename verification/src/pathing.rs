//! Party path-selection on a floor's room graph: how far the Core is, when a
//! party turns desperate, and which exit it takes at a fork.

use vstd::prelude::*;
use crate::state::{Adventurer, AdventurerParty, ExpeditionDoctrine, Floor, GameState, HeroDrive, Monster, Room, RoomType};

verus! {

/// The room at `p` is a Core.
pub open spec fn is_core_at(floor: Floor, p: usize) -> bool {
    floor.has_room(p) && floor.room_of(p).room_type == RoomType::Core
}

/// A party standing at `q` can walk to `p` in one move.
pub open spec fn step(floor: Floor, q: usize, p: usize) -> bool {
    floor.has_room(q) && floor.room_of(q).exits@.contains(p)
}

/// `w` is a walk from `src`: consecutive positions joined by exits, never
/// continuing past a Core (a Core is where a walk ends).
pub open spec fn is_walk(floor: Floor, src: usize, w: Seq<usize>) -> bool {
    &&& w.len() >= 1
    &&& w[0] == src
    &&& forall|i: int|
        0 <= i < w.len() - 1 ==> !is_core_at(floor, #[trigger] w[i]) && step(floor, w[i], w[i + 1])
}

/// `p` can be reached from `src` in exactly `k` moves.
pub open spec fn reach(floor: Floor, src: usize, p: usize, k: nat) -> bool {
    exists|w: Seq<usize>| #[trigger] is_walk(floor, src, w) && w.len() == k + 1 && w.last() == p
}

/// Zero moves reach only the starting position.
pub proof fn lemma_reach_zero(floor: Floor, src: usize)
    ensures
        forall|p: usize| #[trigger] reach(floor, src, p, 0) <==> p == src,
{
    assert forall|p: usize| #[trigger] reach(floor, src, p, 0) <==> p == src by {
        if p == src {
            let w = seq![src];
            assert(is_walk(floor, src, w));
        }
    }
}

/// A walk extends by one move out of a non-Core room.
pub proof fn lemma_reach_extend(floor: Floor, src: usize, q: usize, p: usize, k: nat)
    requires
        reach(floor, src, q, k),
        !is_core_at(floor, q),
        step(floor, q, p),
    ensures
        reach(floor, src, p, k + 1),
{
    let w = choose|w: Seq<usize>| #[trigger] is_walk(floor, src, w) && w.len() == k + 1 && w.last() == q;
    let w2 = w.push(p);
    assert forall|i: int| 0 <= i < w2.len() - 1 implies !is_core_at(floor, #[trigger] w2[i]) && step(
        floor,
        w2[i],
        w2[i + 1],
    ) by {
        if i < w.len() - 1 {
            assert(w2[i] == w[i]);
            assert(w2[i + 1] == w[i + 1]);
        }
    }
    assert(is_walk(floor, src, w2));
}

/// The move before the last one of a walk.
pub proof fn lemma_reach_pred(floor: Floor, src: usize, p: usize, k: nat) -> (q: usize)
    requires
        reach(floor, src, p, k + 1),
    ensures
        reach(floor, src, q, k),
        !is_core_at(floor, q),
        step(floor, q, p),
{
    let w = choose|w: Seq<usize>| #[trigger] is_walk(floor, src, w) && w.len() == k + 2 && w.last() == p;
    let w1 = w.drop_last();
    assert forall|i: int| 0 <= i < w1.len() - 1 implies !is_core_at(floor, #[trigger] w1[i]) && step(
        floor,
        w1[i],
        w1[i + 1],
    ) by {
        assert(w1[i] == w[i]);
        assert(w1[i + 1] == w[i + 1]);
        assert(!is_core_at(floor, w[i]));
    }
    assert(is_walk(floor, src, w1));
    let q = w[k as int];
    assert(!is_core_at(floor, w[k as int]));
    q
}

/// Some Core is exactly `d` moves away from `src`.
pub open spec fn core_at_distance(floor: Floor, src: usize, d: nat) -> bool {
    exists|p: usize| #[trigger] reach(floor, src, p, d) && is_core_at(floor, p)
}

/// `r` is the length of the shortest walk from `src` to a Core, or `None`
/// when no walk reaches one.
pub open spec fn is_core_distance(floor: Floor, src: usize, r: Option<u32>) -> bool {
    match r {
        Some(d) => core_at_distance(floor, src, d as nat) && forall|e: nat|
            e < d ==> !#[trigger] core_at_distance(floor, src, e),
        None => forall|e: nat| !#[trigger] core_at_distance(floor, src, e),
    }
}

/// Every exit target named anywhere on the floor, room by room.
pub open spec fn all_exits(rooms: Seq<Room>) -> Seq<usize>
    decreases rooms.len(),
{
    if rooms.len() == 0 {
        Seq::empty()
    } else {
        all_exits(rooms.drop_last()) + rooms.last().exits@
    }
}

pub proof fn lemma_all_exits_contains(rooms: Seq<Room>, i: int, e: usize)
    requires
        0 <= i < rooms.len(),
        rooms[i].exits@.contains(e),
    ensures
        all_exits(rooms).contains(e),
    decreases rooms.len(),
{
    let prefix = all_exits(rooms.drop_last());
    let tail = rooms.last().exits@;
    if i == rooms.len() - 1 {
        let k = choose|k: int| 0 <= k < tail.len() && tail[k] == e;
        assert((prefix + tail)[prefix.len() + k] == e);
    } else {
        lemma_all_exits_contains(rooms.drop_last(), i, e);
        let k = choose|k: int| 0 <= k < prefix.len() && prefix[k] == e;
        assert((prefix + tail)[k] == e);
    }
}

proof fn lemma_all_exits_prefix(rooms: Seq<Room>, k: int)
    requires
        0 <= k <= rooms.len(),
    ensures
        all_exits(rooms.take(k)).len() <= all_exits(rooms).len(),
    decreases rooms.len() - k,
{
    if k < rooms.len() {
        lemma_all_exits_prefix(rooms, k + 1);
        assert(rooms.take(k + 1).drop_last() =~= rooms.take(k));
    } else {
        assert(rooms.take(k) =~= rooms);
    }
}

/// Is a party's pathing on this floor within the bounds `pathing_bounded`
/// sets (exit count, party size, defenders per room)?
pub fn pathing_within(floor: &Floor, party: &AdventurerParty) -> (r: bool)
    ensures
        r == pathing_bounded(*floor, *party),
{
    let ghost rooms = floor.rooms@;
    if party.members.len() > 1_000_000 {
        return false;
    }
    let mut total: u128 = 0;
    let mut k: usize = 0;
    while k < floor.rooms.len()
        invariant
            rooms == floor.rooms@,
            0 <= k <= rooms.len(),
            total == all_exits(rooms.take(k as int)).len(),
            total < u32::MAX,
            forall|i: int| 0 <= i < k ==> #[trigger] rooms[i].monsters.len() <= 1_000_000,
        decreases rooms.len() - k,
    {
        proof {
            assert(rooms.take(k + 1).drop_last() =~= rooms.take(k as int));
            assert(rooms.take(k + 1).last() == rooms[k as int]);
        }
        total = total + floor.rooms[k].exits.len() as u128;
        if total >= u32::MAX as u128 {
            proof {
                lemma_all_exits_prefix(rooms, k + 1);
            }
            return false;
        }
        if floor.rooms[k].monsters.len() > 1_000_000 {
            return false;
        }
        k = k + 1;
    }
    proof {
        assert(rooms.take(k as int) =~= rooms);
    }
    true
}

/// Membership test on a vector of positions.
pub fn contains_pos(v: &Vec<usize>, x: usize) -> (r: bool)
    ensures
        r == v@.contains(x),
{
    let mut i: usize = 0;
    while i < v.len()
        invariant
            0 <= i <= v.len(),
            forall|j: int| 0 <= j < i ==> v@[j] != x,
        decreases v.len() - i,
    {
        if v[i] == x {
            assert(v@[i as int] == x);
            return true;
        }
        i = i + 1;
    }
    false
}

/// Distance, in rooms, from `pos` to the nearest Core following exits
/// (breadth-first). `None` if no Core is reachable from `pos`.
#[verifier::loop_isolation(false)]
pub fn distance_to_core(floor: &Floor, pos: usize) -> (r: Option<u32>)
    requires
        all_exits(floor.rooms@).len() < u32::MAX,
    ensures
        is_core_distance(*floor, pos, r),
{
    let ghost fl = *floor;
    let ghost cands: Seq<usize> = all_exits(floor.rooms@).push(pos);
    let mut visited: Vec<usize> = Vec::new();
    let mut frontier: Vec<usize> = Vec::new();
    frontier.push(pos);
    let mut dist: u32 = 0;
    proof {
        lemma_reach_zero(fl, pos);
        assert(cands.contains(pos)) by {
            assert(cands[cands.len() - 1] == pos);
        }
        assert forall|p: usize| visited@.contains(p) || frontier@.contains(p) <==> exists|j: nat|
            j <= dist && #[trigger] reach(fl, pos, p, j) by {
            if frontier@.contains(p) {
                assert(reach(fl, pos, p, 0));
            }
            if exists|j: nat| j <= dist && #[trigger] reach(fl, pos, p, j) {
                assert(frontier@[0] == pos);
            }
        }
        assert forall|p: usize| frontier@.contains(p) <==> (reach(fl, pos, p, dist as nat) && forall|
            j: nat,
        | j < dist ==> !#[trigger] reach(fl, pos, p, j)) by {
            if reach(fl, pos, p, dist as nat) {
                assert(frontier@[0] == p);
            }
        }
    }
    loop
        invariant
            fl == *floor,
            cands == all_exits(floor.rooms@).push(pos),
            cands.len() <= u32::MAX,
            visited@.no_duplicates(),
            frontier@.no_duplicates(),
            frontier@.len() > 0,
            forall|p: usize| visited@.contains(p) ==> !frontier@.contains(p),
            forall|p: usize| #[trigger]
                visited@.contains(p) || frontier@.contains(p) ==> cands.contains(p),
            forall|p: usize| visited@.contains(p) ==> !is_core_at(fl, p),
            dist <= visited@.len(),
            forall|p: usize| visited@.contains(p) || frontier@.contains(p) <==> exists|j: nat|
                j <= dist && #[trigger] reach(fl, pos, p, j),
            forall|p: usize| frontier@.contains(p) <==> (reach(fl, pos, p, dist as nat) && forall|
                j: nat,
            | j < dist ==> !#[trigger] reach(fl, pos, p, j)),
        decreases cands.to_set().len() - visited@.len(),
    {
        proof {
            lemma_concat_no_dup(visited@, frontier@);
            assert forall|p: usize| (visited@ + frontier@).contains(p) implies cands.contains(p) by {
                lemma_concat_contains(visited@, frontier@, p);
            }
            lemma_bound_by_candidates(visited@ + frontier@, cands);
        }
        // A Core in this layer is the nearest one.
        let mut i: usize = 0;
        while i < frontier.len()
            invariant
                0 <= i <= frontier.len(),
                forall|k: int| 0 <= k < i ==> !is_core_at(fl, #[trigger] frontier@[k]),
            decreases frontier.len() - i,
        {
            let p = frontier[i];
            match floor.room_idx(p) {
                Some(ri) => {
                    if floor.rooms[ri].room_type == RoomType::Core {
                        proof {
                            assert(frontier@.contains(p));
                            assert(core_at_distance(fl, pos, dist as nat));
                            assert forall|e: nat| e < dist implies !#[trigger] core_at_distance(
                                fl,
                                pos,
                                e,
                            ) by {
                                if core_at_distance(fl, pos, e) {
                                    let c = choose|c: usize|
                                        #[trigger] reach(fl, pos, c, e) && is_core_at(fl, c);
                                    assert(visited@.contains(c) || frontier@.contains(c));
                                }
                            }
                        }
                        return Some(dist);
                    }
                },
                None => {},
            }
            i = i + 1;
        }
        assert(forall|p: usize| frontier@.contains(p) ==> !is_core_at(fl, p));
        // Gather the next layer: every newly reachable position.
        let mut next: Vec<usize> = Vec::new();
        let mut i: usize = 0;
        while i < frontier.len()
            invariant
                0 <= i <= frontier.len(),
                next@.no_duplicates(),
                forall|e: usize| #[trigger]
                    next@.contains(e) ==> !visited@.contains(e) && !frontier@.contains(e)
                        && cands.contains(e) && exists|q: usize|
                        frontier@.contains(q) && #[trigger] step(fl, q, e),
                forall|k: int, e: usize|
                    0 <= k < i && #[trigger] step(fl, frontier@[k], e) ==> visited@.contains(e)
                        || frontier@.contains(e) || next@.contains(e),
            decreases frontier.len() - i,
        {
            let q = frontier[i];
            match floor.room_idx(q) {
                Some(ri) => {
                    let room = &floor.rooms[ri];
                    let mut j: usize = 0;
                    while j < room.exits.len()
                        invariant
                            0 <= j <= room.exits.len(),
                            *room == fl.room_of(q),
                            ri == fl.room_index(q),
                            fl.has_room(q),
                            next@.no_duplicates(),
                            forall|e: usize| #[trigger]
                                next@.contains(e) ==> !visited@.contains(e) && !frontier@.contains(
                                    e,
                                ) && cands.contains(e) && exists|q2: usize|
                                    frontier@.contains(q2) && #[trigger] step(fl, q2, e),
                            forall|k: int, e: usize|
                                0 <= k < i && #[trigger] step(fl, frontier@[k], e)
                                    ==> visited@.contains(e) || frontier@.contains(e)
                                    || next@.contains(e),
                            forall|jj: int|
                                0 <= jj < j ==> visited@.contains(#[trigger] room.exits@[jj])
                                    || frontier@.contains(room.exits@[jj]) || next@.contains(
                                    room.exits@[jj],
                                ),
                        decreases room.exits.len() - j,
                    {
                        let e = room.exits[j];
                        let ghost next_start = next@;
                        if !contains_pos(&visited, e) && !contains_pos(&frontier, e)
                            && !contains_pos(&next, e) {
                            proof {
                                assert(room.exits@.contains(e)) by {
                                    assert(room.exits@[j as int] == e);
                                }
                                assert(step(fl, q, e));
                                assert(frontier@.contains(q)) by {
                                    assert(frontier@[i as int] == q);
                                }
                                lemma_all_exits_contains(fl.rooms@, ri as int, e);
                                assert(cands.contains(e)) by {
                                    let k = choose|k: int|
                                        0 <= k < all_exits(fl.rooms@).len() && all_exits(
                                            fl.rooms@,
                                        )[k] == e;
                                    assert(cands[k] == e);
                                }
                            }
                            next.push(e);
                            let ghost next_before = next_start;
                            proof {
                                assert(next@ == next_before.push(e));
                                assert(next@.last() == e);
                                assert forall|x: usize| #[trigger]
                                    next@.contains(x) implies !visited@.contains(x)
                                    && !frontier@.contains(x) && cands.contains(x) && exists|
                                    q2: usize,
                                | frontier@.contains(q2) && #[trigger] step(fl, q2, x) by {
                                    if x != e {
                                        assert(next_before.contains(x)) by {
                                            let k = choose|k: int|
                                                0 <= k < next@.len() && next@[k] == x;
                                            assert(next_before[k] == x);
                                        }
                                    } else {
                                        assert(frontier@.contains(q) && step(fl, q, x));
                                    }
                                }
                            }
                        }
                        proof {
                            assert(next@ == next_start || next@ == next_start.push(e));
                            assert forall|x: usize| next_start.contains(x) implies next@.contains(x) by {
                                lemma_contains_keeps_after_push(next_start, e, x);
                            }
                            assert(visited@.contains(e) || frontier@.contains(e) || next@.contains(e)) by {
                                lemma_contains_keeps_after_push(next_start, e, e);
                            }
                            assert(room.exits@[j as int] == e);
                        }
                        j = j + 1;
                    }
                    proof {
                        assert forall|k: int, x: usize|
                            0 <= k < i + 1 && #[trigger] step(fl, frontier@[k], x) implies visited@.contains(x)
                            || frontier@.contains(x) || next@.contains(x) by {
                            if k == i {
                                let jj = choose|jj: int|
                                    0 <= jj < room.exits@.len() && room.exits@[jj] == x;
                                assert(visited@.contains(room.exits@[jj]) || frontier@.contains(
                                    room.exits@[jj],
                                ) || next@.contains(room.exits@[jj]));
                            }
                        }
                    }
                },
                None => {
                    proof {
                        assert forall|k: int, x: usize|
                            0 <= k < i + 1 && #[trigger] step(fl, frontier@[k], x) implies visited@.contains(x)
                            || frontier@.contains(x) || next@.contains(x) by {
                            if k == i {
                                assert(!fl.has_room(q));
                            }
                        }
                    }
                },
            }
            i = i + 1;
        }
        if next.len() == 0 {
            proof {
                lemma_closed_layers(fl, pos, visited@, frontier@, dist as nat);
            }
            return None;
        }
        let ghost old_visited = visited@;
        let ghost old_frontier = frontier@;
        proof {
            lemma_next_layer(fl, pos, visited@, frontier@, next@, dist as nat, cands);
        }
        let mut moved: Vec<usize> = Vec::new();
        std::mem::swap(&mut moved, &mut frontier);
        let mut k: usize = 0;
        while k < moved.len()
            invariant
                0 <= k <= moved.len(),
                moved@ == old_frontier,
                visited@ == old_visited + moved@.subrange(0, k as int),
            decreases moved.len() - k,
        {
            visited.push(moved[k]);
            proof {
                assert(moved@.subrange(0, k + 1) =~= moved@.subrange(0, k as int).push(
                    moved@[k as int],
                ));
                assert(visited@ =~= old_visited + moved@.subrange(0, k + 1));
            }
            k = k + 1;
        }
        proof {
            assert(moved@.subrange(0, moved@.len() as int) =~= moved@);
            assert(visited@ =~= old_visited + old_frontier);
        }
        frontier = next;
        dist = dist + 1;
    }
}

/// Membership in a concatenation is membership in either part.
pub proof fn lemma_concat_contains(a: Seq<usize>, b: Seq<usize>, p: usize)
    ensures
        (a + b).contains(p) <==> a.contains(p) || b.contains(p),
{
    if (a + b).contains(p) {
        let k = choose|k: int| 0 <= k < (a + b).len() && (a + b)[k] == p;
        if k < a.len() {
            assert(a[k] == p);
        } else {
            assert(b[k - a.len()] == p);
        }
    }
    if a.contains(p) {
        let k = choose|k: int| 0 <= k < a.len() && a[k] == p;
        assert((a + b)[k] == p);
    }
    if b.contains(p) {
        let k = choose|k: int| 0 <= k < b.len() && b[k] == p;
        assert((a + b)[a.len() + k] == p);
    }
}

/// Two duplicate-free, disjoint sequences concatenate without duplicates.
pub proof fn lemma_concat_no_dup(a: Seq<usize>, b: Seq<usize>)
    requires
        a.no_duplicates(),
        b.no_duplicates(),
        forall|p: usize| a.contains(p) ==> !b.contains(p),
    ensures
        (a + b).no_duplicates(),
{
    let c = a + b;
    assert forall|i: int, j: int| 0 <= i < c.len() && 0 <= j < c.len() && i != j implies c[i]
        != c[j] by {
        if i < a.len() && j >= a.len() {
            assert(a.contains(c[i]));
            assert(b.contains(c[j]) ) by { assert(b[j - a.len()] == c[j]); }
        } else if j < a.len() && i >= a.len() {
            assert(a.contains(c[j]));
            assert(b.contains(c[i])) by { assert(b[i - a.len()] == c[i]); }
        } else if i >= a.len() && j >= a.len() {
            assert(b[i - a.len()] == c[i]);
            assert(b[j - a.len()] == c[j]);
        }
    }
}

/// A duplicate-free sequence drawn from `cands` is no longer than `cands`
/// has distinct members.
pub proof fn lemma_bound_by_candidates(s: Seq<usize>, cands: Seq<usize>)
    requires
        s.no_duplicates(),
        forall|p: usize| s.contains(p) ==> cands.contains(p),
    ensures
        s.len() <= cands.to_set().len(),
        cands.to_set().len() <= cands.len(),
{
    s.unique_seq_to_set();
    cands.lemma_cardinality_of_set();
    assert(s.to_set().subset_of(cands.to_set()));
    vstd::set_lib::lemma_len_subset(s.to_set(), cands.to_set());
}

/// Adding an element to a sequence keeps every earlier member.
proof fn lemma_contains_keeps_after_push(s: Seq<usize>, e: usize, x: usize)
    ensures
        s.contains(x) ==> s.push(e).contains(x),
        s.push(e).contains(e),
{
    if s.contains(x) {
        let k = choose|k: int| 0 <= k < s.len() && s[k] == x;
        assert(s.push(e)[k] == x);
    }
    assert(s.push(e)[s.len() as int] == e);
}

/// When a layer adds nothing new, every walk stays inside the visited layers,
/// none of which holds a Core.
proof fn lemma_closed_layers(
    fl: Floor,
    pos: usize,
    visited: Seq<usize>,
    frontier: Seq<usize>,
    dist: nat,
)
    requires
        forall|p: usize| visited.contains(p) ==> !frontier.contains(p),
        forall|p: usize| visited.contains(p) ==> !is_core_at(fl, p),
        forall|p: usize| frontier.contains(p) ==> !is_core_at(fl, p),
        forall|p: usize| visited.contains(p) || frontier.contains(p) <==> exists|j: nat|
            j <= dist && #[trigger] reach(fl, pos, p, j),
        forall|p: usize| frontier.contains(p) <==> (reach(fl, pos, p, dist) && forall|j: nat|
            j < dist ==> !#[trigger] reach(fl, pos, p, j)),
        forall|k: int, e: usize|
            0 <= k < frontier.len() && #[trigger] step(fl, frontier[k], e) ==> visited.contains(e)
                || frontier.contains(e),
    ensures
        forall|e: nat| !#[trigger] core_at_distance(fl, pos, e),
{
    assert forall|n: nat, p: usize| #[trigger] reach(fl, pos, p, n) implies visited.contains(p)
        || frontier.contains(p) by {
        lemma_reach_stays_inside(fl, pos, visited, frontier, dist, n, p);
    }
    assert forall|e: nat| !#[trigger] core_at_distance(fl, pos, e) by {
        if core_at_distance(fl, pos, e) {
            let c = choose|c: usize| #[trigger] reach(fl, pos, c, e) && is_core_at(fl, c);
            assert(visited.contains(c) || frontier.contains(c));
        }
    }
}

proof fn lemma_reach_stays_inside(
    fl: Floor,
    pos: usize,
    visited: Seq<usize>,
    frontier: Seq<usize>,
    dist: nat,
    n: nat,
    p: usize,
)
    requires
        forall|p: usize| visited.contains(p) ==> !frontier.contains(p),
        forall|p: usize| visited.contains(p) || frontier.contains(p) <==> exists|j: nat|
            j <= dist && #[trigger] reach(fl, pos, p, j),
        forall|p: usize| frontier.contains(p) <==> (reach(fl, pos, p, dist) && forall|j: nat|
            j < dist ==> !#[trigger] reach(fl, pos, p, j)),
        forall|k: int, e: usize|
            0 <= k < frontier.len() && #[trigger] step(fl, frontier[k], e) ==> visited.contains(e)
                || frontier.contains(e),
        reach(fl, pos, p, n),
    ensures
        visited.contains(p) || frontier.contains(p),
    decreases n,
{
    if n <= dist {
        assert(exists|j: nat| j <= dist && #[trigger] reach(fl, pos, p, j));
    } else {
        let q = lemma_reach_pred(fl, pos, p, (n - 1) as nat);
        lemma_reach_stays_inside(fl, pos, visited, frontier, dist, (n - 1) as nat, q);
        if frontier.contains(q) {
            let k = choose|k: int| 0 <= k < frontier.len() && frontier[k] == q;
            assert(step(fl, frontier[k], p));
        } else {
            let j = choose|j: nat| j <= dist && #[trigger] reach(fl, pos, q, j);
            let j2: nat = if j < dist {
                j
            } else {
                choose|j2: nat| j2 < dist && #[trigger] reach(fl, pos, q, j2)
            };
            lemma_reach_extend(fl, pos, q, p, j2);
            assert(exists|j: nat| j <= dist && #[trigger] reach(fl, pos, p, j));
        }
    }
}

/// The positions gathered from the current layer are exactly the next layer.
proof fn lemma_next_layer(
    fl: Floor,
    pos: usize,
    visited: Seq<usize>,
    frontier: Seq<usize>,
    next: Seq<usize>,
    dist: nat,
    cands: Seq<usize>,
)
    requires
        visited.no_duplicates(),
        frontier.no_duplicates(),
        next.no_duplicates(),
        next.len() > 0,
        dist <= visited.len(),
        frontier.len() > 0,
        forall|p: usize| visited.contains(p) ==> !frontier.contains(p),
        forall|p: usize| visited.contains(p) ==> !is_core_at(fl, p),
        forall|p: usize| frontier.contains(p) ==> !is_core_at(fl, p),
        forall|p: usize| #[trigger]
            visited.contains(p) || frontier.contains(p) ==> cands.contains(p),
        forall|p: usize| visited.contains(p) || frontier.contains(p) <==> exists|j: nat|
            j <= dist && #[trigger] reach(fl, pos, p, j),
        forall|p: usize| frontier.contains(p) <==> (reach(fl, pos, p, dist) && forall|j: nat|
            j < dist ==> !#[trigger] reach(fl, pos, p, j)),
        forall|e: usize| #[trigger]
            next.contains(e) ==> !visited.contains(e) && !frontier.contains(e) && cands.contains(e)
                && exists|q: usize| frontier.contains(q) && #[trigger] step(fl, q, e),
        forall|k: int, e: usize|
            0 <= k < frontier.len() && #[trigger] step(fl, frontier[k], e) ==> visited.contains(e)
                || frontier.contains(e) || next.contains(e),
    ensures
        ({
            let vf = visited + frontier;
            &&& vf.no_duplicates()
            &&& forall|p: usize| vf.contains(p) ==> !next.contains(p)
            &&& forall|p: usize| #[trigger] vf.contains(p) || next.contains(p) ==> cands.contains(p)
            &&& forall|p: usize| vf.contains(p) ==> !is_core_at(fl, p)
            &&& dist + 1 <= vf.len()
            &&& forall|p: usize| vf.contains(p) || next.contains(p) <==> exists|j: nat|
                j <= dist + 1 && #[trigger] reach(fl, pos, p, j)
            &&& forall|p: usize| next.contains(p) <==> (reach(fl, pos, p, dist + 1) && forall|j: nat|
                j < dist + 1 ==> !#[trigger] reach(fl, pos, p, j))
        }),
{
    let vf = visited + frontier;
    lemma_concat_no_dup(visited, frontier);
    assert forall|p: usize| vf.contains(p) <==> visited.contains(p) || frontier.contains(p) by {
        lemma_concat_contains(visited, frontier, p);
    }
    assert forall|p: usize| next.contains(p) <==> (reach(fl, pos, p, dist + 1) && forall|j: nat|
        j < dist + 1 ==> !#[trigger] reach(fl, pos, p, j)) by {
        if next.contains(p) {
            let q = choose|q: usize| frontier.contains(q) && #[trigger] step(fl, q, p);
            assert(reach(fl, pos, q, dist));
            lemma_reach_extend(fl, pos, q, p, dist);
            assert forall|j: nat| j < dist + 1 implies !#[trigger] reach(fl, pos, p, j) by {
                if reach(fl, pos, p, j) {
                    assert(exists|jj: nat| jj <= dist && #[trigger] reach(fl, pos, p, jj));
                }
            }
        }
        if reach(fl, pos, p, dist + 1) && forall|j: nat| j < dist + 1 ==> !#[trigger] reach(
            fl,
            pos,
            p,
            j,
        ) {
            let q = lemma_reach_pred(fl, pos, p, dist);
            assert(visited.contains(q) || frontier.contains(q));
            if !frontier.contains(q) {
                let j2 = choose|j2: nat| j2 < dist && #[trigger] reach(fl, pos, q, j2);
                lemma_reach_extend(fl, pos, q, p, j2);
            }
            let k = choose|k: int| 0 <= k < frontier.len() && frontier[k] == q;
            assert(step(fl, frontier[k], p));
            if visited.contains(p) || frontier.contains(p) {
                let jj = choose|jj: nat| jj <= dist && #[trigger] reach(fl, pos, p, jj);
            }
        }
    }
    assert forall|p: usize| vf.contains(p) || next.contains(p) <==> exists|j: nat|
        j <= dist + 1 && #[trigger] reach(fl, pos, p, j) by {
        if vf.contains(p) {
            let j = choose|j: nat| j <= dist && #[trigger] reach(fl, pos, p, j);
        }
        if next.contains(p) {
            assert(reach(fl, pos, p, dist + 1));
        }
        if exists|j: nat| j <= dist + 1 && #[trigger] reach(fl, pos, p, j) {
            let j = choose|j: nat| j <= dist + 1 && #[trigger] reach(fl, pos, p, j);
            if j <= dist {
                assert(visited.contains(p) || frontier.contains(p));
            } else if !vf.contains(p) {
                assert forall|jj: nat| jj < dist + 1 implies !#[trigger] reach(fl, pos, p, jj) by {
                    if reach(fl, pos, p, jj) {
                        assert(visited.contains(p) || frontier.contains(p));
                    }
                }
            }
        }
    }
    assert forall|p: usize| #[trigger] vf.contains(p) || next.contains(p) implies cands.contains(p) by {
        if vf.contains(p) {
            assert(visited.contains(p) || frontier.contains(p));
        }
    }
}

/// The shortest distance to a Core as the specification defines it.
pub open spec fn core_distance(floor: Floor, src: usize) -> Option<u32> {
    choose|r: Option<u32>| is_core_distance(floor, src, r)
}

/// Only one answer meets the shortest-distance specification.
pub proof fn lemma_core_distance_unique(floor: Floor, src: usize, r: Option<u32>)
    requires
        is_core_distance(floor, src, r),
    ensures
        core_distance(floor, src) == r,
{
    let c = core_distance(floor, src);
    assert(is_core_distance(floor, src, c));
    match (r, c) {
        (Some(a), Some(b)) => {
            if a < b {
                assert(core_at_distance(floor, src, a as nat));
            } else if b < a {
                assert(core_at_distance(floor, src, b as nat));
            }
        },
        (Some(a), None) => {
            assert(core_at_distance(floor, src, a as nat));
        },
        (None, Some(b)) => {
            assert(core_at_distance(floor, src, b as nat));
        },
        (None, None) => {},
    }
}

/// Threat tier at which adventurers turn desperate and beeline for the Core.
pub const BEELINE_THREAT_TIER: i32 = 3;

/// A party rushes the Core during a siege, at high realm threat, or on a
/// relic hunt.
pub open spec fn beelining(state: GameState, party: AdventurerParty) -> bool {
    party.sieging || state.spec_threat_tier() >= BEELINE_THREAT_TIER || party.doctrine
        == ExpeditionDoctrine::RelicHunt
}

/// Is this party in beeline (rush-the-Core) mode?
pub fn is_beelining(state: &GameState, party: &AdventurerParty) -> (r: bool)
    ensures
        r == beelining(*state, *party),
{
    party.sieging || state.threat_tier() >= BEELINE_THREAT_TIER || party.doctrine
        == ExpeditionDoctrine::RelicHunt
}

/// The reason a party gives for its next move out of a room with `exits`.
pub open spec fn reason_for(state: GameState, party: AdventurerParty, exits: Seq<usize>) -> Seq<char> {
    if exits.len() <= 1 {
        "following the only route"@
    } else if beelining(state, party) {
        "beelining for the Core"@
    } else {
        "weighing loot, danger, and personal ambitions"@
    }
}

/// Player-facing reason for the party's next fork choice, derived from the
/// same state `choose_exit` reads so the two never disagree.
pub fn choice_reason(state: &GameState, party: &AdventurerParty, exits: &[usize]) -> (r: &'static str)
    ensures
        r@ == reason_for(*state, *party, exits@),
{
    if exits.len() <= 1 {
        "following the only route"
    } else if is_beelining(state, party) {
        "beelining for the Core"
    } else {
        "weighing loot, danger, and personal ambitions"
    }
}

/// Living party members driven by `drive`.
pub open spec fn drive_count(members: Seq<Adventurer>, drive: HeroDrive) -> int
    decreases members.len(),
{
    if members.len() == 0 {
        0
    } else {
        drive_count(members.drop_last(), drive) + if members.last().alive && members.last().drive
            == drive {
            1int
        } else {
            0int
        }
    }
}

/// Summed attack of the living monsters.
pub open spec fn living_attack(monsters: Seq<Monster>) -> int
    decreases monsters.len(),
{
    if monsters.len() == 0 {
        0
    } else {
        living_attack(monsters.drop_last()) + if monsters.last().alive {
            monsters.last().scaled_stats.attack as int
        } else {
            0int
        }
    }
}

/// Below every appeal a real room can have: a position without a room.
pub const NO_APPEAL: i128 = -0x1000_0000_0000_0000_0000_0000_0000;

/// How appealing the room at `pos` is to a greedy party, in hundredths: loot
/// pulls (harder for fortune-seekers), visible defenders push (unless glory
/// calls), nearness to the Core gently breaks ties (more for the curious),
/// and the expedition's doctrine adds its own pull.
pub open spec fn appeal(floor: Floor, party: AdventurerParty, pos: usize) -> int {
    if !floor.has_room(pos) {
        NO_APPEAL as int
    } else {
        let room = floor.room_of(pos);
        let loot = room.loot as int;
        let threat = living_attack(room.monsters@);
        let bias = match core_distance(floor, pos) {
            Some(d) => -50 * (d as int),
            None => 0,
        };
        let members = party.members@;
        let fortune = drive_count(members, HeroDrive::Fortune);
        let glory = drive_count(members, HeroDrive::Glory);
        let discovery = drive_count(members, HeroDrive::Discovery);
        let depth_pull = bias * (1 + discovery);
        let doctrine_pull = match party.doctrine {
            ExpeditionDoctrine::Profit => 55 * loot,
            ExpeditionDoctrine::Vengeance => 85 * threat,
            ExpeditionDoctrine::RelicHunt => -depth_pull * 4 / 5,
            ExpeditionDoctrine::Survey => 0,
        };
        loot * (100 + 40 * fortune) + threat * (125 * glory - 100) + depth_pull + doctrine_pull
    }
}

/// Sizes the pathing arithmetic is proved for.
pub open spec fn pathing_bounded(floor: Floor, party: AdventurerParty) -> bool {
    &&& all_exits(floor.rooms@).len() < u32::MAX
    &&& party.members.len() <= 1_000_000
    &&& forall|i: int| 0 <= i < floor.rooms.len() ==> #[trigger] floor.rooms[i].monsters.len() <= 1_000_000
}

fn count_drive(members: &Vec<Adventurer>, drive: HeroDrive) -> (r: i128)
    requires
        members.len() <= 1_000_000,
    ensures
        r == drive_count(members@, drive),
        0 <= r <= members.len(),
{
    let mut n: i128 = 0;
    let mut i: usize = 0;
    while i < members.len()
        invariant
            0 <= i <= members.len(),
            members.len() <= 1_000_000,
            n == drive_count(members@.subrange(0, i as int), drive),
            0 <= n <= i,
        decreases members.len() - i,
    {
        proof {
            assert(members@.subrange(0, i + 1).drop_last() =~= members@.subrange(0, i as int));
        }
        if members[i].alive && members[i].drive == drive {
            n = n + 1;
        }
        i = i + 1;
    }
    proof {
        assert(members@.subrange(0, i as int) =~= members@);
    }
    n
}

fn sum_living_attack(monsters: &Vec<Monster>) -> (r: i128)
    requires
        monsters.len() <= 1_000_000,
    ensures
        r == living_attack(monsters@),
        -0x8000_0000 * monsters.len() <= r <= 0x8000_0000 * monsters.len(),
{
    let mut total: i128 = 0;
    let mut i: usize = 0;
    while i < monsters.len()
        invariant
            0 <= i <= monsters.len(),
            monsters.len() <= 1_000_000,
            total == living_attack(monsters@.subrange(0, i as int)),
            -0x8000_0000 * i <= total <= 0x8000_0000 * i,
        decreases monsters.len() - i,
    {
        proof {
            assert(monsters@.subrange(0, i + 1).drop_last() =~= monsters@.subrange(0, i as int));
        }
        if monsters[i].alive {
            total = total + monsters[i].scaled_stats.attack as i128;
        }
        i = i + 1;
    }
    proof {
        assert(monsters@.subrange(0, i as int) =~= monsters@);
    }
    total
}

/// The appeal of the room at `pos`, as `appeal` defines it.
fn appeal_of(floor: &Floor, party: &AdventurerParty, pos: usize) -> (r: i128)
    requires
        pathing_bounded(*floor, *party),
    ensures
        r == appeal(*floor, *party, pos),
{
    let ri = match floor.room_idx(pos) {
        Some(ri) => ri,
        None => return NO_APPEAL,
    };
    let room = &floor.rooms[ri];
    let loot = room.loot as i128;
    let threat = sum_living_attack(&room.monsters);
    let dist = distance_to_core(floor, pos);
    proof {
        lemma_core_distance_unique(*floor, pos, dist);
    }
    let bias: i128 = match dist {
        Some(d) => {
            let dd = d as i128;
            0 - 50 * dd
        },
        None => 0,
    };
    assert(-50 * 0x1_0000_0000 <= bias <= 0);
    let fortune = count_drive(&party.members, HeroDrive::Fortune);
    let glory = count_drive(&party.members, HeroDrive::Glory);
    let discovery = count_drive(&party.members, HeroDrive::Discovery);
    assert(-0x8000_0000 * 40_000_100 <= loot * (100 + 40 * fortune) <= 0x8000_0000 * 40_000_100) by (nonlinear_arith)
        requires
            -0x8000_0000 <= loot < 0x8000_0000,
            0 <= fortune <= 1_000_000,
    ;
    assert(-0x8000_0000 * 1_000_000 * 125_000_100 <= threat * (125 * glory - 100)
        <= 0x8000_0000 * 1_000_000 * 125_000_100) by (nonlinear_arith)
        requires
            -0x8000_0000 * 1_000_000 <= threat <= 0x8000_0000 * 1_000_000,
            0 <= glory <= 1_000_000,
    ;
    assert(-50 * 0x1_0000_0000 * 1_000_001 <= bias * (1 + discovery) <= 0) by (nonlinear_arith)
        requires
            -50 * 0x1_0000_0000 <= bias <= 0,
            0 <= discovery <= 1_000_000,
    ;
    let depth_pull = bias * (1 + discovery);
    let doctrine_pull: i128 = match party.doctrine {
        ExpeditionDoctrine::Profit => 55 * loot,
        ExpeditionDoctrine::Vengeance => 85 * threat,
        ExpeditionDoctrine::RelicHunt => -depth_pull * 4 / 5,
        ExpeditionDoctrine::Survey => 0,
    };
    loot * (100 + 40 * fortune) + threat * (125 * glory - 100) + depth_pull + doctrine_pull
}

/// What a beelining party ranks a position by: its distance to the Core, an
/// unreachable Core counting as farthest.
pub open spec fn nearness_key(floor: Floor, pos: usize) -> int {
    match core_distance(floor, pos) {
        Some(d) => d as int,
        None => u32::MAX as int,
    }
}

/// `i` is the first of the exits nearest the Core.
pub open spec fn is_first_nearest(floor: Floor, exits: Seq<usize>, i: int) -> bool {
    &&& 0 <= i < exits.len()
    &&& forall|j: int| 0 <= j < exits.len() ==> nearness_key(floor, exits[i]) <= nearness_key(floor, #[trigger] exits[j])
    &&& forall|j: int| 0 <= j < i ==> nearness_key(floor, exits[i]) < nearness_key(floor, #[trigger] exits[j])
}

/// `i` is the last of the exits a greedy party finds most appealing.
pub open spec fn is_last_most_appealing(floor: Floor, party: AdventurerParty, exits: Seq<usize>, i: int) -> bool {
    &&& 0 <= i < exits.len()
    &&& forall|j: int| 0 <= j < exits.len() ==> appeal(floor, party, #[trigger] exits[j]) <= appeal(floor, party, exits[i])
    &&& forall|j: int| i < j < exits.len() ==> appeal(floor, party, #[trigger] exits[j]) < appeal(floor, party, exits[i])
}

/// `r` is the exit a party takes from `exits`: a single exit as-is; at a
/// fork, for a beelining party the first branch nearest the Core, and for a
/// greedy one the last branch it finds most appealing; 0 when there is none.
pub open spec fn exit_chosen(state: GameState, floor: Floor, party: AdventurerParty, exits: Seq<usize>, r: usize) -> bool {
    &&& exits.len() == 0 ==> r == 0
    &&& exits.len() == 1 ==> r == exits[0]
    &&& exits.len() >= 2 && beelining(state, party) ==> exists|i: int|
        is_first_nearest(floor, exits, i) && r == exits[i]
    &&& exits.len() >= 2 && !beelining(state, party) ==> exists|i: int|
        is_last_most_appealing(floor, party, exits, i) && r == exits[i]
}

/// Choose which exit a party takes. A single exit is taken as-is; at a fork a
/// beelining party takes the first branch nearest the Core, and a greedy one
/// the last branch it finds most appealing. An empty list yields 0 (callers
/// treat an exit-less room as the Core sink and never ask).
pub fn choose_exit(
    state: &GameState,
    floor: &Floor,
    party: &AdventurerParty,
    exits: &[usize],
) -> (r: usize)
    requires
        pathing_bounded(*floor, *party),
    ensures
        exit_chosen(*state, *floor, *party, exits@, r),
{
    let n = exits.len();
    if n == 0 {
        return 0;
    }
    if n == 1 {
        return exits[0];
    }
    if is_beelining(state, party) {
        let mut best: usize = 0;
        let d0 = distance_to_core(floor, exits[0]);
        proof {
            lemma_core_distance_unique(*floor, exits@[0], d0);
        }
        let mut best_key: u32 = match d0 {
            Some(d) => d,
            None => u32::MAX,
        };
        let mut i: usize = 1;
        while i < n
            invariant
                1 <= i <= n,
                n == exits@.len(),
                pathing_bounded(*floor, *party),
                0 <= best < i,
                best_key as int == nearness_key(*floor, exits@[best as int]),
                forall|j: int| 0 <= j < i ==> best_key <= nearness_key(*floor, #[trigger] exits@[j]),
                forall|j: int| 0 <= j < best ==> best_key < nearness_key(*floor, #[trigger] exits@[j]),
            decreases n - i,
        {
            let d = distance_to_core(floor, exits[i]);
            proof {
                lemma_core_distance_unique(*floor, exits@[i as int], d);
            }
            let key: u32 = match d {
                Some(d) => d,
                None => u32::MAX,
            };
            if key < best_key {
                best = i;
                best_key = key;
            }
            i = i + 1;
        }
        proof {
            assert(is_first_nearest(*floor, exits@, best as int));
        }
        exits[best]
    } else {
        let mut best: usize = 0;
        let mut best_appeal = appeal_of(floor, party, exits[0]);
        let mut i: usize = 1;
        while i < n
            invariant
                1 <= i <= n,
                n == exits@.len(),
                pathing_bounded(*floor, *party),
                0 <= best < i,
                best_appeal == appeal(*floor, *party, exits@[best as int]),
                forall|j: int| 0 <= j < i ==> appeal(*floor, *party, #[trigger] exits@[j]) <= best_appeal,
                forall|j: int| best < j < i ==> appeal(*floor, *party, #[trigger] exits@[j]) < best_appeal,
            decreases n - i,
        {
            let a = appeal_of(floor, party, exits[i]);
            if a >= best_appeal {
                best = i;
                best_appeal = a;
            }
            i = i + 1;
        }
        proof {
            assert(is_last_most_appealing(*floor, *party, exits@, best as int));
        }
        exits[best]
    }
}

/// The reason a party gives never disagrees with the exit it takes: out of
/// a single exit it follows the only route; at a fork, when it says it is
/// beelining it takes the first branch nearest the Core, and when it says it
/// is weighing its options it takes the last branch it finds most appealing.
pub proof fn law_reason_matches_choice(
    state: GameState,
    floor: Floor,
    party: AdventurerParty,
    exits: Seq<usize>,
    r: usize,
)
    requires
        exit_chosen(state, floor, party, exits, r),
    ensures
        exits.len() == 1 ==> reason_for(state, party, exits) == "following the only route"@ && r == exits[0],
        exits.len() >= 2 && reason_for(state, party, exits) == "beelining for the Core"@ ==> exists|i: int|
            is_first_nearest(floor, exits, i) && r == exits[i],
        exits.len() >= 2 && reason_for(state, party, exits)
            == "weighing loot, danger, and personal ambitions"@ ==> exists|i: int|
            is_last_most_appealing(floor, party, exits, i) && r == exits[i],
{
    reveal_strlit("beelining for the Core");
    reveal_strlit("weighing loot, danger, and personal ambitions");
    assert("beelining for the Core"@.len() == 22);
    assert("weighing loot, danger, and personal ambitions"@.len() == 45);
}

/// Visible defenders push a party that no living member leads to glory: of
/// two rooms alike in loot and in distance to the Core, the one whose living
/// defenders strike harder is strictly less appealing, whatever the
/// expedition's doctrine.
pub proof fn law_defenders_repel_the_unglorious(floor: Floor, party: AdventurerParty, guarded: usize, open: usize)
    requires
        floor.has_room(guarded),
        floor.has_room(open),
        drive_count(party.members@, HeroDrive::Glory) == 0,
        floor.room_of(guarded).loot == floor.room_of(open).loot,
        core_distance(floor, guarded) == core_distance(floor, open),
        living_attack(floor.room_of(guarded).monsters@) > living_attack(floor.room_of(open).monsters@),
    ensures
        appeal(floor, party, guarded) < appeal(floor, party, open),
{
    let glory = drive_count(party.members@, HeroDrive::Glory);
    let tg = living_attack(floor.room_of(guarded).monsters@);
    let to = living_attack(floor.room_of(open).monsters@);
    assert(tg * (125 * glory - 100) == -100 * tg) by (nonlinear_arith)
        requires
            glory == 0,
    ;
    assert(to * (125 * glory - 100) == -100 * to) by (nonlinear_arith)
        requires
            glory == 0,
    ;
}

/// A greedy party with no glory-seeker is wary of a defended path: at a fork
/// between two branches alike in loot and in distance to the Core, where
/// one holds living defenders that strike and the other holds none that do,
/// it takes the other.
pub proof fn law_wary_of_a_defended_path(
    state: GameState,
    floor: Floor,
    party: AdventurerParty,
    exits: Seq<usize>,
    guarded: usize,
    open: usize,
    r: usize,
)
    requires
        exits == seq![guarded, open] || exits == seq![open, guarded],
        !beelining(state, party),
        floor.has_room(guarded),
        floor.has_room(open),
        drive_count(party.members@, HeroDrive::Glory) == 0,
        floor.room_of(guarded).loot == floor.room_of(open).loot,
        core_distance(floor, guarded) == core_distance(floor, open),
        living_attack(floor.room_of(guarded).monsters@) > living_attack(floor.room_of(open).monsters@),
        exit_chosen(state, floor, party, exits, r),
    ensures
        r == open,
{
    law_defenders_repel_the_unglorious(floor, party, guarded, open);
    let i = choose|i: int| is_last_most_appealing(floor, party, exits, i) && r == exits[i];
    assert(is_last_most_appealing(floor, party, exits, i));
    if exits[i] == guarded {
        if exits == seq![guarded, open] {
            assert(appeal(floor, party, exits[1]) <= appeal(floor, party, exits[i]));
        } else {
            assert(appeal(floor, party, exits[0]) <= appeal(floor, party, exits[i]));
        }
    }
    assert(exits[i] == guarded || exits[i] == open);
}

/// Loot draws every party: of two rooms alike in defenders and in distance
/// to the Core, the richer one is strictly more appealing.
pub proof fn law_loot_draws(floor: Floor, party: AdventurerParty, rich: usize, poor: usize)
    requires
        floor.has_room(rich),
        floor.has_room(poor),
        floor.room_of(rich).loot > floor.room_of(poor).loot,
        living_attack(floor.room_of(rich).monsters@) == living_attack(floor.room_of(poor).monsters@),
        core_distance(floor, rich) == core_distance(floor, poor),
    ensures
        appeal(floor, party, poor) < appeal(floor, party, rich),
{
    let fortune = drive_count(party.members@, HeroDrive::Fortune);
    lemma_drive_count_nonnegative(party.members@, HeroDrive::Fortune);
    let lr = floor.room_of(rich).loot as int;
    let lp = floor.room_of(poor).loot as int;
    assert(lp * (100 + 40 * fortune) < lr * (100 + 40 * fortune)) by (nonlinear_arith)
        requires
            lp < lr,
            fortune >= 0,
    ;
}

/// Glory calls its seekers toward danger: for a party with a living
/// glory-seeker, of two rooms alike in loot and in distance to the Core,
/// the one whose living defenders strike harder is strictly more appealing.
pub proof fn law_glory_seeks_danger(floor: Floor, party: AdventurerParty, guarded: usize, open: usize)
    requires
        floor.has_room(guarded),
        floor.has_room(open),
        drive_count(party.members@, HeroDrive::Glory) >= 1,
        floor.room_of(guarded).loot == floor.room_of(open).loot,
        core_distance(floor, guarded) == core_distance(floor, open),
        living_attack(floor.room_of(guarded).monsters@) > living_attack(floor.room_of(open).monsters@),
    ensures
        appeal(floor, party, open) < appeal(floor, party, guarded),
{
    let glory = drive_count(party.members@, HeroDrive::Glory);
    let tg = living_attack(floor.room_of(guarded).monsters@);
    let to = living_attack(floor.room_of(open).monsters@);
    assert(to * (125 * glory - 100) < tg * (125 * glory - 100)) by (nonlinear_arith)
        requires
            glory >= 1,
            to < tg,
    ;
}

/// Nearness to the Core draws: of two rooms alike in loot and in
/// defenders, both with a way to the Core, the nearer one is strictly more
/// appealing.
pub proof fn law_nearer_the_core_draws(floor: Floor, party: AdventurerParty, near: usize, far: usize)
    requires
        floor.has_room(near),
        floor.has_room(far),
        floor.room_of(near).loot == floor.room_of(far).loot,
        living_attack(floor.room_of(near).monsters@) == living_attack(floor.room_of(far).monsters@),
        core_distance(floor, near) is Some,
        core_distance(floor, far) is Some,
        core_distance(floor, near)->0 < core_distance(floor, far)->0,
    ensures
        appeal(floor, party, far) < appeal(floor, party, near),
{
    let discovery = drive_count(party.members@, HeroDrive::Discovery);
    lemma_drive_count_nonnegative(party.members@, HeroDrive::Discovery);
    let dn = core_distance(floor, near)->0 as int;
    let df = core_distance(floor, far)->0 as int;
    let bn = -50 * dn;
    let bf = -50 * df;
    let pn = dn * (1 + discovery);
    let pf = df * (1 + discovery);
    assert(bn * (1 + discovery) == -50 * pn) by (nonlinear_arith)
        requires
            bn == -50 * dn,
            pn == dn * (1 + discovery),
    ;
    assert(bf * (1 + discovery) == -50 * pf) by (nonlinear_arith)
        requires
            bf == -50 * df,
            pf == df * (1 + discovery),
    ;
    assert(pf > pn) by (nonlinear_arith)
        requires
            df > dn,
            discovery >= 0,
            pn == dn * (1 + discovery),
            pf == df * (1 + discovery),
    ;
    assert(-(bn * (1 + discovery)) * 4 / 5 == 40 * pn);
    assert(-(bf * (1 + discovery)) * 4 / 5 == 40 * pf);
}

proof fn lemma_drive_count_nonnegative(members: Seq<Adventurer>, drive: HeroDrive)
    ensures
        drive_count(members, drive) >= 0,
    decreases members.len(),
{
    if members.len() > 0 {
        lemma_drive_count_nonnegative(members.drop_last(), drive);
    }
}

} // verus!
