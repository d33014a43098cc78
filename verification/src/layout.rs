//! Layered layout of a floor's room graph for drawing: each room takes a
//! column by its depth below the Entrance and a lane by the fork that first
//! led to it, so a reconverging room keeps the lane that reached it first.

use vstd::prelude::*;
use crate::pathing::{all_exits, lemma_all_exits_contains, lemma_bound_by_candidates, step};
use crate::state::{Floor, RoomType};

verus! {

/// Where one room of a floor is drawn.
#[derive(Clone, Copy, Debug, PartialEq, Eq, Structural)]
pub struct RoomLayout {
    pub position: usize,
    /// Column: the longest run of passages from the Entrance to this room.
    pub depth: usize,
    /// Row: the branch of the fork that first led here.
    pub lane: i32,
}

/// `i` is the first Entrance room of the floor.
pub open spec fn is_first_entrance(floor: Floor, i: int) -> bool {
    &&& 0 <= i < floor.rooms.len()
    &&& floor.rooms[i].room_type == RoomType::Entrance
    &&& forall|j: int| 0 <= j < i ==> floor.rooms[j].room_type != RoomType::Entrance
}

/// The floor has an Entrance room.
pub open spec fn has_entrance(floor: Floor) -> bool {
    exists|i: int| 0 <= i < floor.rooms.len() && floor.rooms[i].room_type == RoomType::Entrance
}

/// Position of the floor's first Entrance room (meaningful when it has one).
pub open spec fn entrance_position(floor: Floor) -> usize {
    floor.rooms[choose|i: int| is_first_entrance(floor, i)].position
}

/// `w` follows exits from room to room, starting at `src`.
pub open spec fn is_route(floor: Floor, src: usize, w: Seq<usize>) -> bool {
    &&& w.len() >= 1
    &&& w[0] == src
    &&& forall|i: int| 0 <= i < w.len() - 1 ==> #[trigger] step(floor, w[i], w[i + 1])
}

/// Some route leads from `src` to `p`.
pub open spec fn leads_to(floor: Floor, src: usize, p: usize) -> bool {
    exists|w: Seq<usize>| #[trigger] is_route(floor, src, w) && w.last() == p
}

/// `rank` numbers the positions reachable from `src` so that every exit
/// leads to a higher number, never above the number of rooms.
pub open spec fn ranks_exits(floor: Floor, src: usize, rank: spec_fn(usize) -> nat) -> bool {
    forall|u: usize, v: usize|
        leads_to(floor, src, u) && #[trigger] step(floor, u, v) ==> rank(u) < rank(v)
            <= floor.rooms.len()
}

/// No passage reachable from `src` leads back around: the reachable rooms
/// can be numbered so that every exit climbs.
pub open spec fn loop_free_from(floor: Floor, src: usize) -> bool {
    exists|rank: spec_fn(usize) -> nat| ranks_exits(floor, src, rank)
}

/// Lane numbers of this floor fit in an `i32`.
pub open spec fn lanes_fit(floor: Floor) -> bool {
    forall|i: int|
        0 <= i < floor.rooms.len() ==> #[trigger] floor.rooms[i].exits.len() * floor.rooms.len()
            <= i32::MAX
}

/// `i` is the first slot of `s` holding `v`.
pub open spec fn first_slot(s: Seq<usize>, v: usize, i: int) -> bool {
    &&& 0 <= i < s.len()
    &&& s[i] == v
    &&& forall|j: int| 0 <= j < i ==> s[j] != v
}

/// How far the room behind exit slot `i` sits from its parent's lane: a
/// single exit keeps the lane, a fork fans out by slot.
pub open spec fn lane_offset(exits: Seq<usize>, i: int) -> int {
    if exits.len() == 1 {
        0
    } else {
        i
    }
}

/// Drawing order: by depth, then lane, then position.
pub open spec fn drawn_before(a: RoomLayout, b: RoomLayout) -> bool {
    ||| a.depth < b.depth
    ||| a.depth == b.depth && a.lane < b.lane
    ||| a.depth == b.depth && a.lane == b.lane && a.position < b.position
}

/// A route extends through one more exit.
proof fn lemma_route_extend(floor: Floor, src: usize, u: usize, v: usize)
    requires
        leads_to(floor, src, u),
        step(floor, u, v),
    ensures
        leads_to(floor, src, v),
{
    let w = choose|w: Seq<usize>| #[trigger] is_route(floor, src, w) && w.last() == u;
    let w2 = w.push(v);
    assert forall|i: int| 0 <= i < w2.len() - 1 implies #[trigger] step(floor, w2[i], w2[i + 1]) by {
        if i < w.len() - 1 {
            assert(w2[i] == w[i] && w2[i + 1] == w[i + 1]);
            assert(step(floor, w[i], w[i + 1]));
        }
    }
    assert(is_route(floor, src, w2));
}

/// The Entrance is reachable from itself.
proof fn lemma_route_start(floor: Floor, src: usize)
    ensures
        leads_to(floor, src, src),
{
    let w = seq![src];
    assert(is_route(floor, src, w));
}

/// Is `a` drawn before `b`?
fn drawn_first(a: &RoomLayout, b: &RoomLayout) -> (r: bool)
    ensures
        r == drawn_before(*a, *b),
{
    a.depth < b.depth || (a.depth == b.depth && a.lane < b.lane) || (a.depth == b.depth && a.lane
        == b.lane && a.position < b.position)
}

/// Slot of `x` in `seen`, if any.
fn slot_of(seen: &Vec<usize>, x: usize) -> (r: Option<usize>)
    ensures
        r is Some ==> r->0 < seen.len() && seen@[r->0 as int] == x,
        r is None ==> !seen@.contains(x),
{
    let mut i: usize = 0;
    while i < seen.len()
        invariant
            0 <= i <= seen.len(),
            forall|j: int| 0 <= j < i ==> seen@[j] != x,
        decreases seen.len() - i,
    {
        if seen[i] == x {
            return Some(i);
        }
        i = i + 1;
    }
    None
}

/// Index of the floor's first Entrance room, if any.
pub(crate) fn first_entrance(floor: &Floor) -> (r: Option<usize>)
    ensures
        r is Some ==> is_first_entrance(*floor, r->0 as int) && has_entrance(*floor)
            && entrance_position(*floor) == floor.rooms@[r->0 as int].position,
        r is None ==> !has_entrance(*floor),
{
    let mut i: usize = 0;
    while i < floor.rooms.len()
        invariant
            0 <= i <= floor.rooms.len(),
            forall|j: int| 0 <= j < i ==> floor.rooms@[j].room_type != RoomType::Entrance,
        decreases floor.rooms.len() - i,
    {
        if floor.rooms[i].room_type == RoomType::Entrance {
            proof {
                let k = choose|k: int| is_first_entrance(*floor, k);
                assert(is_first_entrance(*floor, i as int));
                if k < i {
                    assert(floor.rooms@[k].room_type != RoomType::Entrance);
                }
                if i < k {
                    assert(floor.rooms@[i as int].room_type != RoomType::Entrance);
                }
            }
            return Some(i);
        }
        i = i + 1;
    }
    None
}

/// Lanes grow by at most this much per level of rank.
pub open spec fn lane_cap(floor: Floor) -> int {
    i32::MAX as int / floor.rooms.len() as int
}

/// Every exit of the room at `u` leads to a position among `seen`.
pub open spec fn explored(floor: Floor, seen: Seq<usize>, u: usize) -> bool {
    forall|v: usize| #[trigger] step(floor, u, v) ==> seen.contains(v)
}

/// Some position found before or after `seen[h]` opens onto it from at most
/// one level above.
pub open spec fn depth_parent(floor: Floor, seen: Seq<usize>, depth: Seq<usize>, h: int) -> bool {
    exists|g: int|
        0 <= g < seen.len() && #[trigger] step(floor, seen[g], seen[h]) && depth[g] + 1 >= depth[h]
}

/// Among the positions `seen`, `seen[g]` is the first whose room opens onto
/// `seen[h]`, and `k` is the first slot of its exits leading there.
pub open spec fn opener_at(floor: Floor, seen: Seq<usize>, h: int, g: int, k: int) -> bool {
    &&& 0 <= g < seen.len()
    &&& step(floor, seen[g], seen[h])
    &&& forall|q: int| 0 <= q < g ==> !step(floor, seen[q], seen[h])
    &&& first_slot(floor.room_of(seen[g]).exits@, seen[h], k)
}

/// `seen[h]` sits at the lane offset of its first opener's slot from that
/// opener, which comes before it.
pub open spec fn lane_parent(floor: Floor, seen: Seq<usize>, lane: Seq<i32>, h: int) -> bool {
    exists|g: int, k: int|
        #![trigger opener_at(floor, seen, h, g, k)]
        g < h && opener_at(floor, seen, h, g, k) && lane[h] == lane[g] + lane_offset(
            floor.room_of(seen[g]).exits@,
            k,
        )
}

/// Positions come in the order their first openers do, and behind one
/// opener in the order of its exit slots.
pub open spec fn keys_ordered(floor: Floor, seen: Seq<usize>) -> bool {
    forall|h1: int, g1: int, k1: int, h2: int, g2: int, k2: int|
        0 < h1 < h2 < seen.len() && #[trigger] opener_at(floor, seen, h1, g1, k1) && #[trigger] opener_at(
            floor,
            seen,
            h2,
            g2,
            k2,
        ) ==> g1 < g2 || (g1 == g2 && k1 < k2)
}

/// A position has one first opener and one first slot.
proof fn lemma_opener_unique(floor: Floor, seen: Seq<usize>, h: int, g1: int, k1: int, g2: int, k2: int)
    requires
        opener_at(floor, seen, h, g1, k1),
        opener_at(floor, seen, h, g2, k2),
    ensures
        g1 == g2,
        k1 == k2,
{
    if g1 < g2 {
        assert(!step(floor, seen[g1], seen[h]));
    }
    if g2 < g1 {
        assert(!step(floor, seen[g2], seen[h]));
    }
    let ex = floor.room_of(seen[g1]).exits@;
    if k1 < k2 {
        assert(ex[k1] != seen[h]);
    }
    if k2 < k1 {
        assert(ex[k2] != seen[h]);
    }
}

/// What the discovery of a floor keeps true of the positions found so far
/// (`seen`, in discovery order), their depths and their lanes.
pub open spec fn grown(
    floor: Floor,
    e: usize,
    rank: spec_fn(usize) -> nat,
    seen: Seq<usize>,
    depth: Seq<usize>,
    lane: Seq<i32>,
) -> bool {
    &&& seen.len() == depth.len() == lane.len()
    &&& seen.len() >= 1
    &&& seen[0] == e
    &&& seen.no_duplicates()
    &&& forall|h: int| 0 <= h < seen.len() ==> leads_to(floor, e, #[trigger] seen[h])
    &&& forall|h: int| 0 <= h < seen.len() ==> depth[h] + rank(e) <= rank(#[trigger] seen[h])
    &&& forall|h: int| 0 < h < seen.len() ==> rank(#[trigger] seen[h]) <= floor.rooms.len()
    &&& forall|h: int|
        0 <= h < seen.len() ==> 0 <= #[trigger] lane[h] <= lane_cap(floor) * (rank(seen[h]) - rank(
            e,
        ))
    &&& forall|h: int| 0 < h < seen.len() ==> #[trigger] depth_parent(floor, seen, depth, h)
    &&& forall|h: int| 0 < h < seen.len() ==> #[trigger] lane_parent(floor, seen, lane, h)
    &&& keys_ordered(floor, seen)
}

/// Arithmetic of one lane step: a child's lane stays under its rank's cap.
proof fn lemma_lane_step(cap: int, n: int, re: int, ru: int, rx: int, lu: int, off: int, len: int)
    requires
        n >= 1,
        cap == i32::MAX as int / n,
        0 <= re <= ru < rx <= n,
        0 <= lu <= cap * (ru - re),
        0 <= off < len,
        len * n <= i32::MAX as int,
    ensures
        lu + off <= cap * (rx - re),
        cap * (rx - re) <= i32::MAX as int,
        lu <= cap * (rx - re),
{
    assert(len <= cap) by (nonlinear_arith)
        requires
            n >= 1,
            cap == i32::MAX as int / n,
            len * n <= i32::MAX as int,
            len >= 0,
    ;
    assert(cap * (ru - re) + cap <= cap * (rx - re)) by (nonlinear_arith)
        requires
            ru - re + 1 <= rx - re,
            cap >= 0,
    ;
    assert(cap * (rx - re) <= cap * n) by (nonlinear_arith)
        requires
            rx - re <= n,
            cap >= 0,
    ;
    assert(cap * n <= i32::MAX as int) by (nonlinear_arith)
        requires
            n >= 1,
            cap == i32::MAX as int / n,
    ;
}

/// The first opener of `seen[h]` among `seen` is still its first opener
/// among `s2`, and sets its lane.
pub open spec fn kept_opener(floor: Floor, seen: Seq<usize>, s2: Seq<usize>, lane: Seq<i32>, h: int) -> bool {
    exists|g: int, kk: int|
        #![trigger opener_at(floor, s2, h, g, kk)]
        g < h && opener_at(floor, seen, h, g, kk) && opener_at(floor, s2, h, g, kk) && lane[h] == lane[g]
            + lane_offset(floor.room_of(seen[g]).exits@, kk)
}

/// A first opener among `seen` stays the first opener once more positions
/// are found after them.
proof fn lemma_opener_extends(floor: Floor, seen: Seq<usize>, s2: Seq<usize>, h: int, g: int, k: int)
    requires
        seen.len() <= s2.len(),
        forall|i: int| 0 <= i < seen.len() ==> s2[i] == seen[i],
        0 <= h < seen.len(),
        opener_at(floor, seen, h, g, k),
    ensures
        opener_at(floor, s2, h, g, k),
{
    assert(s2[h] == seen[h] && s2[g] == seen[g]);
    assert forall|q: int| 0 <= q < g implies !step(floor, s2[q], s2[h]) by {
        assert(s2[q] == seen[q]);
    }
}

/// Finding a new position `x` behind slot `k` of the room at `seen[p]`
/// keeps the discovery invariant.
proof fn lemma_grow_push(
    floor: Floor,
    e: usize,
    rank: spec_fn(usize) -> nat,
    seen: Seq<usize>,
    depth: Seq<usize>,
    lane: Seq<i32>,
    p: int,
    x: usize,
    k: int,
    nl: i32,
)
    requires
        floor.rooms.len() >= 1,
        ranks_exits(floor, e, rank),
        grown(floor, e, rank, seen, depth, lane),
        0 <= p < seen.len(),
        step(floor, seen[p], x),
        !seen.contains(x),
        first_slot(floor.room_of(seen[p]).exits@, x, k),
        nl == lane[p] + lane_offset(floor.room_of(seen[p]).exits@, k),
        nl <= lane_cap(floor) * (rank(x) - rank(e)),
        forall|q: int| 0 <= q < p ==> explored(floor, seen, #[trigger] seen[q]),
        forall|h: int, g: int, kk: int|
            0 < h < seen.len() && #[trigger] opener_at(floor, seen, h, g, kk) ==> g < p || (g == p && kk < k),
    ensures
        grown(floor, e, rank, seen.push(x), depth.push((depth[p] + 1) as usize), lane.push(nl)),
        depth[p] + 1 <= floor.rooms.len(),
        forall|h: int, g: int, kk: int|
            0 < h < seen.len() + 1 && #[trigger] opener_at(floor, seen.push(x), h, g, kk) ==> g < p || (g
                == p && kk <= k),
{
    let u = seen[p];
    let s2 = seen.push(x);
    let d2 = depth.push((depth[p] + 1) as usize);
    let l2 = lane.push(nl);
    assert(leads_to(floor, e, u));
    assert(rank(u) < rank(x) <= floor.rooms.len());
    assert(depth[p] + rank(e) <= rank(u));
    lemma_route_extend(floor, e, u, x);
    assert forall|h: int| 0 < h < s2.len() implies #[trigger] depth_parent(floor, s2, d2, h) by {
        if h == seen.len() {
            assert(step(floor, s2[p], s2[h]));
        } else {
            assert(depth_parent(floor, seen, depth, h));
            let g = choose|g: int|
                0 <= g < seen.len() && #[trigger] step(floor, seen[g], seen[h]) && depth[g] + 1
                    >= depth[h];
            assert(step(floor, s2[g], s2[h]));
        }
    }
    // The newcomer's first opener is the room at `p`: every room found before
    // it was explored, and none led to the newcomer.
    assert(opener_at(floor, s2, seen.len() as int, p, k)) by {
        assert forall|q: int| 0 <= q < p implies !step(floor, s2[q], s2[seen.len() as int]) by {
            assert(s2[q] == seen[q]);
            assert(explored(floor, seen, seen[q]));
        }
        assert(s2[p] == seen[p]);
    }
    // Earlier positions keep their first openers.
    assert forall|h: int| 0 < h < seen.len() implies #[trigger] kept_opener(floor, seen, s2, lane, h) by {
        assert(lane_parent(floor, seen, lane, h));
        let (g, kk) = choose|g: int, kk: int|
            #![trigger opener_at(floor, seen, h, g, kk)]
            g < h && opener_at(floor, seen, h, g, kk) && lane[h] == lane[g] + lane_offset(
                floor.room_of(seen[g]).exits@,
                kk,
            );
        lemma_opener_extends(floor, seen, s2, h, g, kk);
    }
    assert forall|h: int| 0 < h < s2.len() implies #[trigger] lane_parent(floor, s2, l2, h) by {
        if h == seen.len() {
            assert(l2[h] == l2[p] + lane_offset(floor.room_of(s2[p]).exits@, k));
        } else {
            assert(kept_opener(floor, seen, s2, lane, h));
            let (g, kk) = choose|g: int, kk: int|
                #![trigger opener_at(floor, s2, h, g, kk)]
                g < h && opener_at(floor, seen, h, g, kk) && opener_at(floor, s2, h, g, kk) && lane[h]
                    == lane[g] + lane_offset(floor.room_of(seen[g]).exits@, kk);
            assert(l2[h] == l2[g] + lane_offset(floor.room_of(s2[g]).exits@, kk));
        }
    }
    assert forall|h1: int, g1: int, k1: int, h2: int, g2: int, k2: int|
        0 < h1 < h2 < s2.len() && #[trigger] opener_at(floor, s2, h1, g1, k1) && #[trigger] opener_at(
            floor,
            s2,
            h2,
            g2,
            k2,
        ) implies g1 < g2 || (g1 == g2 && k1 < k2) by {
        assert(kept_opener(floor, seen, s2, lane, h1));
        let (a1, b1) = choose|g: int, kk: int|
            #![trigger opener_at(floor, s2, h1, g, kk)]
            g < h1 && opener_at(floor, seen, h1, g, kk) && opener_at(floor, s2, h1, g, kk) && lane[h1]
                == lane[g] + lane_offset(floor.room_of(seen[g]).exits@, kk);
        lemma_opener_unique(floor, s2, h1, g1, k1, a1, b1);
        if h2 == seen.len() {
            lemma_opener_unique(floor, s2, h2, g2, k2, p, k);
        } else {
            assert(kept_opener(floor, seen, s2, lane, h2));
            let (a2, b2) = choose|g: int, kk: int|
                #![trigger opener_at(floor, s2, h2, g, kk)]
                g < h2 && opener_at(floor, seen, h2, g, kk) && opener_at(floor, s2, h2, g, kk) && lane[h2]
                    == lane[g] + lane_offset(floor.room_of(seen[g]).exits@, kk);
            lemma_opener_unique(floor, s2, h2, g2, k2, a2, b2);
            assert(opener_at(floor, seen, h1, a1, b1) && opener_at(floor, seen, h2, a2, b2));
        }
    }
    assert forall|h: int| 0 <= h < s2.len() implies leads_to(floor, e, #[trigger] s2[h]) by {
        if h < seen.len() {
            assert(leads_to(floor, e, seen[h]));
        }
    }
    assert forall|h: int| 0 <= h < s2.len() implies d2[h] + rank(e) <= rank(#[trigger] s2[h]) by {
        if h < seen.len() {
            assert(depth[h] + rank(e) <= rank(seen[h]));
        }
    }
    assert forall|h: int| 0 < h < s2.len() implies rank(#[trigger] s2[h]) <= floor.rooms.len() by {
        if h < seen.len() {
            assert(rank(seen[h]) <= floor.rooms.len());
        }
    }
    assert forall|h: int| 0 <= h < s2.len() implies 0 <= #[trigger] l2[h] <= lane_cap(floor) * (
    rank(s2[h]) - rank(e)) by {
        if h < seen.len() {
            assert(0 <= lane[h] <= lane_cap(floor) * (rank(seen[h]) - rank(e)));
        } else {
            assert(0 <= lane[p]);
        }
    }
    assert forall|h: int, g: int, kk: int|
        0 < h < s2.len() && #[trigger] opener_at(floor, s2, h, g, kk) implies g < p || (g == p && kk <= k) by {
        if h == seen.len() {
            lemma_opener_unique(floor, s2, h, g, kk, p, k);
        } else {
            assert(kept_opener(floor, seen, s2, lane, h));
            let (a, b) = choose|g: int, kk: int|
                #![trigger opener_at(floor, s2, h, g, kk)]
                g < h && opener_at(floor, seen, h, g, kk) && opener_at(floor, s2, h, g, kk) && lane[h]
                    == lane[g] + lane_offset(floor.room_of(seen[g]).exits@, kk);
            lemma_opener_unique(floor, s2, h, g, kk, a, b);
            assert(opener_at(floor, seen, h, a, b));
        }
    }
    assert(s2.no_duplicates()) by {
        assert forall|i: int, j: int| 0 <= i < s2.len() && 0 <= j < s2.len() && i != j implies s2[i]
            != s2[j] by {
            if i < seen.len() && j < seen.len() {
                assert(seen[i] != seen[j]);
            } else if i < seen.len() {
                assert(seen.contains(seen[i]));
            } else {
                assert(seen.contains(seen[j]));
            }
        }
    }
}

/// Raising the depth of an already found position `seen[j]` to one below
/// the room at `seen[p]`, which opens onto it, keeps the discovery invariant.
proof fn lemma_grow_relax(
    floor: Floor,
    e: usize,
    rank: spec_fn(usize) -> nat,
    seen: Seq<usize>,
    depth: Seq<usize>,
    lane: Seq<i32>,
    p: int,
    j: int,
)
    requires
        floor.rooms.len() >= 1,
        ranks_exits(floor, e, rank),
        grown(floor, e, rank, seen, depth, lane),
        0 <= p < seen.len(),
        0 <= j < seen.len(),
        step(floor, seen[p], seen[j]),
        depth[j] < depth[p] + 1,
    ensures
        grown(floor, e, rank, seen, depth.update(j, (depth[p] + 1) as usize), lane),
        j != p,
        j != 0,
        depth[p] + 1 <= floor.rooms.len(),
{
    let u = seen[p];
    let x = seen[j];
    let d2 = depth.update(j, (depth[p] + 1) as usize);
    assert(leads_to(floor, e, u));
    assert(rank(u) < rank(x) <= floor.rooms.len());
    assert(depth[p] + rank(e) <= rank(u));
    assert(depth[0] + rank(e) <= rank(seen[0]));
    assert forall|h: int| 0 < h < seen.len() implies #[trigger] depth_parent(floor, seen, d2, h) by {
        if h == j {
            assert(step(floor, seen[p], seen[h]));
        } else {
            assert(depth_parent(floor, seen, depth, h));
            let g = choose|g: int|
                0 <= g < seen.len() && #[trigger] step(floor, seen[g], seen[h]) && depth[g] + 1
                    >= depth[h];
            assert(step(floor, seen[g], seen[h]));
        }
    }
    assert forall|h: int| 0 <= h < seen.len() implies d2[h] + rank(e) <= rank(#[trigger] seen[h]) by {
        assert(depth[h] + rank(e) <= rank(seen[h]));
    }
    assert forall|h: int| 0 < h < seen.len() implies #[trigger] lane_parent(floor, seen, lane, h) by {
        assert(lane_parent(floor, seen, lane, h));
    }
}

/// Find every position reachable from the Entrance `e`, breadth first,
/// giving each the lane of the fork slot that first led to it.
fn discover(floor: &Floor, e: usize, Ghost(rank): Ghost<spec_fn(usize) -> nat>) -> (res: (
    Vec<usize>,
    Vec<usize>,
    Vec<i32>,
))
    requires
        floor.rooms.len() >= 1,
        ranks_exits(*floor, e, rank),
        lanes_fit(*floor),
    ensures
        grown(*floor, e, rank, res.0@, res.1@, res.2@),
        forall|h: int| 0 <= h < res.0@.len() ==> explored(*floor, res.0@, #[trigger] res.0@[h]),
{
    let mut seen: Vec<usize> = Vec::new();
    seen.push(e);
    let mut depth: Vec<usize> = Vec::new();
    depth.push(0);
    let mut lane: Vec<i32> = Vec::new();
    lane.push(0);
    let ghost s = seq![e] + all_exits(floor.rooms@);
    proof {
        lemma_route_start(*floor, e);
        assert(s[0] == e);
        assert(seen@[0] == e);
    }
    let mut head: usize = 0;
    while head < seen.len()
        invariant
            floor.rooms.len() >= 1,
            ranks_exits(*floor, e, rank),
            lanes_fit(*floor),
            s == seq![e] + all_exits(floor.rooms@),
            grown(*floor, e, rank, seen@, depth@, lane@),
            0 <= head <= seen.len() <= s.len(),
            forall|h: int| 0 <= h < seen.len() ==> s.contains(#[trigger] seen@[h]),
            forall|h: int| 0 <= h < head ==> explored(*floor, seen@, #[trigger] seen@[h]),
            forall|h: int, g: int, kk: int|
                0 < h < seen@.len() && #[trigger] opener_at(*floor, seen@, h, g, kk) ==> g < head,
        decreases s.len() - head,
    {
        let u = seen[head];
        let d = depth[head];
        let l = lane[head];
        match floor.room_idx(u) {
            None => {
                proof {
                    assert forall|v: usize| #[trigger] step(*floor, u, v) implies seen@.contains(v) by {}
                }
            },
            Some(ri) => {
                let n_exits = floor.rooms[ri].exits.len();
                let mut idx: usize = 0;
                while idx < n_exits
                    invariant
                        floor.rooms.len() >= 1,
                        ranks_exits(*floor, e, rank),
                        lanes_fit(*floor),
                        s == seq![e] + all_exits(floor.rooms@),
                        grown(*floor, e, rank, seen@, depth@, lane@),
                        0 <= head < seen.len() <= s.len(),
                        seen@[head as int] == u,
                        depth@[head as int] == d,
                        lane@[head as int] == l,
                        floor.is_first_at(u, ri as int),
                        ri as int == floor.room_index(u),
                        n_exits == floor.rooms@[ri as int].exits@.len(),
                        0 <= idx <= n_exits,
                        forall|k: int| 0 <= k < idx ==> seen@.contains(#[trigger] floor.rooms@[ri as int].exits@[k]),
                        forall|h: int| 0 <= h < seen.len() ==> s.contains(#[trigger] seen@[h]),
                        forall|h: int| 0 <= h < head ==> explored(*floor, seen@, #[trigger] seen@[h]),
                        forall|h: int, g: int, kk: int|
                            0 < h < seen@.len() && #[trigger] opener_at(*floor, seen@, h, g, kk) ==> g < head
                                || (g == head && kk < idx),
                    decreases n_exits - idx,
                {
                    let x = floor.rooms[ri].exits[idx];
                    proof {
                        assert(floor.room_of(u) == floor.rooms@[ri as int]);
                        assert(floor.room_of(u).exits@[idx as int] == x);
                        assert(step(*floor, u, x));
                        assert(leads_to(*floor, e, seen@[head as int]));
                        assert(rank(u) < rank(x) <= floor.rooms.len());
                        assert(d + rank(e) <= rank(seen@[head as int]));
                        assert(0 <= lane@[head as int] <= lane_cap(*floor) * (rank(seen@[head as int]) - rank(e)));
                        assert(floor.rooms@[ri as int].exits.len() * floor.rooms.len() <= i32::MAX);
                        lemma_lane_step(lane_cap(*floor), floor.rooms.len() as int, rank(e) as int, rank(u) as int,
                            rank(x) as int, l as int, idx as int, n_exits as int);
                    }
                    match slot_of(&seen, x) {
                        Some(j) => {
                            if depth[j] < d + 1 {
                                proof {
                                    lemma_grow_relax(*floor, e, rank, seen@, depth@, lane@, head as int, j as int);
                                }
                                depth.set(j, d + 1);
                            }
                        },
                        None => {
                            let nl: i32 = if n_exits == 1 { l } else { l + idx as i32 };
                            proof {
                                assert(first_slot(floor.room_of(u).exits@, x, idx as int)) by {
                                    assert forall|q: int| 0 <= q < idx implies floor.room_of(u).exits@[q] != x by {
                                        assert(seen@.contains(floor.rooms@[ri as int].exits@[q]));
                                    }
                                }
                                lemma_grow_push(*floor, e, rank, seen@, depth@, lane@, head as int, x, idx as int, nl);
                                assert(s.contains(x)) by {
                                    assert(floor.rooms@[ri as int].exits@[idx as int] == x);
                                    lemma_all_exits_contains(floor.rooms@, ri as int, x);
                                    let q = choose|q: int| 0 <= q < all_exits(floor.rooms@).len() && all_exits(floor.rooms@)[q] == x;
                                    assert(s[q + 1] == x);
                                }
                            }
                            let ghost before = seen@;
                            seen.push(x);
                            depth.push(d + 1);
                            lane.push(nl);
                            proof {
                                assert forall|y: usize| before.contains(y) implies seen@.contains(y) by {
                                    let q = choose|q: int| 0 <= q < before.len() && before[q] == y;
                                    assert(seen@[q] == y);
                                }
                                assert(seen@[seen.len() - 1] == x);
                                assert forall|h: int| 0 <= h < head implies explored(*floor, seen@, #[trigger] seen@[h]) by {
                                    assert(explored(*floor, before, before[h]));
                                    assert(before[h] == seen@[h]);
                                }
                                assert forall|h: int| 0 <= h < seen.len() implies s.contains(#[trigger] seen@[h]) by {
                                    if h < before.len() {
                                        assert(s.contains(before[h]));
                                    }
                                }
                                lemma_bound_by_candidates(seen@, s);
                            }
                        },
                    }
                    idx = idx + 1;
                }
                proof {
                    assert forall|v: usize| #[trigger] step(*floor, u, v) implies seen@.contains(v) by {
                        let k = choose|k: int| 0 <= k < n_exits && floor.rooms@[ri as int].exits@[k] == v;
                        assert(seen@.contains(floor.rooms@[ri as int].exits@[k]));
                    }
                }
            },
        }
        head = head + 1;
    }
    (seen, depth, lane)
}

/// Sum of a sequence of depths.
pub open spec fn total(s: Seq<usize>) -> int
    decreases s.len(),
{
    if s.len() == 0 {
        0
    } else {
        total(s.drop_last()) + s.last()
    }
}

proof fn lemma_total_update(s: Seq<usize>, j: int, v: usize)
    requires
        0 <= j < s.len(),
    ensures
        total(s.update(j, v)) == total(s) - s[j] + v,
    decreases s.len(),
{
    let t = s.update(j, v);
    if j == s.len() - 1 {
        assert(t.drop_last() =~= s.drop_last());
    } else {
        lemma_total_update(s.drop_last(), j, v);
        assert(t.drop_last() =~= s.drop_last().update(j, v));
    }
}

proof fn lemma_total_bound(s: Seq<usize>, b: int)
    requires
        b >= 0,
        forall|h: int| 0 <= h < s.len() ==> #[trigger] s[h] <= b,
    ensures
        0 <= total(s) <= s.len() * b,
    decreases s.len(),
{
    if s.len() > 0 {
        assert forall|h: int| 0 <= h < s.drop_last().len() implies #[trigger] s.drop_last()[h] <= b by {
            assert(s[h] <= b);
        }
        lemma_total_bound(s.drop_last(), b);
        assert(s.last() <= b);
        assert((s.len() - 1) * b + b == s.len() * b) by (nonlinear_arith);
    }
}

/// Every exit between found positions climbs at least one level of depth.
pub open spec fn settled(floor: Floor, seen: Seq<usize>, depth: Seq<usize>) -> bool {
    forall|g: int, j: int|
        0 <= g < seen.len() && 0 <= j < seen.len() && #[trigger] step(floor, seen[g], seen[j])
            ==> depth[j] >= depth[g] + 1
}

/// Depths of a discovery stay within the number of rooms.
proof fn lemma_depths_bounded(
    floor: Floor,
    e: usize,
    rank: spec_fn(usize) -> nat,
    seen: Seq<usize>,
    depth: Seq<usize>,
    lane: Seq<i32>,
)
    requires
        grown(floor, e, rank, seen, depth, lane),
    ensures
        forall|h: int| 0 <= h < depth.len() ==> #[trigger] depth[h] <= floor.rooms.len(),
        0 <= total(depth) <= depth.len() * floor.rooms.len(),
{
    assert forall|h: int| 0 <= h < depth.len() implies #[trigger] depth[h] <= floor.rooms.len() by {
        assert(depth[h] + rank(e) <= rank(seen[h]));
        assert(depth[0] + rank(e) <= rank(seen[0]));
        if h > 0 {
            assert(rank(seen[h]) <= floor.rooms.len());
        }
    }
    lemma_total_bound(depth, floor.rooms.len() as int);
}

/// Raise depths along exits, round after round, until every exit between
/// found positions climbs: each depth becomes the longest run of passages
/// from the Entrance.
fn settle(
    floor: &Floor,
    e: usize,
    Ghost(rank): Ghost<spec_fn(usize) -> nat>,
    seen: &Vec<usize>,
    depth: &mut Vec<usize>,
    lane: &Vec<i32>,
)
    requires
        floor.rooms.len() >= 1,
        ranks_exits(*floor, e, rank),
        grown(*floor, e, rank, seen@, old(depth)@, lane@),
        forall|h: int| 0 <= h < seen@.len() ==> explored(*floor, seen@, #[trigger] seen@[h]),
    ensures
        grown(*floor, e, rank, seen@, final(depth)@, lane@),
        settled(*floor, seen@, final(depth)@),
{
    let mut changed = true;
    proof {
        lemma_depths_bounded(*floor, e, rank, seen@, depth@, lane@);
    }
    while changed
        invariant
            floor.rooms.len() >= 1,
            ranks_exits(*floor, e, rank),
            grown(*floor, e, rank, seen@, depth@, lane@),
            forall|h: int| 0 <= h < seen@.len() ==> explored(*floor, seen@, #[trigger] seen@[h]),
            !changed ==> settled(*floor, seen@, depth@),
            0 <= total(depth@) <= depth@.len() * floor.rooms.len(),
        decreases seen@.len() * floor.rooms@.len() - total(depth@) + (if changed { 1int } else { 0int }),
    {
        changed = false;
        let ghost start = depth@;
        let mut h: usize = 0;
        while h < seen.len()
            invariant
                floor.rooms.len() >= 1,
                ranks_exits(*floor, e, rank),
                grown(*floor, e, rank, seen@, depth@, lane@),
                forall|q: int| 0 <= q < seen@.len() ==> explored(*floor, seen@, #[trigger] seen@[q]),
                0 <= h <= seen.len(),
                start.len() == depth@.len(),
                !changed ==> depth@ == start,
                !changed ==> forall|g: int, j: int|
                    0 <= g < h && 0 <= j < seen@.len() && #[trigger] step(*floor, seen@[g], seen@[j])
                        ==> depth@[j] >= depth@[g] + 1,
                changed ==> total(depth@) > total(start),
                total(depth@) >= total(start),
            decreases seen.len() - h,
        {
            match floor.room_idx(seen[h]) {
                None => {},
                Some(ri) => {
                    let dh = depth[h];
                    let n_exits = floor.rooms[ri].exits.len();
                    let mut idx: usize = 0;
                    while idx < n_exits
                        invariant
                            floor.rooms.len() >= 1,
                            ranks_exits(*floor, e, rank),
                            grown(*floor, e, rank, seen@, depth@, lane@),
                            forall|q: int| 0 <= q < seen@.len() ==> explored(*floor, seen@, #[trigger] seen@[q]),
                            0 <= h < seen.len(),
                            depth@[h as int] == dh,
                            floor.is_first_at(seen@[h as int], ri as int),
                            ri as int == floor.room_index(seen@[h as int]),
                            n_exits == floor.rooms@[ri as int].exits@.len(),
                            0 <= idx <= n_exits,
                            start.len() == depth@.len(),
                            !changed ==> depth@ == start,
                            !changed ==> forall|g: int, j: int|
                                0 <= g < h && 0 <= j < seen@.len() && #[trigger] step(*floor, seen@[g], seen@[j])
                                    ==> depth@[j] >= depth@[g] + 1,
                            !changed ==> forall|k: int, j: int|
                                0 <= k < idx && 0 <= j < seen@.len() && #[trigger] floor.rooms@[ri as int].exits@[k]
                                    == #[trigger] seen@[j] ==> depth@[j] >= dh + 1,
                            changed ==> total(depth@) > total(start),
                            total(depth@) >= total(start),
                        decreases n_exits - idx,
                    {
                        let x = floor.rooms[ri].exits[idx];
                        proof {
                            assert(floor.room_of(seen@[h as int]) == floor.rooms@[ri as int]);
                            assert(floor.room_of(seen@[h as int]).exits@[idx as int] == x);
                            assert(step(*floor, seen@[h as int], x));
                            assert(explored(*floor, seen@, seen@[h as int]));
                        }
                        match slot_of(seen, x) {
                            None => {},
                            Some(j) => {
                                if depth[j] < dh + 1 {
                                    proof {
                                        lemma_grow_relax(*floor, e, rank, seen@, depth@, lane@, h as int, j as int);
                                        lemma_total_update(depth@, j as int, (dh + 1) as usize);
                                    }
                                    depth.set(j, dh + 1);
                                    changed = true;
                                }
                            },
                        }
                        idx = idx + 1;
                    }
                    proof {
                        if !changed {
                            assert forall|g: int, j: int|
                                0 <= g < h + 1 && 0 <= j < seen@.len() && #[trigger] step(*floor, seen@[g], seen@[j])
                                    implies depth@[j] >= depth@[g] + 1 by {
                                if g == h {
                                    let k = choose|k: int| 0 <= k < n_exits && floor.rooms@[ri as int].exits@[k] == seen@[j];
                                    assert(floor.rooms@[ri as int].exits@[k] == seen@[j]);
                                }
                            }
                        }
                    }
                },
            }
            proof {
                if !changed {
                    assert forall|g: int, j: int|
                        0 <= g < h + 1 && 0 <= j < seen@.len() && #[trigger] step(*floor, seen@[g], seen@[j])
                            implies depth@[j] >= depth@[g] + 1 by {
                        if g == h && !floor.has_room(seen@[h as int]) {
                            assert(!step(*floor, seen@[g], seen@[j]));
                        }
                    }
                }
            }
            h = h + 1;
        }
        proof {
            lemma_depths_bounded(*floor, e, rank, seen@, depth@, lane@);
        }
    }
}

/// The layout entry of the `h`-th found position.
pub open spec fn entry(seen: Seq<usize>, depth: Seq<usize>, lane: Seq<i32>, h: int) -> RoomLayout {
    RoomLayout { position: seen[h], depth: depth[h], lane: lane[h] }
}

/// `x` is the entry of one of the first `n` found positions.
pub open spec fn among_entries(
    seen: Seq<usize>,
    depth: Seq<usize>,
    lane: Seq<i32>,
    x: RoomLayout,
    n: int,
) -> bool {
    exists|h: int| 0 <= h < n && x == #[trigger] entry(seen, depth, lane, h)
}

proof fn lemma_insert_at(s: Seq<RoomLayout>, p: int, x: RoomLayout)
    requires
        0 <= p <= s.len(),
    ensures
        s.insert(p, x).len() == s.len() + 1,
        forall|q: int|
            0 <= q < s.len() + 1 ==> #[trigger] s.insert(p, x)[q] == (if q < p {
                s[q]
            } else if q == p {
                x
            } else {
                s[q - 1]
            }),
{
    s.insert_ensures(p, x);
    assert forall|q: int| 0 <= q < s.len() + 1 implies #[trigger] s.insert(p, x)[q] == (if q < p {
        s[q]
    } else if q == p {
        x
    } else {
        s[q - 1]
    }) by {
        if q > p {
            assert(s.insert(p, x)[(q - 1) + 1] == s[q - 1]);
        }
    }
}

/// Put the found positions in drawing order.
fn order_layout(seen: &Vec<usize>, depth: &Vec<usize>, lane: &Vec<i32>) -> (out: Vec<RoomLayout>)
    requires
        seen@.len() == depth@.len() == lane@.len(),
        seen@.no_duplicates(),
    ensures
        out@.len() == seen@.len(),
        forall|i: int, j: int| 0 <= i < j < out@.len() ==> drawn_before(out@[i], out@[j]),
        forall|q: int|
            0 <= q < out@.len() ==> among_entries(seen@, depth@, lane@, #[trigger] out@[q], seen@.len() as int),
        forall|h: int|
            0 <= h < seen@.len() ==> out@.contains(#[trigger] entry(seen@, depth@, lane@, h)),
{
    let mut out: Vec<RoomLayout> = Vec::new();
    let mut h: usize = 0;
    while h < seen.len()
        invariant
            seen@.len() == depth@.len() == lane@.len(),
            seen@.no_duplicates(),
            0 <= h <= seen.len(),
            out@.len() == h,
            forall|i: int, j: int| 0 <= i < j < out@.len() ==> drawn_before(out@[i], out@[j]),
            forall|q: int|
                0 <= q < out@.len() ==> among_entries(seen@, depth@, lane@, #[trigger] out@[q], h as int),
            forall|g: int| 0 <= g < h ==> out@.contains(#[trigger] entry(seen@, depth@, lane@, g)),
        decreases seen.len() - h,
    {
        let item = RoomLayout { position: seen[h], depth: depth[h], lane: lane[h] };
        let mut p: usize = 0;
        while p < out.len() && drawn_first(&out[p], &item)
            invariant
                0 <= p <= out@.len(),
                forall|q: int| 0 <= q < p ==> drawn_before(#[trigger] out@[q], item),
            decreases out@.len() - p,
        {
            p = p + 1;
        }
        proof {
            assert(item == entry(seen@, depth@, lane@, h as int));
            // Every listed entry stands at another position than the new one.
            assert forall|q: int| 0 <= q < out@.len() implies (#[trigger] out@[q]).position != item.position by {
                assert(among_entries(seen@, depth@, lane@, out@[q], h as int));
                let g = choose|g: int| 0 <= g < h && out@[q] == #[trigger] entry(seen@, depth@, lane@, g);
                assert(seen@[g] != seen@[h as int]);
            }
            if p < out@.len() {
                assert(!drawn_before(out@[p as int], item));
                assert(out@[p as int].position != item.position);
                assert(drawn_before(item, out@[p as int]));
                assert forall|q: int| p <= q < out@.len() implies drawn_before(item, #[trigger] out@[q]) by {
                    if q > p {
                        assert(drawn_before(out@[p as int], out@[q]));
                    }
                }
            }
            lemma_insert_at(out@, p as int, item);
        }
        let ghost before = out@;
        out.insert(p, item);
        proof {
            assert forall|i: int, j: int| 0 <= i < j < out@.len() implies drawn_before(out@[i], out@[j]) by {
                assert(out@[i] == before.insert(p as int, item)[i]);
                assert(out@[j] == before.insert(p as int, item)[j]);
                if j < p {
                    assert(drawn_before(before[i], before[j]));
                } else if j == p {
                    assert(drawn_before(before[i], item));
                } else if i < p {
                    assert(drawn_before(before[i], before[j - 1])) by {
                        if i < j - 1 {
                            assert(drawn_before(before[i], before[j - 1]));
                        }
                    }
                } else if i == p {
                    assert(drawn_before(item, before[j - 1]));
                } else {
                    assert(drawn_before(before[i - 1], before[j - 1]));
                }
            }
            assert forall|q: int| 0 <= q < out@.len() implies among_entries(
                seen@,
                depth@,
                lane@,
                #[trigger] out@[q],
                h + 1,
            ) by {
                assert(out@[q] == before.insert(p as int, item)[q]);
                if q == p {
                    assert(out@[q] == entry(seen@, depth@, lane@, h as int));
                } else {
                    let r = if q < p { q } else { q - 1 };
                    assert(out@[q] == before[r]);
                    assert(among_entries(seen@, depth@, lane@, before[r], h as int));
                    let g = choose|g: int| 0 <= g < h && before[r] == #[trigger] entry(seen@, depth@, lane@, g);
                    assert(out@[q] == entry(seen@, depth@, lane@, g));
                }
            }
            assert forall|g: int| 0 <= g < h + 1 implies out@.contains(#[trigger] entry(seen@, depth@, lane@, g)) by {
                if g == h {
                    assert(out@[p as int] == before.insert(p as int, item)[p as int]);
                } else {
                    assert(before.contains(entry(seen@, depth@, lane@, g)));
                    let q = choose|q: int| 0 <= q < before.len() && before[q] == entry(seen@, depth@, lane@, g);
                    if q < p {
                        assert(out@[q] == before.insert(p as int, item)[q]);
                    } else {
                        assert(out@[q + 1] == before.insert(p as int, item)[q + 1]);
                    }
                }
            }
        }
        h = h + 1;
    }
    out
}

/// Some room laid out at `v` sits at depth `d` or deeper.
pub open spec fn laid_deeper(r: Seq<RoomLayout>, v: usize, d: int) -> bool {
    exists|j: int| 0 <= j < r.len() && (#[trigger] r[j]).position == v && r[j].depth >= d
}

/// Some laid-out room opens onto `r[j]` from exactly one column above.
pub open spec fn placed_below(floor: Floor, r: Seq<RoomLayout>, j: int) -> bool {
    exists|i: int|
        0 <= i < r.len() && #[trigger] step(floor, r[i].position, r[j].position) && r[j].depth
            == r[i].depth + 1
}

/// Some position before `d[h]` in `d` is its first opener.
pub open spec fn has_earlier_opener(floor: Floor, d: Seq<usize>, h: int) -> bool {
    exists|g: int, k: int| #![trigger opener_at(floor, d, h, g, k)] g < h && opener_at(floor, d, h, g, k)
}

/// `d` lists the positions reachable from the Entrance at `e` in the order a
/// breadth-first walk from it finds them: the Entrance first, each position
/// once, every exit of a listed room listed, every other position after its
/// first opener (the earliest listed room opening onto it), and positions
/// in the order of their first openers, then of those openers' exit slots.
pub open spec fn discovered_in(floor: Floor, e: usize, d: Seq<usize>) -> bool {
    &&& d.len() >= 1
    &&& d[0] == e
    &&& d.no_duplicates()
    &&& forall|k: int, v: usize| 0 <= k < d.len() && #[trigger] step(floor, d[k], v) ==> d.contains(v)
    &&& forall|h: int| 0 < h < d.len() ==> #[trigger] has_earlier_opener(floor, d, h)
    &&& keys_ordered(floor, d)
}

/// `ln` gives each position of `d` its lane: the Entrance's is 0, and every
/// other position's is its first opener's, moved by the offset of the first
/// exit slot leading to it.
pub open spec fn lanes_follow(floor: Floor, d: Seq<usize>, ln: Seq<i32>) -> bool {
    &&& ln.len() == d.len()
    &&& ln[0] == 0
    &&& forall|h: int, g: int, k: int|
        0 < h < d.len() && #[trigger] opener_at(floor, d, h, g, k) ==> ln[h] == ln[g] + lane_offset(
            floor.room_of(d[g]).exits@,
            k,
        )
}

/// The rooms of `r` are the positions of `d`, each with its lane in `ln`.
pub open spec fn shown_as(r: Seq<RoomLayout>, d: Seq<usize>, ln: Seq<i32>) -> bool {
    &&& r.len() == d.len()
    &&& forall|j: int| 0 <= j < r.len() ==> exists|k: int| 0 <= k < d.len() && d[k] == (#[trigger] r[j]).position && ln[k] == r[j].lane
    &&& forall|k: int| 0 <= k < d.len() ==> exists|j: int| 0 <= j < r.len() && (#[trigger] d[k]) == r[j].position && ln[k] == r[j].lane
}

/// `r` lays out the rooms reachable from the Entrance at `e`: in drawing
/// order, each position once, the Entrance in column and lane 0, every exit
/// leading to a room at least a column further, every other room exactly
/// one column below some room opening onto it (so a room's column is the
/// longest run of passages from the Entrance), and each room in the lane of
/// its first opener in breadth-first order, moved by the fork slot leading
/// to it, never below 0.
pub open spec fn laid_out(floor: Floor, e: usize, r: Seq<RoomLayout>) -> bool {
    &&& forall|i: int, j: int| 0 <= i < j < r.len() ==> drawn_before(r[i], r[j])
    &&& forall|i: int, j: int|
        0 <= i < r.len() && 0 <= j < r.len() && i != j ==> r[i].position != r[j].position
    &&& exists|i: int| 0 <= i < r.len() && r[i] == (RoomLayout { position: e, depth: 0, lane: 0 })
    &&& forall|i: int, v: usize|
        0 <= i < r.len() && #[trigger] step(floor, r[i].position, v) ==> laid_deeper(
            r,
            v,
            r[i].depth + 1,
        )
    &&& forall|j: int| 0 <= j < r.len() && r[j].position != e ==> #[trigger] placed_below(floor, r, j)
    &&& exists|d: Seq<usize>, ln: Seq<i32>|
        #[trigger] discovered_in(floor, e, d) && #[trigger] lanes_follow(floor, d, ln) && shown_as(r, d, ln)
    &&& forall|j: int| 0 <= j < r.len() ==> (#[trigger] r[j]).lane >= 0
}

proof fn lemma_laid_out(
    floor: Floor,
    e: usize,
    rank: spec_fn(usize) -> nat,
    seen: Seq<usize>,
    depth: Seq<usize>,
    lane: Seq<i32>,
    out: Seq<RoomLayout>,
)
    requires
        floor.rooms.len() >= 1,
        grown(floor, e, rank, seen, depth, lane),
        settled(floor, seen, depth),
        forall|h: int| 0 <= h < seen.len() ==> explored(floor, seen, #[trigger] seen[h]),
        out.len() == seen.len(),
        forall|i: int, j: int| 0 <= i < j < out.len() ==> drawn_before(out[i], out[j]),
        forall|q: int|
            0 <= q < out.len() ==> among_entries(seen, depth, lane, #[trigger] out[q], seen.len() as int),
        forall|h: int| 0 <= h < seen.len() ==> out.contains(#[trigger] entry(seen, depth, lane, h)),
    ensures
        laid_out(floor, e, out),
{
    // Which found position each laid-out room is.
    assert forall|q: int| 0 <= q < out.len() implies exists|h: int|
        0 <= h < seen.len() && (#[trigger] out[q]) == entry(seen, depth, lane, h) by {
        assert(among_entries(seen, depth, lane, out[q], seen.len() as int));
    }
    assert forall|i: int, j: int| 0 <= i < out.len() && 0 <= j < out.len() && i != j implies out[i].position
        != out[j].position by {
        let a = choose|a: int| 0 <= a < seen.len() && out[i] == #[trigger] entry(seen, depth, lane, a);
        let b = choose|b: int| 0 <= b < seen.len() && out[j] == #[trigger] entry(seen, depth, lane, b);
        if i < j {
            assert(drawn_before(out[i], out[j]));
        } else {
            assert(drawn_before(out[j], out[i]));
        }
        assert(a != b);
        assert(seen[a] != seen[b]);
    }
    assert(depth[0] + rank(e) <= rank(seen[0]));
    assert(0 <= lane[0] <= lane_cap(floor) * (rank(seen[0]) - rank(e)));
    assert(entry(seen, depth, lane, 0) == (RoomLayout { position: e, depth: 0, lane: 0 }));
    assert(out.contains(entry(seen, depth, lane, 0)));
    assert forall|i: int, v: usize| 0 <= i < out.len() && #[trigger] step(floor, out[i].position, v) implies laid_deeper(
        out,
        v,
        out[i].depth + 1,
    ) by {
        let a = choose|a: int| 0 <= a < seen.len() && out[i] == #[trigger] entry(seen, depth, lane, a);
        assert(explored(floor, seen, seen[a]));
        assert(seen.contains(v));
        let b = choose|b: int| 0 <= b < seen.len() && seen[b] == v;
        assert(step(floor, seen[a], seen[b]));
        assert(out.contains(entry(seen, depth, lane, b)));
        let j = choose|j: int| 0 <= j < out.len() && out[j] == entry(seen, depth, lane, b);
        assert(out[j].position == v);
    }
    assert forall|j: int| 0 <= j < out.len() && out[j].position != e implies #[trigger] placed_below(
        floor,
        out,
        j,
    ) by {
        let b = choose|b: int| 0 <= b < seen.len() && out[j] == #[trigger] entry(seen, depth, lane, b);
        assert(b != 0);
        assert(depth_parent(floor, seen, depth, b));
        let g = choose|g: int|
            0 <= g < seen.len() && #[trigger] step(floor, seen[g], seen[b]) && depth[g] + 1 >= depth[b];
        assert(out.contains(entry(seen, depth, lane, g)));
        let i = choose|i: int| 0 <= i < out.len() && out[i] == entry(seen, depth, lane, g);
        assert(step(floor, out[i].position, out[j].position));
    }
    // The found positions, in the order found, and their lanes.
    assert(discovered_in(floor, e, seen)) by {
        assert forall|h: int| 0 < h < seen.len() implies #[trigger] has_earlier_opener(floor, seen, h) by {
            assert(lane_parent(floor, seen, lane, h));
        }
        assert forall|k: int, v: usize| 0 <= k < seen.len() && #[trigger] step(floor, seen[k], v) implies seen.contains(v) by {
            assert(explored(floor, seen, seen[k]));
        }
    }
    assert(lanes_follow(floor, seen, lane)) by {
        assert forall|h: int, g: int, k: int|
            0 < h < seen.len() && #[trigger] opener_at(floor, seen, h, g, k) implies lane[h] == lane[g]
                + lane_offset(floor.room_of(seen[g]).exits@, k) by {
            assert(lane_parent(floor, seen, lane, h));
            let (a, b) = choose|a: int, b: int|
                #![trigger opener_at(floor, seen, h, a, b)]
                a < h && opener_at(floor, seen, h, a, b) && lane[h] == lane[a] + lane_offset(
                    floor.room_of(seen[a]).exits@,
                    b,
                );
            lemma_opener_unique(floor, seen, h, g, k, a, b);
        }
    }
    assert(shown_as(out, seen, lane)) by {
        assert forall|j: int| 0 <= j < out.len() implies exists|k: int|
            0 <= k < seen.len() && seen[k] == (#[trigger] out[j]).position && lane[k] == out[j].lane by {
            let b = choose|b: int| 0 <= b < seen.len() && out[j] == #[trigger] entry(seen, depth, lane, b);
        }
        assert forall|k: int| 0 <= k < seen.len() implies exists|j: int|
            0 <= j < out.len() && (#[trigger] seen[k]) == out[j].position && lane[k] == out[j].lane by {
            assert(out.contains(entry(seen, depth, lane, k)));
            let j = choose|j: int| 0 <= j < out.len() && out[j] == entry(seen, depth, lane, k);
        }
    }
    assert forall|j: int| 0 <= j < out.len() implies (#[trigger] out[j]).lane >= 0 by {
        let b = choose|b: int| 0 <= b < seen.len() && out[j] == #[trigger] entry(seen, depth, lane, b);
        assert(0 <= lane[b]);
    }
}

/// Lay out a floor for drawing: the rooms reachable from its first Entrance,
/// each in a column by its depth (the longest run of passages from the
/// Entrance) and a lane by the fork slot that first led to it, so a room
/// where two routes meet keeps the lane that reached it first; sorted by
/// column, lane and position. A floor without an Entrance lays out nothing.
/// Lanes start at 0 at the Entrance and never go below it.
pub fn layout_floor(floor: &Floor) -> (r: Vec<RoomLayout>)
    requires
        has_entrance(*floor) ==> loop_free_from(*floor, entrance_position(*floor)),
        lanes_fit(*floor),
    ensures
        !has_entrance(*floor) ==> r@.len() == 0,
        has_entrance(*floor) ==> laid_out(*floor, entrance_position(*floor), r@),
{
    let ei = match first_entrance(floor) {
        None => {
            return Vec::new();
        },
        Some(i) => i,
    };
    let e = floor.rooms[ei].position;
    let ghost rank = choose|rank: spec_fn(usize) -> nat| ranks_exits(*floor, e, rank);
    let (seen, mut depth, lane) = discover(floor, e, Ghost(rank));
    settle(floor, e, Ghost(rank), &seen, &mut depth, &lane);
    let out = order_layout(&seen, &depth, &lane);
    proof {
        lemma_laid_out(*floor, e, rank, seen@, depth@, lane@, out@);
    }
    out
}

} // verus!
