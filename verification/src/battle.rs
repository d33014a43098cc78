//! One combat tick between a party and the defenders of a room. The caller
//! rolls the dice and works out each blow's damage (multipliers of rooms,
//! elements and wards); everything that follows from those numbers is
//! decided here: wounds and deaths, casualties, the heroes credited with
//! kills, life stolen and mana leeched, loot, souls, the core's mana and the
//! experience of the monster lines, and whether the party breaks.

use vstd::prelude::*;
use crate::catalog::{Catalog, MonsterTemplate};
use crate::combat::{
    carries_passive, check_retreat, has_passive, cull_idx, cull_target_is, culled_before, first_alive, first_taunter, living_count,
    retreat_outcome, target_monster_idx,
};
use crate::monsters::{base_stats, build_traits, traits_from, undead_kind};
use crate::rules::{get_scaled_stats, scaled_stats, FLOOR_LIMIT};
use crate::state::{
    clamp_add, is_first_view, ledger_views, Adventurer, AdventurerParty, Floor, GameState, HeroRecord,
    HeroView, LogEntry, Monster, Room, RoomBattleOrder, SoundEvent, Stats, TypeExperience,
};
use crate::traps::{at_least_one, lesser};

verus! {

/// One invader's blow: hero `attacker` hits defender `target` (an index into
/// the room's defenders) for `damage` (at least one lands).
#[derive(Clone, Copy, Debug, PartialEq, Eq)]
pub struct Blow {
    pub attacker: u64,
    pub target: usize,
    pub damage: i32,
}

/// One defender's strike: defender `monster` hits party member `target` for
/// `damage` (at least one lands). A defender that steals life mends by
/// `heal`; should the member fall, the core leeches `leech` mana by the
/// striker's gift and earns `kill_mana` for the kill, and every line still
/// standing in the room learns `kill_xp`.
#[derive(Clone, Copy, Debug, PartialEq, Eq)]
pub struct Strike {
    pub monster: u64,
    pub target: usize,
    pub damage: i32,
    pub heal: i32,
    pub leech: i32,
    pub kill_mana: i32,
    pub kill_xp: i32,
}

/// Gold the party takes for a slain defender and for a slain boss.
#[derive(Clone, Copy, Debug, PartialEq, Eq)]
pub struct Bounty {
    pub defender: i32,
    pub boss: i32,
}

/// What the blows of a tick leave: the defenders, the party's loot, the
/// keeper's souls, the heroes credited with a kill (in order) and the
/// chronicle lines.
pub type BlowTally = (Seq<Monster>, int, int, Seq<u64>, Seq<LogEntry>);

/// One blow lands: a blow at a fallen or missing defender does nothing; a
/// defender brought to zero falls, paying the party its bounty (a boss also
/// a soul to the keeper) and crediting the attacker.
pub open spec fn blow_landed(acc: BlowTally, b: Blow, bounty: Bounty) -> BlowTally {
    let ms = acc.0;
    let t = b.target as int;
    if t < ms.len() && ms[t].alive {
        let m = ms[t];
        let hp = m.hp - at_least_one(b.damage);
        if hp <= 0 {
            let gold = if m.is_boss {
                bounty.boss
            } else {
                bounty.defender
            };
            let soul: int = if m.is_boss {
                1
            } else {
                0
            };
            (
                ms.update(t, Monster { hp: 0, alive: false, ..m }),
                clamp_add(acc.1, gold as int),
                clamp_add(acc.2, soul),
                acc.3.push(b.attacker),
                acc.4.push(LogEntry::DefenderSlain { monster: m.id, boss: m.is_boss, gold, souls: soul as i32 }),
            )
        } else {
            (ms.update(t, Monster { hp: hp as i32, ..m }), acc.1, acc.2, acc.3, acc.4)
        }
    } else {
        acc
    }
}

/// What the caller worked out for one strike on one member: the damage
/// (at least one lands) and the life the striker steals.
#[derive(Clone, Copy, Debug, PartialEq, Eq)]
pub struct Hit {
    pub damage: i32,
    pub heal: i32,
}

/// What an invader's fall is worth: mana to the core and experience to
/// every line still standing in the room.
#[derive(Clone, Copy, Debug, PartialEq, Eq)]
pub struct Fall {
    pub mana: i32,
    pub experience: i32,
}

/// The caller's side of one tick: every number that floating point or dice
/// decide, for every pairing that may come up. Who strikes whom is decided
/// here (see `blows_struck` and `strikes_struck`), not by the caller.
pub struct Exchange {
    /// `blows[a][t]`: the damage party member `a` deals defender `t`.
    pub blows: Vec<Vec<i32>>,
    /// `hits[d][m]`: defender `d`'s strike on party member `m`.
    pub hits: Vec<Vec<Hit>>,
    /// `leech[d]`: the mana defender `d` leeches when its strike fells.
    pub leech: Vec<i32>,
    /// `falls[m]`: what party member `m`'s fall is worth.
    pub falls: Vec<Fall>,
    /// `rolls[d]`: the die that draws whom defender `d` strikes.
    pub rolls: Vec<usize>,
    /// The identities drawn for the defenders that splits bring, in order.
    pub split_ids: Vec<u64>,
    /// The gold a slain defender and a slain boss pay the party.
    pub bounty: Bounty,
}

/// Member `a`'s damage on defender `t` (one where the caller gave none).
pub open spec fn blow_damage(x: Exchange, a: int, t: int) -> i32 {
    if 0 <= a < x.blows@.len() && 0 <= t < x.blows@[a]@.len() {
        x.blows@[a]@[t]
    } else {
        1
    }
}

/// Defender `d`'s strike on member `m` (one damage, no theft where the
/// caller gave none).
pub open spec fn hit_of(x: Exchange, d: int, m: int) -> Hit {
    if 0 <= d < x.hits@.len() && 0 <= m < x.hits@[d]@.len() {
        x.hits@[d]@[m]
    } else {
        Hit { damage: 1, heal: 0 }
    }
}

/// Defender `d`'s leech (none where the caller gave none).
pub open spec fn leech_of(x: Exchange, d: int) -> i32 {
    if 0 <= d < x.leech@.len() {
        x.leech@[d]
    } else {
        0
    }
}

/// What member `m`'s fall is worth (nothing where the caller gave none).
pub open spec fn fall_of(x: Exchange, m: int) -> Fall {
    if 0 <= m < x.falls@.len() {
        x.falls@[m]
    } else {
        Fall { mana: 0, experience: 0 }
    }
}

/// Defender `d`'s die (zero where the caller gave none).
pub open spec fn roll_of(x: Exchange, d: int) -> usize {
    if 0 <= d < x.rolls@.len() {
        x.rolls@[d]
    } else {
        0
    }
}

fn blow_damage_at(x: &Exchange, a: usize, t: usize) -> (r: i32)
    ensures
        r == blow_damage(*x, a as int, t as int),
{
    if a < x.blows.len() && t < x.blows[a].len() {
        x.blows[a][t]
    } else {
        1
    }
}

fn hit_at(x: &Exchange, d: usize, m: usize) -> (r: Hit)
    ensures
        r == hit_of(*x, d as int, m as int),
{
    if d < x.hits.len() && m < x.hits[d].len() {
        x.hits[d][m]
    } else {
        Hit { damage: 1, heal: 0 }
    }
}

fn leech_at(x: &Exchange, d: usize) -> (r: i32)
    ensures
        r == leech_of(*x, d as int),
{
    if d < x.leech.len() {
        x.leech[d]
    } else {
        0
    }
}

fn fall_at(x: &Exchange, m: usize) -> (r: Fall)
    ensures
        r == fall_of(*x, m as int),
{
    if m < x.falls.len() {
        x.falls[m]
    } else {
        Fall { mana: 0, experience: 0 }
    }
}

fn roll_at(x: &Exchange, d: usize) -> (r: usize)
    ensures
        r == roll_of(*x, d as int),
{
    if d < x.rolls.len() {
        x.rolls[d]
    } else {
        0
    }
}

/// The identity the caller drew for the `k`-th split of the tick (zero
/// where it drew none).
pub open spec fn split_id(x: Exchange, k: int) -> u64 {
    if 0 <= k < x.split_ids@.len() {
        x.split_ids@[k]
    } else {
        0
    }
}

fn split_id_at(x: &Exchange, k: usize) -> (r: u64)
    ensures
        r == split_id(*x, k as int),
{
    if k < x.split_ids.len() {
        x.split_ids[k]
    } else {
        0
    }
}

/// The blows of a tick so far, with the splits they caused: the blow tally,
/// how many splits emerged, their chronicle lines, and whether each split
/// so far is the one its parent makes (see `is_split_spawn`).
pub type BlowsTally = (BlowTally, int, Seq<LogEntry>, bool);

/// The blows of the first `n` members on `floor`: each living member, in
/// party order, strikes the defender the invaders hit next (see
/// `defender_target`, which re-aims after every kill), for the caller's
/// damage on that defender; once no defender stands, the rest strike
/// nothing. A defender that splits on death and falls to a blow leaves the
/// next of `spawns` in the room, a defender like any other from then on.
pub open spec fn blows_struck(
    acc: BlowsTally,
    members: Seq<Adventurer>,
    x: Exchange,
    cat: Catalog,
    floor: i32,
    spawns: Seq<Monster>,
    n: int,
) -> BlowsTally
    decreases n,
{
    if n <= 0 {
        acc
    } else {
        let prior = blows_struck(acc, members, x, cat, floor, spawns, n - 1);
        let a = n - 1;
        if members[a].alive {
            match defender_target(prior.0.0, cat) {
                Some(t) => {
                    let m = prior.0.0[t];
                    let landed = blow_landed(
                        prior.0,
                        Blow { attacker: members[a].id, target: t as usize, damage: blow_damage(x, a, t) },
                        x.bounty,
                    );
                    if landed.0[t].alive || !carries_passive(m, cat, "SplitOnDeath"@) || split_template(cat, m.kind@) is None {
                        (landed, prior.1, prior.2, prior.3)
                    } else {
                        let k = prior.1;
                        let sp = spawns[k];
                        (
                            (landed.0.push(sp), landed.1, landed.2, landed.3, landed.4),
                            k + 1,
                            prior.2.push(LogEntry::DefenderSplits { parent: m.id, spawn: sp.id }),
                            prior.3 && 0 <= split_template(cat, m.kind@)->0 < cat.monsters.len() && is_split_spawn(
                                sp,
                                cat,
                                cat.monsters[split_template(cat, m.kind@)->0],
                                floor,
                                split_id(x, k),
                            ),
                        )
                    }
                },
                None => prior,
            }
        } else {
            prior
        }
    }
}

proof fn lemma_blows_use_what_they_drew(
    acc: BlowsTally,
    members: Seq<Adventurer>,
    x: Exchange,
    cat: Catalog,
    floor: i32,
    spawns: Seq<Monster>,
    more: Seq<Monster>,
    n: int,
)
    requires
        0 <= acc.1,
        blows_struck(acc, members, x, cat, floor, spawns, n).1 <= spawns.len(),
        spawns.len() <= more.len(),
        more.subrange(0, spawns.len() as int) == spawns,
    ensures
        blows_struck(acc, members, x, cat, floor, more, n) == blows_struck(acc, members, x, cat, floor, spawns, n),
    decreases n,
{
    if n > 0 {
        lemma_blows_count_grows(acc, members, x, cat, floor, spawns, n);
        lemma_blows_count_grows(acc, members, x, cat, floor, spawns, n - 1);
        lemma_blows_use_what_they_drew(acc, members, x, cat, floor, spawns, more, n - 1);
        let prior = blows_struck(acc, members, x, cat, floor, spawns, n - 1);
        assert(blows_struck(acc, members, x, cat, floor, more, n - 1) == prior);
        let cur = blows_struck(acc, members, x, cat, floor, spawns, n);
        let a = n - 1;
        if members[a].alive {
            match defender_target(prior.0.0, cat) {
                Some(t) => {
                    let m = prior.0.0[t];
                    let landed = blow_landed(
                        prior.0,
                        Blow { attacker: members[a].id, target: t as usize, damage: blow_damage(x, a, t) },
                        x.bounty,
                    );
                    if !(landed.0[t].alive || !carries_passive(m, cat, "SplitOnDeath"@) || split_template(cat, m.kind@) is None) {
                        assert(cur.1 == prior.1 + 1);
                        assert(more.subrange(0, spawns.len() as int)[prior.1] == more[prior.1]);
                        assert(more[prior.1] == spawns[prior.1]);
                    }
                },
                None => {},
            }
        }
    }
}

proof fn lemma_blows_count_grows(
    acc: BlowsTally,
    members: Seq<Adventurer>,
    x: Exchange,
    cat: Catalog,
    floor: i32,
    spawns: Seq<Monster>,
    n: int,
)
    requires
        0 <= acc.1,
    ensures
        n > 0 ==> blows_struck(acc, members, x, cat, floor, spawns, n - 1).1 <= blows_struck(acc, members, x, cat, floor, spawns, n).1,
        acc.1 <= blows_struck(acc, members, x, cat, floor, spawns, n).1,
    decreases n,
{
    if n > 0 {
        lemma_blows_count_grows(acc, members, x, cat, floor, spawns, n - 1);
    }
}

#[verifier::rlimit(40)]
fn strike_blows(
    monsters: &mut Vec<Monster>,
    members: &Vec<Adventurer>,
    cat: &Catalog,
    floor: i32,
    x: &Exchange,
    loot: i32,
    souls: i32,
) -> (r: (i32, i32, Vec<u64>, Vec<LogEntry>, Vec<LogEntry>, Ghost<Seq<Monster>>))
    requires
        cat.wf(),
        floor <= FLOOR_LIMIT,
    ensures
        ({
            let t = blows_struck(
                ((old(monsters)@, loot as int, souls as int, seq![], seq![]), 0, seq![], true),
                members@,
                *x,
                *cat,
                floor,
                r.5@,
                members@.len() as int,
            );
            &&& final(monsters)@ == t.0.0
            &&& r.0 == t.0.1
            &&& r.1 == t.0.2
            &&& r.2@ == t.0.3
            &&& r.3@ == t.0.4
            &&& r.4@ == t.2
            &&& t.3
            &&& t.1 == r.5@.len()
        }),
{
    let ghost init: BlowsTally = ((monsters@, loot as int, souls as int, Seq::<u64>::empty(), Seq::<LogEntry>::empty()), 0, Seq::<LogEntry>::empty(), true);
    let ghost mut spawns: Seq<Monster> = Seq::empty();
    let mut loot = loot;
    let mut souls = souls;
    let mut credits: Vec<u64> = Vec::new();
    let mut logs: Vec<LogEntry> = Vec::new();
    let mut split_logs: Vec<LogEntry> = Vec::new();
    let mut splits: usize = 0;
    let mut a: usize = 0;
    while a < members.len()
        invariant
            0 <= a <= members@.len(),
            cat.wf(),
            floor <= FLOOR_LIMIT,
            splits == spawns.len(),
            splits <= a,
            init.1 == 0,
            ({
                let t = blows_struck(init, members@, *x, *cat, floor, spawns, a as int);
                &&& monsters@ == t.0.0
                &&& loot == t.0.1
                &&& souls == t.0.2
                &&& credits@ == t.0.3
                &&& logs@ == t.0.4
                &&& split_logs@ == t.2
                &&& t.3
                &&& t.1 == spawns.len()
            }),
        decreases members@.len() - a,
    {
        if members[a].alive {
            match defender_target_idx(monsters, cat) {
                Some(t) => {
                    let d = blow_damage_at(x, a, t);
                    let ghost b = Blow { attacker: members@[a as int].id, target: t, damage: d };
                    let ghost m = monsters@[t as int];
                    let ghost prev = blows_struck(init, members@, *x, *cat, floor, spawns, a as int);
                    let ghost landed = blow_landed(prev.0, b, x.bounty);
                    let dmg: i64 = if d >= 1 { d as i64 } else { 1 };
                    let hp: i64 = monsters[t].hp as i64 - dmg;
                    if hp <= 0 {
                        let boss = monsters[t].is_boss;
                        let gold: i32 = if boss { x.bounty.boss } else { x.bounty.defender };
                        let soul: i32 = if boss { 1 } else { 0 };
                        let id = monsters[t].id;
                        monsters[t].hp = 0;
                        monsters[t].alive = false;
                        let l: i64 = loot as i64 + gold as i64;
                        loot = if l > i32::MAX as i64 { i32::MAX } else if l < i32::MIN as i64 { i32::MIN } else { l as i32 };
                        let so: i64 = souls as i64 + soul as i64;
                        souls = if so > i32::MAX as i64 { i32::MAX } else { so as i32 };
                        credits.push(members[a].id);
                        logs.push(LogEntry::DefenderSlain { monster: id, boss, gold, souls: soul });
                        proof {
                            assert(monsters@ =~= prev.0.0.update(t as int, Monster { hp: 0, alive: false, ..m }));
                        }
                        assert(monsters@[t as int].active_traits == m.active_traits);
                        assert(monsters@[t as int].kind == m.kind);
                        assert(!landed.0[t as int].alive);
                        assert(landed.0 == monsters@);
                        let splits_now = has_passive(&monsters[t], cat, "SplitOnDeath");
                        let spawn = if splits_now {
                            let sid = split_id_at(x, splits);
                            split_spawn(cat, &monsters[t].kind, floor, sid)
                        } else {
                            None
                        };
                        match spawn {
                            Some(sp) => {
                                let ghost sp_g = sp;
                                let ghost before = spawns;
                                let sp_id = sp.id;
                                monsters.push(sp);
                                split_logs.push(LogEntry::DefenderSplits { parent: id, spawn: sp_id });
                                proof {
                                    spawns = spawns.push(sp_g);
                                    assert(spawns.subrange(0, before.len() as int) =~= before);
                                    lemma_blows_use_what_they_drew(init, members@, *x, *cat, floor, before, spawns, a as int);
                                    assert(spawns[before.len() as int] == sp_g);
                                    assert(monsters@ =~= landed.0.push(sp_g));
                                    assert(prev.1 == before.len());
                                }
                                splits = splits + 1;
                            },
                            None => {},
                        }
                    } else {
                        monsters[t].hp = hp as i32;
                        proof {
                            assert(monsters@ =~= prev.0.0.update(t as int, Monster { hp: hp as i32, ..m }));
                        }
                    }
                },
                None => {},
            }
        }
        a = a + 1;
    }
    (loot, souls, credits, logs, split_logs, Ghost(spawns))
}

/// The strikes of the first `n` defenders of `defenders` (the room as the
/// blows left it): each defender still standing, in room order, strikes the
/// member `hero_target` draws (under the room's battle `order`, with the
/// defender's die), for the caller's damage on that member; once the party
/// is wiped out, the rest strike nothing.
pub open spec fn strikes_struck(
    acc: StrikeTally,
    defenders: Seq<Monster>,
    x: Exchange,
    order: RoomBattleOrder,
    n: int,
) -> StrikeTally
    decreases n,
{
    if n <= 0 {
        acc
    } else {
        let prior = strikes_struck(acc, defenders, x, order, n - 1);
        let d = n - 1;
        if defenders[d].alive {
            match hero_target(prior.0, order, roll_of(x, d)) {
                Some(m) => strike_landed(
                    prior,
                    Strike {
                        monster: defenders[d].id,
                        target: m as usize,
                        damage: hit_of(x, d, m).damage,
                        heal: hit_of(x, d, m).heal,
                        leech: leech_of(x, d),
                        kill_mana: fall_of(x, m).mana,
                        kill_xp: fall_of(x, m).experience,
                    },
                ),
                None => prior,
            }
        } else {
            prior
        }
    }
}

fn strike_back(
    members: &mut Vec<Adventurer>,
    defenders: &Vec<Monster>,
    x: &Exchange,
    order: RoomBattleOrder,
    casualties: i32,
) -> (r: (i32, i32, Vec<(u64, i32)>, Vec<(u64, i32, i32)>))
    ensures
        ({
            let t = strikes_struck((old(members)@, casualties as int, 0, seq![], seq![]), defenders@, *x, order, defenders@.len() as int);
            &&& final(members)@ == t.0
            &&& r.0 == t.1
            &&& r.1 == t.2
            &&& r.2@ == t.3
            &&& r.3@ == t.4
        }),
{
    let ghost init = (members@, casualties as int, 0int, Seq::<(u64, i32)>::empty(), Seq::<(u64, i32, i32)>::empty());
    let mut cas = casualties;
    let mut leech: i32 = 0;
    let mut heals: Vec<(u64, i32)> = Vec::new();
    let mut fallen: Vec<(u64, i32, i32)> = Vec::new();
    let mut d: usize = 0;
    while d < defenders.len()
        invariant
            0 <= d <= defenders@.len(),
            ({
                let t = strikes_struck(init, defenders@, *x, order, d as int);
                &&& members@ == t.0
                &&& cas == t.1
                &&& leech == t.2
                &&& heals@ == t.3
                &&& fallen@ == t.4
            }),
        decreases defenders@.len() - d,
    {
        if defenders[d].alive {
            let roll = roll_at(x, d);
            match hero_target_idx(members, order, roll) {
                Some(t) => {
                    let h = hit_at(x, d, t);
                    let lee = leech_at(x, d);
                    let fa = fall_at(x, t);
                    let ghost s = Strike {
                        monster: defenders@[d as int].id,
                        target: t,
                        damage: h.damage,
                        heal: h.heal,
                        leech: lee,
                        kill_mana: fa.mana,
                        kill_xp: fa.experience,
                    };
                    let ghost m = members@[t as int];
                    let ghost prev = strikes_struck(init, defenders@, *x, order, d as int);
                    assert(strikes_struck(init, defenders@, *x, order, d + 1) == strike_landed(prev, s));
                    let dmg: i64 = if h.damage >= 1 { h.damage as i64 } else { 1 };
                    let hp: i64 = members[t].hp as i64 - dmg;
                    if h.heal > 0 {
                        heals.push((defenders[d].id, h.heal));
                    }
                    if hp <= 0 {
                        let id = members[t].id;
                        members[t].hp = 0;
                        members[t].alive = false;
                        cas = if cas == i32::MAX { i32::MAX } else { cas + 1 };
                        let l: i64 = leech as i64 + lee as i64;
                        leech = if l > i32::MAX as i64 { i32::MAX } else if l < i32::MIN as i64 { i32::MIN } else { l as i32 };
                        fallen.push((id, fa.mana, fa.experience));
                        proof {
                            assert(members@ =~= prev.0.update(t as int, Adventurer { hp: 0, alive: false, ..m }));
                        }
                    } else {
                        members[t].hp = hp as i32;
                        proof {
                            assert(members@ =~= prev.0.update(t as int, Adventurer { hp: hp as i32, ..m }));
                        }
                    }
                },
                None => {},
            }
        }
        d = d + 1;
    }
    (cas, leech, heals, fallen)
}


/// What the strikes of a tick leave: the party's members, its casualties,
/// the mana leeched, the life stolen (defender and amount, in order) and
/// the fallen (member, mana earned, experience taught, in order).
pub type StrikeTally = (Seq<Adventurer>, int, int, Seq<(u64, i32)>, Seq<(u64, i32, i32)>);

/// One strike lands: a strike at a fallen or missing member does nothing;
/// otherwise the striker steals its life (when it has some to steal), and a
/// member brought to zero falls, a casualty whose fall leeches mana.
pub open spec fn strike_landed(acc: StrikeTally, s: Strike) -> StrikeTally {
    let ms = acc.0;
    let t = s.target as int;
    if t < ms.len() && ms[t].alive {
        let m = ms[t];
        let hp = m.hp - at_least_one(s.damage);
        let heals = if s.heal > 0 {
            acc.3.push((s.monster, s.heal))
        } else {
            acc.3
        };
        if hp <= 0 {
            (
                ms.update(t, Adventurer { hp: 0, alive: false, ..m }),
                clamp_add(acc.1, 1),
                clamp_add(acc.2, s.leech as int),
                heals,
                acc.4.push((m.id, s.kill_mana, s.kill_xp)),
            )
        } else {
            (ms.update(t, Adventurer { hp: hp as i32, ..m }), acc.1, acc.2, heals, acc.4)
        }
    } else {
        acc
    }
}

/// `i` is the first living defender called `id`.
pub open spec fn first_living(ms: Seq<Monster>, id: u64, i: int) -> bool {
    &&& 0 <= i < ms.len()
    &&& ms[i].id == id
    &&& ms[i].alive
    &&& forall|j: int| 0 <= j < i ==> !(ms[j].id == id && ms[j].alive)
}

/// Stolen life mends the first living defender `h.0` by `h.1`, up to its
/// full health; the undead do not mend.
pub open spec fn life_stolen(ms: Seq<Monster>, cat: Catalog, h: (u64, i32)) -> Seq<Monster> {
    if exists|i: int| first_living(ms, h.0, i) {
        let i = choose|i: int| first_living(ms, h.0, i);
        let m = ms[i];
        if undead_kind(cat, m.kind@) {
            ms
        } else {
            ms.update(i, Monster { hp: lesser(m.hp + h.1, m.max_hp as int) as i32, ..m })
        }
    } else {
        ms
    }
}

/// The first `n` thefts of life in order.
pub open spec fn lives_stolen(ms: Seq<Monster>, cat: Catalog, heals: Seq<(u64, i32)>, n: int) -> Seq<Monster>
    decreases n,
{
    if n <= 0 {
        ms
    } else {
        life_stolen(lives_stolen(ms, cat, heals, n - 1), cat, heals[n - 1])
    }
}

fn is_undead(cat: &Catalog, kind: &String) -> (r: bool)
    ensures
        r == undead_kind(*cat, kind@),
{
    match cat.monster_index(kind.as_str()) {
        Some(ti) => cat.monsters[ti].undead,
        None => false,
    }
}

fn steal_lives(monsters: &mut Vec<Monster>, cat: &Catalog, heals: &Vec<(u64, i32)>)
    ensures
        final(monsters)@ == lives_stolen(old(monsters)@, *cat, heals@, heals@.len() as int),
        final(monsters)@.len() == old(monsters)@.len(),
        forall|k: int| 0 <= k < old(monsters)@.len() ==> (#[trigger] final(monsters)@[k]).alive == old(monsters)@[k].alive
            && final(monsters)@[k].kind == old(monsters)@[k].kind,
{
    let ghost orig = monsters@;
    let mut n: usize = 0;
    while n < heals.len()
        invariant
            0 <= n <= heals@.len(),
            monsters@ == lives_stolen(orig, *cat, heals@, n as int),
            monsters@.len() == orig.len(),
            forall|k: int| 0 <= k < orig.len() ==> (#[trigger] monsters@[k]).alive == orig[k].alive
                && monsters@[k].kind == orig[k].kind,
        decreases heals@.len() - n,
    {
        let (id, heal) = heals[n];
        let ghost ms = monsters@;
        let mut i: usize = 0;
        while i < monsters.len()
            invariant
                0 <= i <= monsters@.len(),
                monsters@ == ms,
                forall|j: int| 0 <= j < i ==> !(ms[j].id == id && ms[j].alive),
            ensures
                0 <= i <= monsters@.len(),
                monsters@ == ms,
                forall|j: int| 0 <= j < i ==> !(ms[j].id == id && ms[j].alive),
                i < monsters@.len() ==> ms[i as int].id == id && ms[i as int].alive,
            decreases monsters@.len() - i,
        {
            if monsters[i].id == id && monsters[i].alive {
                break;
            }
            i = i + 1;
        }
        if i < monsters.len() {
            proof {
                assert(first_living(ms, id, i as int));
                let w = choose|w: int| first_living(ms, id, w);
                if w < i {
                    assert(!(ms[w].id == id && ms[w].alive));
                }
                if w > i {
                    assert(!(ms[i as int].id == id && ms[i as int].alive));
                }
            }
            if !is_undead(cat, &monsters[i].kind) {
                let ghost m = ms[i as int];
                let hp: i64 = monsters[i].hp as i64 + heal as i64;
                let mx = monsters[i].max_hp;
                monsters[i].hp = if hp <= mx as i64 { hp as i32 } else { mx };
                proof {
                    assert(monsters@ =~= ms.update(i as int, Monster { hp: lesser(m.hp + heal, m.max_hp as int) as i32, ..m }));
                }
            }
        } else {
            proof {
                assert forall|w: int| !first_living(ms, id, w) by {
                    if first_living(ms, id, w) {
                        assert(!(ms[w].id == id && ms[w].alive));
                    }
                }
            }
        }
        n = n + 1;
    }
}

/// The ledger view with a kill credited to hero `id`.
pub open spec fn credit_view(views: Seq<HeroView>, id: u64) -> Seq<HeroView> {
    if exists|c: int| is_first_view(views, id, c) {
        let c = choose|c: int| is_first_view(views, id, c);
        views.update(c, HeroView { kills: clamp_add(views[c].kills as int, 1) as i32, ..views[c] })
    } else {
        views
    }
}

/// The first `n` kill credits entered in order.
pub open spec fn credits_entered(views: Seq<HeroView>, credits: Seq<u64>, n: int) -> Seq<HeroView>
    decreases n,
{
    if n <= 0 {
        views
    } else {
        credit_view(credits_entered(views, credits, n - 1), credits[n - 1])
    }
}

fn credit_hero(records: &mut Vec<HeroRecord>, id: u64)
    ensures
        ledger_views(final(records)@) == credit_view(ledger_views(old(records)@), id),
{
    let ghost views = ledger_views(records@);
    let mut c: usize = 0;
    while c < records.len()
        invariant
            0 <= c <= records.len(),
            *records == *old(records),
            views == ledger_views(old(records)@),
            forall|j: int| 0 <= j < c ==> records@[j].id != id,
        decreases records.len() - c,
    {
        if records[c].id == id {
            proof {
                assert(is_first_view(views, id, c as int)) by {
                    assert forall|j: int| 0 <= j < c implies views[j].id != id by {
                        assert(views[j] == records@[j]@);
                    }
                }
                let u = choose|u: int| is_first_view(views, id, u);
                if u < c {
                    assert(views[u].id != id);
                }
                if u > c {
                    assert(views[c as int].id != id);
                }
            }
            let k = records[c].kills;
            records[c].kills = if k == i32::MAX { i32::MAX } else { k + 1 };
            proof {
                assert(ledger_views(records@) =~= credit_view(views, id));
            }
            return;
        }
        c = c + 1;
    }
    proof {
        assert forall|w: int| !is_first_view(views, id, w) by {
            if is_first_view(views, id, w) {
                assert(records@[w].id != id);
                assert(views[w] == records@[w]@);
            }
        }
    }
}

fn credit_heroes(records: &mut Vec<HeroRecord>, credits: &Vec<u64>)
    ensures
        ledger_views(final(records)@) == credits_entered(ledger_views(old(records)@), credits@, credits@.len() as int),
{
    let mut i: usize = 0;
    while i < credits.len()
        invariant
            0 <= i <= credits@.len(),
            ledger_views(records@) == credits_entered(ledger_views(old(records)@), credits@, i as int),
        decreases credits@.len() - i,
    {
        credit_hero(records, credits[i]);
        i = i + 1;
    }
}

/// The experience pools as line and amount.
pub open spec fn pool_views(pools: Seq<TypeExperience>) -> Seq<(Seq<char>, i32)> {
    pools.map_values(|p: TypeExperience| (p.kind@, p.experience))
}

/// `i` is the first pool of line `kind`.
pub open spec fn first_pool(pv: Seq<(Seq<char>, i32)>, kind: Seq<char>, i: int) -> bool {
    &&& 0 <= i < pv.len()
    &&& pv[i].0 == kind
    &&& forall|j: int| 0 <= j < i ==> pv[j].0 != kind
}

/// Line `kind` learns `xp`: its pool grows (saturating), or a pool is
/// opened for it.
pub open spec fn pool_add(pv: Seq<(Seq<char>, i32)>, kind: Seq<char>, xp: i32) -> Seq<(Seq<char>, i32)> {
    if exists|i: int| first_pool(pv, kind, i) {
        let i = choose|i: int| first_pool(pv, kind, i);
        pv.update(i, (kind, clamp_add(pv[i].1 as int, xp as int) as i32))
    } else {
        pv.push((kind, xp))
    }
}

/// Every living defender among the first `n` of `ms` teaches its line `xp`.
pub open spec fn lines_taught(pv: Seq<(Seq<char>, i32)>, ms: Seq<Monster>, xp: i32, n: int) -> Seq<(Seq<char>, i32)>
    decreases n,
{
    if n <= 0 {
        pv
    } else {
        let prior = lines_taught(pv, ms, xp, n - 1);
        if ms[n - 1].alive {
            pool_add(prior, ms[n - 1].kind@, xp)
        } else {
            prior
        }
    }
}

fn add_pool(pools: &mut Vec<TypeExperience>, kind: &String, xp: i32)
    ensures
        pool_views(final(pools)@) == pool_add(pool_views(old(pools)@), kind@, xp),
{
    let ghost pv = pool_views(pools@);
    let mut i: usize = 0;
    while i < pools.len()
        invariant
            0 <= i <= pools@.len(),
            *pools == *old(pools),
            pv == pool_views(old(pools)@),
            forall|j: int| 0 <= j < i ==> pv[j].0 != kind@,
        decreases pools@.len() - i,
    {
        if pools[i].kind == *kind {
            proof {
                assert(first_pool(pv, kind@, i as int));
                let w = choose|w: int| first_pool(pv, kind@, w);
                if w < i {
                    assert(pv[w].0 != kind@);
                }
                if w > i {
                    assert(pv[i as int].0 != kind@);
                }
            }
            let e: i64 = pools[i].experience as i64 + xp as i64;
            pools[i].experience = if e > i32::MAX as i64 { i32::MAX } else if e < i32::MIN as i64 { i32::MIN } else { e as i32 };
            proof {
                assert(pool_views(pools@) =~= pool_add(pv, kind@, xp));
            }
            return;
        }
        i = i + 1;
    }
    proof {
        assert forall|w: int| !first_pool(pv, kind@, w) by {
            if first_pool(pv, kind@, w) {
                assert(pv[w].0 != kind@);
            }
        }
    }
    pools.push(TypeExperience { kind: kind.clone(), experience: xp });
    proof {
        assert(pool_views(pools@) =~= pv.push((kind@, xp)));
    }
}

fn teach_lines(pools: &mut Vec<TypeExperience>, monsters: &Vec<Monster>, xp: i32)
    ensures
        pool_views(final(pools)@) == lines_taught(pool_views(old(pools)@), monsters@, xp, monsters@.len() as int),
{
    let mut k: usize = 0;
    while k < monsters.len()
        invariant
            0 <= k <= monsters@.len(),
            pool_views(pools@) == lines_taught(pool_views(old(pools)@), monsters@, xp, k as int),
        decreases monsters@.len() - k,
    {
        if monsters[k].alive {
            add_pool(pools, &monsters[k].kind, xp);
        }
        k = k + 1;
    }
}

/// `mana` with `gain` added (within `i32`) and held to `cap`.
pub open spec fn top_up(mana: int, gain: int, cap: int) -> int {
    lesser(clamp_add(mana, gain), cap)
}

pub(crate) fn top_up_mana(mana: i32, gain: i32, cap: i32) -> (r: i32)
    ensures
        r == top_up(mana as int, gain as int, cap as int),
{
    let t: i64 = mana as i64 + gain as i64;
    let t: i64 = if t > i32::MAX as i64 { i32::MAX as i64 } else if t < i32::MIN as i64 { i32::MIN as i64 } else { t };
    if t <= cap as i64 { t as i32 } else { cap }
}

/// What the kills of a tick bring, before the first `n` of the fallen were
/// counted: the core's mana, the realm's dead, the experience pools and the
/// chronicle lines.
pub type FallTally = (int, int, Seq<(Seq<char>, i32)>, Seq<LogEntry>);

/// One invader `v` (member, mana earned, experience taught) fell: the core
/// takes the mana (see `top_up`, capped at `max_mana`), the realm counts one
/// more dead, and every defender still standing in `ms` teaches its line.
pub open spec fn fall_rewarded(acc: FallTally, v: (u64, i32, i32), ms: Seq<Monster>, max_mana: i32) -> FallTally {
    (
        top_up(acc.0, v.1 as int, max_mana as int),
        clamp_add(acc.1, 1),
        lines_taught(acc.2, ms, v.2, ms.len() as int),
        acc.3.push(LogEntry::InvaderSlain { victim: v.0, mana: v.1, experience: v.2 }),
    )
}

/// The first `n` of the fallen rewarded in order.
pub open spec fn falls_rewarded(acc: FallTally, fallen: Seq<(u64, i32, i32)>, ms: Seq<Monster>, max_mana: i32, n: int) -> FallTally
    decreases n,
{
    if n <= 0 {
        acc
    } else {
        fall_rewarded(falls_rewarded(acc, fallen, ms, max_mana, n - 1), fallen[n - 1], ms, max_mana)
    }
}

/// Some defender of `room` still stands.
pub open spec fn defenders_standing(room: Room) -> bool {
    exists|k: int| 0 <= k < room.monsters.len() && room.monsters[k].alive
}

/// Some member of `ms` is alive.
pub open spec fn party_standing(ms: Seq<Adventurer>) -> bool {
    exists|k: int| 0 <= k < ms.len() && ms[k].alive
}

/// The clash of arms sounds when someone of the party stands to fight.
pub open spec fn combat_cue(ms: Seq<Adventurer>) -> Seq<SoundEvent> {
    if party_standing(ms) {
        seq![SoundEvent::Combat]
    } else {
        Seq::empty()
    }
}

/// The blows of party `p` in room `r` of floor `f` this tick, with the
/// splits they leave (see `blows_struck`): none while a snare holds the
/// party.
pub open spec fn tick_blows(s: GameState, cat: Catalog, p: int, f: int, r: int, x: Exchange, spawns: Seq<Monster>) -> BlowsTally {
    let party = s.adventurer_parties[p];
    let init = (
        (s.floors[f].rooms[r].monsters@, party.loot as int, s.souls as int, Seq::<u64>::empty(), Seq::<LogEntry>::empty()),
        0int,
        Seq::<LogEntry>::empty(),
        true,
    );
    if party.snared_ticks > 0 {
        init
    } else {
        blows_struck(init, party.members@, x, cat, s.floors[f].number, spawns, party.members@.len() as int)
    }
}

/// The strikes on party `p` this tick (see `strikes_struck`), by the
/// defenders the blows left standing.
pub open spec fn tick_strikes(s: GameState, cat: Catalog, p: int, f: int, r: int, x: Exchange, spawns: Seq<Monster>) -> StrikeTally {
    let party = s.adventurer_parties[p];
    let defenders = tick_blows(s, cat, p, f, r, x, spawns).0.0;
    strikes_struck(
        (party.members@, party.casualties as int, 0, seq![], seq![]),
        defenders,
        x,
        s.floors[f].rooms[r].battle_order,
        defenders.len() as int,
    )
}

/// `m` is `s` after the blows and strikes of a tick between party `p` and
/// room `r` of floor `f`, before the party weighs retreat: the clash sounds
/// (see `combat_cue`); a snared party loses a tick of its snare instead of
/// striking; the blows land (see `tick_blows`), then the strikes (see
/// `tick_strikes`); stolen life mends the defenders (see `life_stolen`); the
/// leeched mana flows into the core (see `top_up`); the slain defenders
/// credit their slayers in the ledger; each fallen invader is rewarded (see
/// `fall_rewarded`); and every death, defender's or invader's, sounds.
pub open spec fn tick_applied(
    s: GameState,
    cat: Catalog,
    p: int,
    f: int,
    r: int,
    x: Exchange,
    spawns: Seq<Monster>,
    m: GameState,
) -> bool {
    let party = s.adventurer_parties[p];
    let room = s.floors[f].rooms[r];
    let bb = tick_blows(s, cat, p, f, r, x, spawns);
    let b = bb.0;
    let st = tick_strikes(s, cat, p, f, r, x, spawns);
    let ms = lives_stolen(b.0, cat, st.3, st.3.len() as int);
    let mana = if st.2 > 0 {
        top_up(s.mana as int, st.2, s.max_mana as int)
    } else {
        s.mana as int
    };
    let leech_log = if st.2 > 0 {
        seq![LogEntry::ManaLeech { mana: st.2 as i32 }]
    } else {
        Seq::<LogEntry>::empty()
    };
    let rw = falls_rewarded(
        (mana, s.total_deaths as int, pool_views(s.type_experience@), seq![]),
        st.4,
        ms,
        s.max_mana,
        st.4.len() as int,
    );
    let q = m.adventurer_parties[p];
    &&& bb.3
    &&& bb.1 == spawns.len()
    &&& m.floors@ == s.floors@.update(f, Floor { rooms: m.floors[f].rooms, ..s.floors[f] })
    &&& m.floors[f].rooms@ == s.floors[f].rooms@.update(r, Room { monsters: m.floors[f].rooms[r].monsters, ..room })
    &&& m.floors[f].rooms[r].monsters@ == ms
    &&& m.adventurer_parties@ == s.adventurer_parties@.update(p, q)
    &&& q.members@ == st.0
    &&& q == (AdventurerParty {
        members: q.members,
        casualties: st.1 as i32,
        loot: b.1 as i32,
        snared_ticks: if party.snared_ticks > 0 {
            (party.snared_ticks - 1) as i32
        } else {
            party.snared_ticks
        },
        ..party
    })
    &&& ledger_views(m.known_adventurers@) == credits_entered(ledger_views(s.known_adventurers@), b.3, b.3.len() as int)
    &&& pool_views(m.type_experience@) == rw.2
    &&& m.log@ == s.log@ + bb.2 + leech_log + b.4 + rw.3
    &&& m.sounds@ == s.sounds@ + combat_cue(party.members@) + Seq::new(
        (b.3.len() + st.4.len()) as nat,
        |i: int| SoundEvent::Death,
    )
    &&& m == (GameState {
        floors: m.floors,
        adventurer_parties: m.adventurer_parties,
        known_adventurers: m.known_adventurers,
        type_experience: m.type_experience,
        souls: b.2 as i32,
        mana: rw.0 as i32,
        total_deaths: rw.1 as i32,
        log: m.log,
        sounds: m.sounds,
        ..s
    })
}

fn defenders_alive(room: &Room) -> (r: bool)
    ensures
        r == defenders_standing(*room),
{
    let mut k: usize = 0;
    while k < room.monsters.len()
        invariant
            0 <= k <= room.monsters.len(),
            forall|j: int| 0 <= j < k ==> !room.monsters[j].alive,
        decreases room.monsters.len() - k,
    {
        if room.monsters[k].alive {
            return true;
        }
        k = k + 1;
    }
    false
}

fn members_alive(ms: &Vec<Adventurer>) -> (r: bool)
    ensures
        r == party_standing(ms@),
{
    let mut k: usize = 0;
    while k < ms.len()
        invariant
            0 <= k <= ms@.len(),
            forall|j: int| 0 <= j < k ==> !ms@[j].alive,
        decreases ms@.len() - k,
    {
        if ms[k].alive {
            return true;
        }
        k = k + 1;
    }
    false
}

/// `a` is `s` once the clash sounded, the blows and strikes of the tick
/// landed and stolen life mended the defenders (see `tick_applied`), before
/// any reward.
pub open spec fn fought(
    s: GameState,
    cat: Catalog,
    p: int,
    f: int,
    r: int,
    x: Exchange,
    spawns: Seq<Monster>,
    a: GameState,
) -> bool {
    let party = s.adventurer_parties[p];
    let room = s.floors[f].rooms[r];
    let bb = tick_blows(s, cat, p, f, r, x, spawns);
    let b = bb.0;
    let st = tick_strikes(s, cat, p, f, r, x, spawns);
    let q = a.adventurer_parties[p];
    &&& bb.3
    &&& bb.1 == spawns.len()
    &&& a.log@ == s.log@ + bb.2
    &&& a.floors@ == s.floors@.update(f, Floor { rooms: a.floors[f].rooms, ..s.floors[f] })
    &&& a.floors[f].rooms@ == s.floors[f].rooms@.update(r, Room { monsters: a.floors[f].rooms[r].monsters, ..room })
    &&& a.floors[f].rooms[r].monsters@ == lives_stolen(b.0, cat, st.3, st.3.len() as int)
    &&& a.adventurer_parties@ == s.adventurer_parties@.update(p, q)
    &&& q.members@ == st.0
    &&& q == (AdventurerParty {
        members: q.members,
        casualties: st.1 as i32,
        loot: b.1 as i32,
        snared_ticks: if party.snared_ticks > 0 {
            (party.snared_ticks - 1) as i32
        } else {
            party.snared_ticks
        },
        ..party
    })
    &&& a.sounds@ == s.sounds@ + combat_cue(party.members@)
    &&& a == (GameState {
        floors: a.floors,
        adventurer_parties: a.adventurer_parties,
        souls: b.2 as i32,
        sounds: a.sounds,
        log: a.log,
        ..s
    })
}

#[verifier::rlimit(80)]
fn fight(
    state: &mut GameState,
    cat: &Catalog,
    party_idx: usize,
    floor_idx: usize,
    room_idx: usize,
    x: &Exchange,
) -> (res: (Vec<u64>, Vec<LogEntry>, i32, Vec<(u64, i32, i32)>, Ghost<Seq<Monster>>))
    requires
        cat.wf(),
        party_idx < old(state).adventurer_parties.len(),
        floor_idx < old(state).floors.len(),
        room_idx < old(state).floors[floor_idx as int].rooms.len(),
        old(state).floors[floor_idx as int].number <= FLOOR_LIMIT,
    ensures
        fought(*old(state), *cat, party_idx as int, floor_idx as int, room_idx as int, *x, res.4@, *final(state)),
        ({
            let b = tick_blows(*old(state), *cat, party_idx as int, floor_idx as int, room_idx as int, *x, res.4@).0;
            let st = tick_strikes(*old(state), *cat, party_idx as int, floor_idx as int, room_idx as int, *x, res.4@);
            &&& res.0@ == b.3
            &&& res.1@ == b.4
            &&& res.2 == st.2
            &&& res.3@ == st.4
        }),
{
    let ghost s = *state;
    if members_alive(&state.adventurer_parties[party_idx].members) {
        state.sounds.push(SoundEvent::Combat);
    }
    let snared = state.adventurer_parties[party_idx].snared_ticks > 0;
    if snared {
        state.adventurer_parties[party_idx].snared_ticks = state.adventurer_parties[party_idx].snared_ticks - 1;
    }
    let loot0 = state.adventurer_parties[party_idx].loot;
    let souls0 = state.souls;
    let floor = state.floors[floor_idx].number;
    let (loot, souls, credits, logs, mut split_logs, spawns) = if snared {
        (loot0, souls0, Vec::new(), Vec::new(), Vec::new(), Ghost(Seq::<Monster>::empty()))
    } else {
        strike_blows(
            &mut state.floors[floor_idx].rooms[room_idx].monsters,
            &state.adventurer_parties[party_idx].members,
            cat,
            floor,
            x,
            loot0,
            souls0,
        )
    };
    state.log.append(&mut split_logs);
    state.adventurer_parties[party_idx].loot = loot;
    state.souls = souls;
    let order = state.floors[floor_idx].rooms[room_idx].battle_order;
    let cas0 = state.adventurer_parties[party_idx].casualties;
    let (cas, leech, heals, fallen) = strike_back(
        &mut state.adventurer_parties[party_idx].members,
        &state.floors[floor_idx].rooms[room_idx].monsters,
        x,
        order,
        cas0,
    );
    state.adventurer_parties[party_idx].casualties = cas;
    steal_lives(&mut state.floors[floor_idx].rooms[room_idx].monsters, cat, &heals);
    proof {
        let pi = party_idx as int;
        let fi = floor_idx as int;
        let ri = room_idx as int;
        assert(state.sounds@ =~= s.sounds@ + combat_cue(s.adventurer_parties[pi].members@));
        assert(state.floors@ =~= s.floors@.update(fi, Floor { rooms: state.floors[fi].rooms, ..s.floors[fi] }));
        assert(state.floors[fi].rooms@ =~= s.floors[fi].rooms@.update(
            ri,
            Room { monsters: state.floors[fi].rooms[ri].monsters, ..s.floors[fi].rooms[ri] },
        ));
        assert(state.adventurer_parties@ =~= s.adventurer_parties@.update(pi, state.adventurer_parties[pi]));
    }
    (credits, logs, leech, fallen, spawns)
}

/// `m` is `a` once the spoils of a tick were shared out: `credits` (the
/// heroes who slew a defender), `logs` (the chronicle of the slain
/// defenders), the mana `leech`ed and the `fallen` invaders, the room's
/// defenders being those of room `r` on floor `f` (see `tick_applied`).
pub open spec fn shared_out(
    a: GameState,
    f: int,
    r: int,
    credits: Seq<u64>,
    logs: Seq<LogEntry>,
    leech: int,
    fallen: Seq<(u64, i32, i32)>,
    m: GameState,
) -> bool {
    let ms = a.floors[f].rooms[r].monsters@;
    let mana = if leech > 0 {
        top_up(a.mana as int, leech, a.max_mana as int)
    } else {
        a.mana as int
    };
    let leech_log = if leech > 0 {
        seq![LogEntry::ManaLeech { mana: leech as i32 }]
    } else {
        Seq::<LogEntry>::empty()
    };
    let rw = falls_rewarded((mana, a.total_deaths as int, pool_views(a.type_experience@), seq![]), fallen, ms, a.max_mana, fallen.len() as int);
    &&& ledger_views(m.known_adventurers@) == credits_entered(ledger_views(a.known_adventurers@), credits, credits.len() as int)
    &&& pool_views(m.type_experience@) == rw.2
    &&& m.log@ == a.log@ + leech_log + logs + rw.3
    &&& m.sounds@ == a.sounds@ + Seq::new((credits.len() + fallen.len()) as nat, |i: int| SoundEvent::Death)
    &&& m == (GameState {
        known_adventurers: m.known_adventurers,
        type_experience: m.type_experience,
        mana: rw.0 as i32,
        total_deaths: rw.1 as i32,
        log: m.log,
        sounds: m.sounds,
        ..a
    })
}

#[verifier::rlimit(40)]
fn share_out(
    state: &mut GameState,
    floor_idx: usize,
    room_idx: usize,
    credits: Vec<u64>,
    logs: Vec<LogEntry>,
    leech: i32,
    fallen: Vec<(u64, i32, i32)>,
)
    requires
        floor_idx < old(state).floors.len(),
        room_idx < old(state).floors[floor_idx as int].rooms.len(),
    ensures
        shared_out(*old(state), floor_idx as int, room_idx as int, credits@, logs@, leech as int, fallen@, *final(state)),
{
    let ghost s = *state;
    let ghost logs_in = logs;
    let mut logs = logs;
    if leech > 0 {
        state.mana = top_up_mana(state.mana, leech, state.max_mana);
        state.log.push(LogEntry::ManaLeech { mana: leech });
    }
    state.log.append(&mut logs);
    credit_heroes(&mut state.known_adventurers, &credits);
    let ghost before_sounds = *state;
    let mut k: usize = 0;
    while k < credits.len()
        invariant
            0 <= k <= credits@.len(),
            state.sounds@ == s.sounds@ + Seq::new(k as nat, |i: int| SoundEvent::Death),
            *state == (GameState { sounds: state.sounds, ..before_sounds }),
        decreases credits@.len() - k,
    {
        state.sounds.push(SoundEvent::Death);
        proof {
            assert(state.sounds@ =~= s.sounds@ + Seq::new((k + 1) as nat, |i: int| SoundEvent::Death));
        }
        k = k + 1;
    }
    let ghost before_falls = *state;
    let ghost ms = state.floors[floor_idx as int].rooms[room_idx as int].monsters@;
    let mut v: usize = 0;
    while v < fallen.len()
        invariant
            0 <= v <= fallen@.len(),
            floor_idx < state.floors.len(),
            room_idx < state.floors[floor_idx as int].rooms.len(),
            ms == state.floors[floor_idx as int].rooms[room_idx as int].monsters@,
            ({
                let rw = falls_rewarded(
                    (before_falls.mana as int, before_falls.total_deaths as int, pool_views(before_falls.type_experience@), seq![]),
                    fallen@,
                    ms,
                    before_falls.max_mana,
                    v as int,
                );
                &&& state.mana == rw.0
                &&& state.total_deaths == rw.1
                &&& pool_views(state.type_experience@) == rw.2
                &&& state.log@ == before_falls.log@ + rw.3
            }),
            state.sounds@ == before_falls.sounds@ + Seq::new(v as nat, |i: int| SoundEvent::Death),
            *state == (GameState {
                mana: state.mana,
                total_deaths: state.total_deaths,
                type_experience: state.type_experience,
                log: state.log,
                sounds: state.sounds,
                ..before_falls
            }),
        decreases fallen@.len() - v,
    {
        let (id, km, kx) = fallen[v];
        state.mana = top_up_mana(state.mana, km, state.max_mana);
        state.total_deaths = if state.total_deaths == i32::MAX { i32::MAX } else { state.total_deaths + 1 };
        teach_lines(&mut state.type_experience, &state.floors[floor_idx].rooms[room_idx].monsters, kx);
        state.log.push(LogEntry::InvaderSlain { victim: id, mana: km, experience: kx });
        state.sounds.push(SoundEvent::Death);
        proof {
            assert(state.sounds@ =~= before_falls.sounds@ + Seq::new((v + 1) as nat, |i: int| SoundEvent::Death));
        }
        v = v + 1;
    }
    proof {
        assert(state.sounds@ =~= s.sounds@ + Seq::new((credits@.len() + fallen@.len()) as nat, |i: int| SoundEvent::Death));
        let leech_log = if leech > 0 {
            seq![LogEntry::ManaLeech { mana: leech as i32 }]
        } else {
            Seq::<LogEntry>::empty()
        };
        let mana = if leech > 0 {
            top_up(s.mana as int, leech as int, s.max_mana as int)
        } else {
            s.mana as int
        };
        assert(before_falls.log@ =~= s.log@ + leech_log + logs_in@);
        assert(before_falls.mana == mana);
        assert(ms == s.floors[floor_idx as int].rooms[room_idx as int].monsters@);
        assert(state.log@ =~= s.log@ + leech_log + logs_in@ + falls_rewarded(
            (mana, s.total_deaths as int, pool_views(s.type_experience@), seq![]),
            fallen@,
            ms,
            s.max_mana,
            fallen@.len() as int,
        ).3);
    }
}

/// One combat tick between party `party_idx` and the defenders of room
/// `room_idx` on floor `floor_idx`. The library decides who strikes whom:
/// every living member strikes once, at the defender `defender_target`
/// names (re-aiming after each kill); every defender still standing then
/// strikes once, at the member `hero_target` names (the most wounded in a
/// cull room, else the one the caller's die draws). The caller's `x` gives
/// only the numbers that floating point and dice decide. Nothing happens
/// when no defender stands; otherwise the tick runs as `tick_applied` says,
/// and the party then weighs retreat (see `retreat_outcome`). Returns how
/// many defenders and how many invaders fell.
pub fn apply_combat_tick(
    state: &mut GameState,
    cat: &Catalog,
    party_idx: usize,
    floor_idx: usize,
    room_idx: usize,
    x: &Exchange,
) -> (kills: (u64, u64))
    requires
        cat.wf(),
        party_idx < old(state).adventurer_parties.len(),
        floor_idx < old(state).floors.len(),
        room_idx < old(state).floors[floor_idx as int].rooms.len(),
        old(state).floors[floor_idx as int].number <= FLOOR_LIMIT,
    ensures
        !defenders_standing(old(state).floors[floor_idx as int].rooms[room_idx as int]) ==> *final(state) == *old(
            state,
        ) && kills == (0u64, 0u64),
        defenders_standing(old(state).floors[floor_idx as int].rooms[room_idx as int]) ==> {
            exists|spawns: Seq<Monster>, m: GameState|
                {
                    &&& tick_applied(*old(state), *cat, party_idx as int, floor_idx as int, room_idx as int, *x, spawns, m)
                    &&& retreat_outcome(m, party_idx, *final(state))
                    &&& kills.0 == tick_blows(*old(state), *cat, party_idx as int, floor_idx as int, room_idx as int, *x, spawns).0.3.len()
                    &&& kills.1 == tick_strikes(*old(state), *cat, party_idx as int, floor_idx as int, room_idx as int, *x, spawns).4.len()
                }
        },
{
    if !defenders_alive(&state.floors[floor_idx].rooms[room_idx]) {
        return (0, 0);
    }
    let ghost s = *state;
    let (credits, logs, leech, fallen, spawns) = fight(state, cat, party_idx, floor_idx, room_idx, x);
    let ghost a = *state;
    let n_credits = credits.len();
    let n_fallen = fallen.len();
    share_out(state, floor_idx, room_idx, credits, logs, leech, fallen);
    let ghost mid = *state;
    proof {
        lemma_tick_applied(s, *cat, party_idx as int, floor_idx as int, room_idx as int, *x, spawns@, a, mid);
    }
    check_retreat(state, party_idx);
    (n_credits as u64, n_fallen as u64)
}

proof fn lemma_tick_applied(
    s: GameState,
    cat: Catalog,
    p: int,
    f: int,
    r: int,
    x: Exchange,
    spawns: Seq<Monster>,
    a: GameState,
    m: GameState,
)
    requires
        0 <= p < s.adventurer_parties.len(),
        0 <= f < s.floors.len(),
        0 <= r < s.floors[f].rooms.len(),
        fought(s, cat, p, f, r, x, spawns, a),
        ({
            let b = tick_blows(s, cat, p, f, r, x, spawns).0;
            let st = tick_strikes(s, cat, p, f, r, x, spawns);
            shared_out(a, f, r, b.3, b.4, st.2, st.4, m)
        }),
    ensures
        tick_applied(s, cat, p, f, r, x, spawns, m),
{
    assert(a.floors[f].rooms[r].monsters@ == m.floors[f].rooms[r].monsters@);
    let party = s.adventurer_parties[p];
    let bb = tick_blows(s, cat, p, f, r, x, spawns);
    let b = bb.0;
    let st = tick_strikes(s, cat, p, f, r, x, spawns);
    let leech_log = if st.2 > 0 {
        seq![LogEntry::ManaLeech { mana: st.2 as i32 }]
    } else {
        Seq::<LogEntry>::empty()
    };
    assert(m.log@ =~= s.log@ + bb.2 + leech_log + b.4 + falls_rewarded(
        (
            if st.2 > 0 {
                top_up(s.mana as int, st.2, s.max_mana as int)
            } else {
                s.mana as int
            },
            s.total_deaths as int,
            pool_views(s.type_experience@),
            seq![],
        ),
        st.4,
        lives_stolen(b.0, cat, st.3, st.3.len() as int),
        s.max_mana,
        st.4.len() as int,
    ).3);
    assert(m.sounds@ =~= s.sounds@ + combat_cue(party.members@) + Seq::new(
        (b.3.len() + st.4.len()) as nat,
        |i: int| SoundEvent::Death,
    ));
}


/// Some living defender of `ms` taunts.
pub open spec fn taunter_stands(ms: Seq<Monster>, cat: Catalog) -> bool {
    exists|i: int| 0 <= i < ms.len() && ms[i].alive && carries_passive(ms[i], cat, "Taunt"@)
}

/// The defender the invaders hit next: the first living taunter, else the
/// first living defender, else none.
pub open spec fn defender_target(ms: Seq<Monster>, cat: Catalog) -> Option<int> {
    if taunter_stands(ms, cat) {
        Some(choose|i: int| first_taunter(ms, cat, i))
    } else if exists|i: int| 0 <= i < ms.len() && ms[i].alive {
        Some(choose|i: int| first_alive(ms, i))
    } else {
        None
    }
}

fn defender_target_idx(ms: &Vec<Monster>, cat: &Catalog) -> (r: Option<usize>)
    ensures
        match r {
            Some(i) => defender_target(ms@, *cat) == Some(i as int),
            None => defender_target(ms@, *cat) is None,
        },
        r is Some ==> r->0 < ms@.len() && ms@[r->0 as int].alive,
{
    let r = target_monster_idx(ms.as_slice(), cat);
    proof {
        if taunter_stands(ms@, *cat) {
            let i = r->0 as int;
            let c = choose|c: int| first_taunter(ms@, *cat, c);
            assert(first_taunter(ms@, *cat, i));
            if c < i {
                assert(!(ms@[c].alive && carries_passive(ms@[c], *cat, "Taunt"@)));
            }
            if c > i {
                assert(!(ms@[i].alive && carries_passive(ms@[i], *cat, "Taunt"@)));
            }
        } else if exists|i: int| 0 <= i < ms@.len() && ms@[i].alive {
            let i = r->0 as int;
            let c = choose|c: int| first_alive(ms@, c);
            assert(first_alive(ms@, i));
            if c < i {
                assert(!ms@[c].alive);
            }
            if c > i {
                assert(!ms@[i].alive);
            }
        }
    }
    r
}

/// `i` is the `k`-th living member of `ms` (counting from zero).
pub open spec fn living_at(ms: Seq<Adventurer>, k: int, i: int) -> bool {
    &&& 0 <= i < ms.len()
    &&& ms[i].alive
    &&& living_count(ms, i) == k
}

/// The member a defender strikes: none when the party is wiped out; in a
/// cull room the most wounded living member (see `cull_target_is`); else
/// the living member the caller's `roll` draws (the roll taken modulo the
/// number of the living).
pub open spec fn hero_target(ms: Seq<Adventurer>, order: RoomBattleOrder, roll: usize) -> Option<int> {
    let n = living_count(ms, ms.len() as int);
    if n == 0 {
        None
    } else if order == RoomBattleOrder::CullWounded {
        Some(choose|i: int| cull_target_is(ms, i))
    } else {
        let k = roll as int % n;
        Some(choose|i: int| #[trigger] living_at(ms, k, i))
    }
}

proof fn lemma_living_none(ms: Seq<Adventurer>, n: int)
    requires
        0 <= n <= ms.len(),
    ensures
        living_count(ms, n) == 0 <==> forall|j: int| 0 <= j < n ==> !(#[trigger] ms[j]).alive,
        0 <= living_count(ms, n) <= n,
    decreases n,
{
    if n > 0 {
        lemma_living_none(ms, n - 1);
    }
}

proof fn lemma_living_grows(ms: Seq<Adventurer>, j: int, i: int)
    requires
        0 <= j < i <= ms.len(),
        ms[j].alive,
    ensures
        living_count(ms, i) >= living_count(ms, j) + 1,
    decreases i - j,
{
    if i > j + 1 {
        lemma_living_grows(ms, j, i - 1);
    }
}

proof fn lemma_living_at_unique(ms: Seq<Adventurer>, k: int, i: int)
    requires
        living_at(ms, k, i),
    ensures
        (choose|c: int| living_at(ms, k, c)) == i,
{
    let c = choose|c: int| living_at(ms, k, c);
    assert(living_at(ms, k, c));
    if c < i {
        lemma_living_grows(ms, c, i);
    }
    if c > i {
        lemma_living_grows(ms, i, c);
    }
}

proof fn lemma_cull_unique(ms: Seq<Adventurer>, i: int)
    requires
        cull_target_is(ms, i),
    ensures
        (choose|c: int| cull_target_is(ms, c)) == i,
{
    let c = choose|c: int| cull_target_is(ms, c);
    assert(cull_target_is(ms, c));
    if c != i {
        assert(culled_before(ms, c, i));
        assert(culled_before(ms, i, c));
    }
}

pub(crate) fn hero_target_idx(ms: &Vec<Adventurer>, order: RoomBattleOrder, roll: usize) -> (r: Option<usize>)
    ensures
        match r {
            Some(i) => hero_target(ms@, order, roll) == Some(i as int),
            None => hero_target(ms@, order, roll) is None,
        },
        r is Some ==> r->0 < ms@.len() && ms@[r->0 as int].alive,
{
    let mut n: usize = 0;
    let mut i: usize = 0;
    while i < ms.len()
        invariant
            0 <= i <= ms@.len(),
            n == living_count(ms@, i as int),
            n <= i,
        decreases ms@.len() - i,
    {
        if ms[i].alive {
            n = n + 1;
        }
        i = i + 1;
    }
    proof {
        lemma_living_none(ms@, ms@.len() as int);
    }
    if n == 0 {
        return None;
    }
    if order == RoomBattleOrder::CullWounded {
        let r = cull_idx(ms);
        proof {
            let w = choose|w: int| 0 <= w < ms@.len() && ms@[w].alive;
            assert(ms@[w].alive);
            lemma_cull_unique(ms@, r->0 as int);
        }
        return r;
    }
    let k = roll % n;
    let mut c: usize = 0;
    let mut i: usize = 0;
    while i < ms.len()
        invariant
            0 <= i <= ms@.len(),
            c == living_count(ms@, i as int),
            c <= k,
            k < n,
            k as int == roll as int % (n as int),
            order != RoomBattleOrder::CullWounded,
            n == living_count(ms@, ms@.len() as int),
        decreases ms@.len() - i,
    {
        if ms[i].alive {
            if c == k {
                proof {
                    assert(living_at(ms@, k as int, i as int));
                    lemma_living_at_unique(ms@, k as int, i as int);
                }
                return Some(i);
            }
            c = c + 1;
        }
        i = i + 1;
    }
    None
}

/// A defender's health lies within its bounds, and it stands exactly while
/// it has health left.
pub open spec fn monster_whole(m: Monster) -> bool {
    0 <= m.hp <= m.max_hp && m.alive == (m.hp > 0)
}

/// An invader's health lies within its bounds, and it stands exactly while
/// it has health left.
pub open spec fn member_whole(a: Adventurer) -> bool {
    0 <= a.hp <= a.max_hp && a.alive == (a.hp > 0)
}

/// Every defender of `ms` is whole (see `monster_whole`).
pub open spec fn monsters_whole(ms: Seq<Monster>) -> bool {
    forall|i: int| 0 <= i < ms.len() ==> #[trigger] monster_whole(ms[i])
}

/// Every member of `ms` is whole (see `member_whole`).
pub open spec fn members_whole(ms: Seq<Adventurer>) -> bool {
    forall|i: int| 0 <= i < ms.len() ==> #[trigger] member_whole(ms[i])
}

/// Every template of the catalog has some health.
pub open spec fn templates_alive(cat: Catalog) -> bool {
    forall|k: int| 0 <= k < cat.monsters.len() ==> #[trigger] cat.monsters[k].hp >= 1
}

proof fn lemma_spawn_whole(sp: Monster, cat: Catalog, t: MonsterTemplate, floor: i32, id: u64)
    requires
        t.wf(),
        t.hp >= 1,
        floor <= FLOOR_LIMIT,
        is_split_spawn(sp, cat, t, floor, id),
    ensures
        monster_whole(sp),
{
    let e = crate::rules::effective_floor(floor as int);
    assert(1 <= e <= FLOOR_LIMIT);
    let v = t.hp as int * (e + 9) / 10;
    assert(1 <= v <= 10_009_000) by (nonlinear_arith)
        requires
            1 <= t.hp <= 10_000,
            1 <= e <= 10_000,
            v == t.hp as int * (e + 9) / 10,
    ;
}

proof fn lemma_blows_keep_whole(
    acc: BlowsTally,
    members: Seq<Adventurer>,
    x: Exchange,
    cat: Catalog,
    floor: i32,
    spawns: Seq<Monster>,
    n: int,
)
    requires
        monsters_whole(acc.0.0),
        cat.wf(),
        templates_alive(cat),
        floor <= FLOOR_LIMIT,
    ensures
        blows_struck(acc, members, x, cat, floor, spawns, n).3 ==> monsters_whole(blows_struck(acc, members, x, cat, floor, spawns, n).0.0),
    decreases n,
{
    if n > 0 {
        lemma_blows_keep_whole(acc, members, x, cat, floor, spawns, n - 1);
        let prior = blows_struck(acc, members, x, cat, floor, spawns, n - 1);
        let cur = blows_struck(acc, members, x, cat, floor, spawns, n);
        if cur.3 {
            assert(prior.3);
            if cur.0.0.len() > prior.0.0.len() {
                let m = prior.0.0[defender_target(prior.0.0, cat)->0];
                let ti = split_template(cat, m.kind@)->0;
                let k = prior.1;
                assert(cat.monsters[ti].wf());
                lemma_spawn_whole(spawns[k], cat, cat.monsters[ti], floor, split_id(x, k));
            }
            assert forall|i: int| 0 <= i < cur.0.0.len() implies #[trigger] monster_whole(cur.0.0[i]) by {
                if i < prior.0.0.len() {
                    assert(monster_whole(prior.0.0[i]));
                }
            }
        }
    }
}

proof fn lemma_strikes_keep_whole(acc: StrikeTally, defenders: Seq<Monster>, x: Exchange, order: RoomBattleOrder, n: int)
    requires
        members_whole(acc.0),
    ensures
        members_whole(strikes_struck(acc, defenders, x, order, n).0),
    decreases n,
{
    if n > 0 {
        lemma_strikes_keep_whole(acc, defenders, x, order, n - 1);
        let prior = strikes_struck(acc, defenders, x, order, n - 1);
        let cur = strikes_struck(acc, defenders, x, order, n);
        assert forall|i: int| 0 <= i < cur.0.len() implies #[trigger] member_whole(cur.0[i]) by {
            assert(member_whole(prior.0[i]));
        }
    }
}

proof fn lemma_strikes_steal_only_life(acc: StrikeTally, defenders: Seq<Monster>, x: Exchange, order: RoomBattleOrder, n: int)
    requires
        forall|k: int| 0 <= k < acc.3.len() ==> (#[trigger] acc.3[k]).1 > 0,
    ensures
        forall|k: int|
            0 <= k < strikes_struck(acc, defenders, x, order, n).3.len() ==> (#[trigger] strikes_struck(
                acc,
                defenders,
                x,
                order,
                n,
            ).3[k]).1 > 0,
    decreases n,
{
    if n > 0 {
        lemma_strikes_steal_only_life(acc, defenders, x, order, n - 1);
        let prior = strikes_struck(acc, defenders, x, order, n - 1);
        let cur = strikes_struck(acc, defenders, x, order, n);
        assert forall|k: int| 0 <= k < cur.3.len() implies (#[trigger] cur.3[k]).1 > 0 by {
            if k < prior.3.len() {
                assert(cur.3[k] == prior.3[k]);
            }
        }
    }
}

proof fn lemma_theft_keeps_whole(ms: Seq<Monster>, cat: Catalog, heals: Seq<(u64, i32)>, n: int)
    requires
        monsters_whole(ms),
        0 <= n <= heals.len(),
        forall|k: int| 0 <= k < heals.len() ==> (#[trigger] heals[k]).1 > 0,
    ensures
        monsters_whole(lives_stolen(ms, cat, heals, n)),
    decreases n,
{
    if n > 0 {
        lemma_theft_keeps_whole(ms, cat, heals, n - 1);
        let prior = lives_stolen(ms, cat, heals, n - 1);
        let cur = lives_stolen(ms, cat, heals, n);
        assert(heals[n - 1].1 > 0);
        assert forall|i: int| 0 <= i < cur.len() implies #[trigger] monster_whole(cur[i]) by {
            assert(monster_whole(prior[i]));
        }
    }
}

proof fn lemma_falls_cap_mana(acc: FallTally, fallen: Seq<(u64, i32, i32)>, ms: Seq<Monster>, max_mana: i32, n: int)
    requires
        acc.0 <= max_mana,
    ensures
        falls_rewarded(acc, fallen, ms, max_mana, n).0 <= max_mana,
    decreases n,
{
    if n > 0 {
        lemma_falls_cap_mana(acc, fallen, ms, max_mana, n - 1);
    }
}

/// A combat tick keeps every combatant whole: if each member of the party
/// and each defender of the room has health within its bounds and stands
/// exactly while it has health left, and the core's mana is within its
/// capacity, then after the tick and the party's retreat check the same
/// holds (no one stands at zero, no health below zero, no healing past the
/// maximum, mana within capacity), and a party with no one standing is in
/// retreat.
pub proof fn law_tick_keeps_combatants_whole(
    s: GameState,
    cat: Catalog,
    p: int,
    f: int,
    r: int,
    x: Exchange,
    spawns: Seq<Monster>,
    m: GameState,
    t: GameState,
)
    requires
        0 <= p < s.adventurer_parties.len(),
        0 <= f < s.floors.len(),
        0 <= r < s.floors[f].rooms.len(),
        cat.wf(),
        templates_alive(cat),
        s.floors[f].number <= FLOOR_LIMIT,
        members_whole(s.adventurer_parties[p].members@),
        monsters_whole(s.floors[f].rooms[r].monsters@),
        s.mana <= s.max_mana,
        tick_applied(s, cat, p, f, r, x, spawns, m),
        retreat_outcome(m, p as usize, t),
    ensures
        members_whole(t.adventurer_parties[p].members@),
        monsters_whole(t.floors[f].rooms[r].monsters@),
        t.mana <= t.max_mana,
        crate::endgame::all_fallen(t.adventurer_parties[p].members@) ==> t.adventurer_parties[p].retreating,
{
    let party = s.adventurer_parties[p];
    let init = (
        (s.floors[f].rooms[r].monsters@, party.loot as int, s.souls as int, Seq::<u64>::empty(), Seq::<LogEntry>::empty()),
        0int,
        Seq::<LogEntry>::empty(),
        true,
    );
    if party.snared_ticks <= 0 {
        lemma_blows_keep_whole(init, party.members@, x, cat, s.floors[f].number, spawns, party.members@.len() as int);
    }
    let b = tick_blows(s, cat, p, f, r, x, spawns).0;
    let sinit = (party.members@, party.casualties as int, 0int, Seq::<(u64, i32)>::empty(), Seq::<(u64, i32, i32)>::empty());
    lemma_strikes_keep_whole(sinit, b.0, x, s.floors[f].rooms[r].battle_order, b.0.len() as int);
    lemma_strikes_steal_only_life(sinit, b.0, x, s.floors[f].rooms[r].battle_order, b.0.len() as int);
    let st = tick_strikes(s, cat, p, f, r, x, spawns);
    lemma_theft_keeps_whole(b.0, cat, st.3, st.3.len() as int);
    let ms = lives_stolen(b.0, cat, st.3, st.3.len() as int);
    let mana = if st.2 > 0 {
        top_up(s.mana as int, st.2, s.max_mana as int)
    } else {
        s.mana as int
    };
    lemma_falls_cap_mana(
        (mana, s.total_deaths as int, pool_views(s.type_experience@), seq![]),
        st.4,
        ms,
        s.max_mana,
        st.4.len() as int,
    );
    assert(m.adventurer_parties[p].members@ == st.0);
    assert(t.adventurer_parties[p].members@ == m.adventurer_parties[p].members@);
}

/// An optional element, as text.
pub open spec fn element_view(e: Option<String>) -> Option<Seq<char>> {
    match e {
        Some(x) => Some(x@),
        None => None,
    }
}

/// Template `k` is of the first tier of `species`.
pub open spec fn kin(cat: Catalog, species: Seq<char>, k: int) -> bool {
    &&& 0 <= k < cat.monsters.len()
    &&& cat.monsters[k].species@ == species
    &&& cat.monsters[k].tier == 1
}

/// `k` is the first template of the first tier of `species`.
pub open spec fn first_kin(cat: Catalog, species: Seq<char>, k: int) -> bool {
    &&& kin(cat, species, k)
    &&& forall|j: int| 0 <= j < k ==> !kin(cat, species, j)
}

/// Template `k` is of the first tier of `species` and of `element`.
pub open spec fn kin_alike(cat: Catalog, species: Seq<char>, element: Option<Seq<char>>, k: int) -> bool {
    &&& kin(cat, species, k)
    &&& element_view(cat.monsters[k].element) == element
}

/// `k` is the first template of the first tier of `species` and of `element`.
pub open spec fn first_kin_alike(cat: Catalog, species: Seq<char>, element: Option<Seq<char>>, k: int) -> bool {
    &&& kin_alike(cat, species, element, k)
    &&& forall|j: int| 0 <= j < k ==> !kin_alike(cat, species, element, j)
}

/// The template a slain defender of `kind` splits into: the first of the
/// first tier of its species sharing its element, else the first of that
/// tier; none when its kind or its kin are unknown.
pub open spec fn split_template(cat: Catalog, kind: Seq<char>) -> Option<int> {
    if !cat.has_monster(kind) {
        None
    } else {
        let parent = cat.monster_of(kind);
        let e = element_view(parent.element);
        if exists|k: int| kin_alike(cat, parent.species@, e, k) {
            Some(choose|k: int| first_kin_alike(cat, parent.species@, e, k))
        } else if exists|k: int| kin(cat, parent.species@, k) {
            Some(choose|k: int| first_kin(cat, parent.species@, k))
        } else {
            None
        }
    }
}

/// `sp` is a fresh split of template `t` on `floor` with identity `id`: an
/// ordinary defender of the first rank, scaled for the floor, emerging with
/// half its health (at least one).
pub open spec fn is_split_spawn(sp: Monster, cat: Catalog, t: MonsterTemplate, floor: i32, id: u64) -> bool {
    let st = scaled_stats(base_stats(t), floor as int, false);
    &&& sp.id == id
    &&& sp.kind@ == t.name@
    &&& sp.hp == (if st.hp / 2 >= 1 { st.hp / 2 } else { 1 })
    &&& sp.max_hp == st.hp
    &&& sp.alive
    &&& !sp.is_boss
    &&& sp.fusion_rank == 1
    &&& sp.scaled_stats == st
    &&& traits_from(sp.active_traits@, t.traits@, cat)
}

fn same_element(a: &Option<String>, b: &Option<String>) -> (r: bool)
    ensures
        r == (element_view(*a) == element_view(*b)),
{
    match (a, b) {
        (Some(x), Some(y)) => *x == *y,
        (None, None) => true,
        _ => false,
    }
}

fn split_template_idx(cat: &Catalog, kind: &String) -> (r: Option<usize>)
    ensures
        match r {
            Some(k) => split_template(*cat, kind@) == Some(k as int) && k < cat.monsters@.len(),
            None => split_template(*cat, kind@) is None,
        },
{
    let pi = match cat.monster_index(kind.as_str()) {
        None => {
            return None;
        },
        Some(pi) => pi,
    };
    assert(cat.has_monster(kind@) && cat.monster_of(kind@) == cat.monsters@[pi as int]);
    let ghost species = cat.monster_of(kind@).species@;
    let ghost e = element_view(cat.monster_of(kind@).element);
    let mut k: usize = 0;
    while k < cat.monsters.len()
        invariant
            0 <= k <= cat.monsters@.len(),
            pi < cat.monsters@.len(),
            cat.has_monster(kind@),
            cat.monster_of(kind@) == cat.monsters@[pi as int],
            species == cat.monsters@[pi as int].species@,
            e == element_view(cat.monsters@[pi as int].element),
            forall|j: int| 0 <= j < k ==> !kin_alike(*cat, species, e, j),
        decreases cat.monsters@.len() - k,
    {
        if cat.monsters[k].species == cat.monsters[pi].species && cat.monsters[k].tier == 1 && same_element(
            &cat.monsters[k].element,
            &cat.monsters[pi].element,
        ) {
            proof {
                assert(first_kin_alike(*cat, species, e, k as int));
                assert(kin_alike(*cat, species, e, k as int));
                let c = choose|c: int| first_kin_alike(*cat, species, e, c);
                if c < k {
                    assert(!kin_alike(*cat, species, e, c));
                }
                if c > k {
                    assert(!kin_alike(*cat, species, e, k as int));
                }
                assert(c == k);
                let parent = cat.monster_of(kind@);
                assert(parent.species@ == species);
                assert(element_view(parent.element) == e);
                assert(kin_alike(*cat, parent.species@, element_view(parent.element), k as int));
                assert(exists|j: int| kin_alike(*cat, parent.species@, element_view(parent.element), j));
                assert(split_template(*cat, kind@) == Some(k as int));
            }
            return Some(k);
        }
        k = k + 1;
    }
    let mut k: usize = 0;
    while k < cat.monsters.len()
        invariant
            0 <= k <= cat.monsters@.len(),
            pi < cat.monsters@.len(),
            cat.has_monster(kind@),
            cat.monster_of(kind@) == cat.monsters@[pi as int],
            species == cat.monsters@[pi as int].species@,
            e == element_view(cat.monsters@[pi as int].element),
            forall|j: int| 0 <= j < cat.monsters@.len() ==> !kin_alike(*cat, species, e, j),
            forall|j: int| 0 <= j < k ==> !kin(*cat, species, j),
        decreases cat.monsters@.len() - k,
    {
        if cat.monsters[k].species == cat.monsters[pi].species && cat.monsters[k].tier == 1 {
            proof {
                assert(first_kin(*cat, species, k as int));
                assert(kin(*cat, species, k as int));
                assert(!(exists|j: int| kin_alike(*cat, species, e, j)));
                let c = choose|c: int| first_kin(*cat, species, c);
                if c < k {
                    assert(!kin(*cat, species, c));
                }
                if c > k {
                    assert(!kin(*cat, species, k as int));
                }
            }
            return Some(k);
        }
        k = k + 1;
    }
    None
}

/// The defender a slain one of `kind` splits into on `floor`, with
/// identity `id` (see `split_template` and `is_split_spawn`).
fn split_spawn(cat: &Catalog, kind: &String, floor: i32, id: u64) -> (r: Option<Monster>)
    requires
        cat.wf(),
        floor <= FLOOR_LIMIT,
    ensures
        r is Some <==> split_template(*cat, kind@) is Some,
        r is Some ==> 0 <= split_template(*cat, kind@)->0 < cat.monsters@.len() && is_split_spawn(
            r->0,
            *cat,
            cat.monsters@[split_template(*cat, kind@)->0],
            floor,
            id,
        ),
{
    match split_template_idx(cat, kind) {
        None => None,
        Some(k) => {
            let t = &cat.monsters[k];
            proof {
                assert(cat.monsters@[k as int].wf());
            }
            let st = get_scaled_stats(Stats { hp: t.hp, attack: t.attack, defense: t.defense }, floor, false);
            let hp = if st.hp / 2 >= 1 { st.hp / 2 } else { 1 };
            Some(
                Monster {
                    id,
                    kind: t.name.clone(),
                    hp,
                    max_hp: st.hp,
                    alive: true,
                    is_boss: false,
                    fusion_rank: 1,
                    scaled_stats: st,
                    active_traits: build_traits(cat, &t.traits),
                },
            )
        },
    }
}

} // verus!
