//! Stat-based damage computation.  Death is resolved separately, by a sweep
//! that runs once per turn advance before any monster acts.

use vstd::prelude::*;
use vstd::string::StringExecFns;

use crate::map::{occupancy_consistent, same_apart_from_beings, WorldMap};
use crate::world::{Being, Entity, World};

verus! {

/// Combat-capable state of an entity; mutated only by the combat resolver.
#[derive(Clone, Copy, Debug)]
pub struct CombatStats {
    pub health: u32,
    pub max_health: u32,
    pub attack: i32,
    pub defense: i32,
}

impl CombatStats {
    pub fn new(hp: u32, strength: i32, defense: i32) -> (r: CombatStats)
        ensures
            r == (CombatStats { health: hp, max_health: hp, attack: strength, defense }),
    {
        CombatStats { health: hp, max_health: hp, attack: strength, defense }
    }
}

/// Damage dealt by an attacker with the given strength against the given
/// defense: the difference, but always at least one point.
pub open spec fn damage_of(attack: int, defense: int) -> int {
    if attack - defense >= 1 {
        attack - defense
    } else {
        1
    }
}

/// Hit points left after taking the given damage: never below zero.
pub open spec fn hp_after(hp: int, damage: int) -> int {
    if damage >= hp {
        0
    } else {
        hp - damage
    }
}

pub open spec fn digit_char(d: int) -> char {
    if d == 0 {
        '0'
    } else if d == 1 {
        '1'
    } else if d == 2 {
        '2'
    } else if d == 3 {
        '3'
    } else if d == 4 {
        '4'
    } else if d == 5 {
        '5'
    } else if d == 6 {
        '6'
    } else if d == 7 {
        '7'
    } else if d == 8 {
        '8'
    } else {
        '9'
    }
}

/// The decimal representation of a number, most significant digit first.
pub open spec fn dec_rep(n: int) -> Seq<char>
    decreases n,
{
    if n < 10 {
        seq![digit_char(n)]
    } else {
        dec_rep(n / 10).push(digit_char(n % 10))
    }
}

fn digit_str(d: u32) -> (r: &'static str)
    requires
        d < 10,
    ensures
        r@ == seq![digit_char(d as int)],
{
    proof {
        reveal_strlit("0");
        reveal_strlit("1");
        reveal_strlit("2");
        reveal_strlit("3");
        reveal_strlit("4");
        reveal_strlit("5");
        reveal_strlit("6");
        reveal_strlit("7");
        reveal_strlit("8");
        reveal_strlit("9");
    }
    match d {
        0 => "0",
        1 => "1",
        2 => "2",
        3 => "3",
        4 => "4",
        5 => "5",
        6 => "6",
        7 => "7",
        8 => "8",
        _ => "9",
    }
}

fn push_digits(n: u32, s: &mut String)
    ensures
        final (s)@ == old(s)@ + dec_rep(n as int),
    decreases n,
{
    if n >= 10 {
        push_digits(n / 10, s);
    }
    s.append(digit_str(n % 10));
}

/// The combat line reported for a hit: who hit whom, and for how much.
pub open spec fn attack_line(attacker: Seq<char>, defender: Seq<char>, damage: int) -> Seq<char> {
    attacker + " hits "@ + defender + " for "@ + dec_rep(damage) + " damage."@
}

/// Resolve one hit of the attacker against the defender: the defender loses
/// `max(1, attack - defense)` hit points, floored at zero, and a combat line
/// describing the hit comes back for the message log.
pub fn attack(
    defender_stats: &mut CombatStats,
    defender_name: &str,
    attacker_stats: &CombatStats,
    attacker_name: &str,
) -> (r: String)
    ensures
        ({
            let dmg = damage_of(attacker_stats.attack as int, old(defender_stats).defense as int);
            &&& final (defender_stats).health == hp_after(old(defender_stats).health as int, dmg)
            &&& final (defender_stats).max_health == old(defender_stats).max_health
            &&& final (defender_stats).attack == old(defender_stats).attack
            &&& final (defender_stats).defense == old(defender_stats).defense
            &&& r@ == attack_line(attacker_name@, defender_name@, dmg)
        }),
{
    let stats = defender_stats;
    let name = defender_name;

    // wide arithmetic so that extreme stats cannot overflow
    let raw: i64 = attacker_stats.attack as i64 - stats.defense as i64;
    let damage: u32 = if raw < 1 {
        1
    } else if raw > u32::MAX as i64 {
        u32::MAX
    } else {
        raw as u32
    };
    proof {
        assert(damage == damage_of(attacker_stats.attack as int, stats.defense as int));
    }
    stats.health = if damage >= stats.health {
        0
    } else {
        stats.health - damage
    };

    let mut line = attacker_name.to_owned();
    line.append(" hits ");
    line.append(name);
    line.append(" for ");
    push_digits(damage, &mut line);
    line.append(" damage.");
    line
}

/// A combat-capable being of the given floor whose hit points ran out.
pub open spec fn dead_on_floor(b: Being, depth: int) -> bool {
    &&& b.stats matches Some(s) && s.health == 0
    &&& b.floor == depth
}

/// Slot `j` of `w` holds a being that the sweep over a map of depth `depth`
/// removes.
pub open spec fn dead_slot(w: World, j: int, depth: int) -> bool {
    w.slots@[j] matches Some(b) && dead_on_floor(b, depth)
}

/// Removing one entity from the store, clearing its occupancy slot first,
/// keeps the occupancy invariant.
proof fn lemma_remove_being(ow: World, om: WorldMap, nw: World, nm: WorldMap, e: Entity)
    requires
        ow.wf(),
        om.wf(),
        occupancy_consistent(ow, om),
        ow.live(e),
        nw.wf(),
        !nw.live(e),
        forall|e2: Entity| #[trigger]
            nw.live(e2) ==> ow.live(e2) && nw.being(e2) == ow.being(e2),
        forall|e2: Entity| #[trigger] ow.live(e2) && e2 != e ==> nw.live(e2),
        nm.depth == om.depth,
        nm.width == om.width,
        nm.height == om.height,
        nm.beings@.len() == om.beings@.len(),
        if ow.being(e).floor == om.depth && ow.being(e).pos is Some {
            nm.beings@ == om.beings@.update(om.index_of(ow.being(e).pos.unwrap()), None)
        } else {
            nm.beings@ == om.beings@
        },
    ensures
        occupancy_consistent(nw, nm),
{
    let cleared = ow.being(e).floor == om.depth && ow.being(e).pos is Some;
    let pi = om.index_of(ow.being(e).pos.unwrap());
    assert forall|i: int| #![trigger nm.beings@[i]]
        0 <= i < nm.beings@.len() implies (nm.beings@[i] matches Some(e2) ==> {
        &&& nw.live(e2)
        &&& nw.being(e2).floor == nm.depth
        &&& nw.being(e2).pos matches Some(p) && nm.in_bounds(p) && nm.index_of(p) == i
    }) by {
        match nm.beings@[i] {
            Some(e2) => {
                assert(om.beings@[i] == Some(e2));
                assert(ow.live(e2));
                if e2 == e {
                    assert(om.index_of(ow.being(e).pos.unwrap()) == i);
                    assert(false);
                }
                assert(nw.live(e2));
            },
            None => {},
        }
    }
    assert forall|e2: Entity| #![trigger nw.live(e2)]
        nw.live(e2) implies (nw.being(e2).floor == nm.depth ==> (nw.being(e2).pos matches Some(p)
        ==> {
        &&& nm.in_bounds(p)
        &&& 0 <= nm.index_of(p) < nm.beings@.len()
        &&& nm.beings@[nm.index_of(p)] == Some(e2)
    })) by {
        assert(ow.live(e2));
        if nw.being(e2).floor == nm.depth {
            match nw.being(e2).pos {
                Some(p) => {
                    let i = om.index_of(p);
                    assert(om.beings@[i] == Some(e2));
                    if cleared {
                        assert(om.beings@[pi] == Some(e));
                        assert(i != pi);
                    }
                    assert(nm.beings@[i] == Some(e2));
                },
                None => {},
            }
        }
    }
}

/// The once-per-turn death sweep: every combat-capable entity of the current
/// floor whose hit points reached zero is removed from the store, and its
/// occupancy slot is cleared, before any monster takes its turn.
pub fn destroy_dead_beings(world: &mut World, map: &mut WorldMap)
    requires
        old(world).wf(),
        old(map).wf(),
        occupancy_consistent(*old(world), *old(map)),
    ensures
        final (world).wf(),
        final (map).wf(),
        occupancy_consistent(*final (world), *final (map)),
        same_apart_from_beings(*old(map), *final (map)),
        forall|e: Entity| #[trigger]
            final (world).live(e) ==> old(world).live(e) && final (world).being(e) == old(
                world,
            ).being(e),
        forall|e: Entity| #[trigger]
            old(world).live(e) ==> (final (world).live(e) <==> !dead_on_floor(
                old(world).being(e),
                old(map).depth as int,
            )),
        forall|e: Entity|
            final (world).live(e) && final (world).being(e).floor == final (map).depth ==> (
            #[trigger] final (world).being(e).stats matches Some(s) ==> s.health >= 1),
{
    let n = world.slots.len();
    let mut i: usize = 0;
    while i < n
        invariant
            world.wf(),
            map.wf(),
            occupancy_consistent(*world, *map),
            same_apart_from_beings(*old(map), *map),
            old(world).wf(),
            occupancy_consistent(*old(world), *old(map)),
            n == old(world).slots@.len(),
            world.slots@.len() == n,
            map.depth == old(map).depth,
            i <= n,
            forall|j: int|
                0 <= j < n && !(j < i && dead_slot(*old(world), j, old(map).depth as int))
                    ==> #[trigger] world.slots@[j] == old(world).slots@[j] && world.gens@[j] == old(
                    world,
                ).gens@[j],
            forall|j: int|
                0 <= j < i && dead_slot(*old(world), j, old(map).depth as int)
                    ==> #[trigger] world.slots@[j] is None,
        decreases n - i,
    {
        proof {
            assert(world.slots@[i as int] == old(world).slots@[i as int] && world.gens@[i as int]
                == old(world).gens@[i as int]);
        }
        let (dead, pos_opt, flr) = match &world.slots[i] {
            Some(b) => {
                let d = match &b.stats {
                    Some(s) => s.health == 0,
                    None => false,
                };
                (d, b.pos, b.floor)
            },
            None => (false, None, 0),
        };
        if dead && flr == map.depth {
            let e = Entity { idx: i, gen: world.gens[i] };
            proof {
                assert(world.live(e));
            }
            let ghost ow = *world;
            let ghost om = *map;
            match pos_opt {
                Some(p) => {
                    proof {
                        assert(om.in_bounds(p));
                    }
                    let pi = map.index(p);
                    map.beings[pi] = None;
                },
                None => {},
            }
            world.despawn(e);
            proof {
                lemma_remove_being(ow, om, *world, *map, e);
                assert(dead_slot(*old(world), i as int, old(map).depth as int));
                assert(world.slots@[i as int] is None);
            }
        } else {
            proof {
                assert(!dead_slot(*old(world), i as int, old(map).depth as int));
            }
        }
        i = i + 1;
    }
    proof {
        assert forall|e: Entity| #[trigger]
            world.live(e) implies old(world).live(e) && world.being(e) == old(world).being(e) by {
            assert(!(e.idx < n && dead_slot(*old(world), e.idx as int, old(map).depth as int))
                ==> world.slots@[e.idx as int] == old(world).slots@[e.idx as int]
                && world.gens@[e.idx as int] == old(world).gens@[e.idx as int]);
        }
        assert forall|e: Entity| #[trigger]
            old(world).live(e) implies (world.live(e) <==> !dead_on_floor(
            old(world).being(e),
            old(map).depth as int,
        )) by {
            if dead_slot(*old(world), e.idx as int, old(map).depth as int) {
                assert(world.slots@[e.idx as int] is None);
            } else {
                assert(world.slots@[e.idx as int] == old(world).slots@[e.idx as int]
                    && world.gens@[e.idx as int] == old(world).gens@[e.idx as int]);
            }
        }
    }
}

} // verus!
