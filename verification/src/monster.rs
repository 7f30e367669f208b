//! Monster identity and the per-breed decision policy that spends each
//! monster's turn: poke the player in melee, chase while the player is
//! visible, wander otherwise.

use vstd::prelude::*;

use crate::actor::{
    bump_outcome, bump_tile, occupancy_preserved_by_being_edit, MoveResult, Position,
};
use crate::combat::{attack, attack_line, damage_of, hp_after, CombatStats};
use crate::fov::{compute_visible, contains_pos, dist2, eff_range, visible_from};
use crate::map::WorldMap;
use crate::messagelog::Message;
use crate::state::{cache_ok_preserved, State};
use crate::world::{Being, Entity, World};

verus! {

/// General info about the type of monster or creature, together with the tag
/// that selects its decision policy.  Immutable after creation.
pub struct Breed {
    pub name: String,
    pub species: String,
    pub ai: BeingAI,
}

/// The decision policies a breed can select.  The only one implemented can
/// wander, follow the player when visible, and poke the player in melee.
#[derive(Clone, Copy, Debug, PartialEq, Eq, Structural)]
pub enum BeingAI {
    BasicPoke,
}

impl Breed {
    /// Unknown policy names fall back to the basic policy on purpose; they
    /// are a data-file degree of freedom, not an error.
    pub fn from(name: &str, species: &str, _ai: &str) -> (r: Self)
        ensures
            r.name@ == name@,
            r.species@ == species@,
            r.ai == BeingAI::BasicPoke,
    {
        Self { name: name.to_owned(), species: species.to_owned(), ai: BeingAI::BasicPoke }
    }
}

/// Relies on rand::random: a value drawn from the thread-local generator.
/// Nothing is, or could be, promised of the result; every caller is verified
/// for every value that can come back.
pub assume_specification<T>[ rand::random::<T> ]() -> (r: T)
    where
        rand::distributions::Standard: rand::distributions::Distribution<T>,
;

/// Grid pathfinding as seen by the monster policy: the next cell of a path,
/// if the implementation finds one longer than a single step.  No contract
/// constrains the result; whatever comes back goes through the same bump
/// resolution as any other move, which absorbs every outcome.
pub trait Pathfinder {
    fn first_step(&self, map: &WorldMap, from: Position, to: Position) -> Option<Position>;
}

/// Melee reach: Euclidean distance below one and a half cells, which on the
/// grid is exactly a squared distance of at most two.
pub open spec fn in_melee_range(a: Position, b: Position) -> bool {
    dist2(a, b) <= 2
}

fn melee_range(a: Position, b: Position) -> (r: bool)
    requires
        0 <= a.x <= 0x7fff_ffff,
        0 <= a.y <= 0x7fff_ffff,
        0 <= b.x <= 0x7fff_ffff,
        0 <= b.y <= 0x7fff_ffff,
    ensures
        r == in_melee_range(a, b),
{
    let dx: i64 = b.x as i64 - a.x as i64;
    let dy: i64 = b.y as i64 - a.y as i64;
    proof {
        assert(dx * dx <= 0x3fff_ffff_0000_0001 && dx * dx >= 0) by (nonlinear_arith)
            requires
                -0x7fff_ffff <= dx <= 0x7fff_ffff,
        ;
        assert(dy * dy <= 0x3fff_ffff_0000_0001 && dy * dy >= 0) by (nonlinear_arith)
            requires
                -0x7fff_ffff <= dy <= 0x7fff_ffff,
        ;
    }
    dx * dx + dy * dy <= 2
}

/// Where one wandering step in the drawn cardinal direction lands: one cell
/// over, clamped at the low map edge.
pub open spec fn wander_dest(p: Position, dir: int) -> Position {
    if dir == 0 {
        Position { x: (p.x + 1) as i32, y: p.y }
    } else if dir == 1 {
        Position {
            x: if p.x - 1 < 0 {
                0
            } else {
                (p.x - 1) as i32
            },
            y: p.y,
        }
    } else if dir == 2 {
        Position { x: p.x, y: (p.y + 1) as i32 }
    } else {
        Position {
            x: p.x,
            y: if p.y - 1 < 0 {
                0
            } else {
                (p.y - 1) as i32
            },
        }
    }
}

/// The world and map went through one bump of `who` against `dest`, whatever
/// the outcome was; the result itself is absorbed.
pub open spec fn absorbed_bump(
    om: WorldMap,
    ow: World,
    nm: WorldMap,
    nw: World,
    who: Entity,
    dest: Position,
) -> bool {
    exists|r: MoveResult| #[trigger] bump_outcome(om, ow, nm, nw, who, dest, r)
}

/// One turn of the basic poke policy for monster `e`.  In melee reach the
/// monster attacks the player and stops; else, with the player in its visible
/// set, it asks pathfinding and bumps toward the proposed step; else it
/// wanders one drawn cardinal step.  Every non-move outcome of a bump is
/// silently absorbed.
pub fn monster_act<P: Pathfinder>(state: &mut State, pf: &P, e: Entity)
    requires
        old(state).wf(),
        old(state).world.live(e),
        old(state).world.being(e).pos is Some,
        old(state).world.being(e).view is Some,
        old(state).world.being(e).breed is Some,
        old(state).world.being(e).stats is Some,
        old(state).world.being(e).floor == old(state).map.depth,
        match old(state).world.first_player() {
            Some(p) => old(state).world.being(p).pos is Some && old(state).world.being(p).stats
                is Some,
            None => false,
        },
    ensures
        final (state).wf(),
        crate::map::same_apart_from_beings(old(state).map, final (state).map),
        final (state).runstate == old(state).runstate,
        final (state).turn_counter == old(state).turn_counter,
        final (state).config == old(state).config,
        final (state).generated_maps == old(state).generated_maps,
        final (state).visible == old(state).visible,
        final (state).world.gens@ == old(state).world.gens@,
        final (state).world.slots@.len() == old(state).world.slots@.len(),
        final (state).world.first_player() == old(state).world.first_player(),
        forall|e2: Entity| #![trigger final (state).world.live(e2)]
            final (state).world.live(e2) <==> old(state).world.live(e2),
        forall|e2: Entity| #[trigger]
            old(state).world.live(e2) ==> final (state).world.being(e2).floor == old(
                state,
            ).world.being(e2).floor && final (state).world.being(e2).player == old(
                state,
            ).world.being(e2).player,
        forall|e2: Entity| #[trigger]
            old(state).world.live(e2) ==> (final (state).world.being(e2).pos is Some <==> old(
                state,
            ).world.being(e2).pos is Some) && (final (state).world.being(e2).view is Some <==> old(
                state,
            ).world.being(e2).view is Some) && (final (state).world.being(e2).stats is Some
                <==> old(state).world.being(e2).stats is Some) && (final (state).world.being(
                e2,
            ).breed is Some <==> old(state).world.being(e2).breed is Some),
        forall|e2: Entity| #[trigger]
            old(state).world.live(e2) && old(state).world.being(e2).floor != old(state).map.depth
                ==> final (state).world.being(e2) == old(state).world.being(e2),
        final (state).message_log@.len() >= old(state).message_log@.len(),
        forall|j: int|
            0 <= j < old(state).message_log@.len() ==> #[trigger] final (state).message_log@[j]
                == old(state).message_log@[j],
        ({
            let p = old(state).world.first_player().unwrap();
            let mpos = old(state).world.being(e).pos.unwrap();
            let ppos = old(state).world.being(p).pos.unwrap();
            if in_melee_range(mpos, ppos) {
                let dmg = damage_of(
                    old(state).world.being(e).stats.unwrap().attack as int,
                    old(state).world.being(p).stats.unwrap().defense as int,
                );
                let old_stats = old(state).world.being(p).stats.unwrap();
                &&& World::only_being_changed(old(state).world, final (state).world, p)
                &&& final (state).world.being(p) == (Being {
                    stats: Some(
                        CombatStats {
                            health: hp_after(old_stats.health as int, dmg) as u32,
                            ..old_stats
                        },
                    ),
                    ..old(state).world.being(p)
                })
                &&& final (state).map.beings@ == old(state).map.beings@
                &&& final (state).message_log@.len() == old(state).message_log@.len() + 1
                &&& final (state).message_log@.last().contents@ == attack_line(
                    old(state).world.being(e).breed.unwrap().name@,
                    "Player"@,
                    dmg,
                )
                &&& final (state).message_log@.last().turn_sent == old(state).turn_counter
            } else {
                &&& final (state).message_log@ == old(state).message_log@
                &&& World::only_being_changed(old(state).world, final (state).world, e)
                &&& if old(state).world.being(e).view.unwrap().visible_tiles@.contains(ppos) {
                    ||| (*final (state) == *old(state))
                    ||| exists|next: Position|
                        #[trigger] absorbed_bump(
                            old(state).map,
                            old(state).world,
                            final (state).map,
                            final (state).world,
                            e,
                            next,
                        )
                } else {
                    exists|dir: int|
                        0 <= dir < 4 && absorbed_bump(
                            old(state).map,
                            old(state).world,
                            final (state).map,
                            final (state).world,
                            e,
                            #[trigger] wander_dest(mpos, dir),
                        )
                }
            }
        }),
{
    let p = state.world.player_entity().unwrap();
    let (ppos, pstats) = match state.world.lookup(p) {
        Some(b) => (b.pos.unwrap(), b.stats.unwrap()),
        None => {
            proof {
                assert(false);
            }
            (Position { x: 0, y: 0 }, CombatStats::new(0, 0, 0))
        },
    };
    let (mpos, mstats, mname) = match state.world.lookup(e) {
        Some(b) => (
            b.pos.unwrap(),
            b.stats.unwrap(),
            match &b.breed {
                Some(br) => br.name.clone(),
                None => String::new(),
            },
        ),
        None => {
            proof {
                assert(false);
            }
            (Position { x: 0, y: 0 }, CombatStats::new(0, 0, 0), String::new())
        },
    };
    proof {
        assert(state.map.in_bounds(mpos));
        state.world.lemma_first_player_live(0);
        assert(state.world.being(p).floor == state.map.depth);
        assert(state.map.in_bounds(ppos));
    }

    if melee_range(mpos, ppos) {
        let mut ds = pstats;
        let line = attack(&mut ds, "Player", &mstats, mname.as_str());
        state.world.set_health(p, ds.health);
        let turn = state.turn_counter;
        state.message_log.push(Message::new(line, turn));
        proof {
            occupancy_preserved_by_being_edit(old(state).world, state.world, state.map, p);
            cache_ok_preserved(
                old(state).world,
                state.world,
                state.generated_maps,
                state.map.depth as int,
            );
        }
        return ;
    }

    let sees_player = match state.world.lookup(e) {
        Some(b) => match &b.view {
            Some(v) => contains_pos(&v.visible_tiles, ppos),
            None => false,
        },
        None => false,
    };

    if sees_player {
        let step = pf.first_step(&state.map, mpos, ppos);
        match step {
            Some(next) => {
                let ghost ow = state.world;
                let ghost om = state.map;
                let r = bump_tile(&mut state.map, &mut state.world, e, next);
                proof {
                    assert(bump_outcome(om, ow, state.map, state.world, e, next, r));
                    assert(absorbed_bump(om, ow, state.map, state.world, e, next));
                    cache_ok_preserved(
                        old(state).world,
                        state.world,
                        state.generated_maps,
                        state.map.depth as int,
                    );
                }
            },
            None => {},
        }
    } else {
        let dir = rand::random::<u8>() % 4;
        let dest = wander_step(mpos, dir, state);
        let ghost ow = state.world;
        let ghost om = state.map;
        let r = bump_tile(&mut state.map, &mut state.world, e, dest);
        proof {
            assert(bump_outcome(om, ow, state.map, state.world, e, dest, r));
            assert(absorbed_bump(om, ow, state.map, state.world, e, dest));
            assert(dest == wander_dest(mpos, dir as int));
            cache_ok_preserved(
                old(state).world,
                state.world,
                state.generated_maps,
                state.map.depth as int,
            );
        }
    }
}

/// Refreshes one monster's viewshed if, and only if, it is stale.
pub fn refresh_monster_vision(state: &mut State, e: Entity)
    requires
        old(state).wf(),
        old(state).world.live(e),
        old(state).world.being(e).pos is Some,
        old(state).world.being(e).view is Some,
        old(state).world.being(e).floor == old(state).map.depth,
    ensures
        final (state).wf(),
        final (state).map == old(state).map,
        final (state).message_log == old(state).message_log,
        final (state).runstate == old(state).runstate,
        final (state).turn_counter == old(state).turn_counter,
        final (state).config == old(state).config,
        final (state).generated_maps == old(state).generated_maps,
        final (state).visible == old(state).visible,
        World::only_being_changed(old(state).world, final (state).world, e),
        !old(state).world.being(e).view.unwrap().dirty ==> final (state).world == old(state).world,
        old(state).world.being(e).view.unwrap().dirty ==> {
            let b = old(state).world.being(e);
            let ov = b.view.unwrap();
            let nv = final (state).world.being(e).view.unwrap();
            &&& final (state).world.being(e) == (Being { view: Some(nv), ..b })
            &&& !nv.dirty
            &&& nv.range == ov.range
            &&& forall|c: Position| #[trigger]
                nv.visible_tiles@.contains(c) <==> visible_from(
                    old(state).map,
                    b.pos.unwrap(),
                    eff_range(ov.range),
                    c,
                )
        },
{
    let (pos, vinfo) = match state.world.lookup(e) {
        Some(b) => (
            b.pos.unwrap(),
            match &b.view {
                Some(v) => (v.dirty, v.range),
                None => (false, 0),
            },
        ),
        None => {
            proof {
                assert(false);
            }
            (Position { x: 0, y: 0 }, (false, 0))
        },
    };
    let (dirty, range) = vinfo;
    if dirty {
        let rg = if range > 0x7fff_ffff {
            0x7fff_ffff
        } else {
            range
        };
        proof {
            assert(state.map.in_bounds(pos));
        }
        let tiles = compute_visible(&state.map, pos, rg);
        state.world.set_view_computed(e, tiles);
        proof {
            occupancy_preserved_by_being_edit(old(state).world, state.world, state.map, e);
            cache_ok_preserved(
                old(state).world,
                state.world,
                state.generated_maps,
                state.map.depth as int,
            );
        }
    }
}

/// A placed, combat-capable player is on the board for the monsters to act
/// against.
pub open spec fn player_ready_combat(w: World) -> bool {
    match w.first_player() {
        Some(p) => w.being(p).pos is Some && w.being(p).stats is Some,
        None => false,
    }
}

/// Entity `e` carries the full monster bundle on this floor and so takes a
/// turn: position, vision, breed and combat numbers, standing on the current
/// depth.
pub open spec fn monster_eligible(w: World, m: WorldMap, e: Entity) -> bool {
    &&& w.live(e)
    &&& w.being(e).pos is Some
    &&& w.being(e).view is Some
    &&& w.being(e).breed is Some
    &&& w.being(e).stats is Some
    &&& w.being(e).floor == m.depth
}

/// Slot-holder `e` is a monster that gets a turn on this floor and already
/// stands in melee reach of the player.
pub open spec fn melee_eligible(w: World, m: WorldMap, e: Entity) -> bool {
    &&& monster_eligible(w, m, e)
    &&& in_melee_range(w.being(e).pos.unwrap(), w.being(w.first_player().unwrap()).pos.unwrap())
}

/// The whole effect of the monster-turn phase: nothing but current-floor
/// beings and the log changes, nobody appears or disappears, without a
/// combat-capable player nothing at all happens, and a monster standing in
/// melee reach of a breed-less player is guaranteed its hit in the log.
pub open spec fn monster_turns_outcome(pre: State, post: State) -> bool {
    &&& crate::map::same_apart_from_beings(pre.map, post.map)
    &&& post.runstate == pre.runstate
    &&& post.turn_counter == pre.turn_counter
    &&& post.config == pre.config
    &&& post.generated_maps == pre.generated_maps
    &&& post.visible == pre.visible
    &&& forall|e2: Entity| #![trigger post.world.live(e2)]
        post.world.live(e2) <==> pre.world.live(e2)
    &&& forall|e2: Entity| #[trigger]
        pre.world.live(e2) && pre.world.being(e2).floor != pre.map.depth ==> post.world.being(e2)
            == pre.world.being(e2)
    &&& post.message_log@.len() >= pre.message_log@.len()
    &&& forall|j: int|
        0 <= j < pre.message_log@.len() ==> #[trigger] post.message_log@[j]
            == pre.message_log@[j]
    &&& (!player_ready_combat(pre.world) ==> post == pre)
    &&& ((player_ready_combat(pre.world) && pre.world.being(
        pre.world.first_player().unwrap(),
    ).breed is None && exists|e: Entity| #[trigger] melee_eligible(pre.world, pre.map, e))
        ==> post.message_log@.len() > pre.message_log@.len())
    // bystanders — entities that take no turn and are not the player — are
    // exactly as they were
    &&& forall|e: Entity| #[trigger]
        pre.world.live(e) && !monster_eligible(pre.world, pre.map, e) && (
        pre.world.first_player() matches Some(p) ==> e != p) ==> post.world.being(e)
            == pre.world.being(e)
}

/// All monster turns of one turn advance: every breed-carrying entity of the
/// current floor gets its viewshed refreshed when stale and spends one move
/// of its decision policy.  Without a live, placed, combat-capable player, no
/// monster stirs; with one, a monster already in melee reach is guaranteed to
/// land its hit in the log.
pub fn handle_monster_turns<P: Pathfinder>(state: &mut State, pf: &P)
    requires
        old(state).wf(),
    ensures
        monster_turns_outcome(*old(state), *final (state)),
        !player_ready_combat(old(state).world) ==> *final (state) == *old(state),
        (player_ready_combat(old(state).world) && old(state).world.being(
            old(state).world.first_player().unwrap(),
        ).breed is None && exists|e: Entity|
            #[trigger] melee_eligible(old(state).world, old(state).map, e)) ==> final (
        state).message_log@.len() > old(state).message_log@.len(),
        final (state).wf(),
        crate::map::same_apart_from_beings(old(state).map, final (state).map),
        final (state).runstate == old(state).runstate,
        final (state).turn_counter == old(state).turn_counter,
        final (state).config == old(state).config,
        final (state).generated_maps == old(state).generated_maps,
        final (state).visible == old(state).visible,
        final (state).world.gens@ == old(state).world.gens@,
        final (state).world.slots@.len() == old(state).world.slots@.len(),
        final (state).world.first_player() == old(state).world.first_player(),
        forall|e2: Entity| #![trigger final (state).world.live(e2)]
            final (state).world.live(e2) <==> old(state).world.live(e2),
        forall|e2: Entity| #[trigger]
            old(state).world.live(e2) ==> final (state).world.being(e2).floor == old(
                state,
            ).world.being(e2).floor && final (state).world.being(e2).player == old(
                state,
            ).world.being(e2).player,
        forall|e2: Entity| #[trigger]
            old(state).world.live(e2) && old(state).world.being(e2).floor != old(state).map.depth
                ==> final (state).world.being(e2) == old(state).world.being(e2),
        final (state).message_log@.len() >= old(state).message_log@.len(),
        forall|j: int|
            0 <= j < old(state).message_log@.len() ==> #[trigger] final (state).message_log@[j]
                == old(state).message_log@[j],
{
    let players_ok = match state.world.player_entity() {
        Some(p) => match state.world.lookup(p) {
            Some(b) => b.pos.is_some() && b.stats.is_some(),
            None => false,
        },
        None => false,
    };
    proof {
        assert(players_ok == player_ready_combat(old(state).world));
    }
    if !players_ok {
        return ;
    }
    let ghost pp = old(state).world.first_player().unwrap();
    let ghost pbreedless = old(state).world.being(pp).breed is None;
    let n = state.world.slots.len();
    let mut i: usize = 0;
    while i < n
        invariant
            pp == old(state).world.first_player().unwrap(),
            pbreedless == (old(state).world.being(pp).breed is None),
            player_ready_combat(old(state).world),
            pbreedless ==> state.world.being(pp).pos == old(state).world.being(pp).pos,
            pbreedless ==> state.world.being(pp).breed is None,
            forall|e2: Entity| #[trigger]
                old(state).world.live(e2) && e2.idx >= i && e2 != pp ==> state.world.being(e2)
                    == old(state).world.being(e2),
            (pbreedless && exists|e2: Entity|
                #[trigger] melee_eligible(old(state).world, old(state).map, e2) && e2.idx < i)
                ==> state.message_log@.len() > old(state).message_log@.len(),
            forall|e2: Entity| #[trigger]
                old(state).world.live(e2) && !monster_eligible(
                    old(state).world,
                    old(state).map,
                    e2,
                ) && e2 != pp ==> state.world.being(e2) == old(state).world.being(e2),
            state.wf(),
            n == state.world.slots@.len(),
            i <= n,
            crate::map::same_apart_from_beings(old(state).map, state.map),
            state.runstate == old(state).runstate,
            state.turn_counter == old(state).turn_counter,
            state.config == old(state).config,
            state.generated_maps == old(state).generated_maps,
            state.visible == old(state).visible,
            state.world.gens@ == old(state).world.gens@,
            state.world.slots@.len() == old(state).world.slots@.len(),
            state.world.first_player() == old(state).world.first_player(),
            match state.world.first_player() {
                Some(p) => state.world.being(p).pos is Some && state.world.being(p).stats is Some,
                None => false,
            },
            forall|e2: Entity| #![trigger state.world.live(e2)]
                state.world.live(e2) <==> old(state).world.live(e2),
            forall|e2: Entity| #[trigger]
                old(state).world.live(e2) ==> state.world.being(e2).floor == old(
                    state,
                ).world.being(e2).floor && state.world.being(e2).player == old(
                    state,
                ).world.being(e2).player,
            forall|e2: Entity| #[trigger]
                old(state).world.live(e2) && old(state).world.being(e2).floor != old(
                    state,
                ).map.depth ==> state.world.being(e2) == old(state).world.being(e2),
            state.message_log@.len() >= old(state).message_log@.len(),
            forall|j: int|
                0 <= j < old(state).message_log@.len() ==> #[trigger] state.message_log@[j] == old(
                    state,
                ).message_log@[j],
        decreases n - i,
    {
        let e = Entity { idx: i, gen: state.world.gens[i] };
        let eligible = match state.world.lookup(e) {
            Some(b) => b.pos.is_some() && b.view.is_some() && b.breed.is_some()
                && b.stats.is_some() && b.floor == state.map.depth,
            None => false,
        };
        if eligible {
            proof {
                state.world.lemma_first_player_live(0);
            }
            let ghost w0 = state.world;
            refresh_monster_vision(state, e);
            let ghost w1 = state.world;
            monster_act(state, pf, e);
            proof {
                assert forall|e2: Entity| #[trigger]
                    w0.live(e2) implies state.world.being(e2).floor == w0.being(e2).floor
                    && state.world.being(e2).player == w0.being(e2).player by {
                    assert(w1.live(e2));
                    if e2 != e {
                        assert(w1.being(e2) == w0.being(e2));
                    }
                }
                assert forall|e2: Entity| #[trigger]
                    w0.live(e2) && w0.being(e2).floor != state.map.depth implies state.world.being(
                    e2,
                ) == w0.being(e2) by {
                    assert(w1.live(e2));
                    assert(e2 != e);
                    assert(w1.being(e2) == w0.being(e2));
                }
                assert forall|e2: Entity| #[trigger]
                    old(state).world.live(e2) implies state.world.being(e2).floor == old(
                    state,
                ).world.being(e2).floor && state.world.being(e2).player == old(
                    state,
                ).world.being(e2).player by {
                    assert(w0.live(e2));
                }
                assert forall|e2: Entity| #[trigger]
                    old(state).world.live(e2) && old(state).world.being(e2).floor != old(
                    state,
                ).map.depth implies state.world.being(e2) == old(state).world.being(e2) by {
                    assert(w0.live(e2));
                    assert(w0.being(e2) == old(state).world.being(e2));
                }
                assert forall|e2: Entity| #[trigger]
                    old(state).world.live(e2) && e2.idx >= i + 1 && e2 != pp
                        implies state.world.being(e2) == old(state).world.being(e2) by {
                    assert(w0.live(e2));
                    assert(e2 != e);
                    assert(w1.live(e2));
                    assert(w1.being(e2) == w0.being(e2));
                }
                assert forall|e2: Entity| #[trigger]
                    old(state).world.live(e2) && !monster_eligible(
                        old(state).world,
                        old(state).map,
                        e2,
                    ) && e2 != pp implies state.world.being(e2) == old(state).world.being(e2) by {
                    assert(w0.live(e2));
                    if e2 == e {
                        assert(w0.being(e) == old(state).world.being(e));
                        assert(false);
                    }
                    assert(w1.live(e2));
                    assert(w1.being(e2) == w0.being(e2));
                }
                if pbreedless {
                    assert(state.world.being(pp).pos == old(state).world.being(pp).pos) by {
                        assert(w0.live(pp));
                        assert(w1.live(pp));
                        if pp != e {
                            assert(w1.being(pp) == w0.being(pp));
                        }
                    }
                    if exists|e2: Entity|
                        #[trigger] melee_eligible(old(state).world, old(state).map, e2) && e2.idx
                            < i + 1 {
                        let e2 = choose|e2: Entity|
                            #[trigger] melee_eligible(old(state).world, old(state).map, e2)
                                && e2.idx < i + 1;
                        if e2.idx == i {
                            assert(e2 == e);
                            assert(e2 != pp);
                            assert(w1.being(e).pos == old(state).world.being(e).pos);
                            assert(w1.being(pp).pos == old(state).world.being(pp).pos);
                            assert(in_melee_range(
                                w1.being(e).pos.unwrap(),
                                w1.being(w1.first_player().unwrap()).pos.unwrap(),
                            ));
                            assert(state.message_log@.len() > old(state).message_log@.len());
                        }
                    }
                }
            }
        } else {
            proof {
                if pbreedless {
                    assert forall|e2: Entity|
                        melee_eligible(old(state).world, old(state).map, e2) && e2.idx == i
                            implies false by {
                        assert(e2 != pp);
                        assert(state.world.being(e2) == old(state).world.being(e2));
                        assert(state.world.live(e2));
                        assert(e2 == e);
                    }
                }
            }
        }
        i = i + 1;
    }
}

/// One cell over in the drawn direction, clamped at the low edge.
fn wander_step(p: Position, dir: u8, state: &State) -> (r: Position)
    requires
        dir < 4,
        state.map.wf(),
        state.map.in_bounds(p),
    ensures
        r == wander_dest(p, dir as int),
{
    if dir == 0 {
        Position { x: p.x + 1, y: p.y }
    } else if dir == 1 {
        Position {
            x: if p.x - 1 < 0 {
                0
            } else {
                p.x - 1
            },
            y: p.y,
        }
    } else if dir == 2 {
        Position { x: p.x, y: p.y + 1 }
    } else {
        Position {
            x: p.x,
            y: if p.y - 1 < 0 {
                0
            } else {
                p.y - 1
            },
        }
    }
}

} // verus!
