//! The top-level simulation state and the run-state machine that sequences
//! continuous systems, player response, turn advance and floor transitions.

use vstd::prelude::*;

use crate::actor::{MoveResult, Position};
use crate::combat::CombatStats;
use crate::data_read::EntityDatabase;
use crate::map::{occupancy_consistent, occupancy_preserved_generic, Destructible, WorldMap};
use crate::messagelog::Message;
use crate::world::{Entity, World};

verus! {

/// Which entry of the main menu is selected.
#[derive(Clone, Copy, Debug)]
pub struct MenuIndex(pub usize);

/// The mode of the whole system.  No state is terminal: process exit is a
/// side channel, not a transition.
#[derive(Clone, Copy, Debug)]
pub enum RunState {
    InGame,
    MainMenu(MenuIndex),
    NextLevel(i32),
    SaveGame,
}

/// What resolving one player input amounted to.
pub enum PlayerResponse {
    StateChange(RunState),
    TurnAdvance,
    Waiting,
}

/// A resolved player intent, handed in by input handling.
#[derive(Clone, Copy, Debug)]
pub enum PlayerAction {
    Move { dx: i32, dy: i32 },
    Descend,
    Ascend,
    SaveRequest,
    Wait,
}

/// What the core reads from the configuration file.
#[derive(Clone, Copy, Debug)]
pub struct Config {
    pub map_x: usize,
    pub map_y: usize,
    pub dev_mode: bool,
    pub world_seed: u64,
}

/// The cache of generated floors: one map per depth, created lazily on first
/// visit and reused verbatim on revisit.
pub struct FloorCache {
    pub entries: Vec<(i32, WorldMap)>,
}

impl FloorCache {
    /// Each depth appears at most once.
    pub open spec fn wf(self) -> bool {
        forall|i: int, j: int|
            0 <= i < j < self.entries@.len() ==> (#[trigger] self.entries@[i]).0 != (
            #[trigger] self.entries@[j]).0
    }

    pub open spec fn has_depth(self, d: int) -> bool {
        exists|i: int| 0 <= i < self.entries@.len() && (#[trigger] self.entries@[i]).0 == d
    }

    /// The cached map of that depth; meaningful only where `has_depth` holds,
    /// and well defined because depths are unique.
    pub open spec fn spec_at(self, d: int) -> WorldMap {
        self.entries@[choose|i: int|
            0 <= i < self.entries@.len() && (#[trigger] self.entries@[i]).0 == d].1
    }

    pub fn new() -> (r: FloorCache)
        ensures
            r.wf(),
            r.entries@.len() == 0,
            forall|d: int| !r.has_depth(d),
    {
        FloorCache { entries: Vec::new() }
    }

    /// Removes and returns the cached map of that depth, if one exists.
    pub fn take(&mut self, depth: i32) -> (r: Option<WorldMap>)
        requires
            old(self).wf(),
        ensures
            final (self).wf(),
            !final (self).has_depth(depth as int),
            forall|d: int|
                d != depth ==> (#[trigger] final (self).has_depth(d) <==> old(self).has_depth(d)),
            match r {
                Some(m) => exists|i: int|
                    {
                        &&& 0 <= i < old(self).entries@.len()
                        &&& old(self).entries@[i] == (depth, m)
                        &&& #[trigger] final (self).entries@ == old(self).entries@.remove(i)
                    },
                None => !old(self).has_depth(depth as int) && *final (self) == *old(self),
            },
    {
        let n = self.entries.len();
        let mut i: usize = 0;
        while i < n
            invariant
                *self == *old(self),
                self.wf(),
                n == self.entries@.len(),
                i <= n,
                forall|j: int| 0 <= j < i ==> (#[trigger] self.entries@[j]).0 != depth,
            decreases n - i,
        {
            if self.entries[i].0 == depth {
                let (_, m) = self.entries.remove(i);
                proof {
                    let oldme = old(self).entries@;
                    let newme = self.entries@;
                    assert(newme == oldme.remove(i as int));
                    assert forall|j1: int, j2: int| 0 <= j1 < j2 < newme.len() implies (
                    #[trigger] newme[j1]).0 != (#[trigger] newme[j2]).0 by {
                        if j2 < i {
                        } else if j1 < i {
                            assert(newme[j2] == oldme[j2 + 1]);
                        } else {
                            assert(newme[j1] == oldme[j1 + 1]);
                            assert(newme[j2] == oldme[j2 + 1]);
                        }
                    }
                    assert forall|j: int| 0 <= j < newme.len() implies (#[trigger] newme[j]).0
                        != depth by {
                        if j < i {
                        } else {
                            assert(newme[j] == oldme[j + 1]);
                        }
                    }
                    assert forall|d: int| d != depth implies (#[trigger] self.has_depth(d)
                        <==> old(self).has_depth(d)) by {
                        if self.has_depth(d) {
                            let j = choose|j: int|
                                0 <= j < newme.len() && (#[trigger] newme[j]).0 == d;
                            if j < i {
                                assert(oldme[j].0 == d);
                            } else {
                                assert(oldme[j + 1].0 == d);
                            }
                        }
                        if old(self).has_depth(d) {
                            let j = choose|j: int|
                                0 <= j < oldme.len() && (#[trigger] oldme[j]).0 == d;
                            if j < i {
                                assert(newme[j].0 == d);
                            } else {
                                assert(j != i);
                                assert(newme[j - 1] == oldme[j]);
                            }
                        }
                    }
                }
                return Some(m);
            }
            i = i + 1;
        }
        None
    }

    /// Caches a map under a depth not yet present.
    pub fn insert(&mut self, depth: i32, m: WorldMap)
        requires
            old(self).wf(),
            !old(self).has_depth(depth as int),
            old(self).entries@.len() < usize::MAX,
        ensures
            final (self).wf(),
            final (self).entries@ == old(self).entries@.push((depth, m)),
            final (self).has_depth(depth as int),
            forall|d: int| #[trigger]
                final (self).has_depth(d) <==> (old(self).has_depth(d) || d == depth),
            forall|j: int|
                0 <= j < old(self).entries@.len() ==> #[trigger] final (self).entries@[j] == old(
                    self,
                ).entries@[j],
    {
        self.entries.push((depth, m));
        proof {
            let newme = self.entries@;
            assert(newme[newme.len() - 1] == (depth, m));
            assert forall|j1: int, j2: int| 0 <= j1 < j2 < newme.len() implies (
            #[trigger] newme[j1]).0 != (#[trigger] newme[j2]).0 by {
                if j2 == newme.len() - 1 {
                    assert(newme[j1] == old(self).entries@[j1]);
                    assert(!old(self).has_depth(depth as int));
                }
            }
            assert forall|d: int| #[trigger]
                self.has_depth(d) <==> (old(self).has_depth(d) || d == depth) by {
                if old(self).has_depth(d) {
                    let j = choose|j: int|
                        0 <= j < old(self).entries@.len() && (#[trigger] old(
                            self,
                        ).entries@[j]).0 == d;
                    assert(newme[j].0 == d);
                }
                if self.has_depth(d) && d != depth {
                    let j = choose|j: int| 0 <= j < newme.len() && (#[trigger] newme[j]).0 == d;
                    assert(j < newme.len() - 1);
                    assert(old(self).entries@[j].0 == d);
                }
            }
        }
    }
}

/// Whether every cached floor is sound against the current store: its own
/// occupancy invariant holds, it remembers its depth, and no entry shadows
/// the floor currently being played.
pub open spec fn cache_ok(w: World, cache: FloorCache, cur_depth: int) -> bool {
    forall|j: int|
        0 <= j < cache.entries@.len() ==> {
            let e = #[trigger] cache.entries@[j];
            &&& e.1.wf()
            &&& e.1.depth == e.0
            &&& e.0 != cur_depth
            &&& occupancy_consistent(w, e.1)
        }
}

/// Dimensions the generator can lay out and the core can index without
/// overflow: three room bands of at least three cells each need a width of
/// sixteen, the corridor with a room band above it needs a height of eight,
/// and the upper bounds keep every index and squared distance comfortably
/// inside the machine integers.
pub open spec fn config_ok(c: Config) -> bool {
    &&& 16 <= c.map_x <= 1000
    &&& 8 <= c.map_y <= 1000
}

/// The whole effect of the pre-response death sweep: everything but the
/// occupancy index and the store stands still; the survivors are exactly the
/// entities that were not dead on this floor, untouched; and afterwards no
/// live combatant of the floor is at zero hit points.
pub open spec fn sweep_outcome(pre: State, post: State) -> bool {
    &&& crate::map::same_apart_from_beings(pre.map, post.map)
    &&& post.runstate == pre.runstate
    &&& post.turn_counter == pre.turn_counter
    &&& post.config == pre.config
    &&& post.generated_maps == pre.generated_maps
    &&& post.visible == pre.visible
    &&& post.message_log == pre.message_log
    &&& forall|e: Entity| #[trigger]
        post.world.live(e) ==> pre.world.live(e) && post.world.being(e) == pre.world.being(e)
    &&& forall|e: Entity| #[trigger]
        pre.world.live(e) ==> (post.world.live(e) <==> !crate::combat::dead_on_floor(
            pre.world.being(e),
            pre.map.depth as int,
        ))
    &&& forall|e: Entity|
        post.world.live(e) && post.world.being(e).floor == post.map.depth ==> (
        #[trigger] post.world.being(e).stats matches Some(st) ==> st.health >= 1)
}

/// Every cached floor stays sound across a change to the store that leaves
/// the entities of floors other than the current one exactly as they were.
pub proof fn cache_ok_preserved(ow: World, nw: World, cache: FloorCache, cur: int)
    requires
        cache_ok(ow, cache, cur),
        forall|e: Entity| #[trigger]
            ow.live(e) && ow.being(e).floor != cur ==> nw.live(e) && nw.being(e) == ow.being(e),
        forall|e: Entity| #[trigger]
            nw.live(e) && nw.being(e).floor != cur ==> ow.live(e) && ow.being(e) == nw.being(e),
    ensures
        cache_ok(nw, cache, cur),
{
    assert forall|j: int| 0 <= j < cache.entries@.len() implies {
        let e = #[trigger] cache.entries@[j];
        &&& e.1.wf()
        &&& e.1.depth == e.0
        &&& e.0 != cur
        &&& occupancy_consistent(nw, e.1)
    } by {
        let m = cache.entries@[j].1;
        assert forall|e2: Entity| #[trigger]
            ow.live(e2) && ow.being(e2).floor == m.depth implies nw.live(e2) && nw.being(e2)
            == ow.being(e2) by {}
        assert forall|e2: Entity| #[trigger]
            nw.live(e2) && nw.being(e2).floor == m.depth implies ow.live(e2) && ow.being(e2)
            == nw.being(e2) by {}
        occupancy_preserved_generic(ow, nw, m);
    }
}

/// The whole simulation: entities, the current floor, the log, the floor
/// cache, the run state, and the player-visible cell set.
pub struct State {
    pub world: World,
    pub map: WorldMap,
    pub message_log: Vec<Message>,
    pub generated_maps: FloorCache,
    pub runstate: RunState,
    pub config: Config,
    pub turn_counter: usize,
    pub visible: Vec<bool>,
}

impl State {
    /// The simulation invariant: store and map are individually well formed,
    /// occupancy is mutually consistent, the at most one player stands on the
    /// current floor, and every cached floor is sound.
    pub open spec fn wf(self) -> bool {
        &&& self.world.wf()
        &&& self.map.wf()
        &&& occupancy_consistent(self.world, self.map)
        &&& forall|e: Entity| #[trigger]
            self.world.live(e) ==> (self.world.being(e).player is Some ==> self.world.being(
                e,
            ).floor == self.map.depth)
        &&& forall|e1: Entity, e2: Entity|
            #![trigger self.world.live(e1), self.world.live(e2)]
            self.world.live(e1) && self.world.live(e2) && self.world.being(e1).player is Some
                && self.world.being(e2).player is Some ==> e1 == e2
        &&& forall|e: Entity| #[trigger]
            self.world.live(e) ==> (self.world.being(e).floor == self.map.depth
                || self.generated_maps.has_depth(self.world.being(e).floor as int))
        &&& self.generated_maps.wf()
        &&& cache_ok(self.world, self.generated_maps, self.map.depth as int)
        &&& config_ok(self.config)
    }

    /// Empty start of state that starts in the menu.
    pub fn new(config: &Config) -> (r: Self)
        requires
            config_ok(*config),
        ensures
            r.wf(),
            r.runstate == RunState::MainMenu(MenuIndex(0)),
            r.turn_counter == 0,
            r.map.tiles@.len() == 0,
            r.generated_maps.entries@.len() == 0,
            r.message_log@.len() == 2,
            r.message_log@[0].contents@ == "Welcome to Terra Incognita"@,
            r.message_log@[0].turn_sent == 0,
            r.message_log@[1].contents@ == "This is an alpha build from April 2023"@,
            r.message_log@[1].turn_sent == 0,
            r.visible@.len() == config.map_x * config.map_y,
            forall|i: int| 0 <= i < r.visible@.len() ==> !(#[trigger] r.visible@[i]),
            r.config == *config,
            forall|e: Entity| !r.world.live(e),
    {
        proof {
            assert(config.map_x * config.map_y <= 1000000) by (nonlinear_arith)
                requires
                    config.map_x <= 1000,
                    config.map_y <= 1000,
            ;
        }
        Self {
            world: World::new(),
            map: WorldMap::empty(),
            runstate: RunState::MainMenu(MenuIndex(0)),
            config: *config,
            message_log: make_welcome_log("This is an alpha build from April 2023"),
            turn_counter: 0,
            generated_maps: FloorCache::new(),
            visible: make_false_vec(config.map_x * config.map_y),
        }
    }
}

fn make_welcome_log(build_line: &str) -> (r: Vec<Message>)
    ensures
        r@.len() == 2,
        r@[0].contents@ == "Welcome to Terra Incognita"@,
        r@[0].turn_sent == 0,
        r@[1].contents@ == build_line@,
        r@[1].turn_sent == 0,
{
    let mut v: Vec<Message> = Vec::new();
    v.push(Message::new("Welcome to Terra Incognita".to_owned(), 0));
    v.push(Message::new(build_line.to_owned(), 0));
    v
}

fn make_false_vec(n: usize) -> (r: Vec<bool>)
    ensures
        r@.len() == n,
        forall|i: int| 0 <= i < n ==> !r@[i],
{
    let mut v: Vec<bool> = Vec::new();
    let mut i: usize = 0;
    while i < n
        invariant
            i <= n,
            v@.len() == i,
            forall|j: int| 0 <= j < i ==> !v@[j],
        decreases n - i,
    {
        v.push(false);
        i = i + 1;
    }
    v
}

/// A store edit confined to the current floor that moves no entity off it,
/// adds or removes nobody, and touches no marker keeps every state-level
/// invariant.
pub proof fn state_invariants_after_edit(ow: World, nw: World, cache: FloorCache, depth: int)
    requires
        forall|e: Entity| #[trigger]
            ow.live(e) ==> (ow.being(e).player is Some ==> ow.being(e).floor == depth),
        forall|e1: Entity, e2: Entity|
            #![trigger ow.live(e1), ow.live(e2)]
            ow.live(e1) && ow.live(e2) && ow.being(e1).player is Some && ow.being(e2).player
                is Some ==> e1 == e2,
        forall|e: Entity| #[trigger]
            ow.live(e) ==> (ow.being(e).floor == depth || cache.has_depth(
                ow.being(e).floor as int,
            )),
        cache_ok(ow, cache, depth),
        nw.wf(),
        forall|e: Entity| #![trigger nw.live(e)] nw.live(e) <==> ow.live(e),
        forall|e: Entity| #[trigger]
            ow.live(e) ==> nw.being(e).floor == ow.being(e).floor && nw.being(e).player
                == ow.being(e).player,
        forall|e: Entity| #[trigger]
            ow.live(e) && ow.being(e).floor != depth ==> nw.being(e) == ow.being(e),
    ensures
        forall|e: Entity| #[trigger]
            nw.live(e) ==> (nw.being(e).player is Some ==> nw.being(e).floor == depth),
        forall|e1: Entity, e2: Entity|
            #![trigger nw.live(e1), nw.live(e2)]
            nw.live(e1) && nw.live(e2) && nw.being(e1).player is Some && nw.being(e2).player
                is Some ==> e1 == e2,
        forall|e: Entity| #[trigger]
            nw.live(e) ==> (nw.being(e).floor == depth || cache.has_depth(
                nw.being(e).floor as int,
            )),
        cache_ok(nw, cache, depth),
{
    assert forall|e: Entity| #[trigger]
        nw.live(e) implies (nw.being(e).player is Some ==> nw.being(e).floor == depth) by {
        assert(ow.live(e));
    }
    assert forall|e1: Entity, e2: Entity|
        #![trigger nw.live(e1), nw.live(e2)]
        nw.live(e1) && nw.live(e2) && nw.being(e1).player is Some && nw.being(e2).player
            is Some implies e1 == e2 by {
        assert(ow.live(e1));
        assert(ow.live(e2));
    }
    assert forall|e: Entity| #[trigger]
        nw.live(e) implies (nw.being(e).floor == depth || cache.has_depth(
        nw.being(e).floor as int,
    )) by {
        assert(ow.live(e));
    }
    assert forall|e: Entity| #[trigger]
        ow.live(e) && ow.being(e).floor != depth implies nw.live(e) && nw.being(e) == ow.being(
        e,
    ) by {}
    assert forall|e: Entity| #[trigger]
        nw.live(e) && nw.being(e).floor != depth implies ow.live(e) && ow.being(e) == nw.being(
        e,
    ) by {
        assert(ow.live(e));
    }
    cache_ok_preserved(ow, nw, cache, depth);
}

/// Whether a directional input resolves to something that consumes a turn: a
/// move onto a free walkable cell, an attack redirect, or a mining redirect.
pub open spec fn move_action_advances(w: World, m: WorldMap, dx: int, dy: int) -> bool {
    match crate::actor::player_move_dest(w, m, dx, dy) {
        None => false,
        Some(dest) => m.in_bounds(dest) && {
            let di = m.index_of(dest);
            ||| m.beings@[di] is Some
            ||| !m.tiles@[di].is_blocking
            ||| m.destructibles@[di] is Some
        },
    }
}

/// How the simulation changes when a directional input is resolved: nothing
/// off the map moves anything; an occupant takes the player's hit and the log
/// gains the combat line; a free walkable cell takes the player; a blocked
/// destructible cell loses one hit point, converting on its last one; a plain
/// blocked cell changes nothing but the mover's stale vision.
/// The map holds the very same grids; only the value moved, not a cell.
pub open spec fn map_unchanged(pre: WorldMap, post: WorldMap) -> bool {
    &&& post.tiles@ == pre.tiles@
    &&& post.destructibles@ == pre.destructibles@
    &&& post.beings@ == pre.beings@
    &&& post.discovered@ == pre.discovered@
    &&& post.width == pre.width
    &&& post.height == pre.height
    &&& post.depth == pre.depth
    &&& post.rooms@ == pre.rooms@
}

/// One mining interaction against the overlay at cell `di`: the mover's
/// vision goes stale, the overlay loses a point, and on its last one the cell
/// converts to the walkable mined-out tile.
pub open spec fn mining_state_outcome(pre: State, post: State, db: EntityDatabase, di: int) -> bool {
    let p = pre.world.first_player().unwrap();
    let b = pre.world.being(p);
    &&& post.message_log@ == pre.message_log@
    &&& World::only_being_changed(pre.world, post.world, p)
    &&& post.world.being(p) == crate::actor::dirtied(b)
    &&& post.map.beings@ == pre.map.beings@
    &&& match pre.map.destructibles@[di] {
        Some(d) => match d {
            Destructible::Tile { max_hp, hp } => if hp == 1 {
                &&& post.map.tiles@ == pre.map.tiles@.update(
                    di,
                    crate::actor::mined_floor_tile(db),
                )
                &&& post.map.destructibles@ == pre.map.destructibles@.update(di, None)
                &&& !post.map.tiles@[di].is_blocking
            } else {
                &&& post.map.tiles@ == pre.map.tiles@
                &&& post.map.destructibles@ == pre.map.destructibles@.update(
                    di,
                    Some(Destructible::Tile { max_hp, hp: (hp - 1) as u32 }),
                )
            },
            Destructible::Entity(_) => {
                &&& post.map.tiles@ == pre.map.tiles@
                &&& post.map.destructibles@ == pre.map.destructibles@
            },
        },
        None => {
            &&& post.map.tiles@ == pre.map.tiles@
            &&& post.map.destructibles@ == pre.map.destructibles@
        },
    }
}

pub open spec fn move_state_outcome(
    pre: State,
    post: State,
    db: EntityDatabase,
    dx: int,
    dy: int,
) -> bool {
    if crate::actor::player_move_dest(pre.world, pre.map, dx, dy) is None {
        post.world == pre.world && map_unchanged(pre.map, post.map) && post.message_log@
            == pre.message_log@
    } else {
        let dest = crate::actor::player_move_dest(pre.world, pre.map, dx, dy).unwrap();
        let p = pre.world.first_player().unwrap();
        let b = pre.world.being(p);
        let di = pre.map.index_of(dest);
        if !pre.map.in_bounds(dest) {
            // the clamp can land on the exclusive edge; such a move is
            // rejected untouched
            post.world == pre.world && map_unchanged(pre.map, post.map) && post.message_log@
                == pre.message_log@
        } else if pre.map.beings@[di] is Some {
            let t = pre.map.beings@[di].unwrap();
            if crate::actor::attack_applies(pre.world, t) {
                let dmg = crate::combat::damage_of(
                    pre.world.being(p).stats.unwrap().attack as int,
                    pre.world.being(t).stats.unwrap().defense as int,
                );
                let old_stats = pre.world.being(t).stats.unwrap();
                &&& map_unchanged(pre.map, post.map)
                &&& World::only_being_changed(pre.world, post.world, t)
                &&& post.world.being(t) == (crate::world::Being {
                    stats: Some(
                        CombatStats {
                            health: crate::combat::hp_after(old_stats.health as int, dmg) as u32,
                            ..old_stats
                        },
                    ),
                    ..pre.world.being(t)
                })
                &&& post.message_log@.len() == pre.message_log@.len() + 1
                &&& (forall|j: int|
                    0 <= j < pre.message_log@.len() ==> #[trigger] post.message_log@[j]
                        == pre.message_log@[j])
                &&& post.message_log@.last().contents@ == crate::combat::attack_line(
                    "Player"@,
                    pre.world.being(t).breed.unwrap().name@,
                    dmg,
                )
                &&& post.message_log@.last().turn_sent == pre.turn_counter
            } else {
                post.world == pre.world && map_unchanged(pre.map, post.map) && post.message_log@
                    == pre.message_log@
            }
        } else if !pre.map.tiles@[di].is_blocking {
            &&& post.message_log@ == pre.message_log@
            &&& World::only_being_changed(pre.world, post.world, p)
            &&& post.world.being(p) == (crate::world::Being {
                pos: Some(dest),
                ..crate::actor::dirtied(b)
            })
            &&& post.map.tiles@ == pre.map.tiles@
            &&& post.map.destructibles@ == pre.map.destructibles@
            &&& post.map.beings@ == pre.map.beings@.update(
                pre.map.index_of(b.pos.unwrap()),
                None,
            ).update(di, Some(p))
        } else {
            mining_state_outcome(pre, post, db, di)
        }
    }
}

/// Resolves one player input into a no-op, a turn-consuming interaction, or a
/// run-state change request.
#[verifier::rlimit(100)]
#[verifier::spinoff_prover]
pub fn handle_player_action(state: &mut State, db: &EntityDatabase, action: PlayerAction) -> (r:
    PlayerResponse)
    requires
        old(state).wf(),
        !crate::actor::mined_floor_tile(*db).is_blocking,
    ensures
        final (state).wf(),
        final (state).runstate == old(state).runstate,
        final (state).turn_counter == old(state).turn_counter,
        final (state).config == old(state).config,
        final (state).visible == old(state).visible,
        final (state).generated_maps == old(state).generated_maps,
        final (state).map.depth == old(state).map.depth,
        final (state).map.width == old(state).map.width,
        final (state).map.height == old(state).map.height,
        match action {
            PlayerAction::SaveRequest => r == PlayerResponse::StateChange(RunState::SaveGame)
                && *final (state) == *old(state),
            PlayerAction::Wait => r is Waiting && *final (state) == *old(state),
            PlayerAction::Descend => if crate::actor::floor_change_ok(
                old(state).world,
                old(state).map,
                1,
            ) && old(state).map.depth < i32::MAX {
                r == PlayerResponse::StateChange(
                    RunState::NextLevel((old(state).map.depth + 1) as i32),
                )
            } else {
                r is Waiting
            },
            PlayerAction::Ascend => if crate::actor::floor_change_ok(
                old(state).world,
                old(state).map,
                -1,
            ) {
                r == PlayerResponse::StateChange(
                    RunState::NextLevel((old(state).map.depth - 1) as i32),
                )
            } else {
                r is Waiting
            },
            PlayerAction::Move { dx, dy } => {
                &&& (r is TurnAdvance <==> move_action_advances(
                    old(state).world,
                    old(state).map,
                    dx as int,
                    dy as int,
                ))
                &&& (r is TurnAdvance || r is Waiting)
                &&& move_state_outcome(*old(state), *final (state), *db, dx as int, dy as int)
            },
        },
{
    match action {
        PlayerAction::SaveRequest => PlayerResponse::StateChange(RunState::SaveGame),
        PlayerAction::Wait => PlayerResponse::Waiting,
        PlayerAction::Descend => {
            proof {
                state.world.lemma_first_player_live(0);
            }
            let ok = crate::actor::change_floor(&mut state.world, &state.map, 1);
            proof {
                state_invariants_after_edit(
                    old(state).world,
                    state.world,
                    state.generated_maps,
                    state.map.depth as int,
                );
            }
            if ok && state.map.depth < i32::MAX {
                PlayerResponse::StateChange(RunState::NextLevel(state.map.depth + 1))
            } else {
                PlayerResponse::Waiting
            }
        },
        PlayerAction::Ascend => {
            proof {
                state.world.lemma_first_player_live(0);
            }
            let ok = crate::actor::change_floor(&mut state.world, &state.map, -1);
            proof {
                state_invariants_after_edit(
                    old(state).world,
                    state.world,
                    state.generated_maps,
                    state.map.depth as int,
                );
            }
            if ok {
                PlayerResponse::StateChange(RunState::NextLevel(state.map.depth - 1))
            } else {
                PlayerResponse::Waiting
            }
        },
        PlayerAction::Move { dx, dy } => {
            proof {
                state.world.lemma_first_player_live(0);
            }
            let res = crate::actor::player_bump(&mut state.map, &mut state.world, dx, dy);
            let ghost w1 = state.world;
            let ghost m1 = state.map;
            proof {
                state_invariants_after_edit(
                    old(state).world,
                    state.world,
                    state.generated_maps,
                    state.map.depth as int,
                );
            }
            match res {
                MoveResult::Moved(_) => {
                    proof {
                        assert(move_state_outcome(*old(state), *state, *db, dx as int, dy as int));
                    }
                    PlayerResponse::TurnAdvance
                },
                MoveResult::Attack(target) => {
                    proof {
                        let dest = crate::actor::player_move_dest(
                            old(state).world,
                            old(state).map,
                            dx as int,
                            dy as int,
                        ).unwrap();
                        let di = old(state).map.index_of(dest);
                        assert(old(state).map.in_bounds(dest));
                        old(state).map.lemma_index_in_range(dest);
                        assert(old(state).map.beings@[di] == Some(target));
                        assert(w1.live(target) && w1.being(target).floor == state.map.depth);
                        assert(w1 == old(state).world);
                    }
                    let turn = state.turn_counter;
                    let applied = crate::actor::player_attack(
                        &mut state.world,
                        &mut state.message_log,
                        target,
                        turn,
                    );
                    proof {
                        if applied {
                            assert forall|j: int|
                                0 <= j < old(state).message_log@.len()
                                    implies #[trigger] state.message_log@[j] == old(
                                state,
                            ).message_log@[j] by {
                                assert(state.message_log@.subrange(
                                    0,
                                    old(state).message_log@.len() as int,
                                )[j] == state.message_log@[j]);
                            }
                        }
                        if state.world != w1 {
                            crate::actor::occupancy_preserved_by_being_edit(
                                w1,
                                state.world,
                                state.map,
                                target,
                            );
                            state_invariants_after_edit(
                                w1,
                                state.world,
                                state.generated_maps,
                                state.map.depth as int,
                            );
                        }
                        if crate::actor::attack_applies(old(state).world, target) {
                            assert(map_unchanged(old(state).map, state.map));
                            assert(World::only_being_changed(
                                old(state).world,
                                state.world,
                                target,
                            ));
                            assert(state.message_log@.len() == old(state).message_log@.len() + 1);
                            assert(state.message_log@.last().turn_sent == old(
                                state,
                            ).turn_counter);
                        } else {
                            assert(state.world == old(state).world);
                            assert(map_unchanged(old(state).map, state.map));
                            assert(state.message_log@ == old(state).message_log@);
                        }
                        assert(move_state_outcome(*old(state), *state, *db, dx as int, dy as int));
                    }
                    PlayerResponse::TurnAdvance
                },
                MoveResult::Mine(d) => {
                    proof {
                        let dest = crate::actor::player_move_dest(
                            old(state).world,
                            old(state).map,
                            dx as int,
                            dy as int,
                        ).unwrap();
                        let di = old(state).map.index_of(dest);
                        assert(old(state).map.in_bounds(dest));
                        old(state).map.lemma_index_in_range(dest);
                        assert(old(state).map.destructibles@[di] == Some(d));
                        assert(d matches Destructible::Tile { hp, .. } ==> hp >= 1);
                    }
                    proof {
                        let p = old(state).world.first_player().unwrap();
                        let dest = crate::actor::player_move_dest(
                            old(state).world,
                            old(state).map,
                            dx as int,
                            dy as int,
                        ).unwrap();
                        // the bump only marked the player's vision stale, so
                        // the mining attempt lands on the very same cell
                        assert(w1.first_player() == old(state).world.first_player());
                        assert(w1.being(p).pos == old(state).world.being(p).pos);
                        assert(w1.being(p).view is Some);
                        assert(crate::actor::player_move_dest(w1, m1, dx as int, dy as int)
                            == Some(dest));
                        assert(crate::actor::mine_target(w1, m1, dx as int, dy as int) == Some(
                            m1.index_of(dest),
                        ));
                        assert(m1.index_of(dest) == old(state).map.index_of(dest));
                        assert(m1.tiles@ == old(state).map.tiles@ && m1.destructibles@ == old(
                            state,
                        ).map.destructibles@ && m1.beings@ == old(state).map.beings@);
                    }
                    crate::actor::mine(&mut state.map, &mut state.world, db, d, dx, dy);
                    proof {
                        state_invariants_after_edit(
                            w1,
                            state.world,
                            state.generated_maps,
                            state.map.depth as int,
                        );
                        let p = old(state).world.first_player().unwrap();
                        let b = old(state).world.being(p);
                        assert(state.world.being(p) == crate::actor::dirtied(b));
                        assert forall|e2: Entity| #![trigger state.world.live(e2)]
                            state.world.live(e2) <==> old(state).world.live(e2) by {
                            assert(w1.live(e2) <==> old(state).world.live(e2));
                        }
                        assert forall|e2: Entity| #[trigger]
                            old(state).world.live(e2) && e2 != p implies state.world.being(e2)
                            == old(state).world.being(e2) by {
                            assert(w1.live(e2));
                        }
                        assert(World::only_being_changed(old(state).world, state.world, p));
                        assert(state.message_log@ == old(state).message_log@);
                        assert(state.map.beings@ == old(state).map.beings@);
                        let dest = crate::actor::player_move_dest(
                            old(state).world,
                            old(state).map,
                            dx as int,
                            dy as int,
                        ).unwrap();
                        let di = old(state).map.index_of(dest);
                        assert(crate::actor::player_move_dest(
                            old(state).world,
                            old(state).map,
                            dx as int,
                            dy as int,
                        ) is Some);
                        assert(old(state).map.beings@[di] is None);
                        assert(old(state).map.tiles@[di].is_blocking);
                        assert(old(state).map.destructibles@[di] == Some(d));
                        match d {
                            Destructible::Tile { max_hp, hp } => {
                                if hp == 1 {
                                    assert(state.map.tiles@ == old(state).map.tiles@.update(
                                        di,
                                        crate::actor::mined_floor_tile(*db),
                                    ));
                                    assert(state.map.destructibles@ == old(
                                        state,
                                    ).map.destructibles@.update(di, None));
                                    assert(0 <= di < state.map.tiles@.len());
                                    assert(!state.map.tiles@[di].is_blocking);
                                } else {
                                    assert(state.map.tiles@ == old(state).map.tiles@);
                                    assert(state.map.destructibles@ == old(
                                        state,
                                    ).map.destructibles@.update(
                                        di,
                                        Some(
                                            Destructible::Tile {
                                                max_hp,
                                                hp: (hp - 1) as u32,
                                            },
                                        ),
                                    ));
                                }
                            },
                            Destructible::Entity(_) => {
                                assert(state.map.tiles@ == old(state).map.tiles@);
                                assert(state.map.destructibles@ == old(state).map.destructibles@);
                            },
                        }
                        assert(mining_state_outcome(*old(state), *state, *db, di));
                        assert(move_state_outcome(*old(state), *state, *db, dx as int, dy as int))
                            by {
                            let pre = *old(state);
                            let dest2 = crate::actor::player_move_dest(
                                pre.world,
                                pre.map,
                                dx as int,
                                dy as int,
                            ).unwrap();
                            let di2 = pre.map.index_of(dest2);
                            assert(pre.map.beings@[di2] is None);
                            assert(pre.map.tiles@[di2].is_blocking);
                            assert(mining_state_outcome(pre, *state, *db, di2));
                        }
                    }
                    PlayerResponse::TurnAdvance
                },
                MoveResult::InvalidMove(_) => {
                    proof {
                        assert(move_state_outcome(*old(state), *state, *db, dx as int, dy as int));
                    }
                    PlayerResponse::Waiting
                },
            }
        },
    }
}

impl State {
    /// For dev purposes, we can skip the main menu.
    pub fn dev(config: &Config, db: &EntityDatabase) -> (r: Self)
        requires
            config_ok(*config),
        ensures
            r.wf(),
            r.runstate is InGame,
            r.turn_counter == 0,
            r.map.depth == 0,
            r.map.width == config.map_x,
            r.map.height == config.map_y,
            r.generated_maps.entries@.len() == 0,
            r.message_log@.len() == 2,
            r.message_log@[0].contents@ == "Welcome to Terra Incognita"@,
            r.message_log@[0].turn_sent == 0,
            r.message_log@[1].contents@ == "This is a dev build from April 2023"@,
            r.message_log@[1].turn_sent == 0,
            r.visible@.len() == config.map_x * config.map_y,
            forall|i: int| 0 <= i < r.visible@.len() ==> !(#[trigger] r.visible@[i]),
            r.config == *config,
            forall|e: Entity| #[trigger] r.world.live(e) ==> r.world.being(e).floor == 0,
            forall|i: int|
                0 <= i < r.map.tiles@.len() ==> #[trigger] r.map.tiles@[i]
                    == crate::worldgen::gen_tile(
                    0,
                    config.map_x as int,
                    config.map_y as int,
                    i % (config.map_x as int),
                    i / (config.map_x as int),
                ),
            forall|i: int|
                0 <= i < r.map.destructibles@.len() ==> #[trigger] r.map.destructibles@[i]
                    == crate::worldgen::gen_destructible(
                    (config.world_seed % 5) as int,
                    config.map_x as int,
                    config.map_y as int,
                    i % (config.map_x as int),
                    i / (config.map_x as int),
                ),
            db.find_living("Player"@) is Some ==> exists|e: Entity|
                #[trigger] r.world.live(e) && {
                    &&& r.world.being(e).pos == Some(
                        crate::worldgen::gen_player_start(config.map_y as int),
                    )
                    &&& r.world.being(e).stats == Some(
                        CombatStats { health: 200, max_health: 200, attack: 10, defense: 1 },
                    )
                    &&& (r.world.being(e).player is Some
                        <==> db.living.all@[db.find_living("Player"@).unwrap()].player is Some)
                    &&& r.map.beings@[r.map.index_of(
                        crate::worldgen::gen_player_start(config.map_y as int),
                    )] == Some(e)
                },
    {
        proof {
            assert(config.map_x * config.map_y <= 1000000) by (nonlinear_arith)
                requires
                    config.map_x <= 1000,
                    config.map_y <= 1000,
            ;
        }
        let mut world = World::new();
        let map = crate::worldgen::start_new_game(
            &mut world,
            db,
            config.world_seed,
            config.map_x,
            config.map_y,
        );
        State {
            world,
            map,
            runstate: RunState::InGame,
            config: *config,
            message_log: make_welcome_log("This is a dev build from April 2023"),
            turn_counter: 0,
            generated_maps: FloorCache::new(),
            visible: make_false_vec(config.map_x * config.map_y),
        }
    }

    /// Resets state to be a blank slate for a new game.
    pub fn clean_up(&mut self)
        requires
            config_ok(old(self).config),
        ensures
            final (self).wf(),
            final (self).runstate is MainMenu,
            final (self).turn_counter == 0,
            final (self).config == old(self).config,
            final (self).map.tiles@.len() == 0,
            final (self).generated_maps.entries@.len() == 0,
            final (self).message_log@.len() == 2,
            forall|e: Entity| !final (self).world.live(e),
    {
        *self = State::new(&self.config);
    }

    /// The systems ran every frame regardless of turn progression; in the
    /// core that is the vision refresh, presentation reads the rest.
    pub fn run_continuous_systems(&mut self)
        requires
            old(self).wf(),
        ensures
            final (self).wf(),
            final (self).runstate == old(self).runstate,
            final (self).turn_counter == old(self).turn_counter,
            final (self).config == old(self).config,
            final (self).message_log == old(self).message_log,
            final (self).generated_maps == old(self).generated_maps,
            crate::fov::vision_pass_outcome(*old(self), *final (self)),
            final (self).map.tiles@ == old(self).map.tiles@,
            final (self).map.destructibles@ == old(self).map.destructibles@,
            final (self).map.beings@ == old(self).map.beings@,
            final (self).map.width == old(self).map.width,
            final (self).map.height == old(self).map.height,
            final (self).map.depth == old(self).map.depth,
            final (self).map.rooms@ == old(self).map.rooms@,
            match old(self).world.first_player() {
                None => *final (self) == *old(self),
                Some(p) => {
                    let b = old(self).world.being(p);
                    if b.pos is None || b.view is None {
                        *final (self) == *old(self)
                    } else {
                        let ov = b.view.unwrap();
                        let nv = final (self).world.being(p).view.unwrap();
                        &&& World::only_being_changed(old(self).world, final (self).world, p)
                        // the cache is honoured: an up-to-date viewshed stays
                        &&& (!ov.dirty ==> final (self).world == old(self).world)
                        &&& (ov.dirty ==> {
                            &&& final (self).world.being(p) == (crate::world::Being {
                                view: Some(nv),
                                ..b
                            })
                            &&& !nv.dirty
                            &&& nv.range == ov.range
                            &&& forall|c: Position| #[trigger]
                                nv.visible_tiles@.contains(c) <==> crate::fov::visible_from(
                                    old(self).map,
                                    b.pos.unwrap(),
                                    crate::fov::eff_range(ov.range),
                                    c,
                                )
                        })
                        // seen-ever flags grow by exactly the cells now seen
                        &&& forall|i: int|
                            0 <= i < old(self).map.discovered@.len()
                                ==> #[trigger] final (self).map.discovered@[i] == (old(
                                self).map.discovered@[i] || final (self).visible@[i])
                        // the raster mirrors the viewshed cell by cell
                        &&& final (self).visible@.len() == old(self).map.tiles@.len()
                        &&& forall|i: int|
                            0 <= i < final (self).visible@.len()
                                ==> #[trigger] final (self).visible@[i] == final (
                                self).world.being(p).view.unwrap().visible_tiles@.contains(
                                old(self).map.spec_pos_of_idx(i),
                            )
                    }
                },
            },
    {
        crate::fov::update_vision(self);
    }

    /// Clears the dead off the floor before the monsters move.
    pub fn run_pre_response_systems(&mut self)
        requires
            old(self).wf(),
        ensures
            final (self).wf(),
            sweep_outcome(*old(self), *final (self)),
            final (self).runstate == old(self).runstate,
            final (self).turn_counter == old(self).turn_counter,
            final (self).config == old(self).config,
            final (self).map.depth == old(self).map.depth,
            crate::map::same_apart_from_beings(old(self).map, final (self).map),
            final (self).message_log == old(self).message_log,
            final (self).generated_maps == old(self).generated_maps,
            final (self).visible == old(self).visible,
            forall|e: Entity| #[trigger]
                final (self).world.live(e) ==> old(self).world.live(e) && final (
                    self).world.being(e) == old(self).world.being(e),
            forall|e: Entity| #[trigger]
                old(self).world.live(e) ==> (final (self).world.live(e)
                    <==> !crate::combat::dead_on_floor(
                    old(self).world.being(e),
                    old(self).map.depth as int,
                )),
            forall|e: Entity|
                final (self).world.live(e) && final (self).world.being(e).floor == final (
                self).map.depth ==> (#[trigger] final (self).world.being(e).stats matches Some(s)
                    ==> s.health >= 1),
    {
        let ghost ow = self.world;
        crate::combat::destroy_dead_beings(&mut self.world, &mut self.map);
        proof {
            assert forall|e: Entity| #[trigger]
                self.world.live(e) implies (self.world.being(e).player is Some
                ==> self.world.being(e).floor == self.map.depth) by {
                assert(ow.live(e));
            }
            assert forall|e1: Entity, e2: Entity|
                #![trigger self.world.live(e1), self.world.live(e2)]
                self.world.live(e1) && self.world.live(e2) && self.world.being(e1).player is Some
                    && self.world.being(e2).player is Some implies e1 == e2 by {
                assert(ow.live(e1));
                assert(ow.live(e2));
            }
            assert forall|e: Entity| #[trigger]
                self.world.live(e) implies (self.world.being(e).floor == self.map.depth
                || self.generated_maps.has_depth(self.world.being(e).floor as int)) by {
                assert(ow.live(e));
            }
            assert forall|e: Entity| #[trigger]
                ow.live(e) && ow.being(e).floor != self.map.depth implies self.world.live(e)
                && self.world.being(e) == ow.being(e) by {
                assert(!crate::combat::dead_on_floor(ow.being(e), self.map.depth as int));
            }
            assert forall|e: Entity| #[trigger]
                self.world.live(e) && self.world.being(e).floor != self.map.depth implies ow.live(
                e,
            ) && ow.being(e) == self.world.being(e) by {}
            cache_ok_preserved(ow, self.world, self.generated_maps, self.map.depth as int);
        }
    }

    /// Response systems are ran after a player inputs something that
    /// progresses a turn.
    pub fn run_response_systems<P: crate::monster::Pathfinder>(&mut self, pf: &P)
        requires
            old(self).wf(),
        ensures
            final (self).wf(),
            final (self).runstate == old(self).runstate,
            final (self).turn_counter == old(self).turn_counter,
            final (self).config == old(self).config,
            final (self).generated_maps == old(self).generated_maps,
            final (self).visible == old(self).visible,
            crate::map::same_apart_from_beings(old(self).map, final (self).map),
            crate::monster::monster_turns_outcome(*old(self), *final (self)),
            final (self).map.depth == old(self).map.depth,
            forall|e2: Entity| #![trigger final (self).world.live(e2)]
                final (self).world.live(e2) <==> old(self).world.live(e2),
            final (self).message_log@.len() >= old(self).message_log@.len(),
            forall|j: int|
                0 <= j < old(self).message_log@.len() ==> #[trigger] final (self).message_log@[j]
                    == old(self).message_log@[j],
            !crate::monster::player_ready_combat(old(self).world) ==> *final (self) == *old(self),
            (crate::monster::player_ready_combat(old(self).world) && old(self).world.being(
                old(self).world.first_player().unwrap(),
            ).breed is None && exists|e: Entity|
                #[trigger] crate::monster::melee_eligible(old(self).world, old(self).map, e))
                ==> final (self).message_log@.len() > old(self).message_log@.len(),
    {
        crate::monster::handle_monster_turns(self, pf);
    }

    /// One step of the run-state machine.  While in game, the continuous
    /// systems run, then one player input resolves into a no-op, a state
    /// change, or a full turn advance; a floor-change state swaps the floor
    /// and returns to the game; leaving the save state tears the world down
    /// to a fresh menu.  The menu itself is an external collaborator, so its
    /// state is left alone.
    pub fn tick<P: crate::monster::Pathfinder>(
        &mut self,
        db: &EntityDatabase,
        action: PlayerAction,
        pf: &P,
    )
        requires
            old(self).wf(),
            !crate::actor::mined_floor_tile(*db).is_blocking,
        ensures
            final (self).wf(),
            final (self).config == old(self).config,
            old(self).runstate is MainMenu ==> *final (self) == *old(self),
            old(self).runstate is InGame ==> {
                &&& (action is SaveRequest ==> final (self).runstate is SaveGame && final (
                    self).turn_counter == old(self).turn_counter)
                &&& (action is Wait ==> final (self).runstate is InGame && final (
                    self).turn_counter == old(self).turn_counter)
                &&& (action is Descend ==> final (self).turn_counter == old(self).turn_counter
                    && if crate::actor::floor_change_ok(old(self).world, old(self).map, 1) && old(
                    self).map.depth < i32::MAX {
                    final (self).runstate == RunState::NextLevel((old(self).map.depth + 1) as i32)
                } else {
                    final (self).runstate is InGame
                })
                &&& (action is Ascend ==> final (self).turn_counter == old(self).turn_counter
                    && if crate::actor::floor_change_ok(old(self).world, old(self).map, -1) {
                    final (self).runstate == RunState::NextLevel((old(self).map.depth - 1) as i32)
                } else {
                    final (self).runstate is InGame
                })
                &&& (action matches PlayerAction::Move { dx, dy } ==> final (
                    self).runstate is InGame && if move_action_advances(
                    old(self).world,
                    old(self).map,
                    dx as int,
                    dy as int,
                ) {
                    final (self).turn_counter == if old(self).turn_counter < usize::MAX {
                        old(self).turn_counter + 1
                    } else {
                        old(self).turn_counter as int
                    }
                } else {
                    final (self).turn_counter == old(self).turn_counter
                })
                // a turn-advancing move runs the whole turn: the
                // continuous vision pass, the resolved move, the counter, the
                // death sweep and the monster turns, in that order
                &&& (action matches PlayerAction::Move { dx, dy } ==> (move_action_advances(
                    old(self).world,
                    old(self).map,
                    dx as int,
                    dy as int,
                ) ==> exists|s1: State, s2: State, s3: State|
                    #![trigger crate::fov::vision_pass_outcome(*old(self), s1), move_state_outcome(s1, s2, *db, dx as int, dy as int), crate::monster::monster_turns_outcome(s3, *final (self))]
                    {
                        &&& crate::fov::vision_pass_outcome(*old(self), s1)
                        &&& move_state_outcome(s1, s2, *db, dx as int, dy as int)
                        &&& s2.runstate == s1.runstate
                        &&& s2.turn_counter == s1.turn_counter
                        &&& s2.config == s1.config
                        &&& s2.visible == s1.visible
                        &&& s2.generated_maps == s1.generated_maps
                        &&& sweep_outcome(
                            (State {
                                turn_counter: if s2.turn_counter < usize::MAX {
                                    (s2.turn_counter + 1) as usize
                                } else {
                                    s2.turn_counter
                                },
                                ..s2
                            }),
                            s3,
                        )
                        &&& crate::monster::monster_turns_outcome(s3, *final (self))
                    }))
                // a turn-advancing move clears the floor of its dead
                // before any monster acts, so nobody dead at entry survives
                &&& (action matches PlayerAction::Move { dx, dy } ==> (move_action_advances(
                    old(self).world,
                    old(self).map,
                    dx as int,
                    dy as int,
                ) ==> forall|e: Entity| #[trigger]
                    old(self).world.live(e) && old(self).world.being(e).floor == old(
                        self).map.depth && (old(self).world.being(e).stats matches Some(st)
                        && st.health == 0) ==> !final (self).world.live(e)))
                &&& (final (self).runstate is NextLevel ==> (action is Descend
                    || action is Ascend))
                &&& final (self).map.depth == old(self).map.depth
            },
            old(self).runstate matches RunState::NextLevel(d) ==> {
                &&& final (self).runstate is InGame
                &&& final (self).turn_counter == old(self).turn_counter
                &&& (d == old(self).map.depth ==> final (self).map == old(self).map && final (
                    self).world == old(self).world)
                &&& (d != old(self).map.depth ==> {
                    &&& (crate::worldgen::floor_swap_possible(
                        old(self).world,
                        old(self).generated_maps,
                        d as int,
                    ) ==> final (self).map.depth == d && final (self).generated_maps.has_depth(
                        old(self).map.depth as int,
                    ))
                    &&& (!crate::worldgen::floor_swap_possible(
                        old(self).world,
                        old(self).generated_maps,
                        d as int,
                    ) ==> final (self).map == old(self).map && final (self).world == old(
                        self).world)
                    // a revisited floor comes back verbatim, the player's
                    // arrival cell aside
                    &&& ((crate::worldgen::floor_swap_possible(
                        old(self).world,
                        old(self).generated_maps,
                        d as int,
                    ) && old(self).generated_maps.has_depth(d as int)) ==> exists|i: int, ai: int|
                        #![trigger old(self).generated_maps.entries@[i].1.beings@[ai]]
                        {
                            &&& 0 <= i < old(self).generated_maps.entries@.len()
                            &&& old(self).generated_maps.entries@[i].0 == d
                            &&& {
                                let m = old(self).generated_maps.entries@[i].1;
                                &&& final (self).map.tiles@ == m.tiles@
                                &&& final (self).map.destructibles@ == m.destructibles@
                                &&& final (self).map.rooms@ == m.rooms@
                                &&& final (self).map.discovered@ == m.discovered@
                                &&& 0 <= ai < m.beings@.len()
                                &&& m.beings@[ai] is None
                                &&& final (self).map.beings@ == m.beings@.update(
                                    ai,
                                    Some(old(self).world.first_player().unwrap()),
                                )
                            }
                        })
                })
            },
            old(self).runstate is SaveGame ==> final (self).runstate == RunState::MainMenu(
                MenuIndex(0),
            ) && final (self).turn_counter == 0 && final (self).map.tiles@.len() == 0 && final (
                self).generated_maps.entries@.len() == 0 && final (self).message_log@.len() == 2
                && (forall|e: Entity| !final (self).world.live(e)),
    {
        let rs = self.runstate;
        match rs {
            RunState::InGame => {
                self.run_continuous_systems();
                let ghost s1 = *self;
                let response = handle_player_action(self, db, action);
                let ghost s2 = *self;
                match response {
                    PlayerResponse::StateChange(new_state) => {
                        self.runstate = new_state;
                        proof {
                            assert(self.wf());
                        }
                    },
                    PlayerResponse::TurnAdvance => {
                        if self.turn_counter < usize::MAX {
                            self.turn_counter = self.turn_counter + 1;
                        }
                        let ghost s2t = *self;
                        self.run_pre_response_systems();
                        let ghost s3 = *self;
                        self.run_response_systems(pf);
                        proof {
                            match action {
                                PlayerAction::Move { dx, dy } => {
                                    assert(s2t == (State {
                                        turn_counter: if s2.turn_counter < usize::MAX {
                                            (s2.turn_counter + 1) as usize
                                        } else {
                                            s2.turn_counter
                                        },
                                        ..s2
                                    }));
                                    assert(crate::fov::vision_pass_outcome(*old(self), s1));
                                    assert(move_state_outcome(
                                        s1,
                                        s2,
                                        *db,
                                        dx as int,
                                        dy as int,
                                    ));
                                    assert(sweep_outcome(s2t, s3));
                                    assert(crate::monster::monster_turns_outcome(s3, *self));
                                },
                                _ => {
                                    assert(false);
                                },
                            }
                            assert forall|e: Entity| #[trigger]
                                old(self).world.live(e) && old(self).world.being(e).floor == old(
                                self).map.depth && (old(self).world.being(e).stats matches Some(st)
                                && st.health == 0) implies !self.world.live(e) by {
                                // vision refresh leaves stats and floors alone
                                assert(s1.world.live(e) && s1.world.being(e).floor == old(
                                    self).world.being(e).floor && s1.world.being(e).stats == old(
                                    self).world.being(e).stats) by {
                                    match old(self).world.first_player() {
                                        Some(p) => {
                                            if s1.world != old(self).world && e == p {
                                                assert(s1.world.being(p).stats == old(
                                                    self).world.being(p).stats);
                                            }
                                        },
                                        None => {},
                                    }
                                }
                                // the resolved action can only re-floor a dead
                                // target at zero, never revive it
                                assert(s2.world.live(e) && s2.world.being(e).floor
                                    == s1.world.being(e).floor && (s2.world.being(
                                    e).stats matches Some(st2) && st2.health == 0)) by {
                                    match action {
                                        PlayerAction::Move { dx, dy } => {},
                                        _ => {
                                            assert(false);
                                        },
                                    }
                                }
                                // the sweep then removes it, and no monster
                                // turn brings anybody back
                                assert(crate::combat::dead_on_floor(
                                    s2.world.being(e),
                                    s2.map.depth as int,
                                ));
                                assert(!s3.world.live(e));
                            }
                        }
                    },
                    PlayerResponse::Waiting => {},
                }
            },
            RunState::MainMenu(_) => {},
            RunState::NextLevel(new_depth) => {
                if new_depth != self.map.depth {
                    crate::worldgen::move_to_new_floor(self, db, new_depth);
                }
                self.runstate = RunState::InGame;
            },
            RunState::SaveGame => {
                self.clean_up();
                self.runstate = RunState::MainMenu(MenuIndex(0));
            },
        }
    }
}

/// The player's position and its linear tile index, for presentation.
pub fn get_player_pos(world: &World, map: &WorldMap) -> (r: Option<(Position, usize)>)
    requires
        world.wf(),
        map.wf(),
    ensures
        match world.first_player() {
            None => r is None,
            Some(p) => {
                let b = world.being(p);
                match b.pos {
                    Some(q) => if map.in_bounds(q) {
                        r == Some((q, map.index_of(q) as usize))
                    } else {
                        r is None
                    },
                    None => r is None,
                }
            },
        },
{
    let pe = match world.player_entity() {
        Some(pe) => pe,
        None => {
            return None;
        },
    };
    let pos = match world.lookup(pe) {
        Some(b) => b.pos,
        None => None,
    };
    match pos {
        Some(q) => {
            if map.within_bounds(q) {
                let idx = map.index(q);
                Some((q, idx))
            } else {
                None
            }
        },
        None => None,
    }
}

/// The player's combat numbers, for presentation.
pub fn get_player_stats(world: &World) -> (r: Option<CombatStats>)
    requires
        world.wf(),
    ensures
        match world.first_player() {
            None => r is None,
            Some(p) => r == world.being(p).stats,
        },
{
    let pe = match world.player_entity() {
        Some(pe) => pe,
        None => {
            return None;
        },
    };
    match world.lookup(pe) {
        Some(b) => b.stats,
        None => None,
    }
}

} // verus!
