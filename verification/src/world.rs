//! An arena-based entity store with index/generation-checked handles.  Every
//! entity is a closed bundle of optional components; a stale handle simply
//! fails the liveness check instead of reaching a removed entity.

use vstd::prelude::*;
use vstd::std_specs::vec::vec_index_mut;

use crate::actor::{CharSprite, Name, Player, Position};
use crate::combat::CombatStats;
use crate::fov::ViewShed;
use crate::monster::Breed;

verus! {

/// A handle to an entity: a slot index plus the generation the slot had when
/// the entity was spawned.  A handle kept across a despawn goes stale: its
/// generation no longer matches and every lookup reports absence.
#[derive(Clone, Copy, Debug, PartialEq, Eq, Structural, Hash)]
pub struct Entity {
    pub idx: usize,
    pub gen: u32,
}

/// The closed set of optional components an entity can carry.  Unknown or
/// absent components simply stay `None`.
pub struct Being {
    pub pos: Option<Position>,
    /// The floor the entity stands on; only entities of the current map's
    /// depth take part in occupancy and turns.
    pub floor: i32,
    pub view: Option<ViewShed>,
    pub stats: Option<CombatStats>,
    pub breed: Option<Breed>,
    pub sprite: Option<CharSprite>,
    pub name: Option<Name>,
    pub player: Option<Player>,
}

/// Holds all of our entities.
pub struct World {
    pub gens: Vec<u32>,
    pub slots: Vec<Option<Being>>,
}

impl World {
    pub open spec fn wf(self) -> bool {
        &&& self.gens@.len() == self.slots@.len()
        &&& self.slots@.len() <= usize::MAX
    }

    /// A handle is live while its slot still holds the entity it was issued
    /// for.
    pub open spec fn live(self, e: Entity) -> bool {
        &&& e.idx < self.slots@.len()
        &&& self.gens@[e.idx as int] == e.gen
        &&& self.slots@[e.idx as int] is Some
    }

    pub open spec fn being(self, e: Entity) -> Being {
        self.slots@[e.idx as int].unwrap()
    }

    pub fn new() -> (r: World)
        ensures
            r.wf(),
            r.slots@.len() == 0,
            forall|e: Entity| !r.live(e),
    {
        World { gens: Vec::new(), slots: Vec::new() }
    }

    pub fn spawn(&mut self, b: Being) -> (r: Entity)
        requires
            old(self).wf(),
            old(self).slots@.len() < usize::MAX,
        ensures
            final (self).wf(),
            final (self).live(r),
            final (self).being(r) == b,
            !old(self).live(r),
            forall|e: Entity| #[trigger]
                old(self).live(e) ==> final (self).live(e) && final (self).being(e) == old(
                    self,
                ).being(e),
            forall|e: Entity| #[trigger] final (self).live(e) ==> e == r || old(self).live(e),
    {
        let idx = self.slots.len();
        self.slots.push(Some(b));
        self.gens.push(0);
        Entity { idx, gen: 0 }
    }

    pub fn despawn(&mut self, e: Entity)
        requires
            old(self).wf(),
            old(self).live(e),
        ensures
            final (self).wf(),
            !final (self).live(e),
            final (self).slots@ == old(self).slots@.update(e.idx as int, None),
            final (self).gens@.len() == old(self).gens@.len(),
            forall|j: int|
                0 <= j < old(self).gens@.len() && j != e.idx ==> final (self).gens@[j] == old(
                    self,
                ).gens@[j],
            forall|e2: Entity| #[trigger]
                final (self).live(e2) ==> old(self).live(e2) && final (self).being(e2) == old(
                    self,
                ).being(e2),
            forall|e2: Entity| #[trigger] old(self).live(e2) && e2 != e ==> final (self).live(e2),
    {
        let g = self.gens[e.idx];
        self.gens[e.idx] = g.wrapping_add(1);
        self.slots[e.idx] = None;
    }

    /// Validated lookup: a stale or foreign handle reports absence rather
    /// than reaching a removed entity.
    pub fn lookup(&self, e: Entity) -> (r: Option<&Being>)
        requires
            self.wf(),
        ensures
            match r {
                Some(b) => self.live(e) && *b == self.being(e),
                None => !self.live(e),
            },
    {
        if e.idx < self.slots.len() && self.gens[e.idx] == e.gen {
            match &self.slots[e.idx] {
                Some(b) => Some(b),
                None => None,
            }
        } else {
            None
        }
    }

    pub fn is_live(&self, e: Entity) -> (r: bool)
        requires
            self.wf(),
        ensures
            r == self.live(e),
    {
        e.idx < self.slots.len() && self.gens[e.idx] == e.gen && self.slots[e.idx].is_some()
    }

    /// Liveness, the slot layout, and every other entity are untouched; only
    /// `e`'s bundle may differ.
    pub open spec fn only_being_changed(old_w: World, new_w: World, e: Entity) -> bool {
        &&& new_w.wf()
        &&& new_w.gens@ == old_w.gens@
        &&& new_w.slots@.len() == old_w.slots@.len()
        &&& new_w.first_player() == old_w.first_player()
        &&& forall|e2: Entity| #![trigger new_w.live(e2)] new_w.live(e2) <==> old_w.live(e2)
        &&& forall|e2: Entity| #[trigger]
            old_w.live(e2) && e2 != e ==> new_w.being(e2) == old_w.being(e2)
    }

    /// The first-player scan cannot tell two stores apart whose slots agree
    /// on occupancy and on the player marker.
    proof fn lemma_first_player_stable(ow: World, nw: World, i: int)
        requires
            nw.slots@.len() == ow.slots@.len(),
            nw.gens@ == ow.gens@,
            forall|j: int|
                0 <= j < ow.slots@.len() ==> (((#[trigger] nw.slots@[j]) is Some) <==> ow.slots@[j]
                    is Some),
            forall|j: int|
                0 <= j < ow.slots@.len() && nw.slots@[j] is Some ==> ((
                #[trigger] nw.slots@[j]).unwrap().player is Some <==> ow.slots@[j].unwrap().player
                    is Some),
        ensures
            nw.first_player_from(i) == ow.first_player_from(i),
        decreases ow.slots@.len() - i,
    {
        if 0 <= i < ow.slots@.len() {
            if !(ow.slots@[i] matches Some(b) && b.player is Some) {
                World::lemma_first_player_stable(ow, nw, i + 1);
            }
        }
    }

    pub fn set_pos(&mut self, e: Entity, p: Position)
        requires
            old(self).wf(),
            old(self).live(e),
        ensures
            World::only_being_changed(*old(self), *final (self), e),
            final (self).being(e) == (Being { pos: Some(p), ..old(self).being(e) }),
    {
        let slot = vec_index_mut(&mut self.slots, e.idx);
        match slot {
            Some(b) => {
                b.pos = Some(p);
            },
            None => {},
        }
        proof {
            assert forall|j: int|
                0 <= j < old(self).slots@.len() implies (((#[trigger] self.slots@[j]) is Some)
                <==> old(self).slots@[j] is Some) by {}
            assert forall|j: int|
                0 <= j < old(self).slots@.len() && self.slots@[j] is Some implies ((
            #[trigger] self.slots@[j]).unwrap().player is Some <==> old(
                self,
            ).slots@[j].unwrap().player is Some) by {}
            World::lemma_first_player_stable(*old(self), *self, 0);
        }
    }

    pub fn set_floor(&mut self, e: Entity, floor: i32)
        requires
            old(self).wf(),
            old(self).live(e),
        ensures
            World::only_being_changed(*old(self), *final (self), e),
            final (self).being(e) == (Being { floor, ..old(self).being(e) }),
    {
        let slot = vec_index_mut(&mut self.slots, e.idx);
        match slot {
            Some(b) => {
                b.floor = floor;
            },
            None => {},
        }
        proof {
            assert forall|j: int|
                0 <= j < old(self).slots@.len() implies (((#[trigger] self.slots@[j]) is Some)
                <==> old(self).slots@[j] is Some) by {}
            assert forall|j: int|
                0 <= j < old(self).slots@.len() && self.slots@[j] is Some implies ((
            #[trigger] self.slots@[j]).unwrap().player is Some <==> old(
                self,
            ).slots@[j].unwrap().player is Some) by {}
            World::lemma_first_player_stable(*old(self), *self, 0);
        }
    }

    /// Force the observer's visibility to be recomputed before it is trusted
    /// again.
    pub fn mark_view_dirty(&mut self, e: Entity)
        requires
            old(self).wf(),
            old(self).live(e),
            old(self).being(e).view is Some,
        ensures
            World::only_being_changed(*old(self), *final (self), e),
            final (self).being(e) == (Being {
                view: Some(
                    ViewShed { dirty: true, ..old(self).being(e).view.unwrap() },
                ),
                ..old(self).being(e)
            }),
    {
        let slot = vec_index_mut(&mut self.slots, e.idx);
        match slot {
            Some(b) => {
                match &mut b.view {
                    Some(v) => {
                        v.dirty = true;
                    },
                    None => {},
                }
            },
            None => {},
        }
        proof {
            assert forall|j: int|
                0 <= j < old(self).slots@.len() implies (((#[trigger] self.slots@[j]) is Some)
                <==> old(self).slots@[j] is Some) by {}
            assert forall|j: int|
                0 <= j < old(self).slots@.len() && self.slots@[j] is Some implies ((
            #[trigger] self.slots@[j]).unwrap().player is Some <==> old(
                self,
            ).slots@[j].unwrap().player is Some) by {}
            World::lemma_first_player_stable(*old(self), *self, 0);
        }
    }

    /// Install a freshly computed visible set and clear the staleness flag.
    pub fn set_view_computed(&mut self, e: Entity, tiles: Vec<Position>)
        requires
            old(self).wf(),
            old(self).live(e),
            old(self).being(e).view is Some,
        ensures
            World::only_being_changed(*old(self), *final (self), e),
            final (self).being(e) == (Being {
                view: Some(
                    ViewShed {
                        dirty: false,
                        visible_tiles: tiles,
                        ..old(self).being(e).view.unwrap()
                    },
                ),
                ..old(self).being(e)
            }),
    {
        let slot = vec_index_mut(&mut self.slots, e.idx);
        match slot {
            Some(b) => {
                match &mut b.view {
                    Some(v) => {
                        v.visible_tiles = tiles;
                        v.dirty = false;
                    },
                    None => {},
                }
            },
            None => {},
        }
        proof {
            assert forall|j: int|
                0 <= j < old(self).slots@.len() implies (((#[trigger] self.slots@[j]) is Some)
                <==> old(self).slots@[j] is Some) by {}
            assert forall|j: int|
                0 <= j < old(self).slots@.len() && self.slots@[j] is Some implies ((
            #[trigger] self.slots@[j]).unwrap().player is Some <==> old(
                self,
            ).slots@[j].unwrap().player is Some) by {}
            World::lemma_first_player_stable(*old(self), *self, 0);
        }
    }

    pub fn set_health(&mut self, e: Entity, hp: u32)
        requires
            old(self).wf(),
            old(self).live(e),
            old(self).being(e).stats is Some,
        ensures
            World::only_being_changed(*old(self), *final (self), e),
            final (self).being(e) == (Being {
                stats: Some(
                    CombatStats { health: hp, ..old(self).being(e).stats.unwrap() },
                ),
                ..old(self).being(e)
            }),
    {
        let slot = vec_index_mut(&mut self.slots, e.idx);
        match slot {
            Some(b) => {
                match &mut b.stats {
                    Some(s) => {
                        s.health = hp;
                    },
                    None => {},
                }
            },
            None => {},
        }
        proof {
            assert forall|j: int|
                0 <= j < old(self).slots@.len() implies (((#[trigger] self.slots@[j]) is Some)
                <==> old(self).slots@[j] is Some) by {}
            assert forall|j: int|
                0 <= j < old(self).slots@.len() && self.slots@[j] is Some implies ((
            #[trigger] self.slots@[j]).unwrap().player is Some <==> old(
                self,
            ).slots@[j].unwrap().player is Some) by {}
            World::lemma_first_player_stable(*old(self), *self, 0);
        }
    }

    /// The player entity this store would report: the first slot carrying
    /// the player marker.
    pub open spec fn first_player_from(self, i: int) -> Option<Entity>
        decreases self.slots@.len() - i,
    {
        if i < 0 || i >= self.slots@.len() {
            None
        } else if self.slots@[i] matches Some(b) && b.player is Some {
            Some(Entity { idx: i as usize, gen: self.gens@[i] })
        } else {
            self.first_player_from(i + 1)
        }
    }

    pub open spec fn first_player(self) -> Option<Entity> {
        self.first_player_from(0)
    }

    /// Whatever entity `first_player` reports is live and marked.
    pub proof fn lemma_first_player_live(self, i: int)
        requires
            self.wf(),
        ensures
            match self.first_player_from(i) {
                Some(p) => self.live(p) && self.being(p).player is Some,
                None => true,
            },
        decreases self.slots@.len() - i,
    {
        if 0 <= i < self.slots@.len() {
            if self.slots@[i] matches Some(b) && b.player is Some {
                let p = Entity { idx: i as usize, gen: self.gens@[i] };
                assert(self.first_player_from(i) == Some(p));
                assert(self.live(p));
            } else {
                self.lemma_first_player_live(i + 1);
            }
        }
    }

    /// The first live entity carrying the player marker, if any.
    pub fn player_entity(&self) -> (r: Option<Entity>)
        requires
            self.wf(),
        ensures
            r == self.first_player(),
            match r {
                Some(e) => self.live(e) && self.being(e).player is Some,
                None => forall|e: Entity| self.live(e) ==> self.being(e).player is None,
            },
    {
        let n = self.slots.len();
        let mut i: usize = 0;
        while i < n
            invariant
                self.wf(),
                n == self.slots@.len(),
                i <= n,
                self.first_player() == self.first_player_from(i as int),
                forall|j: int|
                    0 <= j < i ==> (#[trigger] self.slots@[j] matches Some(b) ==> b.player
                        is None),
            decreases n - i,
        {
            match &self.slots[i] {
                Some(b) => {
                    if b.player.is_some() {
                        return Some(Entity { idx: i, gen: self.gens[i] });
                    }
                },
                None => {},
            }
            i = i + 1;
        }
        None
    }
}

} // verus!
