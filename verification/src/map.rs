//! The dungeon map: the tile grid, the destructible overlay, the per-cell
//! occupancy index and the discovered flags, with the bounds and index
//! arithmetic that every other system relies on.

use vstd::prelude::*;

use crate::actor::{CharSprite, Position};
use crate::world::{Entity, World};

verus! {

/// The kind of a map cell, beyond its blocking / transparency flags.
#[derive(Clone, Copy, Debug, PartialEq, Eq, Structural)]
pub enum TileType {
    Wall,
    Floor,
    Water,
    UpStairs,
    DownStairs,
    Special,
    Unknown,
}

/// One cell of the tile grid.
#[derive(Clone, Copy, Debug)]
pub struct WorldTile {
    pub is_blocking: bool,
    pub is_transparent: bool,
    pub tile_type: TileType,
    pub sprite: CharSprite,
}

impl WorldTile {
    /// The default cell used when a tile name cannot be resolved: it blocks
    /// nothing, hides nothing, and is of no particular kind.
    pub open spec fn spec_empty() -> WorldTile {
        WorldTile {
            is_blocking: false,
            is_transparent: true,
            tile_type: TileType::Unknown,
            sprite: CharSprite::spec_default(),
        }
    }

    pub fn empty() -> (r: WorldTile)
        ensures
            r == WorldTile::spec_empty(),
    {
        WorldTile {
            is_blocking: false,
            is_transparent: true,
            tile_type: TileType::Unknown,
            sprite: CharSprite::default_sprite(),
        }
    }
}

/// Remaining mining state layered over a cell, or a reference to a minable
/// entity (reserved; not fully wired to any mechanic yet).
#[derive(Clone, Copy, Debug)]
pub enum Destructible {
    Tile { max_hp: u32, hp: u32 },
    Entity(Entity),
}

pub struct WorldMap {
    pub tiles: Vec<WorldTile>,
    pub destructibles: Vec<Option<Destructible>>,
    pub beings: Vec<Option<Entity>>,
    pub discovered: Vec<bool>,
    pub width: usize,
    pub height: usize,
    pub depth: i32,
    pub rooms: Vec<Room>,
}

/// A rectangular room carved during generation; kept as metadata so that
/// later furnishing can place beings inside it.
#[derive(Clone, Copy, Debug)]
pub struct Room {
    pub x: i32,
    pub y: i32,
    pub w: i32,
    pub h: i32,
}

impl WorldMap {
    /// The overlay grids all cover the same cells as the tile grid, and a
    /// destructible tile entry always has at least one hit point left.
    pub open spec fn wf(self) -> bool {
        &&& self.width <= i32::MAX
        &&& self.height <= i32::MAX
        &&& self.tiles@.len() <= usize::MAX
        &&& self.tiles@.len() == self.width * self.height
        &&& self.destructibles@.len() == self.tiles@.len()
        &&& self.beings@.len() == self.tiles@.len()
        &&& self.discovered@.len() == self.tiles@.len()
        &&& forall|i: int|
            0 <= i < self.destructibles@.len() ==> (#[trigger] self.destructibles@[i] matches Some(
                d,
            ) ==> (d matches Destructible::Tile { hp, .. } ==> hp >= 1))
    }

    pub open spec fn in_bounds(self, p: Position) -> bool {
        0 <= p.x < self.width && 0 <= p.y < self.height
    }

    /// Linear index of an in-bounds position.
    pub open spec fn index_of(self, p: Position) -> int {
        p.lin_index(self.width as int)
    }

    /// A zero-sized map, the placeholder world while no game is running.
    pub fn empty() -> (r: WorldMap)
        ensures
            r.wf(),
            r.width == 0,
            r.height == 0,
            r.depth == 0,
            r.tiles@.len() == 0,
            r.rooms@.len() == 0,
    {
        WorldMap {
            tiles: Vec::new(),
            destructibles: Vec::new(),
            beings: Vec::new(),
            discovered: Vec::new(),
            width: 0,
            height: 0,
            depth: 0,
            rooms: Vec::new(),
        }
    }

    pub fn within_bounds(&self, p: Position) -> (r: bool)
        ensures
            r == self.in_bounds(p),
    {
        0 <= p.x && (p.x as usize) < self.width && 0 <= p.y && (p.y as usize) < self.height
    }

    /// An in-bounds position indexes inside the tile grid.
    pub proof fn lemma_index_in_range(self, p: Position)
        requires
            self.wf(),
            self.in_bounds(p),
        ensures
            0 <= self.index_of(p) < self.tiles@.len(),
    {
        let w = self.width as int;
        let h = self.height as int;
        assert(p.y * w + p.x < h * w) by (nonlinear_arith)
            requires
                0 <= p.x < w,
                0 <= p.y < h,
        ;
        assert(p.y * w >= 0) by (nonlinear_arith)
            requires
                0 <= p.y,
                0 <= w,
        ;
    }

    /// Linear index of an in-bounds position, row major.
    pub fn index(&self, p: Position) -> (r: usize)
        requires
            self.wf(),
            self.in_bounds(p),
        ensures
            r == self.index_of(p),
            r < self.tiles@.len(),
    {
        proof {
            self.lemma_index_in_range(p);
        }
        p.to_index(self.width)
    }

    /// Position of a linear index, as a function of the map's width.
    pub open spec fn spec_pos_of_idx(self, i: int) -> Position {
        Position { x: (i % self.width as int) as i32, y: (i / self.width as int) as i32 }
    }

    /// Position of a linear index, inverting `index`.
    pub fn idx_to_pos(&self, idx: usize) -> (r: Position)
        requires
            self.wf(),
            self.width > 0,
            idx < self.tiles@.len(),
        ensures
            self.in_bounds(r),
            self.index_of(r) == idx,
            r == self.spec_pos_of_idx(idx as int),
    {
        let xu = idx % self.width;
        let yu = idx / self.width;
        proof {
            let w = self.width as int;
            let h = self.height as int;
            vstd::arithmetic::div_mod::lemma_fundamental_div_mod(idx as int, w);
            vstd::arithmetic::div_mod::lemma_mod_bound(idx as int, w);
            assert(idx as int / w < h) by (nonlinear_arith)
                requires
                    w > 0,
                    idx < w * h,
                    w * (idx as int / w) + idx as int % w == idx,
                    0 <= idx as int % w < w,
            ;
            assert(xu == idx as int % w);
            assert(yu == idx as int / w);
            assert(yu * w == w * (idx as int / w));
            assert(yu * w + xu == idx);
        }
        Position { x: xu as i32, y: yu as i32 }
    }

    pub fn tile_at(&self, idx: usize) -> (r: WorldTile)
        requires
            idx < self.tiles@.len(),
        ensures
            r == self.tiles@[idx as int],
    {
        self.tiles[idx]
    }

    pub fn destructible_at(&self, idx: usize) -> (r: Option<Destructible>)
        requires
            self.wf(),
            idx < self.tiles@.len(),
        ensures
            r == self.destructibles@[idx as int],
    {
        self.destructibles[idx]
    }

    pub fn occupant_at(&self, idx: usize) -> (r: Option<Entity>)
        requires
            self.wf(),
            idx < self.tiles@.len(),
        ensures
            r == self.beings@[idx as int],
    {
        self.beings[idx]
    }
}

/// The occupancy invariant: a cell holds an entity exactly when that live
/// entity's position resolves to the cell and the entity stands on this
/// map's floor.  In particular no two entities ever share a cell.
pub open spec fn occupancy_consistent(w: World, m: WorldMap) -> bool {
    &&& forall|i: int| #![trigger m.beings@[i]]
        0 <= i < m.beings@.len() ==> (m.beings@[i] matches Some(e) ==> {
            &&& w.live(e)
            &&& w.being(e).floor == m.depth
            &&& w.being(e).pos matches Some(p) && m.in_bounds(p) && m.index_of(p) == i
        })
    &&& forall|e: Entity| #![trigger w.live(e)]
        w.live(e) ==> (w.being(e).floor == m.depth ==> (w.being(e).pos matches Some(p) ==> {
            &&& m.in_bounds(p)
            &&& 0 <= m.index_of(p) < m.beings@.len()
            &&& m.beings@[m.index_of(p)] == Some(e)
        }))
}

/// Two distinct live entities of the current floor never resolve to the same
/// cell.
pub proof fn lemma_no_shared_cell(w: World, m: WorldMap, e1: Entity, e2: Entity)
    requires
        occupancy_consistent(w, m),
        w.live(e1),
        w.live(e2),
        w.being(e1).floor == m.depth,
        w.being(e2).floor == m.depth,
        w.being(e1).pos is Some,
        w.being(e2).pos is Some,
        m.index_of(w.being(e1).pos.unwrap()) == m.index_of(w.being(e2).pos.unwrap()),
    ensures
        e1 == e2,
{
    assert(m.beings@[m.index_of(w.being(e1).pos.unwrap())] == Some(e1));
    assert(m.beings@[m.index_of(w.being(e2).pos.unwrap())] == Some(e2));
}

/// Occupancy of a map survives any change to the store that leaves the
/// entities of that map's floor exactly as they were.
pub proof fn occupancy_preserved_generic(ow: World, nw: World, m: WorldMap)
    requires
        occupancy_consistent(ow, m),
        forall|e: Entity| #[trigger]
            ow.live(e) && ow.being(e).floor == m.depth ==> nw.live(e) && nw.being(e) == ow.being(
                e,
            ),
        forall|e: Entity| #[trigger]
            nw.live(e) && nw.being(e).floor == m.depth ==> ow.live(e) && ow.being(e) == nw.being(
                e,
            ),
    ensures
        occupancy_consistent(nw, m),
{
    assert forall|i: int| #![trigger m.beings@[i]]
        0 <= i < m.beings@.len() implies (m.beings@[i] matches Some(e) ==> {
        &&& nw.live(e)
        &&& nw.being(e).floor == m.depth
        &&& nw.being(e).pos matches Some(p) && m.in_bounds(p) && m.index_of(p) == i
    }) by {
        match m.beings@[i] {
            Some(e) => {
                assert(ow.live(e));
            },
            None => {},
        }
    }
    assert forall|e: Entity| #![trigger nw.live(e)]
        nw.live(e) implies (nw.being(e).floor == m.depth ==> (nw.being(e).pos matches Some(p) ==> {
        &&& m.in_bounds(p)
        &&& 0 <= m.index_of(p) < m.beings@.len()
        &&& m.beings@[m.index_of(p)] == Some(e)
    })) by {
        if nw.being(e).floor == m.depth {
            assert(ow.live(e) && ow.being(e) == nw.being(e));
        }
    }
}

/// Placing an entity that was not indexed on this map onto one of its empty
/// cells re-establishes occupancy.
pub proof fn occupancy_after_place(
    ow: World,
    om: WorldMap,
    nw: World,
    nm: WorldMap,
    e: Entity,
    p: Position,
)
    requires
        occupancy_consistent(ow, om),
        ow.live(e) ==> (ow.being(e).floor != om.depth || ow.being(e).pos is None),
        nw.wf(),
        nw.live(e),
        nw.being(e).pos == Some(p),
        nw.being(e).floor == om.depth,
        forall|e2: Entity| #[trigger]
            ow.live(e2) && e2 != e ==> nw.live(e2) && nw.being(e2) == ow.being(e2),
        forall|e2: Entity| #[trigger] nw.live(e2) && e2 != e ==> ow.live(e2),
        om.in_bounds(p),
        0 <= om.index_of(p) < om.beings@.len(),
        om.beings@[om.index_of(p)] is None,
        nm.beings@ == om.beings@.update(om.index_of(p), Some(e)),
        nm.depth == om.depth,
        nm.width == om.width,
        nm.height == om.height,
    ensures
        occupancy_consistent(nw, nm),
{
    let pi = om.index_of(p);
    assert forall|i: int| #![trigger nm.beings@[i]]
        0 <= i < nm.beings@.len() implies (nm.beings@[i] matches Some(e2) ==> {
        &&& nw.live(e2)
        &&& nw.being(e2).floor == nm.depth
        &&& nw.being(e2).pos matches Some(q) && nm.in_bounds(q) && nm.index_of(q) == i
    }) by {
        match nm.beings@[i] {
            Some(e2) => {
                if i != pi {
                    assert(om.beings@[i] == Some(e2));
                    assert(ow.live(e2));
                    if e2 == e {
                        assert(om.index_of(ow.being(e).pos.unwrap()) == i);
                        assert(false);
                    }
                }
            },
            None => {},
        }
    }
    assert forall|e2: Entity| #![trigger nw.live(e2)]
        nw.live(e2) implies (nw.being(e2).floor == nm.depth ==> (nw.being(e2).pos matches Some(q)
        ==> {
        &&& nm.in_bounds(q)
        &&& 0 <= nm.index_of(q) < nm.beings@.len()
        &&& nm.beings@[nm.index_of(q)] == Some(e2)
    })) by {
        if e2 != e {
            assert(ow.live(e2));
            if nw.being(e2).floor == nm.depth {
                match nw.being(e2).pos {
                    Some(q) => {
                        assert(om.beings@[om.index_of(q)] == Some(e2));
                        assert(om.index_of(q) != pi);
                    },
                    None => {},
                }
            }
        }
    }
}

/// Everything of the map but the occupancy index is untouched.
pub open spec fn same_apart_from_beings(old_m: WorldMap, new_m: WorldMap) -> bool {
    &&& new_m.tiles@ == old_m.tiles@
    &&& new_m.destructibles@ == old_m.destructibles@
    &&& new_m.discovered@ == old_m.discovered@
    &&& new_m.width == old_m.width
    &&& new_m.height == old_m.height
    &&& new_m.depth == old_m.depth
    &&& new_m.rooms@ == old_m.rooms@
    &&& new_m.beings@.len() == old_m.beings@.len()
}

} // verus!
