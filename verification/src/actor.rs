//! Components shared by every actor (player or monster) and the movement /
//! interaction resolution that is the single entry point for occupying a cell.

use vstd::prelude::*;

use crate::combat::{attack, damage_of, hp_after, attack_line};
use crate::data_read::{named_tile, spec_tile_of, EntityDatabase};
use crate::fov::ViewShed;
use crate::map::{
    occupancy_consistent, same_apart_from_beings, Destructible, TileType, WorldMap, WorldTile,
};
use crate::messagelog::Message;
use crate::world::{Being, Entity, World};

verus! {

/// What an attempt to occupy a cell resolved to.  Occupancy beats tile
/// blocking, blocking beats destructibility, and only then is the move
/// plainly rejected.
pub enum MoveResult {
    Moved(String),
    Attack(Entity),
    Mine(Destructible),
    InvalidMove(String),
}

/// A grid coordinate, owned by the entity it is attached to.  It is mutated
/// only through the movement resolution procedure so that the occupancy index
/// and the position never diverge.
#[derive(Clone, Copy, Debug, PartialEq, Eq, Structural)]
pub struct Position {
    pub x: i32,
    pub y: i32,
}

impl Position {
    pub fn new(x: i32, y: i32) -> (r: Self)
        ensures
            r == (Position { x, y }),
    {
        Position { x, y }
    }

    pub fn x(&self) -> (r: i32)
        ensures
            r == self.x,
    {
        self.x
    }

    pub fn y(&self) -> (r: i32)
        ensures
            r == self.y,
    {
        self.y
    }

    /// Row-major linear index of this position on a grid of the given width.
    pub open spec fn lin_index(self, width: int) -> int {
        self.y * width + self.x
    }

    /// Row-major linear index; the caller guarantees the position lies on the
    /// grid so that the arithmetic cannot overflow.
    pub fn to_index(&self, width: usize) -> (r: usize)
        requires
            0 <= self.x,
            0 <= self.y,
            self.y * width + self.x <= usize::MAX,
        ensures
            r == self.lin_index(width as int),
    {
        (self.y as usize) * width + (self.x as usize)
    }
}

/// Tag component that marks the player entity.
#[derive(Debug)]
pub struct Player;

/// A display name attached to an entity.
#[derive(Debug)]
pub struct Name(pub String);

/// A colour as an 8-bit red, green, blue triple.
pub type Color = (u8, u8, u8);

/// What an entity looks like on the grid: a glyph and its foreground and
/// background colours.  Presentation turns the glyph into a font index and
/// the triples into whatever colour type the terminal wants.
#[derive(Clone, Copy, Debug)]
pub struct CharSprite {
    pub glyph: char,
    pub fg: Color,
    pub bg: Color,
}

impl CharSprite {
    /// The sprite of the empty tile: a blank glyph on black.
    pub open spec fn spec_default() -> CharSprite {
        CharSprite { glyph: ' ', fg: (255u8, 255u8, 255u8), bg: (0u8, 0u8, 0u8) }
    }

    pub fn default_sprite() -> (r: CharSprite)
        ensures
            r == CharSprite::spec_default(),
    {
        CharSprite { glyph: ' ', fg: (255, 255, 255), bg: (0, 0, 0) }
    }

    /// Create a new sprite; the background defaults to black, which is useful
    /// for items.
    pub fn with_color(glyph: char, fg: Color, bg: Option<Color>) -> (r: Self)
        ensures
            r.glyph == glyph,
            r.fg == fg,
            bg matches Some(b) ==> r.bg == b,
            bg is None ==> r.bg == (0u8, 0u8, 0u8),
    {
        match bg {
            Some(bg) => Self { glyph, fg, bg },
            None => Self { glyph, fg, bg: (0, 0, 0) },
        }
    }

    pub fn new(glyph: char, fg: Color, bg: Color) -> (r: Self)
        ensures
            r == (CharSprite { glyph, fg, bg }),
    {
        Self { glyph, fg, bg }
    }

    pub fn rgb(glyph: char, fg: Color, bg: Color) -> (r: Self)
        ensures
            r == (CharSprite { glyph, fg, bg }),
    {
        Self { glyph, fg, bg }
    }

    pub fn eq(&self, other: Self) -> (r: bool)
        ensures
            r == (self.glyph == other.glyph && self.fg == other.fg && self.bg == other.bg),
    {
        self.glyph == other.glyph && self.fg.0 == other.fg.0 && self.fg.1 == other.fg.1
            && self.fg.2 == other.fg.2 && self.bg.0 == other.bg.0 && self.bg.1 == other.bg.1
            && self.bg.2 == other.bg.2
    }
}

/// The bundle with its viewshed marked stale.
pub open spec fn dirtied(b: Being) -> Being
    recommends
        b.view is Some,
{
    Being { view: Some(ViewShed { dirty: true, ..b.view.unwrap() }), ..b }
}

/// The full transition relation of `bump_tile`: given the worlds before and
/// after, which result came back and exactly what moved.
pub open spec fn bump_outcome(
    om: WorldMap,
    ow: World,
    nm: WorldMap,
    nw: World,
    who: Entity,
    dest: Position,
    r: MoveResult,
) -> bool {
    let b = ow.being(who);
    if !om.in_bounds(dest) {
        &&& r is InvalidMove
        &&& nm.beings@ == om.beings@
        &&& nw == ow
    } else {
        let di = om.index_of(dest);
        match om.beings@[di] {
            Some(target) => {
                // an occupant always redirects to an attack, whatever the tile
                &&& r == MoveResult::Attack(target)
                &&& nm.beings@ == om.beings@
                &&& nw == ow
            },
            None => {
                if !om.tiles@[di].is_blocking {
                    &&& r is Moved
                    &&& nw.being(who) == (Being { pos: Some(dest), ..dirtied(b) })
                    &&& nm.beings@ == om.beings@.update(
                        om.index_of(b.pos.unwrap()),
                        None,
                    ).update(di, Some(who))
                } else {
                    &&& nw.being(who) == dirtied(b)
                    &&& nm.beings@ == om.beings@
                    &&& match om.destructibles@[di] {
                        Some(d) => r == MoveResult::Mine(d),
                        None => r is InvalidMove,
                    }
                }
            },
        }
    }
}

/// Attempts to move an entity onto a cell; the single entry point through
/// which the occupancy index is ever written.  An occupant redirects to an
/// attack, a blocked destructible cell redirects to mining, and a plain
/// blocked cell rejects the move; only a free, non-blocking cell moves the
/// entity.  Whenever the attempt got as far as looking at the tile, the
/// mover's viewshed is marked stale.
pub fn bump_tile(map: &mut WorldMap, world: &mut World, who: Entity, dest_tile: Position) -> (r:
    MoveResult)
    requires
        old(map).wf(),
        old(world).wf(),
        occupancy_consistent(*old(world), *old(map)),
        old(world).live(who),
        old(world).being(who).pos is Some,
        old(world).being(who).view is Some,
        old(world).being(who).floor == old(map).depth,
    ensures
        final (map).wf(),
        final (world).wf(),
        occupancy_consistent(*final (world), *final (map)),
        same_apart_from_beings(*old(map), *final (map)),
        World::only_being_changed(*old(world), *final (world), who),
        bump_outcome(*old(map), *old(world), *final (map), *final (world), who, dest_tile, r),
{
    if !map.within_bounds(dest_tile) {
        return MoveResult::InvalidMove("Cannot move to that position".to_owned());
    }
    let dest_idx = map.index(dest_tile);
    match map.occupant_at(dest_idx) {
        Some(target) => {
            return MoveResult::Attack(target);
        },
        None => {},
    }

    // the vision may change whatever happens from here on
    world.mark_view_dirty(who, );
    let tile = map.tile_at(dest_idx);
    if !tile.is_blocking {
        let pos_opt = match world.lookup(who) {
            Some(b) => b.pos,
            None => None,
        };
        let pos = pos_opt.unwrap();
        proof {
            assert(old(world).being(who).pos == Some(pos));
        }
        let old_idx = map.index(pos);
        world.set_pos(who, dest_tile);
        map.beings[old_idx] = None;
        map.beings[dest_idx] = Some(who);
        proof {
            let om = *old(map);
            let ow = *old(world);
            let b = ow.being(who);
            let oi = om.index_of(pos);
            let di = om.index_of(dest_tile);
            assert(ow.live(who));
            assert(om.beings@[oi] == Some(who));
            assert(om.beings@[di] is None);
            assert(oi != di);
            assert forall|e2: Entity| #![trigger world.live(e2)]
                world.live(e2) <==> ow.live(e2) by {}
            assert forall|e2: Entity| ow.live(e2) && e2 != who implies #[trigger] world.being(e2)
                == ow.being(e2) by {
                assert(world.live(e2));
            }
            assert(world.being(who) == (Being { pos: Some(dest_tile), ..dirtied(b) }));
            assert forall|i: int| #![trigger map.beings@[i]]
                0 <= i < map.beings@.len() implies (map.beings@[i] matches Some(e) ==> {
                &&& world.live(e)
                &&& world.being(e).floor == map.depth
                &&& world.being(e).pos matches Some(p) && map.in_bounds(p) && map.index_of(p) == i
            }) by {
                match map.beings@[i] {
                    Some(e) => {
                        if i == di {
                            assert(e == who);
                        } else {
                            assert(i != oi);
                            assert(map.beings@[i] == om.beings@[i]);
                            assert(om.beings@[i] matches Some(e2) && e2 == e);
                            if e == who {
                                assert(om.index_of(ow.being(who).pos.unwrap()) == i);
                                assert(false);
                            }
                            assert(world.being(e) == ow.being(e));
                        }
                    },
                    None => {},
                }
            }
            assert forall|e: Entity| #![trigger world.live(e)]
                world.live(e) implies (world.being(e).floor == map.depth ==> (world.being(
                e,
            ).pos matches Some(p) ==> {
                &&& map.in_bounds(p)
                &&& 0 <= map.index_of(p) < map.beings@.len()
                &&& map.beings@[map.index_of(p)] == Some(e)
            })) by {
                assert(ow.live(e));
                if e == who {
                    assert(map.beings@[di] == Some(who));
                } else {
                    assert(world.being(e) == ow.being(e));
                    if ow.being(e).floor == om.depth {
                        match ow.being(e).pos {
                            Some(p) => {
                                let i = om.index_of(p);
                                assert(om.beings@[i] == Some(e));
                                assert(i != oi);
                                assert(i != di);
                                assert(map.beings@[i] == Some(e));
                            },
                            None => {},
                        }
                    }
                }
            }
        }
        return MoveResult::Moved("".to_owned());
    } else {
        match map.destructible_at(dest_idx) {
            Some(d) => MoveResult::Mine(d),
            None => MoveResult::InvalidMove("Tile is blocked".to_owned()),
        }
    }
}

/// Once a cell is walkable and empty — as a mined-out cell permanently is —
/// a bump against it can only move there or attack whoever stands there
/// later; it can never redirect to mining or reject the move again.
pub proof fn lemma_open_cell_never_mines(
    om: WorldMap,
    ow: World,
    nm: WorldMap,
    nw: World,
    who: Entity,
    dest: Position,
    r: MoveResult,
)
    requires
        bump_outcome(om, ow, nm, nw, who, dest, r),
        om.in_bounds(dest),
        !om.tiles@[om.index_of(dest)].is_blocking,
    ensures
        r is Moved || r is Attack,
{
}

pub open spec fn clamp(v: int, lo: int, hi: int) -> int {
    if v < lo {
        lo
    } else if v > hi {
        hi
    } else {
        v
    }
}

/// Adds the delta to a position while keeping each axis inside 0 ..= upper;
/// fails when the clamped destination is the position itself.
pub fn safe_position_delta(pos: &Position, dx: i32, dy: i32, upper_x: i32, upper_y: i32) -> (r:
    Result<Position, ()>)
    requires
        upper_x >= 0,
        upper_y >= 0,
    ensures
        ({
            let nx = clamp(pos.x + dx, 0, upper_x as int);
            let ny = clamp(pos.y + dy, 0, upper_y as int);
            if nx == pos.x && ny == pos.y {
                r is Err
            } else {
                r matches Ok(p) && p.x == nx && p.y == ny
            }
        }),
{
    let tx: i64 = pos.x as i64 + dx as i64;
    let ty: i64 = pos.y as i64 + dy as i64;
    let nx: i64 = if tx < 0 {
        0
    } else if tx > upper_x as i64 {
        upper_x as i64
    } else {
        tx
    };
    let ny: i64 = if ty < 0 {
        0
    } else if ty > upper_y as i64 {
        upper_y as i64
    } else {
        ty
    };
    if nx == pos.x as i64 && ny == pos.y as i64 {
        Err(())
    } else {
        Ok(Position { x: nx as i32, y: ny as i32 })
    }
}

/// Where a clamped move of the player by the given delta would land, if the
/// player exists, can see, and would actually change cell.
pub open spec fn player_move_dest(w: World, m: WorldMap, dx: int, dy: int) -> Option<Position> {
    match w.first_player() {
        None => None,
        Some(p) => {
            let b = w.being(p);
            if b.pos is None || b.view is None {
                None
            } else {
                let pos = b.pos.unwrap();
                let d = Position {
                    x: clamp(pos.x + dx, 0, m.width as int) as i32,
                    y: clamp(pos.y + dy, 0, m.height as int) as i32,
                };
                if d == pos {
                    None
                } else {
                    Some(d)
                }
            }
        },
    }
}

/// Gets the player and resolves its bump; this keeps `bump_tile` entity
/// agnostic, so that monster and player use the very same resolution.
pub fn player_bump(map: &mut WorldMap, world: &mut World, dx: i32, dy: i32) -> (r: MoveResult)
    requires
        old(map).wf(),
        old(world).wf(),
        occupancy_consistent(*old(world), *old(map)),
        match old(world).first_player() {
            Some(p) => old(world).being(p).floor == old(map).depth,
            None => true,
        },
    ensures
        final (map).wf(),
        final (world).wf(),
        occupancy_consistent(*final (world), *final (map)),
        same_apart_from_beings(*old(map), *final (map)),
        match player_move_dest(*old(world), *old(map), dx as int, dy as int) {
            None => r is InvalidMove && *final (map) == *old(map) && *final (world) == *old(world),
            Some(dest) => {
                let p = old(world).first_player().unwrap();
                &&& World::only_being_changed(*old(world), *final (world), p)
                &&& bump_outcome(
                    *old(map),
                    *old(world),
                    *final (map),
                    *final (world),
                    p,
                    dest,
                    r,
                )
            },
        },
{
    let pe = match world.player_entity() {
        Some(pe) => pe,
        None => {
            return MoveResult::InvalidMove("No player entity found?".to_owned());
        },
    };
    let (pos, has_view) = match world.lookup(pe) {
        Some(b) => (b.pos, b.view.is_some()),
        None => (None, false),
    };
    let pos = match pos {
        Some(p) => p,
        None => {
            return MoveResult::InvalidMove("No player entity found?".to_owned());
        },
    };
    if !has_view {
        return MoveResult::InvalidMove("No player entity found?".to_owned());
    }
    let dest_tile = match safe_position_delta(
        &pos,
        dx,
        dy,
        map.width as i32,
        map.height as i32,
    ) {
        Ok(d) => d,
        Err(_) => {
            return MoveResult::InvalidMove("Cannot move to that position".to_owned());
        },
    };
    bump_tile(map, world, pe, dest_tile)
}

/// Whether the player stands on the right staircase for a floor change by
/// `delta`: down stairs to descend, up stairs to ascend, and never up from
/// the ground floor.
pub open spec fn floor_change_ok(w: World, m: WorldMap, delta: int) -> bool {
    match w.first_player() {
        None => false,
        Some(p) => {
            let b = w.being(p);
            &&& b.pos matches Some(pos)
            &&& b.view is Some
            &&& {
                let t = m.tiles@[m.index_of(pos)].tile_type;
                ||| (delta > 0 && t == TileType::DownStairs)
                ||| (delta < 0 && t == TileType::UpStairs && m.depth > 0)
            }
        },
    }
}

/// Attempts to change floor: reports whether the move is allowed, and marks
/// the player's vision stale when it is.
pub fn change_floor(world: &mut World, map: &WorldMap, delta: i32) -> (r: bool)
    requires
        map.wf(),
        old(world).wf(),
        occupancy_consistent(*old(world), *map),
        match old(world).first_player() {
            Some(p) => old(world).being(p).floor == map.depth,
            None => true,
        },
    ensures
        final (world).wf(),
        occupancy_consistent(*final (world), *map),
        r == floor_change_ok(*old(world), *map, delta as int),
        if r {
            let p = old(world).first_player().unwrap();
            &&& World::only_being_changed(*old(world), *final (world), p)
            &&& final (world).being(p) == dirtied(old(world).being(p))
        } else {
            *final (world) == *old(world)
        },
{
    let pe = match world.player_entity() {
        Some(pe) => pe,
        None => {
            return false;
        },
    };
    let (pos, has_view) = match world.lookup(pe) {
        Some(b) => (b.pos, b.view.is_some()),
        None => (None, false),
    };
    let pos = match pos {
        Some(p) => p,
        None => {
            return false;
        },
    };
    if !has_view {
        return false;
    }
    let idx = map.index(pos);
    let t = map.tile_at(idx).tile_type;
    let allowed = if delta > 0 {
        t == TileType::DownStairs
    } else if delta < 0 {
        t == TileType::UpStairs && map.depth > 0
    } else {
        false
    };
    if allowed {
        world.mark_view_dirty(pe);
        proof {
            assert(occupancy_consistent(*world, *map)) by {
                occupancy_preserved_by_being_edit(*old(world), *world, *map, pe);
            }
        }
        true
    } else {
        false
    }
}

/// Whether an attack of the player against `target` resolves at all: both
/// must be combat capable, and the target must still be a live monster; a
/// stale handle makes the attack a no-op instead of a failure.
pub open spec fn attack_applies(w: World, target: Entity) -> bool {
    match w.first_player() {
        None => false,
        Some(p) => {
            &&& w.being(p).stats is Some
            &&& w.live(target)
            &&& w.being(target).stats is Some
            &&& w.being(target).breed is Some
        },
    }
}

/// The player strikes a target; the damage formula is the combat resolver's,
/// and the combat line lands in the message log stamped with the turn.
pub fn player_attack(
    world: &mut World,
    message_log: &mut Vec<Message>,
    target: Entity,
    turn_sent: usize,
) -> (applied: bool)
    requires
        old(world).wf(),
    ensures
        final (world).wf(),
        applied == attack_applies(*old(world), target),
        if applied {
            let p = old(world).first_player().unwrap();
            let dmg = damage_of(
                old(world).being(p).stats.unwrap().attack as int,
                old(world).being(target).stats.unwrap().defense as int,
            );
            let old_stats = old(world).being(target).stats.unwrap();
            &&& World::only_being_changed(*old(world), *final (world), target)
            &&& final (world).live(target)
            &&& final (world).being(target) == (Being {
                stats: Some(
                    crate::combat::CombatStats {
                        health: hp_after(old_stats.health as int, dmg) as u32,
                        ..old_stats
                    },
                ),
                ..old(world).being(target)
            })
            &&& final (message_log)@.len() == old(message_log)@.len() + 1
            &&& final (message_log)@.subrange(0, old(message_log)@.len() as int) == old(
                message_log,
            )@
            &&& final (message_log)@.last().contents@ == attack_line(
                "Player"@,
                old(world).being(target).breed.unwrap().name@,
                dmg,
            )
            &&& final (message_log)@.last().turn_sent == turn_sent
        } else {
            *final (world) == *old(world) && final (message_log)@ == old(message_log)@
        },
{
    let pe = match world.player_entity() {
        Some(pe) => pe,
        None => {
            return false;
        },
    };
    let astats = match world.lookup(pe) {
        Some(b) => match b.stats {
            Some(s) => s,
            None => {
                return false;
            },
        },
        None => {
            return false;
        },
    };
    let (dstats, dname) = match world.lookup(target) {
        Some(b) => {
            let s = match b.stats {
                Some(s) => s,
                None => {
                    return false;
                },
            };
            let n = match &b.breed {
                Some(br) => br.name.clone(),
                None => {
                    return false;
                },
            };
            (s, n)
        },
        None => {
            return false;
        },
    };
    let mut ds = dstats;
    let line = attack(&mut ds, dname.as_str(), &astats, "Player");
    world.set_health(target, ds.health);
    message_log.push(Message::new(line, turn_sent));
    proof {
        assert(final (message_log)@.subrange(0, old(message_log)@.len() as int) =~= old(
            message_log,
        )@);
    }
    true
}

/// The tile a mined-out cell converts to: the named floor definition, or the
/// empty tile where the data files lack it.
pub open spec fn mined_floor_tile(db: EntityDatabase) -> WorldTile {
    match db.find_tile("Grass Floor"@) {
        Some(i) => spec_tile_of(db.tiles.all@[i]),
        None => WorldTile::spec_empty(),
    }
}

/// The cell one mining attempt by the player works on, if the attempt gets
/// that far.
pub open spec fn mine_target(w: World, m: WorldMap, dx: int, dy: int) -> Option<int> {
    match player_move_dest(w, m, dx, dy) {
        None => None,
        Some(d) => if m.in_bounds(d) {
            Some(m.index_of(d))
        } else {
            None
        },
    }
}

/// One mining interaction of the player against the destructible its bump
/// reported: a tile overlay loses one hit point, and on the last one the
/// cell converts to the walkable floor tile and the overlay entry goes away
/// for good.  The player's vision is marked stale on any attempt that
/// reaches a cell.
pub fn mine(
    map: &mut WorldMap,
    world: &mut World,
    db: &EntityDatabase,
    destructible: Destructible,
    dx: i32,
    dy: i32,
) -> (r: bool)
    requires
        old(map).wf(),
        old(world).wf(),
        occupancy_consistent(*old(world), *old(map)),
        destructible matches Destructible::Tile { hp, .. } ==> hp >= 1,
        !mined_floor_tile(*db).is_blocking,
    ensures
        final (map).wf(),
        final (world).wf(),
        occupancy_consistent(*final (world), *final (map)),
        final (map).beings@ == old(map).beings@,
        final (map).discovered@ == old(map).discovered@,
        final (map).width == old(map).width,
        final (map).height == old(map).height,
        final (map).depth == old(map).depth,
        final (map).rooms@ == old(map).rooms@,
        match mine_target(*old(world), *old(map), dx as int, dy as int) {
            None => r == false && *final (map) == *old(map) && *final (world) == *old(world),
            Some(idx) => {
                let p = old(world).first_player().unwrap();
                &&& r == true
                &&& World::only_being_changed(*old(world), *final (world), p)
                &&& final (world).being(p) == dirtied(old(world).being(p))
                &&& match destructible {
                    Destructible::Tile { max_hp, hp } => {
                        if hp == 1 {
                            &&& final (map).tiles@ == old(map).tiles@.update(
                                idx,
                                mined_floor_tile(*db),
                            )
                            &&& final (map).destructibles@ == old(map).destructibles@.update(
                                idx,
                                None,
                            )
                            &&& !final (map).tiles@[idx].is_blocking
                        } else {
                            &&& final (map).tiles@ == old(map).tiles@
                            &&& final (map).destructibles@ == old(map).destructibles@.update(
                                idx,
                                Some(Destructible::Tile { max_hp, hp: (hp - 1) as u32 }),
                            )
                        }
                    },
                    Destructible::Entity(_) => {
                        &&& final (map).tiles@ == old(map).tiles@
                        &&& final (map).destructibles@ == old(map).destructibles@
                    },
                }
            },
        },
{
    let pe = match world.player_entity() {
        Some(pe) => pe,
        None => {
            return false;
        },
    };
    let (pos, has_view) = match world.lookup(pe) {
        Some(b) => (b.pos, b.view.is_some()),
        None => (None, false),
    };
    let pos = match pos {
        Some(p) => p,
        None => {
            return false;
        },
    };
    if !has_view {
        return false;
    }
    let dest_pos = match safe_position_delta(
        &pos,
        dx,
        dy,
        map.width as i32,
        map.height as i32,
    ) {
        Ok(d) => d,
        Err(_) => {
            return false;
        },
    };
    if !map.within_bounds(dest_pos) {
        return false;
    }
    let dest_idx = map.index(dest_pos);

    match destructible {
        Destructible::Tile { max_hp, hp } => {
            let hp = hp - 1;
            if hp == 0 {
                map.tiles[dest_idx] = named_tile(db, "Grass Floor");
                map.destructibles[dest_idx] = None;
            } else {
                map.destructibles[dest_idx] = Some(Destructible::Tile { max_hp, hp });
            }
        },
        Destructible::Entity(_) => {},
    }

    world.mark_view_dirty(pe);
    proof {
        occupancy_preserved_by_being_edit(*old(world), *world, *map, pe);
    }
    true
}

/// Editing a being without touching its position or floor keeps the
/// occupancy invariant.
pub proof fn occupancy_preserved_by_being_edit(ow: World, nw: World, m: WorldMap, e: Entity)
    requires
        occupancy_consistent(ow, m),
        ow.live(e),
        nw.wf(),
        forall|e2: Entity| #![trigger nw.live(e2)] nw.live(e2) <==> ow.live(e2),
        forall|e2: Entity| #[trigger]
            ow.live(e2) && e2 != e ==> nw.being(e2) == ow.being(e2),
        nw.being(e).pos == ow.being(e).pos,
        nw.being(e).floor == ow.being(e).floor,
    ensures
        occupancy_consistent(nw, m),
{
    assert forall|i: int| #![trigger m.beings@[i]]
        0 <= i < m.beings@.len() implies (m.beings@[i] matches Some(e2) ==> {
        &&& nw.live(e2)
        &&& nw.being(e2).floor == m.depth
        &&& nw.being(e2).pos matches Some(p) && m.in_bounds(p) && m.index_of(p) == i
    }) by {
        match m.beings@[i] {
            Some(e2) => {
                assert(ow.live(e2));
                assert(nw.live(e2));
                if e2 != e {
                    assert(nw.being(e2) == ow.being(e2));
                }
            },
            None => {},
        }
    }
    assert forall|e2: Entity| #![trigger nw.live(e2)]
        nw.live(e2) implies (nw.being(e2).floor == m.depth ==> (nw.being(e2).pos matches Some(p)
        ==> {
        &&& m.in_bounds(p)
        &&& 0 <= m.index_of(p) < m.beings@.len()
        &&& m.beings@[m.index_of(p)] == Some(e2)
    })) by {
        assert(ow.live(e2));
        if e2 != e {
            assert(nw.being(e2) == ow.being(e2));
        }
    }
}

/// Whether the entity in slot `i` shows up on screen: placed on the current
/// floor with a sprite, on a cell the player sees (or anywhere, for a
/// developer running with full sight).
pub open spec fn slot_renderable(
    w: World,
    m: WorldMap,
    visible: Seq<bool>,
    dev_mode: bool,
    i: int,
) -> bool {
    &&& 0 <= i < w.slots@.len()
    &&& w.slots@[i] matches Some(b) && b.sprite is Some && b.floor == m.depth
        && (b.pos matches Some(p) && m.in_bounds(p) && (dev_mode || visible[m.index_of(p)]))
}

/// The pair belongs to some renderable slot.
pub open spec fn renderable_entry(
    w: World,
    m: WorldMap,
    visible: Seq<bool>,
    dev_mode: bool,
    item: (Position, CharSprite),
) -> bool {
    exists|i: int|
        {
            &&& #[trigger] slot_renderable(w, m, visible, dev_mode, i)
            &&& w.slots@[i].unwrap().pos == Some(item.0)
            &&& w.slots@[i].unwrap().sprite == Some(item.1)
        }
}

/// The render data for all entities that have a position and a sprite: what
/// presentation draws, gated by the player-visible cell set unless running
/// in developer mode.
pub fn render_entities(
    world: &World,
    map: &WorldMap,
    visible: &Vec<bool>,
    dev_mode: bool,
) -> (r: Vec<(Position, CharSprite)>)
    requires
        world.wf(),
        map.wf(),
        visible@.len() == map.tiles@.len(),
    ensures
        forall|j: int|
            0 <= j < r@.len() ==> renderable_entry(*world, *map, visible@, dev_mode, #[trigger] r@[j]),
        forall|i: int|
            slot_renderable(*world, *map, visible@, dev_mode, i) ==> r@.contains(
                (
                    #[trigger] world.slots@[i].unwrap().pos.unwrap(),
                    world.slots@[i].unwrap().sprite.unwrap(),
                ),
            ),
{
    broadcast use vstd::seq_lib::lemma_seq_contains_after_push;

    let n = world.slots.len();
    let mut r: Vec<(Position, CharSprite)> = Vec::new();
    let mut i: usize = 0;
    while i < n
        invariant
            world.wf(),
            map.wf(),
            visible@.len() == map.tiles@.len(),
            n == world.slots@.len(),
            i <= n,
            forall|j: int|
                0 <= j < r@.len() ==> renderable_entry(
                    *world,
                    *map,
                    visible@,
                    dev_mode,
                    #[trigger] r@[j],
                ),
            forall|k: int|
                0 <= k < i && slot_renderable(*world, *map, visible@, dev_mode, k) ==> r@.contains(
                    (
                        #[trigger] world.slots@[k].unwrap().pos.unwrap(),
                        world.slots@[k].unwrap().sprite.unwrap(),
                    ),
                ),
        decreases n - i,
    {
        let ghost prev = r@;
        let (pos, sprite, floor) = match &world.slots[i] {
            Some(b) => (b.pos, b.sprite, b.floor),
            None => (None, None, 0),
        };
        let mut pushed = false;
        match (pos, sprite) {
            (Some(p), Some(s)) => {
                if floor == map.depth && map.within_bounds(p) {
                    let idx = map.index(p);
                    if dev_mode || visible[idx] {
                        r.push((p, s));
                        pushed = true;
                        proof {
                            assert(slot_renderable(*world, *map, visible@, dev_mode, i as int));
                            assert(renderable_entry(*world, *map, visible@, dev_mode, (p, s)));
                        }
                    }
                }
            },
            _ => {},
        }
        proof {
            if !pushed {
                assert(!slot_renderable(*world, *map, visible@, dev_mode, i as int));
            }
            assert forall|k: int|
                0 <= k < i + 1 && slot_renderable(
                    *world,
                    *map,
                    visible@,
                    dev_mode,
                    k,
                ) implies r@.contains(
                (
                    world.slots@[k].unwrap().pos.unwrap(),
                    world.slots@[k].unwrap().sprite.unwrap(),
                ),
            ) by {
                let x = (
                    world.slots@[k].unwrap().pos.unwrap(),
                    world.slots@[k].unwrap().sprite.unwrap(),
                );
                if pushed {
                    assert(r@ == prev.push(r@.last()));
                    vstd::seq_lib::lemma_seq_contains_after_push(prev, r@.last(), x);
                }
                if k < i {
                    assert(prev.contains(x));
                } else {
                    assert(pushed);
                    assert(r@.last() == x);
                }
            }
        }
        i = i + 1;
    }
    r
}

} // verus!
