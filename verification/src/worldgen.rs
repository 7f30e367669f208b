//! Floor generation and the floor-change transition.  A floor is three rooms
//! over a connecting corridor with stairs at its ends, a band of minable wall
//! above the corridor, and beings spawned into the rooms; every cell is a
//! function of seed, depth and dimensions alone.

use vstd::prelude::*;

use crate::actor::{CharSprite, Position};
use crate::combat::CombatStats;
use crate::data_read::{named_living_builder, EntityDatabase};
use crate::map::{
    occupancy_after_place, occupancy_consistent, occupancy_preserved_generic,
    same_apart_from_beings, Destructible, Room,
    TileType, WorldMap, WorldTile,
};
use crate::state::{FloorCache, State};
use crate::world::{Being, Entity, World};

verus! {

pub open spec fn wall_tile() -> WorldTile {
    WorldTile {
        is_blocking: true,
        is_transparent: false,
        tile_type: TileType::Wall,
        sprite: CharSprite { glyph: '#', fg: (130u8, 130u8, 130u8), bg: (0u8, 0u8, 0u8) },
    }
}

pub open spec fn floor_tile() -> WorldTile {
    WorldTile {
        is_blocking: false,
        is_transparent: true,
        tile_type: TileType::Floor,
        sprite: CharSprite { glyph: '.', fg: (102u8, 153u8, 102u8), bg: (0u8, 0u8, 0u8) },
    }
}

pub open spec fn up_stairs_tile() -> WorldTile {
    WorldTile {
        is_blocking: false,
        is_transparent: true,
        tile_type: TileType::UpStairs,
        sprite: CharSprite { glyph: '<', fg: (230u8, 230u8, 230u8), bg: (0u8, 0u8, 0u8) },
    }
}

pub open spec fn down_stairs_tile() -> WorldTile {
    WorldTile {
        is_blocking: false,
        is_transparent: true,
        tile_type: TileType::DownStairs,
        sprite: CharSprite { glyph: '>', fg: (230u8, 230u8, 230u8), bg: (0u8, 0u8, 0u8) },
    }
}

/// Whether a cell falls inside one of the three generated rooms.
pub open spec fn in_gen_room(w: int, h: int, x: int, y: int) -> bool {
    let seg = (w - 4) / 3;
    &&& 2 <= y <= h / 2 - 2
    &&& {
        ||| 2 <= x <= seg
        ||| 2 + seg <= x <= 2 * seg
        ||| 2 + 2 * seg <= x <= 3 * seg
    }
}

/// The tile of a generated floor at a cell: a corridor row with stairs at its
/// ends, rooms above it, wall everywhere else.  The ground floor has no way
/// up.
pub open spec fn gen_tile(depth: int, w: int, h: int, x: int, y: int) -> WorldTile {
    if y == h / 2 && 1 <= x <= w - 2 {
        if x == 1 && depth > 0 {
            up_stairs_tile()
        } else if x == w - 2 {
            down_stairs_tile()
        } else {
            floor_tile()
        }
    } else if in_gen_room(w, h, x, y) {
        floor_tile()
    } else {
        wall_tile()
    }
}

/// The destructible overlay of a generated floor: every fifth cell of the
/// wall band above the corridor, shifted by the seed, can be mined down.
pub open spec fn gen_destructible(offset: int, w: int, h: int, x: int, y: int) -> Option<
    Destructible,
> {
    if y == h / 2 - 1 && 1 <= x <= w - 2 && (x + offset) % 5 == 0 {
        Some(Destructible::Tile { max_hp: 3, hp: 3 })
    } else {
        None
    }
}

/// Where the player lands on a fresh floor.
pub open spec fn gen_player_start(h: int) -> Position {
    Position { x: 2, y: (h / 2) as i32 }
}

fn tile_for(depth: i32, w: usize, h: usize, x: usize, y: usize) -> (r: WorldTile)
    requires
        16 <= w <= 1000,
        8 <= h <= 1000,
        x <= 1000,
        y <= 1000,
    ensures
        r == gen_tile(depth as int, w as int, h as int, x as int, y as int),
{
    let seg = (w - 4) / 3;
    if y == h / 2 && 1 <= x && x <= w - 2 {
        if x == 1 && depth > 0 {
            WorldTile {
                is_blocking: false,
                is_transparent: true,
                tile_type: TileType::UpStairs,
                sprite: CharSprite { glyph: '<', fg: (230, 230, 230), bg: (0, 0, 0) },
            }
        } else if x == w - 2 {
            WorldTile {
                is_blocking: false,
                is_transparent: true,
                tile_type: TileType::DownStairs,
                sprite: CharSprite { glyph: '>', fg: (230, 230, 230), bg: (0, 0, 0) },
            }
        } else {
            WorldTile {
                is_blocking: false,
                is_transparent: true,
                tile_type: TileType::Floor,
                sprite: CharSprite { glyph: '.', fg: (102, 153, 102), bg: (0, 0, 0) },
            }
        }
    } else if y >= 2 && y + 2 <= h / 2 && ((x >= 2 && x <= seg) || (x >= 2 + seg && x <= 2 * seg)
        || (x >= 2 + 2 * seg && x <= 3 * seg)) {
        WorldTile {
            is_blocking: false,
            is_transparent: true,
            tile_type: TileType::Floor,
            sprite: CharSprite { glyph: '.', fg: (102, 153, 102), bg: (0, 0, 0) },
        }
    } else {
        WorldTile {
            is_blocking: true,
            is_transparent: false,
            tile_type: TileType::Wall,
            sprite: CharSprite { glyph: '#', fg: (130, 130, 130), bg: (0, 0, 0) },
        }
    }
}

fn destructible_for(offset: usize, w: usize, h: usize, x: usize, y: usize) -> (r: Option<
    Destructible,
>)
    requires
        16 <= w <= 1000,
        8 <= h <= 1000,
        offset < 5,
        x <= 1000,
        y <= 1000,
    ensures
        r == gen_destructible(offset as int, w as int, h as int, x as int, y as int),
{
    if y + 1 == h / 2 && 1 <= x && x <= w - 2 && (x + offset) % 5 == 0 {
        Some(Destructible::Tile { max_hp: 3, hp: 3 })
    } else {
        None
    }
}

/// Generates the map of one floor and the cell the player starts on.  The
/// result is a function of seed, depth and dimensions alone, so a repeat call
/// builds the very same floor.
pub fn generate_map(seed: u64, depth: i32, width: usize, height: usize) -> (r: (WorldMap, Position))
    requires
        16 <= width <= 1000,
        8 <= height <= 1000,
    ensures
        r.0.wf(),
        r.0.width == width,
        r.0.height == height,
        r.0.depth == depth,
        r.0.rooms@.len() == 3,
        forall|i: int| 0 <= i < r.0.beings@.len() ==> (#[trigger] r.0.beings@[i]) is None,
        forall|i: int| 0 <= i < r.0.discovered@.len() ==> !(#[trigger] r.0.discovered@[i]),
        forall|i: int|
            0 <= i < r.0.tiles@.len() ==> #[trigger] r.0.tiles@[i] == gen_tile(
                depth as int,
                width as int,
                height as int,
                i % (width as int),
                i / (width as int),
            ),
        forall|i: int|
            0 <= i < r.0.destructibles@.len() ==> #[trigger] r.0.destructibles@[i]
                == gen_destructible(
                (seed % 5) as int,
                width as int,
                height as int,
                i % (width as int),
                i / (width as int),
            ),
        r.1 == gen_player_start(height as int),
        r.0.in_bounds(r.1),
        !r.0.tiles@[r.0.index_of(r.1)].is_blocking,
{
    let offset = (seed % 5) as usize;
    let mut tiles: Vec<WorldTile> = Vec::new();
    let mut destructibles: Vec<Option<Destructible>> = Vec::new();
    let mut beings: Vec<Option<Entity>> = Vec::new();
    let mut discovered: Vec<bool> = Vec::new();
    let mut y: usize = 0;
    while y < height
        invariant
            16 <= width <= 1000,
            8 <= height <= 1000,
            offset < 5,
            offset == seed % 5,
            y <= height,
            tiles@.len() == y * width,
            destructibles@.len() == y * width,
            beings@.len() == y * width,
            discovered@.len() == y * width,
            forall|i: int| 0 <= i < beings@.len() ==> (#[trigger] beings@[i]) is None,
            forall|i: int| 0 <= i < discovered@.len() ==> !(#[trigger] discovered@[i]),
            forall|i: int|
                0 <= i < tiles@.len() ==> #[trigger] tiles@[i] == gen_tile(
                    depth as int,
                    width as int,
                    height as int,
                    i % (width as int),
                    i / (width as int),
                ),
            forall|i: int|
                0 <= i < destructibles@.len() ==> #[trigger] destructibles@[i] == gen_destructible(
                    offset as int,
                    width as int,
                    height as int,
                    i % (width as int),
                    i / (width as int),
                ),
        decreases height - y,
    {
        let mut x: usize = 0;
        while x < width
            invariant
                16 <= width <= 1000,
                8 <= height <= 1000,
                offset < 5,
                offset == seed % 5,
                y < height,
                x <= width,
                tiles@.len() == y * width + x,
                destructibles@.len() == y * width + x,
                beings@.len() == y * width + x,
                discovered@.len() == y * width + x,
                forall|i: int| 0 <= i < beings@.len() ==> (#[trigger] beings@[i]) is None,
                forall|i: int| 0 <= i < discovered@.len() ==> !(#[trigger] discovered@[i]),
                forall|i: int|
                    0 <= i < tiles@.len() ==> #[trigger] tiles@[i] == gen_tile(
                        depth as int,
                        width as int,
                        height as int,
                        i % (width as int),
                        i / (width as int),
                    ),
                forall|i: int|
                    0 <= i < destructibles@.len() ==> #[trigger] destructibles@[i]
                        == gen_destructible(
                        offset as int,
                        width as int,
                        height as int,
                        i % (width as int),
                        i / (width as int),
                    ),
            decreases width - x,
        {
            proof {
                vstd::arithmetic::div_mod::lemma_fundamental_div_mod_converse(
                    (y * width + x) as int,
                    width as int,
                    y as int,
                    x as int,
                );
            }
            tiles.push(tile_for(depth, width, height, x, y));
            destructibles.push(destructible_for(offset, width, height, x, y));
            beings.push(None);
            discovered.push(false);
            x = x + 1;
        }
        proof {
            assert((y + 1) * width == y * width + width) by (nonlinear_arith);
        }
        y = y + 1;
    }
    let seg = ((width - 4) / 3) as i32;
    let mut rooms: Vec<Room> = Vec::new();
    rooms.push(Room { x: 2, y: 2, w: seg - 1, h: (height / 2) as i32 - 3 });
    rooms.push(Room { x: 2 + seg, y: 2, w: seg - 1, h: (height / 2) as i32 - 3 });
    rooms.push(Room { x: 2 + 2 * seg, y: 2, w: seg - 1, h: (height / 2) as i32 - 3 });
    let map = WorldMap {
        tiles,
        destructibles,
        beings,
        discovered,
        width,
        height,
        depth,
        rooms,
    };
    let start = Position { x: 2, y: (height / 2) as i32 };
    proof {
        assert(height * width == width * height) by (nonlinear_arith);
        assert(height * width <= 1000000) by (nonlinear_arith)
            requires
                height <= 1000,
                width <= 1000,
        ;
        assert(map.wf());
        map.lemma_index_in_range(start);
        let si = map.index_of(start);
        vstd::arithmetic::div_mod::lemma_fundamental_div_mod_converse(
            si,
            width as int,
            (height / 2) as int,
            2,
        );
        assert(map.tiles@[si] == gen_tile(
            depth as int,
            width as int,
            height as int,
            2,
            (height / 2) as int,
        ));
    }
    (map, start)
}

/// A cell inside the room's rectangle.
pub open spec fn pos_in_room(r: Room, p: Position) -> bool {
    &&& r.x <= p.x < r.x + r.w
    &&& r.y <= p.y < r.y + r.h
}

/// The cell lies inside one of the given rooms.
pub open spec fn in_some_room(rooms: Seq<Room>, p: Position) -> bool {
    exists|k: int| 0 <= k < rooms.len() && pos_in_room(#[trigger] rooms[k], p)
}

/// What furnishing may do to the store: every old entity is untouched, and
/// whatever is new stands on this map's floor, inside one of its rooms, and
/// carries no player marker.
pub open spec fn furnish_world_delta(ow: World, nw: World, depth: int, rooms: Seq<Room>) -> bool {
    &&& nw.wf()
    &&& forall|e: Entity| #[trigger]
        ow.live(e) ==> nw.live(e) && nw.being(e) == ow.being(e)
    &&& forall|e: Entity| #[trigger]
        nw.live(e) ==> ow.live(e) || {
            &&& nw.being(e).floor == depth
            &&& nw.being(e).player is None
            &&& nw.being(e).pos matches Some(p) && in_some_room(rooms, p)
        }
}

/// Spawns the player's bundle at its starting cell, marks the cell occupied,
/// and hands the player its base combat numbers.  Without a player definition
/// in the tables, nothing is spawned.
pub fn add_player_to_room(
    world: &mut World,
    map: &mut WorldMap,
    db: &EntityDatabase,
    player_start: Position,
)
    requires
        old(world).wf(),
        old(map).wf(),
        occupancy_consistent(*old(world), *old(map)),
        old(map).in_bounds(player_start),
        0 <= old(map).index_of(player_start) < old(map).beings@.len(),
        old(map).beings@[old(map).index_of(player_start)] is None,
        forall|e: Entity| #[trigger] old(world).live(e) ==> old(world).being(e).player is None,
    ensures
        final (world).wf(),
        final (map).wf(),
        occupancy_consistent(*final (world), *final (map)),
        same_apart_from_beings(*old(map), *final (map)),
        forall|e: Entity| #[trigger]
            old(world).live(e) ==> final (world).live(e) && final (world).being(e) == old(
                world,
            ).being(e),
        forall|e: Entity| #[trigger]
            final (world).live(e) ==> old(world).live(e) || (final (world).being(e).floor
                == final (map).depth && final (world).being(e).pos == Some(player_start)),
        forall|e1: Entity, e2: Entity|
            #![trigger final (world).live(e1), final (world).live(e2)]
            final (world).live(e1) && final (world).live(e2) && final (world).being(e1).player
                is Some && final (world).being(e2).player is Some ==> e1 == e2,
        match db.find_living("Player"@) {
            None => *final (world) == *old(world) && *final (map) == *old(map),
            Some(i) => old(world).slots@.len() < usize::MAX ==> exists|e: Entity|
                #[trigger] final (world).live(e) && {
                    &&& !old(world).live(e)
                    &&& final (world).being(e).pos == Some(player_start)
                    &&& final (world).being(e).floor == old(map).depth
                    &&& final (world).being(e).stats == Some(
                        CombatStats { health: 200, max_health: 200, attack: 10, defense: 1 },
                    )
                    &&& (final (world).being(e).player is Some <==> db.living.all@[i].player
                        is Some)
                    &&& final (map).beings@ == old(map).beings@.update(
                        old(map).index_of(player_start),
                        Some(e),
                    )
                },
        },
{
    let b = match named_living_builder(db, "Player", player_start) {
        Some(b) => b,
        None => {
            return ;
        },
    };
    if world.slots.len() == usize::MAX {
        return ;
    }
    let depth = map.depth;
    let stats = CombatStats::new(200, 10, 1);
    let being = Being { floor: depth, stats: Some(stats), ..b };
    let ghost ow = *world;
    let ghost om = *map;
    let e = world.spawn(being);
    let idx = map.index(player_start);
    map.beings[idx] = Some(e);
    proof {
        occupancy_after_place(ow, om, *world, *map, e, player_start);
        assert(world.live(e) && world.being(e) == being);
    }
}


/// The name the draw picks for a room spawn.
pub open spec fn pick_name(pick: u8) -> Seq<char> {
    if pick % 3 == 0 {
        "Centipede"@
    } else if pick % 3 == 1 {
        "Mole"@
    } else {
        "Star Nosed Mole"@
    }
}

/// Exactly what one room-spawn attempt does, as a function of the four drawn
/// values: a three-in-five chance gate, then the drawn cell of the room,
/// skipped when it is off the map or occupied, then the drawn name's bundle,
/// skipped when undefined or player-marked — and otherwise a new being of
/// this floor standing on that cell.
pub open spec fn room_draw_outcome(
    ow: World,
    om: WorldMap,
    nw: World,
    nm: WorldMap,
    db: EntityDatabase,
    room: Room,
    chance: u8,
    ox_draw: u32,
    oy_draw: u32,
    pick: u8,
    r: Option<Entity>,
) -> bool {
    let px = room.x + (ox_draw as int) % (room.w as int);
    let py = room.y + (oy_draw as int) % (room.h as int);
    let name = pick_name(pick);
    if chance % 5 >= 3 {
        r is None && nw == ow && nm == om
    } else if px < 0 || px > i32::MAX || py < 0 || py > i32::MAX {
        r is None && nw == ow && nm == om
    } else {
        let p = Position { x: px as i32, y: py as i32 };
        if !om.in_bounds(p) {
            r is None && nw == ow && nm == om
        } else if om.beings@[om.index_of(p)] is Some {
            r is None && nw == ow && nm == om
        } else {
            match db.find_living(name) {
                None => r is None && nw == ow && nm == om,
                Some(ix) => if db.living.all@[ix].player is Some || ow.slots@.len()
                    == usize::MAX {
                    r is None && nw == ow && nm == om
                } else {
                    r matches Some(e) && {
                        &&& !ow.live(e)
                        &&& nw.live(e)
                        &&& forall|e2: Entity| #[trigger] nw.live(e2) ==> ow.live(e2) || e2 == e
                        &&& forall|e2: Entity| #[trigger]
                            ow.live(e2) ==> nw.live(e2) && nw.being(e2) == ow.being(e2)
                        &&& crate::data_read::built_living(
                            db.living.all@[ix],
                            name,
                            p,
                            (Being { floor: 0, ..nw.being(e) }),
                        )
                        &&& nw.being(e).floor == om.depth
                        &&& nm.beings@ == om.beings@.update(om.index_of(p), Some(e))
                    }
                },
            }
        }
    }
}

/// One spawn attempt into a room, with the four random draws taken as plain
/// arguments so that the whole placement is verified for every draw.
pub fn spawn_room_being(
    world: &mut World,
    map: &mut WorldMap,
    db: &EntityDatabase,
    room: Room,
    chance: u8,
    ox_draw: u32,
    oy_draw: u32,
    pick: u8,
) -> (r: Option<Entity>)
    requires
        old(world).wf(),
        old(map).wf(),
        occupancy_consistent(*old(world), *old(map)),
        room.w >= 1,
        room.h >= 1,
    ensures
        final (world).wf(),
        final (map).wf(),
        occupancy_consistent(*final (world), *final (map)),
        same_apart_from_beings(*old(map), *final (map)),
        room_draw_outcome(
            *old(world),
            *old(map),
            *final (world),
            *final (map),
            *db,
            room,
            chance,
            ox_draw,
            oy_draw,
            pick,
            r,
        ),
{
    if chance % 5 >= 3 {
        return None;
    }
    let ox = (ox_draw % (room.w as u32)) as i64;
    let oy = (oy_draw % (room.h as u32)) as i64;
    let px = room.x as i64 + ox;
    let py = room.y as i64 + oy;
    if px < 0 || px > i32::MAX as i64 || py < 0 || py > i32::MAX as i64 {
        return None;
    }
    let being_pos = Position { x: px as i32, y: py as i32 };
    if !map.within_bounds(being_pos) {
        return None;
    }
    let idx = map.index(being_pos);
    match map.occupant_at(idx) {
        Some(_) => {
            return None;
        },
        None => {},
    }
    let sel = pick % 3;
    let being_name = if sel == 0 {
        "Centipede"
    } else if sel == 1 {
        "Mole"
    } else {
        "Star Nosed Mole"
    };
    let b = match named_living_builder(db, being_name, being_pos) {
        Some(b) => b,
        None => {
            return None;
        },
    };
    if b.player.is_some() || b.pos.is_none() {
        proof {
            assert(b.pos is Some);
        }
        return None;
    }
    if world.slots.len() == usize::MAX {
        return None;
    }
    let depth = map.depth;
    let being = Being { floor: depth, ..b };
    let ghost ow = *world;
    let ghost om = *map;
    let e = world.spawn(being);
    map.beings[idx] = Some(e);
    proof {
        occupancy_after_place(ow, om, *world, *map, e, being_pos);
        assert((Being { floor: 0, ..world.being(e) }) == b);
    }
    Some(e)
}

/// Adds the life to the map: every room draws a few beings, each placed on a
/// drawn free cell of the room, standing on this map's floor.
pub fn add_beings_to_rooms(world: &mut World, map: &mut WorldMap, db: &EntityDatabase)
    requires
        old(world).wf(),
        old(map).wf(),
        occupancy_consistent(*old(world), *old(map)),
    ensures
        final (world).wf(),
        final (map).wf(),
        occupancy_consistent(*final (world), *final (map)),
        same_apart_from_beings(*old(map), *final (map)),
        furnish_world_delta(*old(world), *final (world), final (map).depth as int, old(map).rooms@),
{
    let nrooms = map.rooms.len();
    let mut ri: usize = 0;
    while ri < nrooms
        invariant
            world.wf(),
            map.wf(),
            occupancy_consistent(*world, *map),
            same_apart_from_beings(*old(map), *map),
            nrooms == map.rooms@.len(),
            ri <= nrooms,
            furnish_world_delta(*old(world), *world, map.depth as int, old(map).rooms@),
        decreases nrooms - ri,
    {
        let room = map.rooms[ri];
        if room.w >= 1 && room.h >= 1 {
            proof {
                assert(room.w as i64 * room.h as i64 <= 0x3fff_ffff_0000_0001) by (nonlinear_arith)
                    requires
                        1 <= room.w <= 0x7fff_ffff,
                        1 <= room.h <= 0x7fff_ffff,
                ;
            }
            let area = room.w as i64 * room.h as i64;
            let spawns = (area / 15) as i64;
            let mut s: i64 = 0;
            while s < spawns
                invariant
                    world.wf(),
                    map.wf(),
                    occupancy_consistent(*world, *map),
                    same_apart_from_beings(*old(map), *map),
                    furnish_world_delta(*old(world), *world, map.depth as int, old(map).rooms@),
                    room.w >= 1,
                    room.h >= 1,
                    nrooms == map.rooms@.len(),
                    ri < nrooms,
                    room == map.rooms@[ri as int],
                decreases spawns - s,
            {
                s = s + 1;
                let chance = rand::random::<u8>();
                let ox_draw = rand::random::<u32>();
                let oy_draw = rand::random::<u32>();
                let pick = rand::random::<u8>();
                let ghost w0 = *world;
                let ghost m0 = *map;
                let spawned = spawn_room_being(
                    world,
                    map,
                    db,
                    room,
                    chance,
                    ox_draw,
                    oy_draw,
                    pick,
                );
                proof {
                    match spawned {
                        Some(e) => {
                            let px = room.x + (ox_draw as int) % (room.w as int);
                            let py = room.y + (oy_draw as int) % (room.h as int);
                            let p = Position { x: px as i32, y: py as i32 };
                            assert(world.being(e).pos == Some(p));
                            assert(world.being(e).player is None);
                            assert(pos_in_room(room, p));
                            assert(room == old(map).rooms@[ri as int]);
                            assert(in_some_room(old(map).rooms@, p));
                            assert forall|e2: Entity| #[trigger]
                                world.live(e2) implies w0.live(e2) || {
                                &&& world.being(e2).floor == map.depth
                                &&& world.being(e2).player is None
                                &&& world.being(e2).pos matches Some(q) && in_some_room(
                                    old(map).rooms@,
                                    q,
                                )
                            } by {
                                if !w0.live(e2) {
                                    assert(e2 == e);
                                }
                            }
                        },
                        None => {},
                    }
                }
            }
        }
        ri = ri + 1;
    }
}

/// Adds the life and decor to the map.
pub fn furnish_map(world: &mut World, map: &mut WorldMap, db: &EntityDatabase)
    requires
        old(world).wf(),
        old(map).wf(),
        occupancy_consistent(*old(world), *old(map)),
    ensures
        final (world).wf(),
        final (map).wf(),
        occupancy_consistent(*final (world), *final (map)),
        same_apart_from_beings(*old(map), *final (map)),
        furnish_world_delta(*old(world), *final (world), final (map).depth as int, old(map).rooms@),
{
    add_beings_to_rooms(world, map, db);
}

/// Creates a new ground-floor map and sets up the world for the start of a
/// fresh run.
pub fn start_new_game(
    world: &mut World,
    db: &EntityDatabase,
    seed: u64,
    width: usize,
    height: usize,
) -> (r: WorldMap)
    requires
        old(world).wf(),
        old(world).slots@.len() == 0,
        forall|e: Entity| !old(world).live(e),
        16 <= width <= 1000,
        8 <= height <= 1000,
    ensures
        final (world).wf(),
        r.wf(),
        r.width == width,
        r.height == height,
        r.depth == 0,
        occupancy_consistent(*final (world), r),
        forall|i: int|
            0 <= i < r.tiles@.len() ==> #[trigger] r.tiles@[i] == gen_tile(
                0,
                width as int,
                height as int,
                i % (width as int),
                i / (width as int),
            ),
        forall|i: int|
            0 <= i < r.destructibles@.len() ==> #[trigger] r.destructibles@[i] == gen_destructible(
                (seed % 5) as int,
                width as int,
                height as int,
                i % (width as int),
                i / (width as int),
            ),
        db.find_living("Player"@) is Some ==> exists|e: Entity|
            #[trigger] final (world).live(e) && {
                &&& final (world).being(e).pos == Some(gen_player_start(height as int))
                &&& final (world).being(e).stats == Some(
                    CombatStats { health: 200, max_health: 200, attack: 10, defense: 1 },
                )
                &&& (final (world).being(e).player is Some
                    <==> db.living.all@[db.find_living("Player"@).unwrap()].player is Some)
                &&& 0 <= r.index_of(gen_player_start(height as int)) < r.beings@.len()
                &&& r.beings@[r.index_of(gen_player_start(height as int))] == Some(e)
            },
        forall|e: Entity| #[trigger]
            final (world).live(e) ==> (final (world).being(e).player is Some ==> final (
                world).being(e).floor == r.depth),
        forall|e1: Entity, e2: Entity|
            #![trigger final (world).live(e1), final (world).live(e2)]
            final (world).live(e1) && final (world).live(e2) && final (world).being(e1).player
                is Some && final (world).being(e2).player is Some ==> e1 == e2,
        forall|e: Entity| #[trigger]
            final (world).live(e) ==> final (world).being(e).floor == r.depth,
{
    let (mut map, player_start) = generate_map(seed, 0, width, height);
    proof {
        map.lemma_index_in_range(player_start);
    }
    add_player_to_room(world, &mut map, db, player_start);
    let ghost w1 = *world;
    furnish_map(world, &mut map, db);
    proof {
        if db.find_living("Player"@) is Some {
            let e = choose|e: Entity|
                #[trigger] w1.live(e) && {
                    &&& w1.being(e).pos == Some(player_start)
                    &&& w1.being(e).floor == 0
                    &&& w1.being(e).stats == Some(
                        CombatStats { health: 200, max_health: 200, attack: 10, defense: 1 },
                    )
                    &&& (w1.being(e).player is Some <==> db.living.all@[db.find_living(
                        "Player"@,
                    ).unwrap()].player is Some)
                };
            assert(world.live(e) && world.being(e) == w1.being(e));
            map.lemma_index_in_range(player_start);
            assert(map.beings@[map.index_of(player_start)] == Some(e));
        }
    }
    map
}

/// First free, walkable cell for the arriving player, preferring the
/// staircase one arrives on.
/// The seed a freshly visited floor is generated from.
pub open spec fn floor_seed(seed: u64, depth: i32) -> u64 {
    seed.wrapping_add(
        if depth >= 0 {
            depth as u64
        } else {
            0
        },
    )
}

/// Some cell of the map is both unoccupied and walkable.
pub open spec fn has_free_cell(m: WorldMap) -> bool {
    exists|i: int|
        0 <= i < m.beings@.len() && m.beings@[i] is None && !(#[trigger] m.tiles@[i]).is_blocking
}

/// A placed, seeing player exists: the one precondition a floor change puts
/// on the store.
pub open spec fn player_placed_seeing(w: World) -> bool {
    match w.first_player() {
        Some(p) => w.being(p).pos is Some && w.being(p).view is Some,
        None => false,
    }
}

/// Exactly when a floor swap to depth `d` goes through: a placed, seeing
/// player, room in the cache for the floor being left, and — on a revisit —
/// a free walkable cell on the cached floor to arrive on.  A floor generated
/// fresh always has one.
pub open spec fn floor_swap_possible(w: World, cache: FloorCache, d: int) -> bool {
    &&& player_placed_seeing(w)
    &&& cache.entries@.len() < usize::MAX
    &&& (cache.has_depth(d) ==> has_free_cell(cache.spec_at(d)))
}

fn find_spot(map: &WorldMap, want: TileType) -> (r: Option<usize>)
    requires
        map.wf(),
    ensures
        match r {
            Some(i) => i < map.beings@.len() && map.beings@[i as int] is None
                && !map.tiles@[i as int].is_blocking,
            None => !has_free_cell(*map),
        },
{
    let n = map.tiles.len();
    let mut i: usize = 0;
    while i < n
        invariant
            map.wf(),
            n == map.tiles@.len(),
            i <= n,
        decreases n - i,
    {
        let t = map.tile_at(i);
        if !t.is_blocking && t.tile_type == want {
            match map.occupant_at(i) {
                Some(_) => {},
                None => {
                    return Some(i);
                },
            }
        }
        i = i + 1;
    }
    let mut j: usize = 0;
    while j < n
        invariant
            map.wf(),
            n == map.tiles@.len(),
            j <= n,
            forall|k: int|
                0 <= k < j ==> !(map.beings@[k] is None && !(#[trigger] map.tiles@[k]).is_blocking),
        decreases n - j,
    {
        let t = map.tile_at(j);
        if !t.is_blocking {
            match map.occupant_at(j) {
                Some(_) => {},
                None => {
                    return Some(j);
                },
            }
        }
        j = j + 1;
    }
    None
}

/// Swaps the current floor for the one of the target depth: the floor being
/// left goes into the cache as it stands, the target comes back verbatim from
/// the cache or is generated and furnished on first visit, and the player is
/// repositioned onto a free walkable cell — the arrival staircase where one
/// is free.  The transition is refused, and the floor and store left as they
/// were, where there is no placed, seeing player or the target floor has no
/// free walkable cell.
pub fn move_to_new_floor(state: &mut State, db: &EntityDatabase, new_depth: i32) -> (r: bool)
    requires
        old(state).wf(),
        new_depth != old(state).map.depth,
    ensures
        final (state).wf(),
        final (state).runstate == old(state).runstate,
        final (state).turn_counter == old(state).turn_counter,
        final (state).config == old(state).config,
        final (state).message_log == old(state).message_log,
        final (state).visible == old(state).visible,
        r == floor_swap_possible(
            old(state).world,
            old(state).generated_maps,
            new_depth as int,
        ),
        r ==> final (state).map.depth == new_depth,
        r ==> final (state).generated_maps.has_depth(old(state).map.depth as int),
        !r ==> final (state).map == old(state).map && final (state).world == old(state).world,
        // a first visit generates the floor as a pure function of the
        // world seed, the depth and the configured dimensions
        (r && !old(state).generated_maps.has_depth(new_depth as int)) ==> {
            &&& forall|i: int|
                0 <= i < final (state).map.tiles@.len() ==> #[trigger] final (
                state).map.tiles@[i] == gen_tile(
                    new_depth as int,
                    old(state).config.map_x as int,
                    old(state).config.map_y as int,
                    i % (old(state).config.map_x as int),
                    i / (old(state).config.map_x as int),
                )
            &&& forall|i: int|
                0 <= i < final (state).map.destructibles@.len() ==> #[trigger] final (
                state).map.destructibles@[i] == gen_destructible(
                    (floor_seed(old(state).config.world_seed, new_depth) % 5) as int,
                    old(state).config.map_x as int,
                    old(state).config.map_y as int,
                    i % (old(state).config.map_x as int),
                    i / (old(state).config.map_x as int),
                )
        },
        (r && old(state).generated_maps.has_depth(new_depth as int)) ==> exists|i: int, ai: int|
            #![trigger old(state).generated_maps.entries@[i].1.beings@[ai]]
            {
                &&& 0 <= i < old(state).generated_maps.entries@.len()
                &&& old(state).generated_maps.entries@[i].0 == new_depth
                &&& {
                    let m = old(state).generated_maps.entries@[i].1;
                    &&& final (state).map.tiles@ == m.tiles@
                    &&& final (state).map.destructibles@ == m.destructibles@
                    &&& final (state).map.rooms@ == m.rooms@
                    &&& final (state).map.discovered@ == m.discovered@
                    &&& 0 <= ai < m.beings@.len()
                    &&& m.beings@[ai] is None
                    &&& final (state).map.beings@ == m.beings@.update(
                        ai,
                        Some(old(state).world.first_player().unwrap()),
                    )
                }
            },
{
    let pe = match state.world.player_entity() {
        Some(pe) => pe,
        None => {
            proof {
                assert(!player_placed_seeing(old(state).world));
            }
            return false;
        },
    };
    let (ppos, has_view) = match state.world.lookup(pe) {
        Some(b) => (b.pos, b.view.is_some()),
        None => (None, false),
    };
    let ppos = match ppos {
        Some(p) => p,
        None => {
            proof {
                assert(!player_placed_seeing(old(state).world));
            }
            return false;
        },
    };
    if !has_view {
        proof {
            assert(!player_placed_seeing(old(state).world));
        }
        return false;
    }
    if state.generated_maps.entries.len() == usize::MAX {
        return false;
    }
    let old_depth = state.map.depth;
    let want = if new_depth > old_depth {
        TileType::UpStairs
    } else {
        TileType::DownStairs
    };

    let cached = state.generated_maps.take(new_depth);
    let ghost cache_after_take = state.generated_maps;
    let from_cache = match &cached {
        Some(_) => true,
        None => false,
    };
    let mut target = match cached {
        Some(m) => m,
        None => {
            let d64: u64 = if new_depth >= 0 {
                new_depth as u64
            } else {
                0
            };
            let seed = state.config.world_seed.wrapping_add(d64);
            proof {
                assert(seed == floor_seed(old(state).config.world_seed, new_depth));
            }
            let (m, _start) = generate_map(seed, new_depth, state.config.map_x, state.config.map_y);
            m
        },
    };
    proof {
        if from_cache {
            let i = choose|i: int|
                {
                    &&& 0 <= i < old(state).generated_maps.entries@.len()
                    &&& old(state).generated_maps.entries@[i] == (new_depth, target)
                    &&& #[trigger] cache_after_take.entries@ == old(
                        state,
                    ).generated_maps.entries@.remove(i)
                };
            assert(old(state).generated_maps.entries@[i] == (new_depth, target));
            assert(occupancy_consistent(state.world, target) && target.wf() && target.depth
                == new_depth);
        } else {
            assert forall|i: int| #![trigger target.beings@[i]]
                0 <= i < target.beings@.len() implies (target.beings@[i] matches Some(e2) ==> {
                &&& state.world.live(e2)
                &&& state.world.being(e2).floor == target.depth
                &&& state.world.being(e2).pos matches Some(q) && target.in_bounds(q)
                    && target.index_of(q) == i
            }) by {}
            assert forall|e2: Entity| #![trigger state.world.live(e2)]
                state.world.live(e2) implies (state.world.being(e2).floor == target.depth ==> (
            state.world.being(e2).pos matches Some(q) ==> {
                &&& target.in_bounds(q)
                &&& 0 <= target.index_of(q) < target.beings@.len()
                &&& target.beings@[target.index_of(q)] == Some(e2)
            })) by {
                if state.world.being(e2).floor == target.depth {
                    assert(!old(state).generated_maps.has_depth(new_depth as int));
                    assert(false);
                }
            }
            assert(occupancy_consistent(state.world, target));
        }
    }
    let spot = match find_spot(&target, want) {
        Some(i) => i,
        None => {
            // refuse the transition and put a cached floor back
            if from_cache {
                state.generated_maps.insert(new_depth, target);
                proof {
                    let i = choose|i: int|
                        {
                            &&& 0 <= i < old(state).generated_maps.entries@.len()
                            &&& old(state).generated_maps.entries@[i] == (new_depth, target)
                            &&& #[trigger] cache_after_take.entries@ == old(
                                state,
                            ).generated_maps.entries@.remove(i)
                        };
                    assert forall|j: int|
                        0 <= j < state.generated_maps.entries@.len() implies {
                        let en = #[trigger] state.generated_maps.entries@[j];
                        &&& en.1.wf()
                        &&& en.1.depth == en.0
                        &&& en.0 != state.map.depth as int
                        &&& occupancy_consistent(state.world, en.1)
                    } by {
                        if j + 1 < state.generated_maps.entries@.len() {
                            if j < i {
                                assert(old(state).generated_maps.entries@[j]
                                    == state.generated_maps.entries@[j]);
                            } else {
                                assert(old(state).generated_maps.entries@[j + 1]
                                    == state.generated_maps.entries@[j]);
                            }
                        } else {
                            assert(state.generated_maps.entries@[j] == (new_depth, target));
                        }
                    }
                    // the revisited floor itself has no free walkable cell
                    let k = choose|k: int|
                        0 <= k < old(state).generated_maps.entries@.len() && (#[trigger] old(
                            state,
                        ).generated_maps.entries@[k]).0 == new_depth;
                    assert(old(state).generated_maps.entries@[i].0 == new_depth);
                    assert(k == i);
                    assert(old(state).generated_maps.spec_at(new_depth as int) == target);
                    assert(!has_free_cell(target));
                    assert(!floor_swap_possible(
                        old(state).world,
                        old(state).generated_maps,
                        new_depth as int,
                    ));
                }
            } else {
                // a freshly generated floor always has its free corridor cell
                proof {
                    let start = gen_player_start(state.config.map_y as int);
                    target.lemma_index_in_range(start);
                    let si = target.index_of(start);
                    assert(target.beings@[si] is None);
                    assert(!target.tiles@[si].is_blocking);
                    assert(has_free_cell(target));
                    assert(false);
                }
            }
            return false;
        },
    };
    proof {
        assert(target.width > 0) by (nonlinear_arith)
            requires
                target.tiles@.len() == target.width * target.height,
                target.tiles@.len() > 0,
        ;
    }
    let spot_pos = target.idx_to_pos(spot);
    let ghost target0 = target;

    // the floor being left keeps everything but the departing player
    let pidx = state.map.index(ppos);
    state.map.beings[pidx] = None;

    core::mem::swap(&mut state.map, &mut target);
    // `target` now holds the floor being left
    let ghost left_map = target;
    let ghost w0 = state.world;
    state.world.set_floor(pe, new_depth);
    let ghost w1 = state.world;
    state.world.set_pos(pe, spot_pos);
    let ghost w2 = state.world;
    state.world.mark_view_dirty(pe);
    proof {
        assert forall|e2: Entity| #[trigger]
            w0.live(e2) && e2 != pe implies state.world.being(e2) == w0.being(e2) by {
            assert(w1.live(e2));
            assert(w2.live(e2));
        }
        assert forall|e2: Entity| #![trigger state.world.live(e2)]
            state.world.live(e2) <==> w0.live(e2) by {
            assert(w1.live(e2) <==> w0.live(e2));
            assert(w2.live(e2) <==> w1.live(e2));
        }
    }
    let ghost m_pre = state.map;
    state.map.beings[spot] = Some(pe);
    proof {
        occupancy_after_place(w0, m_pre, state.world, state.map, pe, spot_pos);
    }
    let ghost w3 = state.world;
    let ghost m3 = state.map;

    // cache the floor being left; its depth cannot already be cached
    state.generated_maps.insert(old_depth, target);

    if !from_cache {
        furnish_map(&mut state.world, &mut state.map, db);
    }
    proof {
        assert(player_placed_seeing(old(state).world));
        if old(state).generated_maps.has_depth(new_depth as int) {
            assert(from_cache);
            let i = choose|i: int|
                {
                    &&& 0 <= i < old(state).generated_maps.entries@.len()
                    &&& old(state).generated_maps.entries@[i] == (new_depth, target0)
                    &&& #[trigger] cache_after_take.entries@ == old(
                        state,
                    ).generated_maps.entries@.remove(i)
                };
            let k = choose|k: int|
                0 <= k < old(state).generated_maps.entries@.len() && (#[trigger] old(
                    state,
                ).generated_maps.entries@[k]).0 == new_depth;
            assert(old(state).generated_maps.entries@[i].0 == new_depth);
            assert(k == i);
            assert(old(state).generated_maps.spec_at(new_depth as int) == target0);
            assert(target0.beings@[spot as int] is None && !target0.tiles@[spot as int].is_blocking);
            assert(has_free_cell(target0));
        }
        assert(floor_swap_possible(
            old(state).world,
            old(state).generated_maps,
            new_depth as int,
        ));
    }
    proof {
        let wfin = state.world;
        let cfin = state.generated_maps;
        assert(w0 == old(state).world);
        assert(wfin.live(pe) && wfin.being(pe) == w3.being(pe));
        assert(w3.being(pe).player == w0.being(pe).player);
        assert(w3.being(pe).floor == new_depth);

        // the player is still the only marked entity, on the new floor
        assert forall|e: Entity| #[trigger]
            wfin.live(e) && wfin.being(e).player is Some implies e == pe by {
            if w3.live(e) {
                if e != pe {
                    assert(w0.live(e));
                    assert(w3.being(e) == w0.being(e));
                    assert(wfin.being(e) == w3.being(e));
                    assert(w0.being(e).player is Some);
                    assert(w0.being(pe).player is Some);
                    assert(false);
                }
            } else {
                assert(wfin.being(e).player is None);
                assert(false);
            }
        }

        // every live entity still stands on the current floor or a cached one
        assert forall|e: Entity| #[trigger]
            wfin.live(e) implies (wfin.being(e).floor == state.map.depth || cfin.has_depth(
            wfin.being(e).floor as int,
        )) by {
            if w3.live(e) {
                if e == pe {
                } else {
                    assert(w0.live(e));
                    assert(wfin.being(e) == w0.being(e));
                    let fl = w0.being(e).floor;
                    if fl == old_depth {
                        assert(cfin.has_depth(old_depth as int));
                    } else if old(state).generated_maps.has_depth(fl as int) {
                        if fl == new_depth {
                        } else {
                            assert(cache_after_take.has_depth(fl as int));
                            assert(cfin.has_depth(fl as int));
                        }
                    }
                }
            } else {
                assert(wfin.being(e).floor == state.map.depth);
            }
        }

        // every cached floor, including the one just left, stays sound
        assert forall|j: int| 0 <= j < cfin.entries@.len() implies {
            let en = #[trigger] cfin.entries@[j];
            &&& en.1.wf()
            &&& en.1.depth == en.0
            &&& en.0 != state.map.depth as int
            &&& occupancy_consistent(wfin, en.1)
        } by {
            if j < cache_after_take.entries@.len() {
                assert(cfin.entries@[j] == cache_after_take.entries@[j]);
                let en = cache_after_take.entries@[j];
                if from_cache {
                    let i = choose|i: int|
                        {
                            &&& 0 <= i < old(state).generated_maps.entries@.len()
                            &&& old(state).generated_maps.entries@[i] == (new_depth, target0)
                            &&& #[trigger] cache_after_take.entries@ == old(
                                state,
                            ).generated_maps.entries@.remove(i)
                        };
                    if j < i {
                        assert(old(state).generated_maps.entries@[j] == en);
                    } else {
                        assert(old(state).generated_maps.entries@[j + 1] == en);
                    }
                } else {
                    assert(old(state).generated_maps.entries@[j] == en);
                }
                assert(en.1.wf() && en.1.depth == en.0 && en.0 != old_depth as int
                    && occupancy_consistent(w0, en.1));
                assert(en.0 != new_depth as int) by {
                    assert(!cache_after_take.has_depth(new_depth as int));
                }
                assert forall|e2: Entity| #[trigger]
                    w0.live(e2) && w0.being(e2).floor == en.1.depth implies wfin.live(e2)
                    && wfin.being(e2) == w0.being(e2) by {
                    assert(e2 != pe);
                    assert(w3.live(e2) && w3.being(e2) == w0.being(e2));
                }
                assert forall|e2: Entity| #[trigger]
                    wfin.live(e2) && wfin.being(e2).floor == en.1.depth implies w0.live(e2)
                    && w0.being(e2) == wfin.being(e2) by {
                    if w3.live(e2) {
                        assert(e2 != pe);
                        assert(w3.being(e2) == w0.being(e2));
                    } else {
                        assert(wfin.being(e2).floor == state.map.depth);
                        assert(false);
                    }
                }
                occupancy_preserved_generic(w0, wfin, en.1);
            } else {
                // the floor just left: its monsters are untouched and the
                // departed player is no longer indexed on it
                assert(cfin.entries@[j] == (old_depth, left_map));
                let om = old(state).map;
                assert(left_map.beings@ == om.beings@.update(om.index_of(ppos), None));
                assert(om.beings@[om.index_of(ppos)] == Some(pe));
                let lpi = om.index_of(ppos);
                assert forall|k: int| #![trigger left_map.beings@[k]]
                    0 <= k < left_map.beings@.len() implies (left_map.beings@[k] matches Some(e2)
                    ==> {
                    &&& wfin.live(e2)
                    &&& wfin.being(e2).floor == left_map.depth
                    &&& wfin.being(e2).pos matches Some(q) && left_map.in_bounds(q)
                        && left_map.index_of(q) == k
                }) by {
                    match left_map.beings@[k] {
                        Some(e2) => {
                            assert(k != lpi);
                            assert(om.beings@[k] == Some(e2));
                            assert(w0.live(e2));
                            if e2 == pe {
                                assert(om.index_of(w0.being(pe).pos.unwrap()) == k);
                                assert(false);
                            }
                            assert(w3.live(e2) && w3.being(e2) == w0.being(e2));
                        },
                        None => {},
                    }
                }
                assert forall|e2: Entity| #![trigger wfin.live(e2)]
                    wfin.live(e2) implies (wfin.being(e2).floor == left_map.depth ==> (
                wfin.being(e2).pos matches Some(q) ==> {
                    &&& left_map.in_bounds(q)
                    &&& 0 <= left_map.index_of(q) < left_map.beings@.len()
                    &&& left_map.beings@[left_map.index_of(q)] == Some(e2)
                })) by {
                    if wfin.being(e2).floor == left_map.depth {
                        if w3.live(e2) {
                            assert(e2 != pe);
                            assert(w3.being(e2) == w0.being(e2));
                            assert(w0.live(e2));
                            match w0.being(e2).pos {
                                Some(q) => {
                                    assert(om.beings@[om.index_of(q)] == Some(e2));
                                    assert(om.index_of(q) != lpi);
                                },
                                None => {},
                            }
                        } else {
                            assert(wfin.being(e2).floor == state.map.depth);
                            assert(false);
                        }
                    }
                }
                assert(occupancy_consistent(wfin, left_map));
            }
        }

        // a revisit hands the cached floor back verbatim, plus the player
        if from_cache {
            let i = choose|i: int|
                {
                    &&& 0 <= i < old(state).generated_maps.entries@.len()
                    &&& old(state).generated_maps.entries@[i] == (new_depth, target0)
                    &&& #[trigger] cache_after_take.entries@ == old(
                        state,
                    ).generated_maps.entries@.remove(i)
                };
            assert(old(state).generated_maps.entries@[i].1.beings@[spot as int] is None);
            assert(state.map.beings@ == target0.beings@.update(spot as int, Some(pe)));
        }
    }
    true
}

} // verus!
