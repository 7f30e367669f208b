use terra_core::actor::{
    bump_tile, change_floor, mine, player_attack, player_bump, render_entities,
    safe_position_delta, CharSprite, MoveResult, Player, Position,
};
use terra_core::combat::{attack, destroy_dead_beings, CombatStats};
use terra_core::data_read::{
    has_tile, named_living_builder, named_tile, parse_color, str_eq, EntityDatabase, Living,
    LivingData, RawSprite, TileData, TileInfo,
};
use terra_core::fov::{compute_visible, contains_pos, update_vision, ViewShed};
use terra_core::map::{Destructible, TileType, WorldMap, WorldTile};
use terra_core::messagelog::Message;
use terra_core::monster::{handle_monster_turns, BeingAI, Breed, Pathfinder};
use terra_core::state::{
    get_player_pos, get_player_stats, handle_player_action, Config, FloorCache, MenuIndex,
    PlayerAction, PlayerResponse, RunState, State,
};
use terra_core::world::{Being, Entity, World};
use terra_core::worldgen::{generate_map, move_to_new_floor, spawn_room_being, start_new_game};
use terra_core::map::Room;

fn floor_tile() -> WorldTile {
    WorldTile {
        is_blocking: false,
        is_transparent: true,
        tile_type: TileType::Floor,
        sprite: CharSprite::new('.', (100, 100, 100), (0, 0, 0)),
    }
}

fn wall_tile() -> WorldTile {
    WorldTile {
        is_blocking: true,
        is_transparent: false,
        tile_type: TileType::Wall,
        sprite: CharSprite::new('#', (130, 130, 130), (0, 0, 0)),
    }
}

fn stairs_tile(t: TileType) -> WorldTile {
    WorldTile {
        is_blocking: false,
        is_transparent: true,
        tile_type: t,
        sprite: CharSprite::new('>', (230, 230, 230), (0, 0, 0)),
    }
}

fn flat_map(w: usize, h: usize, depth: i32) -> WorldMap {
    let n = w * h;
    WorldMap {
        tiles: vec![floor_tile(); n],
        destructibles: vec![None; n],
        beings: vec![None; n],
        discovered: vec![false; n],
        width: w,
        height: h,
        depth,
        rooms: Vec::new(),
    }
}

fn idx(map: &WorldMap, x: i32, y: i32) -> usize {
    (y as usize) * map.width + (x as usize)
}

fn player_being(x: i32, y: i32, depth: i32, hp: u32, atk: i32, def: i32) -> Being {
    Being {
        pos: Some(Position::new(x, y)),
        floor: depth,
        view: Some(ViewShed::new(8)),
        stats: Some(CombatStats::new(hp, atk, def)),
        breed: None,
        sprite: Some(CharSprite::new('@', (255, 255, 255), (0, 0, 0))),
        name: None,
        player: Some(Player),
    }
}

fn monster_being(name: &str, x: i32, y: i32, depth: i32, hp: u32, atk: i32, def: i32) -> Being {
    Being {
        pos: Some(Position::new(x, y)),
        floor: depth,
        view: Some(ViewShed::new(8)),
        stats: Some(CombatStats::new(hp, atk, def)),
        breed: Some(Breed::from(name, "critter", "basic")),
        sprite: Some(CharSprite::new('c', (200, 60, 60), (0, 0, 0))),
        name: None,
        player: None,
    }
}

fn spawn_at(world: &mut World, map: &mut WorldMap, b: Being) -> Entity {
    let p = b.pos.unwrap();
    let e = world.spawn(b);
    let i = idx(map, p.x, p.y);
    map.beings[i] = Some(e);
    e
}

fn empty_db() -> EntityDatabase {
    EntityDatabase::empty()
}

// Scenario: a move into a wall is rejected with position and occupancy
// untouched.
#[test]
fn wall_blocks_player_move() {
    let mut map = flat_map(16, 10, 0);
    let mut world = World::new();
    let pe = spawn_at(&mut world, &mut map, player_being(5, 5, 0, 30, 5, 2));
    let cell = idx(&map, 5, 4);
    map.tiles[cell] = wall_tile();

    let before_beings: Vec<Option<Entity>> = map.beings.clone();
    let r = player_bump(&mut map, &mut world, 0, -1);
    assert!(matches!(r, MoveResult::InvalidMove(_)));
    let b = world.lookup(pe).unwrap();
    assert_eq!(b.pos.unwrap(), Position::new(5, 5));
    for i in 0..map.beings.len() {
        assert_eq!(map.beings[i], before_beings[i]);
    }
}

// An occupied cell always redirects to an attack, whatever the tile under the
// occupant does.
#[test]
fn bump_priority_attack_beats_everything() {
    let mut map = flat_map(16, 10, 0);
    let mut world = World::new();
    let pe = spawn_at(&mut world, &mut map, player_being(5, 5, 0, 30, 5, 2));
    let me = spawn_at(&mut world, &mut map, monster_being("Mole", 6, 5, 0, 10, 3, 1));

    // occupant on a walkable tile
    let r = bump_tile(&mut map, &mut world, pe, Position::new(6, 5));
    assert!(matches!(r, MoveResult::Attack(t) if t == me));

    // occupant on a blocking tile that even has a destructible overlay
    let cell = idx(&map, 6, 5);
    map.tiles[cell] = wall_tile();
    let cell = idx(&map, 6, 5);
    map.destructibles[cell] = Some(Destructible::Tile { max_hp: 3, hp: 3 });
    let r = bump_tile(&mut map, &mut world, pe, Position::new(6, 5));
    assert!(matches!(r, MoveResult::Attack(t) if t == me));
}

// Damage floor: with defense at or above attack exactly one point lands, and
// hit points never go below zero.
#[test]
fn damage_floor_and_sweep() {
    let mut defender = CombatStats::new(20, 4, 10);
    let line = attack(&mut defender, "Mole", &CombatStats::new(30, 6, 0), "Player");
    assert_eq!(defender.health, 19);
    assert_eq!(line, "Player hits Mole for 1 damage.");

    // overkill floors at zero
    let mut weak = CombatStats::new(3, 0, 0);
    attack(&mut weak, "Mole", &CombatStats::new(30, 100, 0), "Player");
    assert_eq!(weak.health, 0);

    // the sweep removes the dead and clears their occupancy slot
    let mut map = flat_map(16, 10, 0);
    let mut world = World::new();
    let pe = spawn_at(&mut world, &mut map, player_being(5, 5, 0, 30, 5, 2));
    let me = spawn_at(&mut world, &mut map, monster_being("Mole", 6, 5, 0, 10, 3, 1));
    world.set_health(me, 0);
    destroy_dead_beings(&mut world, &mut map);
    assert!(!world.is_live(me));
    assert!(world.is_live(pe));
    assert_eq!(map.beings[idx(&map, 6, 5)], None);
    assert_eq!(map.beings[idx(&map, 5, 5)], Some(pe));
}

// Scenario: a monster at Euclidean distance one attacks instead of walking.
#[test]
fn adjacent_monster_pokes_player() {
    let mut map = flat_map(16, 10, 0);
    let mut world = World::new();
    let pe = spawn_at(&mut world, &mut map, player_being(5, 5, 0, 30, 5, 2));
    let me = spawn_at(&mut world, &mut map, monster_being("Mole", 5, 6, 0, 10, 7, 1));

    let mut state = State {
        world,
        map,
        message_log: Vec::new(),
        generated_maps: FloorCache::new(),
        runstate: RunState::InGame,
        config: Config { map_x: 16, map_y: 10, dev_mode: false, world_seed: 1 },
        turn_counter: 4,
        visible: Vec::new(),
    };
    struct NoPath;
    impl Pathfinder for NoPath {
        fn first_step(&self, _m: &WorldMap, _f: Position, _t: Position) -> Option<Position> {
            None
        }
    }
    handle_monster_turns(&mut state, &NoPath);

    let b = state.world.lookup(pe).unwrap();
    // damage = max(1, 7 - 2) = 5
    assert_eq!(b.stats.unwrap().health, 25);
    // the monster stayed put
    let m = state.world.lookup(me).unwrap();
    assert_eq!(m.pos.unwrap(), Position::new(5, 6));
    assert_eq!(state.message_log.len(), 1);
    assert_eq!(state.message_log[0].contents, "Mole hits Player for 5 damage.");
    assert_eq!(state.message_log[0].turn_sent, 4);
}

// A monster that sees the player walks the proposed path step.
#[test]
fn visible_player_is_chased() {
    let mut map = flat_map(16, 10, 0);
    let mut world = World::new();
    let _pe = spawn_at(&mut world, &mut map, player_being(8, 5, 0, 30, 5, 2));
    let me = spawn_at(&mut world, &mut map, monster_being("Mole", 2, 5, 0, 10, 3, 1));
    // hand the monster a fresh viewshed that already sees the player
    world.set_view_computed(
        me,
        vec![Position::new(8, 5), Position::new(2, 5), Position::new(3, 5)],
    );

    let mut state = State {
        world,
        map,
        message_log: Vec::new(),
        generated_maps: FloorCache::new(),
        runstate: RunState::InGame,
        config: Config { map_x: 16, map_y: 10, dev_mode: false, world_seed: 1 },
        turn_counter: 0,
        visible: Vec::new(),
    };
    struct StepRight;
    impl Pathfinder for StepRight {
        fn first_step(&self, _m: &WorldMap, f: Position, _t: Position) -> Option<Position> {
            Some(Position::new(f.x + 1, f.y))
        }
    }
    handle_monster_turns(&mut state, &StepRight);

    let m = state.world.lookup(me).unwrap();
    assert_eq!(m.pos.unwrap(), Position::new(3, 5));
    assert_eq!(state.map.beings[5 * 16 + 3], Some(me));
    assert_eq!(state.map.beings[5 * 16 + 2], None);
}

// Vision cache: untouched while clean, recomputed only after the flag is set,
// and any accepted move sets it.
#[test]
fn vision_cache_only_recomputes_when_dirty() {
    let mut map = flat_map(16, 10, 0);
    let cell = idx(&map, 7, 5);
    map.tiles[cell] = wall_tile();
    let mut world = World::new();
    let pe = spawn_at(&mut world, &mut map, player_being(5, 5, 0, 30, 5, 2));

    let mut state = State {
        world,
        map,
        message_log: Vec::new(),
        generated_maps: FloorCache::new(),
        runstate: RunState::InGame,
        config: Config { map_x: 16, map_y: 10, dev_mode: false, world_seed: 1 },
        turn_counter: 0,
        visible: Vec::new(),
    };
    update_vision(&mut state);
    let b = state.world.lookup(pe).unwrap();
    assert!(!b.view.as_ref().unwrap().dirty);
    let first: Vec<Position> = b.view.as_ref().unwrap().visible_tiles.clone();
    assert!(!first.is_empty());

    // a second pass with a clean flag leaves the set alone
    update_vision(&mut state);
    let b = state.world.lookup(pe).unwrap();
    let second: Vec<Position> = b.view.as_ref().unwrap().visible_tiles.clone();
    assert_eq!(first.len(), second.len());
    for k in 0..first.len() {
        assert_eq!(first[k], second[k]);
    }

    // an accepted move marks the viewshed stale before the next computation
    let r = player_bump(&mut state.map, &mut state.world, 1, 0);
    assert!(matches!(r, MoveResult::Moved(_)));
    let b = state.world.lookup(pe).unwrap();
    assert!(b.view.as_ref().unwrap().dirty);
}

// An opaque wall is itself visible but blocks what lies past it, and
// visibility is symmetric.
#[test]
fn walls_block_but_are_seen() {
    let mut map = flat_map(16, 10, 0);
    let cell = idx(&map, 5, 5);
    map.tiles[cell] = wall_tile();
    let seen = compute_visible(&map, Position::new(3, 5), 6);
    assert!(contains_pos(&seen, Position::new(5, 5)));
    assert!(!contains_pos(&seen, Position::new(7, 5)));
    assert!(contains_pos(&seen, Position::new(4, 5)));

    // symmetry: from behind the wall, the starting cell is hidden too
    let other = compute_visible(&map, Position::new(7, 5), 6);
    assert!(!contains_pos(&other, Position::new(3, 5)));
}

// Scenario: a three-point destructible converts to floor exactly on the third
// interaction, and the cell then stays open for good.
#[test]
fn mining_takes_three_hits_and_sticks() {
    let mut map = flat_map(16, 10, 0);
    let mut world = World::new();
    let _pe = spawn_at(&mut world, &mut map, player_being(4, 5, 0, 30, 5, 2));
    let wall = idx(&map, 5, 5);
    map.tiles[wall] = wall_tile();
    map.destructibles[wall] = Some(Destructible::Tile { max_hp: 3, hp: 3 });
    let db = empty_db();

    for round in 0..3 {
        let r = player_bump(&mut map, &mut world, 1, 0);
        let d = match r {
            MoveResult::Mine(d) => d,
            other => panic!("hit {} resolved wrongly: {:?}", round, matches!(other, MoveResult::Moved(_))),
        };
        if round < 2 {
            assert!(map.tiles[wall].is_blocking);
        }
        assert!(mine(&mut map, &mut world, &db, d, 1, 0));
        if round < 2 {
            // not converted yet
            assert!(map.tiles[wall].is_blocking);
            match map.destructibles[wall] {
                Some(Destructible::Tile { hp, .. }) => assert_eq!(hp, 2 - round),
                _ => panic!("overlay lost early"),
            }
        }
    }
    // exactly on the third interaction the cell opened up for good
    assert!(!map.tiles[wall].is_blocking);
    assert!(map.destructibles[wall].is_none());
    let r = player_bump(&mut map, &mut world, 1, 0);
    assert!(matches!(r, MoveResult::Moved(_)));
}

// Floor change guards: descending needs down stairs, and there is no level
// above the ground floor.
#[test]
fn stairs_gate_floor_changes() {
    let mut map = flat_map(16, 10, 0);
    let mut world = World::new();
    let _pe = spawn_at(&mut world, &mut map, player_being(5, 5, 0, 30, 5, 2));

    // plain floor: neither direction works
    assert!(!change_floor(&mut world, &map, 1));
    assert!(!change_floor(&mut world, &map, -1));

    // down stairs allow descending only
    let cell = idx(&map, 5, 5);
    map.tiles[cell] = stairs_tile(TileType::DownStairs);
    assert!(change_floor(&mut world, &map, 1));
    assert!(!change_floor(&mut world, &map, -1));

    // up stairs on the ground floor still refuse to ascend
    let cell = idx(&map, 5, 5);
    map.tiles[cell] = stairs_tile(TileType::UpStairs);
    assert!(!change_floor(&mut world, &map, -1));

    // but one floor down they do
    map.depth = 1;
    assert!(change_floor(&mut world, &map, -1));
}

// Scenario: descending at depth zero yields the next level request, and
// revisiting the old depth brings the exact cached floor back.
#[test]
fn floor_cache_returns_the_same_floor() {
    let mut map = flat_map(20, 10, 0);
    let down = idx(&map, 18, 5);
    map.tiles[down] = stairs_tile(TileType::DownStairs);
    let cell = idx(&map, 3, 3);
    map.tiles[cell] = wall_tile();
    let cell = idx(&map, 3, 3);
    map.destructibles[cell] = Some(Destructible::Tile { max_hp: 3, hp: 2 });
    let mut world = World::new();
    let pe = spawn_at(&mut world, &mut map, player_being(18, 5, 0, 30, 5, 2));
    let me = spawn_at(&mut world, &mut map, monster_being("Mole", 7, 5, 0, 10, 3, 1));

    let mut state = State {
        world,
        map,
        message_log: Vec::new(),
        generated_maps: FloorCache::new(),
        runstate: RunState::InGame,
        config: Config { map_x: 20, map_y: 10, dev_mode: false, world_seed: 7 },
        turn_counter: 0,
        visible: Vec::new(),
    };

    // standing on the down stairs at depth zero requests the next level
    let db = empty_db();
    let resp = handle_player_action(&mut state, &db, PlayerAction::Descend);
    match resp {
        PlayerResponse::StateChange(RunState::NextLevel(d)) => assert_eq!(d, 1),
        _ => panic!("descending on stairs must request the next level"),
    }

    assert!(move_to_new_floor(&mut state, &db, 1));
    assert_eq!(state.map.depth, 1);

    // come back up: the old floor returns verbatim
    assert!(move_to_new_floor(&mut state, &db, 0));
    assert_eq!(state.map.depth, 0);
    assert_eq!(state.map.tiles[down].tile_type, TileType::DownStairs);
    assert!(state.map.tiles[idx(&state.map, 3, 3)].is_blocking);
    match state.map.destructibles[idx(&state.map, 3, 3)] {
        Some(Destructible::Tile { hp, .. }) => assert_eq!(hp, 2),
        _ => panic!("destructible state must survive the round trip"),
    }
    // the surviving monster still sits on its cell
    assert_eq!(state.map.beings[idx(&state.map, 7, 5)], Some(me));
    assert!(state.world.is_live(me));
    // the player arrived somewhere free and walkable on the old floor
    let b = state.world.lookup(pe).unwrap();
    let pp = b.pos.unwrap();
    assert!(!state.map.tiles[idx(&state.map, pp.x, pp.y)].is_blocking);
    assert_eq!(state.map.beings[idx(&state.map, pp.x, pp.y)], Some(pe));
    assert_eq!(b.floor, 0);
}

// The clamped delta refuses a no-op and clips at the edges.
#[test]
fn safe_delta_clamps_and_rejects_noop() {
    let pos = Position::new(0, 3);
    assert!(safe_position_delta(&pos, -1, 0, 15, 9).is_err());
    let p = safe_position_delta(&pos, -1, 2, 15, 9).unwrap();
    assert_eq!(p, Position::new(0, 5));
    let p = safe_position_delta(&Position::new(14, 9), 5, 5, 15, 9).unwrap();
    assert_eq!(p, Position::new(15, 9));
}

// The player's attack resolves combat against a live target and logs the hit.
#[test]
fn player_attack_hits_and_logs() {
    let mut map = flat_map(16, 10, 0);
    let mut world = World::new();
    let _pe = spawn_at(&mut world, &mut map, player_being(5, 5, 0, 30, 9, 2));
    let me = spawn_at(&mut world, &mut map, monster_being("Mole", 6, 5, 0, 10, 3, 4));
    let mut log: Vec<Message> = Vec::new();
    assert!(player_attack(&mut world, &mut log, me, 11));
    let m = world.lookup(me).unwrap();
    // damage = max(1, 9 - 4) = 5
    assert_eq!(m.stats.unwrap().health, 5);
    assert_eq!(log.len(), 1);
    assert_eq!(log[0].contents, "Player hits Mole for 5 damage.");
    assert_eq!(log[0].turn_sent, 11);

    // a stale handle is a silent no-op, not a failure
    world.despawn(me);
    assert!(!player_attack(&mut world, &mut log, me, 12));
    assert_eq!(log.len(), 1);
}

// Colour strings parse exactly or fall back.
#[test]
fn hex_colors_parse_or_fail() {
    assert_eq!(parse_color("#ff00aa"), Some((255, 0, 170)));
    assert_eq!(parse_color("#00FF7f"), Some((0, 255, 127)));
    assert_eq!(parse_color("ff00aa"), None);
    assert_eq!(parse_color("#ff00a"), None);
    assert_eq!(parse_color("#ff00zz"), None);
    assert!(str_eq("wall", "wall"));
    assert!(!str_eq("wall", "walls"));
}

// Tile lookup applies the present fields and degrades to the empty tile.
#[test]
fn named_tile_overrides_or_defaults() {
    let mut db = EntityDatabase::empty();
    db.load(EntityDatabase {
        living: LivingData { all: Vec::new() },
        tiles: TileData {
            all: vec![TileInfo {
                name: "Granite Wall".to_string(),
                is_blocking: Some(true),
                is_transparent: Some(false),
                sprite: Some(RawSprite {
                    glyph: '#',
                    fg: "#888888".to_string(),
                    bg: "bad".to_string(),
                }),
                tile_type: Some("wall".to_string()),
            }],
        },
    });
    let t = named_tile(&db, "Granite Wall");
    assert!(t.is_blocking);
    assert!(!t.is_transparent);
    assert_eq!(t.tile_type, TileType::Wall);
    assert_eq!(t.sprite.glyph, '#');
    assert_eq!(t.sprite.fg, (136, 136, 136));
    // the unreadable background fell back
    assert_eq!(t.sprite.bg, (245, 245, 245));

    let missing = named_tile(&db, "No Such Tile");
    assert!(!missing.is_blocking);
    assert!(missing.is_transparent);
    assert_eq!(missing.tile_type, TileType::Unknown);
}

// The living builder assembles exactly the components the definition names.
#[test]
fn living_builder_assembles_components() {
    let mut db = EntityDatabase::empty();
    db.load(EntityDatabase {
        living: LivingData {
            all: vec![Living {
                name: "Mole".to_string(),
                sprite: Some(RawSprite {
                    glyph: 'm',
                    fg: "#996633".to_string(),
                    bg: "#000000".to_string(),
                }),
                view_range: Some(6),
                breed: Some("mole".to_string()),
                ai: Some("basic".to_string()),
                player: None,
                combatstats: Some(terra_core::data_read::CombatStats {
                    hp: 12,
                    strength: 3,
                    defense: 1,
                }),
            }],
        },
        tiles: TileData { all: Vec::new() },
    });
    let b = named_living_builder(&db, "Mole", Position::new(4, 4)).unwrap();
    assert_eq!(b.pos.unwrap(), Position::new(4, 4));
    let v = b.view.as_ref().unwrap();
    assert_eq!(v.range, 6);
    assert!(v.dirty);
    let s = b.stats.unwrap();
    assert_eq!((s.health, s.max_health, s.attack, s.defense), (12, 12, 3, 1));
    let br = b.breed.as_ref().unwrap();
    assert_eq!(br.name, "Mole");
    assert_eq!(br.ai, BeingAI::BasicPoke);
    assert!(b.player.is_none());
    assert!(b.name.is_none());

    assert!(named_living_builder(&db, "Dragon", Position::new(1, 1)).is_none());
}

// Generated floors are a pure function of their inputs and carry the stairs
// the spec promises.
#[test]
fn generated_floor_layout() {
    let (m, start) = generate_map(7, 0, 20, 10);
    assert_eq!((m.width, m.height, m.depth), (20, 10, 0));
    assert_eq!(start, Position::new(2, 5));
    assert_eq!(m.tiles[idx(&m, 18, 5)].tile_type, TileType::DownStairs);
    // the ground floor has nothing above it
    assert_ne!(m.tiles[idx(&m, 1, 5)].tile_type, TileType::UpStairs);
    let (m1, _) = generate_map(7, 1, 20, 10);
    assert_eq!(m1.tiles[idx(&m1, 1, 5)].tile_type, TileType::UpStairs);

    // repeatable
    let (m2, _) = generate_map(7, 0, 20, 10);
    for i in 0..m.tiles.len() {
        assert_eq!(m.tiles[i].tile_type, m2.tiles[i].tile_type);
        assert_eq!(m.tiles[i].is_blocking, m2.tiles[i].is_blocking);
    }
}

// The run-state machine: wait keeps the turn, save requests tear the world
// down through the save state, the menu is left alone.
#[test]
fn run_state_machine_transitions() {
    let db = empty_db();
    let config = Config { map_x: 20, map_y: 10, dev_mode: true, world_seed: 3 };
    struct NoPath;
    impl Pathfinder for NoPath {
        fn first_step(&self, _m: &WorldMap, _f: Position, _t: Position) -> Option<Position> {
            None
        }
    }

    let mut st = State::new(&config);
    assert!(matches!(st.runstate, RunState::MainMenu(_)));
    assert_eq!(st.message_log.len(), 2);
    st.tick(&db, PlayerAction::Wait, &NoPath);
    assert!(matches!(st.runstate, RunState::MainMenu(_)));

    let mut st = State::dev(&config, &db);
    assert!(matches!(st.runstate, RunState::InGame));
    let turns = st.turn_counter;
    st.tick(&db, PlayerAction::Wait, &NoPath);
    assert!(matches!(st.runstate, RunState::InGame));
    assert_eq!(st.turn_counter, turns);

    st.tick(&db, PlayerAction::SaveRequest, &NoPath);
    assert!(matches!(st.runstate, RunState::SaveGame));
    st.tick(&db, PlayerAction::Wait, &NoPath);
    assert!(matches!(st.runstate, RunState::MainMenu(MenuIndex(0))));
    assert_eq!(st.turn_counter, 0);
}

// A full turn advance moves the player and lets an adjacent monster answer.
#[test]
fn turn_advance_runs_response_systems() {
    let mut map = flat_map(16, 10, 0);
    let mut world = World::new();
    let pe = spawn_at(&mut world, &mut map, player_being(5, 5, 0, 30, 5, 2));
    let _me = spawn_at(&mut world, &mut map, monster_being("Mole", 6, 4, 0, 10, 7, 1));

    let mut state = State {
        world,
        map,
        message_log: Vec::new(),
        generated_maps: FloorCache::new(),
        runstate: RunState::InGame,
        config: Config { map_x: 16, map_y: 10, dev_mode: false, world_seed: 1 },
        turn_counter: 0,
        visible: Vec::new(),
    };
    struct NoPath;
    impl Pathfinder for NoPath {
        fn first_step(&self, _m: &WorldMap, _f: Position, _t: Position) -> Option<Position> {
            None
        }
    }
    let db = empty_db();
    // step right, into melee range of the monster
    state.tick(&db, PlayerAction::Move { dx: 1, dy: 0 }, &NoPath);
    assert_eq!(state.turn_counter, 1);
    let b = state.world.lookup(pe).unwrap();
    assert_eq!(b.pos.unwrap(), Position::new(6, 5));
    // the monster answered: damage = max(1, 7 - 2) = 5
    assert_eq!(b.stats.unwrap().health, 25);
}

// Render data is gated by visibility unless developer sight is on.
#[test]
fn renderables_respect_visibility() {
    let mut map = flat_map(16, 10, 0);
    let mut world = World::new();
    let _pe = spawn_at(&mut world, &mut map, player_being(5, 5, 0, 30, 5, 2));
    let _me = spawn_at(&mut world, &mut map, monster_being("Mole", 9, 5, 0, 10, 3, 1));

    let mut visible = vec![false; map.tiles.len()];
    visible[idx(&map, 5, 5)] = true;

    let shown = render_entities(&world, &map, &visible, false);
    assert_eq!(shown.len(), 1);
    assert_eq!(shown[0].0, Position::new(5, 5));
    assert_eq!(shown[0].1.glyph, '@');

    let all = render_entities(&world, &map, &visible, true);
    assert_eq!(all.len(), 2);
}

// Presentation getters report the player exactly.
#[test]
fn player_getters() {
    let mut map = flat_map(16, 10, 0);
    let mut world = World::new();
    assert!(get_player_pos(&world, &map).is_none());
    assert!(get_player_stats(&world).is_none());
    let _pe = spawn_at(&mut world, &mut map, player_being(5, 5, 0, 30, 5, 2));
    let (p, i) = get_player_pos(&world, &map).unwrap();
    assert_eq!(p, Position::new(5, 5));
    assert_eq!(i, 5 * 16 + 5);
    let s = get_player_stats(&world).unwrap();
    assert_eq!((s.health, s.max_health, s.attack, s.defense), (30, 30, 5, 2));
}

// A fresh game built from tables places a marked player on the ground floor.
#[test]
fn start_new_game_places_player() {
    let mut db = EntityDatabase::empty();
    db.load(EntityDatabase {
        living: LivingData {
            all: vec![Living {
                name: "Player".to_string(),
                sprite: Some(RawSprite {
                    glyph: '@',
                    fg: "#ffffff".to_string(),
                    bg: "#000000".to_string(),
                }),
                view_range: Some(8),
                breed: None,
                ai: None,
                player: Some("yes".to_string()),
                combatstats: None,
            }],
        },
        tiles: TileData { all: Vec::new() },
    });
    let mut world = World::new();
    let map = start_new_game(&mut world, &db, 5, 20, 10);
    assert_eq!(map.depth, 0);
    let pe = world.player_entity().unwrap();
    let b = world.lookup(pe).unwrap();
    assert_eq!(b.pos.unwrap(), Position::new(2, 5));
    // the base combat numbers are handed out at spawn
    let s = b.stats.unwrap();
    assert_eq!((s.health, s.max_health, s.attack, s.defense), (200, 200, 10, 1));
    assert_eq!(map.beings[idx(&map, 2, 5)], Some(pe));
}

// Stale handles are absences, never crashes.
#[test]
fn stale_handles_read_as_absent() {
    let mut world = World::new();
    let e = world.spawn(monster_being("Mole", 1, 1, 0, 5, 1, 1));
    assert!(world.is_live(e));
    world.despawn(e);
    assert!(!world.is_live(e));
    assert!(world.lookup(e).is_none());
}

// Descending through the full state machine lands the player one floor down.
#[test]
fn tick_descends_through_the_state_machine() {
    let mut map = flat_map(20, 10, 0);
    let cell = idx(&map, 5, 5);
    map.tiles[cell] = stairs_tile(TileType::DownStairs);
    let mut world = World::new();
    let pe = spawn_at(&mut world, &mut map, player_being(5, 5, 0, 30, 5, 2));
    let mut state = State {
        world,
        map,
        message_log: Vec::new(),
        generated_maps: FloorCache::new(),
        runstate: RunState::InGame,
        config: Config { map_x: 20, map_y: 10, dev_mode: false, world_seed: 9 },
        turn_counter: 0,
        visible: Vec::new(),
    };
    struct NoPath;
    impl Pathfinder for NoPath {
        fn first_step(&self, _m: &WorldMap, _f: Position, _t: Position) -> Option<Position> {
            None
        }
    }
    let db = empty_db();
    state.tick(&db, PlayerAction::Descend, &NoPath);
    assert!(matches!(state.runstate, RunState::NextLevel(1)));
    state.tick(&db, PlayerAction::Wait, &NoPath);
    assert!(matches!(state.runstate, RunState::InGame));
    assert_eq!(state.map.depth, 1);
    assert_eq!(state.world.lookup(pe).unwrap().floor, 1);
}

// A monster that cannot see the player wanders at most one cardinal step.
#[test]
fn blind_monster_wanders_one_step_at_most() {
    let mut map = flat_map(20, 10, 0);
    let mut world = World::new();
    let _pe = spawn_at(&mut world, &mut map, player_being(18, 8, 0, 30, 5, 2));
    let me = spawn_at(&mut world, &mut map, monster_being("Mole", 4, 4, 0, 10, 3, 1));
    // a narrow viewshed that cannot reach the player
    world.set_view_computed(me, vec![Position::new(4, 4)]);
    let mut state = State {
        world,
        map,
        message_log: Vec::new(),
        generated_maps: FloorCache::new(),
        runstate: RunState::InGame,
        config: Config { map_x: 20, map_y: 10, dev_mode: false, world_seed: 9 },
        turn_counter: 0,
        visible: Vec::new(),
    };
    struct NoPath;
    impl Pathfinder for NoPath {
        fn first_step(&self, _m: &WorldMap, _f: Position, _t: Position) -> Option<Position> {
            None
        }
    }
    handle_monster_turns(&mut state, &NoPath);
    let p = state.world.lookup(me).unwrap().pos.unwrap();
    let moved = (p.x - 4).abs() + (p.y - 4).abs();
    assert!(moved <= 1);
    // the occupancy index follows the move
    assert_eq!(state.map.beings[idx(&state.map, p.x, p.y)], Some(me));
    // no combat line was logged
    assert!(state.message_log.is_empty());
}

// Of duplicate names in the data tables, the later definition wins.
#[test]
fn later_duplicate_definition_wins() {
    let mut db = EntityDatabase::empty();
    db.load(EntityDatabase {
        living: LivingData { all: Vec::new() },
        tiles: TileData {
            all: vec![
                TileInfo {
                    name: "Mud".to_string(),
                    is_blocking: Some(true),
                    is_transparent: Some(false),
                    sprite: None,
                    tile_type: Some("wall".to_string()),
                },
                TileInfo {
                    name: "Mud".to_string(),
                    is_blocking: Some(false),
                    is_transparent: Some(true),
                    sprite: None,
                    tile_type: Some("floor".to_string()),
                },
            ],
        },
    });
    let t = named_tile(&db, "Mud");
    assert!(!t.is_blocking);
    assert_eq!(t.tile_type, TileType::Floor);
}

// A floor change is refused outright without a placed, seeing player.
#[test]
fn floor_change_needs_a_player() {
    let map = flat_map(20, 10, 0);
    let mut state = State {
        world: World::new(),
        map,
        message_log: Vec::new(),
        generated_maps: FloorCache::new(),
        runstate: RunState::InGame,
        config: Config { map_x: 20, map_y: 10, dev_mode: false, world_seed: 7 },
        turn_counter: 0,
        visible: Vec::new(),
    };
    let db = empty_db();
    assert!(!move_to_new_floor(&mut state, &db, 1));
    assert_eq!(state.map.depth, 0);
}

// The found-flag lookup lets presentation report unknown names while the
// tile lookup itself degrades to the safe default.
#[test]
fn missing_names_are_reportable() {
    let db = empty_db();
    assert!(!has_tile(&db, "Grass Floor"));
    let mut db2 = EntityDatabase::empty();
    db2.load(EntityDatabase {
        living: LivingData { all: Vec::new() },
        tiles: TileData {
            all: vec![TileInfo {
                name: "Grass Floor".to_string(),
                is_blocking: Some(false),
                is_transparent: Some(true),
                sprite: None,
                tile_type: Some("floor".to_string()),
            }],
        },
    });
    assert!(has_tile(&db2, "Grass Floor"));
}

// One room-spawn attempt, with the draws supplied: the chance gate skips,
// and a passing draw lands the drawn being on the drawn cell.
#[test]
fn room_spawn_follows_the_draws() {
    let mut db = EntityDatabase::empty();
    db.load(EntityDatabase {
        living: LivingData {
            all: vec![Living {
                name: "Mole".to_string(),
                sprite: None,
                view_range: Some(6),
                breed: Some("mole".to_string()),
                ai: Some("basic".to_string()),
                player: None,
                combatstats: Some(terra_core::data_read::CombatStats {
                    hp: 12,
                    strength: 3,
                    defense: 1,
                }),
            }],
        },
        tiles: TileData { all: Vec::new() },
    });
    let mut map = flat_map(20, 10, 0);
    let mut world = World::new();
    let room = Room { x: 4, y: 3, w: 5, h: 4 };

    // chance % 5 >= 3 skips outright
    assert!(spawn_room_being(&mut world, &mut map, &db, room, 4, 0, 0, 1).is_none());

    // a passing draw places the picked being at (x + ox % w, y + oy % h)
    let e = spawn_room_being(&mut world, &mut map, &db, room, 0, 7, 9, 1).unwrap();
    let b = world.lookup(e).unwrap();
    assert_eq!(b.pos.unwrap(), Position::new(4 + 7 % 5, 3 + 9 % 4));
    assert_eq!(b.breed.as_ref().unwrap().name, "Mole");
    assert_eq!(map.beings[idx(&map, 6, 4)], Some(e));

    // the same draw again finds the cell occupied and yields nothing
    assert!(spawn_room_being(&mut world, &mut map, &db, room, 0, 7, 9, 1).is_none());
}
