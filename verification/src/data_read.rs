//! The read-only definition tables for tiles and living entities, built once
//! at startup from parsed data files and passed by reference into generation
//! and builder code.  Absent names degrade to a safe default; they are never
//! a hard failure.

use vstd::prelude::*;

use crate::actor::{CharSprite, Color, Name, Player, Position};
use crate::combat;
use crate::fov::ViewShed;
use crate::map::{TileType, WorldTile};
use crate::monster::{BeingAI, Breed};
use crate::world::Being;

verus! {

#[derive(Debug)]
pub struct LivingData {
    pub all: Vec<Living>,
}

/// Used for regular living entities such as monsters, humans, good or bad,
/// anything living that is not static.  Dynamic components like position are
/// attached at run time by the builder.
#[derive(Debug)]
pub struct Living {
    pub name: String,
    pub sprite: Option<RawSprite>,
    pub view_range: Option<u32>,
    pub breed: Option<String>,
    pub ai: Option<String>,
    pub player: Option<String>,
    pub combatstats: Option<CombatStats>,
}

/// A sprite as the data files carry it: a glyph and two colours written as
/// `#RRGGBB` strings.
#[derive(Debug)]
pub struct RawSprite {
    pub glyph: char,
    pub fg: String,
    pub bg: String,
}

/// Base combat numbers as the data files carry them.
#[derive(Clone, Copy, Debug)]
pub struct CombatStats {
    pub hp: u32,
    pub strength: i32,
    pub defense: i32,
}

#[derive(Debug)]
pub struct TileData {
    pub all: Vec<TileInfo>,
}

/// A tile definition as the data files carry it; every field beyond the name
/// is optional and falls back to the empty tile's value.
#[derive(Debug)]
pub struct TileInfo {
    pub name: String,
    pub is_blocking: Option<bool>,
    pub is_transparent: Option<bool>,
    pub sprite: Option<RawSprite>,
    pub tile_type: Option<String>,
}

/// The definition tables, looked up by name.
#[derive(Debug)]
pub struct EntityDatabase {
    pub living: LivingData,
    pub tiles: TileData,
}

impl EntityDatabase {
    pub fn empty() -> (r: Self)
        ensures
            r.living.all@.len() == 0,
            r.tiles.all@.len() == 0,
    {
        Self { living: LivingData { all: Vec::new() }, tiles: TileData { all: Vec::new() } }
    }

    /// Installs freshly parsed tables wholesale.
    pub fn load(&mut self, data: EntityDatabase)
        ensures
            *final (self) == data,
    {
        *self = data;
    }

    /// Index of the tile definition of that name at or below `i`.  The scan
    /// runs backwards so that, of duplicate names, the later definition wins.
    pub open spec fn find_tile_from(self, name: Seq<char>, i: int) -> Option<int>
        decreases i + 1,
    {
        if i < 0 || i >= self.tiles.all@.len() {
            None
        } else if self.tiles.all@[i].name@ == name {
            Some(i)
        } else {
            self.find_tile_from(name, i - 1)
        }
    }

    pub open spec fn find_tile(self, name: Seq<char>) -> Option<int> {
        self.find_tile_from(name, self.tiles.all@.len() - 1)
    }

    /// Index of the living definition of that name at or below `i`; as with
    /// tiles, the later of duplicate definitions wins.
    pub open spec fn find_living_from(self, name: Seq<char>, i: int) -> Option<int>
        decreases i + 1,
    {
        if i < 0 || i >= self.living.all@.len() {
            None
        } else if self.living.all@[i].name@ == name {
            Some(i)
        } else {
            self.find_living_from(name, i - 1)
        }
    }

    pub open spec fn find_living(self, name: Seq<char>) -> Option<int> {
        self.find_living_from(name, self.living.all@.len() - 1)
    }
}

/// Character-wise string comparison, usable where the standard operator has
/// no specification.
pub fn str_eq(a: &str, b: &str) -> (r: bool)
    ensures
        r == (a@ == b@),
{
    let n = a.unicode_len();
    let m = b.unicode_len();
    if n != m {
        proof {
            assert(a@ != b@);
        }
        return false;
    }
    let mut i: usize = 0;
    while i < n
        invariant
            n == a@.len(),
            n == b@.len(),
            i <= n,
            forall|j: int| 0 <= j < i ==> a@[j] == b@[j],
        decreases n - i,
    {
        if a.get_char(i) != b.get_char(i) {
            return false;
        }
        i = i + 1;
    }
    proof {
        assert(a@ =~= b@);
    }
    true
}

/// Value of a hexadecimal digit, or a negative flag for any other character.
pub open spec fn hex_val(c: char) -> int {
    let u = c as u32;
    if 48 <= u <= 57 {
        u - 48
    } else if 97 <= u <= 102 {
        u - 87
    } else if 65 <= u <= 70 {
        u - 55
    } else {
        -1
    }
}

/// A colour written `#RRGGBB`; anything else fails to parse.
pub open spec fn parse_hex_color(s: Seq<char>) -> Option<Color> {
    if s.len() == 7 && s[0] == '#' && (forall|j: int| 1 <= j < 7 ==> hex_val(#[trigger] s[j]) >= 0) {
        Some(
            (
                (hex_val(s[1]) * 16 + hex_val(s[2])) as u8,
                (hex_val(s[3]) * 16 + hex_val(s[4])) as u8,
                (hex_val(s[5]) * 16 + hex_val(s[6])) as u8,
            ),
        )
    } else {
        None
    }
}

fn hex_digit(c: char) -> (r: i32)
    ensures
        r == hex_val(c),
{
    let u = c as u32;
    if 48 <= u && u <= 57 {
        (u - 48) as i32
    } else if 97 <= u && u <= 102 {
        (u - 87) as i32
    } else if 65 <= u && u <= 70 {
        (u - 55) as i32
    } else {
        -1
    }
}

/// Parse a `#RRGGBB` colour string.
pub fn parse_color(s: &str) -> (r: Option<Color>)
    ensures
        r == parse_hex_color(s@),
{
    let n = s.unicode_len();
    if n != 7 {
        return None;
    }
    if s.get_char(0) != '#' {
        return None;
    }
    let d1 = hex_digit(s.get_char(1));
    let d2 = hex_digit(s.get_char(2));
    let d3 = hex_digit(s.get_char(3));
    let d4 = hex_digit(s.get_char(4));
    let d5 = hex_digit(s.get_char(5));
    let d6 = hex_digit(s.get_char(6));
    if d1 < 0 || d2 < 0 || d3 < 0 || d4 < 0 || d5 < 0 || d6 < 0 {
        return None;
    }
    let red = (d1 * 16 + d2) as u8;
    let green = (d3 * 16 + d4) as u8;
    let blue = (d5 * 16 + d6) as u8;
    Some((red, green, blue))
}

/// The fallback foreground colour for an unreadable colour string.
pub open spec fn fallback_fg() -> Color {
    (128u8, 0u8, 128u8)
}

/// The fallback background colour for an unreadable colour string.
pub open spec fn fallback_bg() -> Color {
    (245u8, 245u8, 245u8)
}

/// The sprite a raw definition resolves to; unreadable colours fall back to
/// fixed ones rather than failing.
pub open spec fn sprite_of_raw(r: RawSprite) -> CharSprite {
    CharSprite {
        glyph: r.glyph,
        fg: match parse_hex_color(r.fg@) {
            Some(c) => c,
            None => fallback_fg(),
        },
        bg: match parse_hex_color(r.bg@) {
            Some(c) => c,
            None => fallback_bg(),
        },
    }
}

fn build_sprite(raw: &RawSprite) -> (r: CharSprite)
    ensures
        r == sprite_of_raw(*raw),
{
    let fg = match parse_color(raw.fg.as_str()) {
        Some(c) => c,
        None => (128, 0, 128),
    };
    let bg = match parse_color(raw.bg.as_str()) {
        Some(c) => c,
        None => (245, 245, 245),
    };
    CharSprite { glyph: raw.glyph, fg, bg }
}

/// Which tile kind a data-file tag selects; unknown tags select no kind.
pub open spec fn tile_type_of(s: Seq<char>) -> TileType {
    if s == "upstairs"@ {
        TileType::UpStairs
    } else if s == "downstairs"@ {
        TileType::DownStairs
    } else if s == "wall"@ {
        TileType::Wall
    } else if s == "floor"@ {
        TileType::Floor
    } else if s == "water"@ {
        TileType::Water
    } else if s == "special"@ {
        TileType::Special
    } else {
        TileType::Unknown
    }
}

fn tile_type_from(s: &str) -> (r: TileType)
    ensures
        r == tile_type_of(s@),
{
    if str_eq(s, "upstairs") {
        TileType::UpStairs
    } else if str_eq(s, "downstairs") {
        TileType::DownStairs
    } else if str_eq(s, "wall") {
        TileType::Wall
    } else if str_eq(s, "floor") {
        TileType::Floor
    } else if str_eq(s, "water") {
        TileType::Water
    } else if str_eq(s, "special") {
        TileType::Special
    } else {
        TileType::Unknown
    }
}

/// The tile a definition resolves to: the empty tile with every present field
/// overridden.
pub open spec fn spec_tile_of(info: TileInfo) -> WorldTile {
    WorldTile {
        is_blocking: match info.is_blocking {
            Some(b) => b,
            None => false,
        },
        is_transparent: match info.is_transparent {
            Some(t) => t,
            None => true,
        },
        tile_type: match info.tile_type {
            Some(s) => tile_type_of(s@),
            None => TileType::Unknown,
        },
        sprite: match info.sprite {
            Some(r) => sprite_of_raw(r),
            None => CharSprite::spec_default(),
        },
    }
}

/// Whether a tile definition of that name exists; the hook for presentation
/// to report an unknown name as a diagnostic while `named_tile` degrades to
/// the safe default.
pub fn has_tile(db: &EntityDatabase, name: &str) -> (r: bool)
    ensures
        r == (db.find_tile(name@) is Some),
{
    let n = db.tiles.all.len();
    let mut i: usize = n;
    while i > 0
        invariant
            n == db.tiles.all@.len(),
            i <= n,
            db.find_tile(name@) == db.find_tile_from(name@, i as int - 1),
        decreases i,
    {
        i = i - 1;
        if str_eq(db.tiles.all[i].name.as_str(), name) {
            return true;
        }
    }
    false
}

/// Returns a tile based on the name provided; an unknown name returns the
/// "empty" tile so that the simulation can continue.
pub fn named_tile(db: &EntityDatabase, name: &str) -> (r: WorldTile)
    ensures
        match db.find_tile(name@) {
            Some(i) => r == spec_tile_of(db.tiles.all@[i]),
            None => r == WorldTile::spec_empty(),
        },
{
    let n = db.tiles.all.len();
    let mut i: usize = n;
    while i > 0
        invariant
            n == db.tiles.all@.len(),
            i <= n,
            db.find_tile(name@) == db.find_tile_from(name@, i as int - 1),
        decreases i,
    {
        i = i - 1;
        if str_eq(db.tiles.all[i].name.as_str(), name) {
            let info = &db.tiles.all[i];
            let mut builder = WorldTile::empty();
            match &info.is_blocking {
                Some(b) => {
                    builder.is_blocking = *b;
                },
                None => {},
            }
            match &info.is_transparent {
                Some(t) => {
                    builder.is_transparent = *t;
                },
                None => {},
            }
            match &info.sprite {
                Some(raw) => {
                    builder.sprite = build_sprite(raw);
                },
                None => {},
            }
            match &info.tile_type {
                Some(t) => {
                    builder.tile_type = tile_type_from(t.as_str());
                },
                None => {},
            }
            return builder;
        }
    }
    WorldTile::empty()
}

/// What the living builder promises about the bundle it assembled from the
/// definition found under `name`.
pub open spec fn built_living(info: Living, name: Seq<char>, pos: Position, b: Being) -> bool {
    &&& b.pos == Some(pos)
    &&& b.floor == 0
    &&& match info.view_range {
        Some(rg) => b.view matches Some(v) && v.range == rg && v.dirty && v.visible_tiles@.len()
            == 0,
        None => b.view is None,
    }
    &&& match info.combatstats {
        Some(cs) => b.stats == Some(
            combat::CombatStats {
                health: cs.hp,
                max_health: cs.hp,
                attack: cs.strength,
                defense: cs.defense,
            },
        ),
        None => b.stats is None,
    }
    &&& match info.breed {
        Some(br) => b.breed matches Some(bd) && bd.name@ == name && bd.species@ == br@ && bd.ai
            == BeingAI::BasicPoke,
        None => b.breed is None,
    }
    &&& match info.sprite {
        Some(rs) => b.sprite == Some(sprite_of_raw(rs)),
        None => b.sprite is None,
    }
    &&& (b.player is Some <==> info.player is Some)
    &&& (name == "Player"@ ==> (b.name matches Some(nm) && nm.0@ == name))
    &&& (name != "Player"@ ==> b.name is None)
}

/// Assembles the component bundle for the named living definition; an
/// unknown name yields nothing.  Only the player entity gets a display name.
pub fn named_living_builder(db: &EntityDatabase, name: &str, pos: Position) -> (r: Option<Being>)
    ensures
        match db.find_living(name@) {
            Some(i) => r matches Some(b) && built_living(db.living.all@[i], name@, pos, b),
            None => r is None,
        },
{
    let n = db.living.all.len();
    let mut i: usize = n;
    while i > 0
        invariant
            n == db.living.all@.len(),
            i <= n,
            db.find_living(name@) == db.find_living_from(name@, i as int - 1),
        decreases i,
    {
        i = i - 1;
        if str_eq(db.living.all[i].name.as_str(), name) {
            let info = &db.living.all[i];
            let sprite = match &info.sprite {
                Some(raw) => Some(build_sprite(raw)),
                None => None,
            };
            let breed = match &info.breed {
                Some(br) => match &info.ai {
                    Some(ai) => Some(Breed::from(name, br.as_str(), ai.as_str())),
                    None => Some(Breed::from(name, br.as_str(), "basic")),
                },
                None => None,
            };
            let view = match &info.view_range {
                Some(rg) => Some(ViewShed::new(*rg)),
                None => None,
            };
            let player = match &info.player {
                Some(_) => Some(Player),
                None => None,
            };
            let stats = match &info.combatstats {
                Some(cs) => Some(combat::CombatStats::new(cs.hp, cs.strength, cs.defense)),
                None => None,
            };
            let name_comp = if str_eq(name, "Player") {
                Some(Name(name.to_owned()))
            } else {
                None
            };
            return Some(
                Being {
                    pos: Some(pos),
                    floor: 0,
                    view,
                    stats,
                    breed,
                    sprite,
                    name: name_comp,
                    player,
                },
            );
        }
    }
    None
}

} // verus!
