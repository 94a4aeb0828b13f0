//! What a save file stores of entities and of the map, and the spellings
//! of directions, entity kinds and tiles in it.

use vstd::prelude::*;

use crate::entity::{kind_name, Direction, EntityKind, Position};
use crate::map::{
    grid_index, grid_position, lemma_grid_index_bounds, lemma_grid_index_injective, lemma_grid_position_roundtrip,
    lemma_set_tile_reads, TileMap, TileType,
};
use crate::event_log::{appended, entries_view, entry_view, EventLog};
use crate::fragment::{Fragment, FragmentRegistry};
use crate::text::{chars_of, str_eq, string_from_chars};

verus! {

/// One entity as a save file stores it.
#[derive(Clone, Debug, PartialEq, Eq)]
pub struct EntitySnapshot {
    pub id: usize,
    pub kind: String,
    pub x: i32,
    pub y: i32,
    pub hp_current: i32,
    pub hp_max: i32,
    pub alive: bool,
    pub has_enemy_ai: bool,
    pub glyph: char,
    pub sign_message: Option<String>,
    pub fragment_id: Option<String>,
}

pub open spec fn direction_name(d: Direction) -> Seq<char> {
    match d {
        Direction::North => "north"@,
        Direction::South => "south"@,
        Direction::West => "west"@,
        Direction::East => "east"@,
    }
}

/// The direction a save-file spelling names; anything unknown is east.
pub open spec fn direction_named(s: Seq<char>) -> Direction {
    if s == "north"@ {
        Direction::North
    } else if s == "south"@ {
        Direction::South
    } else if s == "west"@ {
        Direction::West
    } else {
        Direction::East
    }
}

/// The kind a save-file spelling names; anything unknown is a slime.
pub open spec fn kind_named(s: Seq<char>) -> EntityKind {
    if s == "player"@ {
        EntityKind::Player
    } else if s == "slime"@ {
        EntityKind::Slime
    } else if s == "goblin"@ {
        EntityKind::Goblin
    } else if s == "bat"@ {
        EntityKind::Bat
    } else if s == "ogre"@ {
        EntityKind::Ogre
    } else if s == "wizard"@ {
        EntityKind::Wizard
    } else if s == "barrel"@ {
        EntityKind::Barrel
    } else if s == "sign"@ {
        EntityKind::Sign
    } else if s == "memory fragment"@ {
        EntityKind::Fragment
    } else if s == "shade"@ {
        EntityKind::Shade
    } else if s == "rage"@ {
        EntityKind::Rage
    } else if s == "sentry"@ {
        EntityKind::Sentry
    } else if s == "shade echo"@ {
        EntityKind::ShadeEcho
    } else if s == "vapor canteen"@ {
        EntityKind::VaporCanteen
    } else {
        EntityKind::Slime
    }
}

/// Whether an entity of this kind carries enemy AI in a save.
pub open spec fn kind_has_enemy_ai(k: EntityKind) -> bool {
    k == EntityKind::Slime || k == EntityKind::Goblin || k == EntityKind::Bat || k == EntityKind::Ogre
        || k == EntityKind::Shade || k == EntityKind::Rage || k == EntityKind::Sentry
}

pub fn direction_to_string(d: Direction) -> (s: String)
    ensures
        s@ == direction_name(d),
{
    let name = match d {
        Direction::North => "north",
        Direction::South => "south",
        Direction::West => "west",
        Direction::East => "east",
    };
    name.to_owned()
}

pub fn direction_from_string(s: &str) -> (d: Direction)
    ensures
        d == direction_named(s@),
{
    if str_eq(s, "north") {
        Direction::North
    } else if str_eq(s, "south") {
        Direction::South
    } else if str_eq(s, "west") {
        Direction::West
    } else {
        Direction::East
    }
}

pub fn kind_to_string(k: EntityKind) -> (s: String)
    ensures
        s@ == kind_name(k),
{
    k.name().to_owned()
}

pub fn kind_from_string(s: &str) -> (k: EntityKind)
    ensures
        k == kind_named(s@),
{
    if str_eq(s, "player") {
        EntityKind::Player
    } else if str_eq(s, "slime") {
        EntityKind::Slime
    } else if str_eq(s, "goblin") {
        EntityKind::Goblin
    } else if str_eq(s, "bat") {
        EntityKind::Bat
    } else if str_eq(s, "ogre") {
        EntityKind::Ogre
    } else if str_eq(s, "wizard") {
        EntityKind::Wizard
    } else if str_eq(s, "barrel") {
        EntityKind::Barrel
    } else if str_eq(s, "sign") {
        EntityKind::Sign
    } else if str_eq(s, "memory fragment") {
        EntityKind::Fragment
    } else if str_eq(s, "shade") {
        EntityKind::Shade
    } else if str_eq(s, "rage") {
        EntityKind::Rage
    } else if str_eq(s, "sentry") {
        EntityKind::Sentry
    } else if str_eq(s, "shade echo") {
        EntityKind::ShadeEcho
    } else if str_eq(s, "vapor canteen") {
        EntityKind::VaporCanteen
    } else {
        EntityKind::Slime
    }
}

/// Whether a saved entity of this kind carries enemy AI.
pub fn has_enemy_ai(k: EntityKind) -> (b: bool)
    ensures
        b == kind_has_enemy_ai(k),
{
    match k {
        EntityKind::Slime | EntityKind::Goblin | EntityKind::Bat | EntityKind::Ogre | EntityKind::Shade
        | EntityKind::Rage | EntityKind::Sentry => true,
        _ => false,
    }
}

/// A direction written to a save reads back as itself.
pub proof fn lemma_direction_round_trip(x: Direction)
    ensures
        direction_named(direction_name(x)) == x,
{
    match x {
        Direction::North => {
            reveal_strlit("north");
        },
        Direction::South => {
            reveal_strlit("south");
            reveal_strlit("north");
            assert("south"@[0] != "north"@[0]);
        },
        Direction::West => {
            reveal_strlit("west");
            reveal_strlit("north");
            reveal_strlit("south");
            assert("west"@.len() != "north"@.len());
            assert("west"@.len() != "south"@.len());
        },
        Direction::East => {
            reveal_strlit("east");
            reveal_strlit("north");
            reveal_strlit("south");
            reveal_strlit("west");
            assert("east"@.len() != "north"@.len());
            assert("east"@.len() != "south"@.len());
            assert("east"@[0] != "west"@[0]);
        },
    }
}

/// An entity kind written to a save reads back as itself.
pub proof fn lemma_kind_round_trip(x: EntityKind)
    ensures
        kind_named(kind_name(x)) == x,
{
    match x {
        EntityKind::Player => {
            reveal_strlit("player");
        },
        EntityKind::Slime => {
            reveal_strlit("slime");
            reveal_strlit("player");
            assert("slime"@.len() != "player"@.len());
        },
        EntityKind::Goblin => {
            reveal_strlit("goblin");
            reveal_strlit("player");
            reveal_strlit("slime");
            assert("goblin"@[0] != "player"@[0]);
            assert("goblin"@.len() != "slime"@.len());
        },
        EntityKind::Bat => {
            reveal_strlit("bat");
            reveal_strlit("player");
            reveal_strlit("slime");
            reveal_strlit("goblin");
            assert("bat"@.len() != "player"@.len());
            assert("bat"@.len() != "slime"@.len());
            assert("bat"@.len() != "goblin"@.len());
        },
        EntityKind::Ogre => {
            reveal_strlit("ogre");
            reveal_strlit("player");
            reveal_strlit("slime");
            reveal_strlit("goblin");
            reveal_strlit("bat");
            assert("ogre"@.len() != "player"@.len());
            assert("ogre"@.len() != "slime"@.len());
            assert("ogre"@.len() != "goblin"@.len());
            assert("ogre"@.len() != "bat"@.len());
        },
        EntityKind::Wizard => {
            reveal_strlit("wizard");
            reveal_strlit("player");
            reveal_strlit("slime");
            reveal_strlit("goblin");
            reveal_strlit("bat");
            reveal_strlit("ogre");
            assert("wizard"@[0] != "player"@[0]);
            assert("wizard"@.len() != "slime"@.len());
            assert("wizard"@[0] != "goblin"@[0]);
            assert("wizard"@.len() != "bat"@.len());
            assert("wizard"@.len() != "ogre"@.len());
        },
        EntityKind::Barrel => {
            reveal_strlit("barrel");
            reveal_strlit("player");
            reveal_strlit("slime");
            reveal_strlit("goblin");
            reveal_strlit("bat");
            reveal_strlit("ogre");
            reveal_strlit("wizard");
            assert("barrel"@[0] != "player"@[0]);
            assert("barrel"@.len() != "slime"@.len());
            assert("barrel"@[0] != "goblin"@[0]);
            assert("barrel"@.len() != "bat"@.len());
            assert("barrel"@.len() != "ogre"@.len());
            assert("barrel"@[0] != "wizard"@[0]);
        },
        EntityKind::Sign => {
            reveal_strlit("sign");
            reveal_strlit("player");
            reveal_strlit("slime");
            reveal_strlit("goblin");
            reveal_strlit("bat");
            reveal_strlit("ogre");
            reveal_strlit("wizard");
            reveal_strlit("barrel");
            assert("sign"@.len() != "player"@.len());
            assert("sign"@.len() != "slime"@.len());
            assert("sign"@.len() != "goblin"@.len());
            assert("sign"@.len() != "bat"@.len());
            assert("sign"@[0] != "ogre"@[0]);
            assert("sign"@.len() != "wizard"@.len());
            assert("sign"@.len() != "barrel"@.len());
        },
        EntityKind::Fragment => {
            reveal_strlit("memory fragment");
            reveal_strlit("player");
            reveal_strlit("slime");
            reveal_strlit("goblin");
            reveal_strlit("bat");
            reveal_strlit("ogre");
            reveal_strlit("wizard");
            reveal_strlit("barrel");
            reveal_strlit("sign");
            assert("memory fragment"@.len() != "player"@.len());
            assert("memory fragment"@.len() != "slime"@.len());
            assert("memory fragment"@.len() != "goblin"@.len());
            assert("memory fragment"@.len() != "bat"@.len());
            assert("memory fragment"@.len() != "ogre"@.len());
            assert("memory fragment"@.len() != "wizard"@.len());
            assert("memory fragment"@.len() != "barrel"@.len());
            assert("memory fragment"@.len() != "sign"@.len());
        },
        EntityKind::Shade => {
            reveal_strlit("shade");
            reveal_strlit("player");
            reveal_strlit("slime");
            reveal_strlit("goblin");
            reveal_strlit("bat");
            reveal_strlit("ogre");
            reveal_strlit("wizard");
            reveal_strlit("barrel");
            reveal_strlit("sign");
            reveal_strlit("memory fragment");
            assert("shade"@.len() != "player"@.len());
            assert("shade"@[1] != "slime"@[1]);
            assert("shade"@.len() != "goblin"@.len());
            assert("shade"@.len() != "bat"@.len());
            assert("shade"@.len() != "ogre"@.len());
            assert("shade"@.len() != "wizard"@.len());
            assert("shade"@.len() != "barrel"@.len());
            assert("shade"@.len() != "sign"@.len());
            assert("shade"@.len() != "memory fragment"@.len());
        },
        EntityKind::Rage => {
            reveal_strlit("rage");
            reveal_strlit("player");
            reveal_strlit("slime");
            reveal_strlit("goblin");
            reveal_strlit("bat");
            reveal_strlit("ogre");
            reveal_strlit("wizard");
            reveal_strlit("barrel");
            reveal_strlit("sign");
            reveal_strlit("memory fragment");
            reveal_strlit("shade");
            assert("rage"@.len() != "player"@.len());
            assert("rage"@.len() != "slime"@.len());
            assert("rage"@.len() != "goblin"@.len());
            assert("rage"@.len() != "bat"@.len());
            assert("rage"@[0] != "ogre"@[0]);
            assert("rage"@.len() != "wizard"@.len());
            assert("rage"@.len() != "barrel"@.len());
            assert("rage"@[0] != "sign"@[0]);
            assert("rage"@.len() != "memory fragment"@.len());
            assert("rage"@.len() != "shade"@.len());
        },
        EntityKind::Sentry => {
            reveal_strlit("sentry");
            reveal_strlit("player");
            reveal_strlit("slime");
            reveal_strlit("goblin");
            reveal_strlit("bat");
            reveal_strlit("ogre");
            reveal_strlit("wizard");
            reveal_strlit("barrel");
            reveal_strlit("sign");
            reveal_strlit("memory fragment");
            reveal_strlit("shade");
            reveal_strlit("rage");
            assert("sentry"@[0] != "player"@[0]);
            assert("sentry"@.len() != "slime"@.len());
            assert("sentry"@[0] != "goblin"@[0]);
            assert("sentry"@.len() != "bat"@.len());
            assert("sentry"@.len() != "ogre"@.len());
            assert("sentry"@[0] != "wizard"@[0]);
            assert("sentry"@[0] != "barrel"@[0]);
            assert("sentry"@.len() != "sign"@.len());
            assert("sentry"@.len() != "memory fragment"@.len());
            assert("sentry"@.len() != "shade"@.len());
            assert("sentry"@.len() != "rage"@.len());
        },
        EntityKind::ShadeEcho => {
            reveal_strlit("shade echo");
            reveal_strlit("player");
            reveal_strlit("slime");
            reveal_strlit("goblin");
            reveal_strlit("bat");
            reveal_strlit("ogre");
            reveal_strlit("wizard");
            reveal_strlit("barrel");
            reveal_strlit("sign");
            reveal_strlit("memory fragment");
            reveal_strlit("shade");
            reveal_strlit("rage");
            reveal_strlit("sentry");
            assert("shade echo"@.len() != "player"@.len());
            assert("shade echo"@.len() != "slime"@.len());
            assert("shade echo"@.len() != "goblin"@.len());
            assert("shade echo"@.len() != "bat"@.len());
            assert("shade echo"@.len() != "ogre"@.len());
            assert("shade echo"@.len() != "wizard"@.len());
            assert("shade echo"@.len() != "barrel"@.len());
            assert("shade echo"@.len() != "sign"@.len());
            assert("shade echo"@.len() != "memory fragment"@.len());
            assert("shade echo"@.len() != "shade"@.len());
            assert("shade echo"@.len() != "rage"@.len());
            assert("shade echo"@.len() != "sentry"@.len());
        },
        EntityKind::VaporCanteen => {
            reveal_strlit("vapor canteen");
            reveal_strlit("player");
            reveal_strlit("slime");
            reveal_strlit("goblin");
            reveal_strlit("bat");
            reveal_strlit("ogre");
            reveal_strlit("wizard");
            reveal_strlit("barrel");
            reveal_strlit("sign");
            reveal_strlit("memory fragment");
            reveal_strlit("shade");
            reveal_strlit("rage");
            reveal_strlit("sentry");
            reveal_strlit("shade echo");
            assert("vapor canteen"@.len() != "player"@.len());
            assert("vapor canteen"@.len() != "slime"@.len());
            assert("vapor canteen"@.len() != "goblin"@.len());
            assert("vapor canteen"@.len() != "bat"@.len());
            assert("vapor canteen"@.len() != "ogre"@.len());
            assert("vapor canteen"@.len() != "wizard"@.len());
            assert("vapor canteen"@.len() != "barrel"@.len());
            assert("vapor canteen"@.len() != "sign"@.len());
            assert("vapor canteen"@.len() != "memory fragment"@.len());
            assert("vapor canteen"@.len() != "shade"@.len());
            assert("vapor canteen"@.len() != "rage"@.len());
            assert("vapor canteen"@.len() != "sentry"@.len());
            assert("vapor canteen"@.len() != "shade echo"@.len());
        },
    }
}


// ---------------------------------------------------------------------------
// Tiles

/// How a save file spells a tile type.
pub open spec fn tile_name(t: TileType) -> Seq<char> {
    match t {
        TileType::Floor => "floor"@,
        TileType::Wall => "wall"@,
        TileType::StairsDown => "stairs_down"@,
        TileType::StairsUp => "stairs_up"@,
        TileType::Fire => "fire"@,
        TileType::Lamp => "lamp"@,
        TileType::PressurePlate => "pressure_plate"@,
    }
}

/// The tile type a save-file spelling names; anything unknown is floor.
pub open spec fn tile_named(s: Seq<char>) -> TileType {
    if s == "floor"@ {
        TileType::Floor
    } else if s == "wall"@ {
        TileType::Wall
    } else if s == "stairs_down"@ {
        TileType::StairsDown
    } else if s == "stairs_up"@ {
        TileType::StairsUp
    } else if s == "fire"@ {
        TileType::Fire
    } else if s == "lamp"@ {
        TileType::Lamp
    } else if s == "pressure_plate"@ {
        TileType::PressurePlate
    } else {
        TileType::Floor
    }
}

pub fn tile_type_to_string(t: TileType) -> (s: String)
    ensures
        s@ == tile_name(t),
{
    let name = match t {
        TileType::Floor => "floor",
        TileType::Wall => "wall",
        TileType::StairsDown => "stairs_down",
        TileType::StairsUp => "stairs_up",
        TileType::Fire => "fire",
        TileType::Lamp => "lamp",
        TileType::PressurePlate => "pressure_plate",
    };
    name.to_owned()
}

pub fn tile_type_from_string(s: &str) -> (t: TileType)
    ensures
        t == tile_named(s@),
{
    if str_eq(s, "floor") {
        TileType::Floor
    } else if str_eq(s, "wall") {
        TileType::Wall
    } else if str_eq(s, "stairs_down") {
        TileType::StairsDown
    } else if str_eq(s, "stairs_up") {
        TileType::StairsUp
    } else if str_eq(s, "fire") {
        TileType::Fire
    } else if str_eq(s, "lamp") {
        TileType::Lamp
    } else if str_eq(s, "pressure_plate") {
        TileType::PressurePlate
    } else {
        TileType::Floor
    }
}

/// A tile type written to a save reads back as itself.
pub proof fn lemma_tile_round_trip(t: TileType)
    ensures
        tile_named(tile_name(t)) == t,
{
    reveal_strlit("floor");
    reveal_strlit("wall");
    reveal_strlit("stairs_down");
    reveal_strlit("stairs_up");
    reveal_strlit("fire");
    reveal_strlit("lamp");
    reveal_strlit("pressure_plate");
    match t {
        TileType::Floor => {},
        TileType::Wall => {
            assert("wall"@.len() != "floor"@.len());
        },
        TileType::StairsDown => {
            assert("stairs_down"@.len() != "floor"@.len());
            assert("stairs_down"@.len() != "wall"@.len());
        },
        TileType::StairsUp => {
            assert("stairs_up"@.len() != "floor"@.len());
            assert("stairs_up"@.len() != "wall"@.len());
            assert("stairs_up"@.len() != "stairs_down"@.len());
        },
        TileType::Fire => {
            assert("fire"@.len() != "floor"@.len());
            assert("fire"@[0] != "wall"@[0]);
            assert("fire"@.len() != "stairs_down"@.len());
            assert("fire"@.len() != "stairs_up"@.len());
        },
        TileType::Lamp => {
            assert("lamp"@.len() != "floor"@.len());
            assert("lamp"@[0] != "wall"@[0]);
            assert("lamp"@.len() != "stairs_down"@.len());
            assert("lamp"@.len() != "stairs_up"@.len());
            assert("lamp"@[0] != "fire"@[0]);
        },
        TileType::PressurePlate => {
            assert("pressure_plate"@.len() != "floor"@.len());
            assert("pressure_plate"@.len() != "wall"@.len());
            assert("pressure_plate"@.len() != "stairs_down"@.len());
            assert("pressure_plate"@.len() != "stairs_up"@.len());
            assert("pressure_plate"@.len() != "fire"@.len());
            assert("pressure_plate"@.len() != "lamp"@.len());
        },
    }
}

/// The character a save file stores for a tile.
pub open spec fn tile_char(t: TileType) -> char {
    match t {
        TileType::Floor => 'F',
        TileType::Wall => 'W',
        TileType::StairsDown => 'D',
        TileType::StairsUp => 'U',
        TileType::Fire => '^',
        TileType::Lamp => 'L',
        TileType::PressurePlate => 'P',
    }
}

/// The tile a stored character stands for; anything unknown is floor.
pub open spec fn tile_of_char(c: char) -> TileType {
    if c == 'F' {
        TileType::Floor
    } else if c == 'W' {
        TileType::Wall
    } else if c == 'D' {
        TileType::StairsDown
    } else if c == 'U' {
        TileType::StairsUp
    } else if c == '^' {
        TileType::Fire
    } else if c == 'L' {
        TileType::Lamp
    } else if c == 'P' {
        TileType::PressurePlate
    } else {
        TileType::Floor
    }
}

pub fn tile_to_char(t: TileType) -> (c: char)
    ensures
        c == tile_char(t),
{
    match t {
        TileType::Floor => 'F',
        TileType::Wall => 'W',
        TileType::StairsDown => 'D',
        TileType::StairsUp => 'U',
        TileType::Fire => '^',
        TileType::Lamp => 'L',
        TileType::PressurePlate => 'P',
    }
}

pub fn tile_from_char(c: char) -> (t: TileType)
    ensures
        t == tile_of_char(c),
{
    if c == 'F' {
        TileType::Floor
    } else if c == 'W' {
        TileType::Wall
    } else if c == 'D' {
        TileType::StairsDown
    } else if c == 'U' {
        TileType::StairsUp
    } else if c == '^' {
        TileType::Fire
    } else if c == 'L' {
        TileType::Lamp
    } else if c == 'P' {
        TileType::PressurePlate
    } else {
        TileType::Floor
    }
}

/// A tile stored as a character reads back as itself.
pub proof fn lemma_tile_char_round_trip(t: TileType)
    ensures
        tile_of_char(tile_char(t)) == t,
{
}

/// The stored characters of a map: one per tile, in row-major order.
pub open spec fn encoded_tiles(m: TileMap) -> Seq<char> {
    Seq::new((m.spec_width() * m.spec_height()) as nat, |i: int| tile_char(m.tile_at(grid_position(m.spec_width(), i))))
}

/// The tile a map read from stored characters has at `p`: what the
/// character at its row-major index stands for, floor past their end.
pub open spec fn decoded_tile(w: int, tiles: Seq<char>, p: Position) -> TileType {
    if grid_index(w, p) < tiles.len() {
        tile_of_char(tiles[grid_index(w, p)])
    } else {
        TileType::Floor
    }
}

/// The map's tiles as a save file stores them.
pub fn encode_map_tiles(map: &TileMap) -> (tiles: Vec<char>)
    requires
        map.wf(),
    ensures
        tiles@ == encoded_tiles(*map),
{
    proof {
        map.lemma_wf_len();
    }
    if map.width() == 0 {
        assert(map.spec_width() * map.spec_height() == 0) by (nonlinear_arith)
            requires
                map.spec_width() == 0,
        ;
        assert(encoded_tiles(*map) =~= Seq::<char>::empty());
        return Vec::new();
    }
    let n = (map.width() * map.height()) as usize;
    let mut tiles: Vec<char> = Vec::new();
    let mut i: usize = 0;
    while i < n
        invariant
            map.wf(),
            0 < map.spec_width(),
            0 <= map.spec_height(),
            n == map.spec_width() * map.spec_height(),
            n <= i32::MAX,
            i <= n,
            tiles@ == encoded_tiles(*map).take(i as int),
        decreases n - i,
    {
        proof {
            lemma_grid_position_roundtrip(map.spec_width(), map.spec_height(), i as int);
        }
        let p = map.position_for_idx(i);
        let t = map.tile(p);
        tiles.push(tile_to_char(t));
        assert(tiles@ =~= encoded_tiles(*map).take(i + 1));
        i = i + 1;
    }
    assert(tiles@ =~= encoded_tiles(*map));
    tiles
}

/// A map of the given size read from stored characters: floor everywhere,
/// then each character written, in row-major order, to the tile it stands
/// for; characters past the last tile are ignored.
pub fn decode_map_tiles(width: i32, height: i32, tiles: &Vec<char>) -> (map: TileMap)
    requires
        0 <= width,
        0 <= height,
        width == 0 ==> tiles@.len() == 0,
        width * height <= i32::MAX,
        tiles@.len() <= i32::MAX,
    ensures
        map.wf(),
        map.spec_width() == width,
        map.spec_height() == height,
        forall|p: Position| #[trigger] map.spec_contains(p) ==> map.tile_at(p) == decoded_tile(width as int, tiles@, p),
{
    let mut map = TileMap::new_filled(width, height, TileType::Floor);
    let mut i: usize = 0;
    while i < tiles.len()
        invariant
            map.wf(),
            map.spec_width() == width,
            map.spec_height() == height,
            0 <= width,
            0 <= height,
            width == 0 ==> tiles@.len() == 0,
            width * height <= i32::MAX,
            tiles@.len() <= i32::MAX,
            i <= tiles@.len(),
            forall|p: Position| #[trigger] map.spec_contains(p) ==> map.tile_at(p) == (if grid_index(width as int, p) < i {
                tile_of_char(tiles@[grid_index(width as int, p)])
            } else {
                TileType::Floor
            }),
        decreases tiles@.len() - i,
    {
        let pos = map.position_for_idx(i);
        let t = tile_from_char(tiles[i]);
        let ghost before = map;
        map.set_tile(pos, t);
        proof {
            assert forall|p: Position| #[trigger] map.spec_contains(p) implies map.tile_at(p) == (if grid_index(
                width as int,
                p,
            ) < i + 1 {
                tile_of_char(tiles@[grid_index(width as int, p)])
            } else {
                TileType::Floor
            }) by {
                assert(before.spec_contains(p));
                lemma_grid_index_bounds(width as int, height as int, p);
                if before.spec_contains(pos) {
                    lemma_set_tile_reads(before, map, pos, t, p);
                    lemma_position_index(width as int, i as int);
                    if p != pos {
                        lemma_grid_index_injective(width as int, p, pos);
                    }
                } else {
                    // A position past the last row: no tile has index `i`.
                    assert(grid_index(width as int, p) != i) by {
                        if grid_index(width as int, p) == i {
                            lemma_index_position(width as int, p);
                        }
                    }
                }
            }
        }
        i = i + 1;
    }
    map
}

/// The row-major index of the position of an index is that index.
proof fn lemma_position_index(w: int, i: int)
    requires
        0 < w,
        0 <= i <= i32::MAX,
    ensures
        grid_index(w, grid_position(w, i)) == i,
{
    assert(0 <= i % w < w && 0 <= i / w <= i && (i / w) * w + i % w == i) by (nonlinear_arith)
        requires
            0 < w,
            0 <= i,
    {
        vstd::arithmetic::div_mod::lemma_fundamental_div_mod(i, w);
        vstd::arithmetic::div_mod::lemma_div_pos_is_pos(i, w);
        vstd::arithmetic::div_mod::lemma_div_is_ordered_by_denominator(i, 1, w);
    }
}

/// The position of an in-grid index is the in-grid position itself.
proof fn lemma_index_position(w: int, p: Position)
    requires
        0 < w,
        0 <= p.x < w,
        0 <= p.y,
        grid_index(w, p) <= i32::MAX,
    ensures
        grid_position(w, grid_index(w, p)) == p,
{
    let i = grid_index(w, p);
    assert(i % w == p.x && i / w == p.y) by (nonlinear_arith)
        requires
            0 < w,
            0 <= p.x < w,
            0 <= p.y,
            i == p.y * w + p.x,
    {
        vstd::arithmetic::div_mod::lemma_fundamental_div_mod_converse(i, w, p.y as int, p.x as int);
    }
}

/// A map stored and read back has the same tiles.
pub proof fn lemma_map_tiles_round_trip(m: TileMap, p: Position)
    requires
        m.wf(),
        m.spec_contains(p),
    ensures
        decoded_tile(m.spec_width(), encoded_tiles(m), p) == m.tile_at(p),
{
    let w = m.spec_width();
    let h = m.spec_height();
    m.lemma_wf_len();
    lemma_grid_index_bounds(w, h, p);
    lemma_index_position(w, p);
    lemma_tile_char_round_trip(m.tile_at(p));
}


// ---------------------------------------------------------------------------
// Loading a save

/// One event-log line as a save file stores it (its color as bytes).
pub struct SavedLine {
    pub text: String,
    pub color: Option<(u8, u8, u8)>,
}

/// What a save file holds of the game, as plain values.
pub struct SaveRecord {
    pub version: u32,
    pub depth: u32,
    pub turn: u64,
    pub player_id_raw: usize,
    pub player_facing: String,
    pub player_can_attack: bool,
    pub wizard_taught: bool,
    pub wizard_id_raw: Option<usize>,
    pub cheat_unlocked: bool,
    pub blocking: bool,
    pub map_width: i32,
    pub map_height: i32,
    pub map_tiles: Vec<char>,
    pub entities: Vec<EntitySnapshot>,
    pub event_log: Vec<SavedLine>,
    pub bindings: Vec<(String, String)>,
    pub user_source: Vec<String>,
    pub fragments: Vec<Fragment>,
    pub ending: Option<String>,
    pub registry_write_unlocked: bool,
    pub held_keys: Vec<String>,
    pub held_items: Vec<String>,
    pub gauntlet_barrier_locked: Vec<i32>,
    pub explored_tiles: Vec<(i32, i32)>,
    pub seen_entity_kinds: Vec<String>,
    pub seen_tile_types: Vec<String>,
    pub known_rule_ids: Vec<String>,
    pub console_history: Vec<String>,
    pub barrel_room_protected: bool,
    pub maze_shifting_walls: Vec<(i32, i32)>,
    pub maze_shift_frozen: bool,
}

/// An entity as the game holds it between a save and a load.
pub struct RestoredEntity {
    pub id: usize,
    pub pos: Position,
    pub kind: EntityKind,
    pub hp_current: i32,
    pub hp_max: i32,
    pub alive: bool,
    pub glyph: char,
    /// The message of a sign; `None` for every other kind.
    pub sign_message: Option<String>,
    /// The fragment a memory fragment stands for; `None` for every other kind.
    pub fragment_id: Option<String>,
}

/// The game state a save keeps and a load gives back, before the game
/// rebuilds its Glyph environment from it.
pub struct RestoredState {
    pub map: TileMap,
    pub depth: u32,
    pub turn: u64,
    pub player_id: usize,
    pub facing: Direction,
    pub player_can_attack: bool,
    pub wizard_taught: bool,
    pub wizard_id: Option<usize>,
    pub cheat_unlocked: bool,
    pub blocking: bool,
    /// The entities, in the save's order.
    pub entities: Vec<RestoredEntity>,
    pub log: EventLog,
    pub bindings: Vec<(String, String)>,
    pub user_source: Vec<String>,
    pub fragments: FragmentRegistry,
    pub ending: Option<String>,
    pub registry_write_unlocked: bool,
    pub held_keys: Vec<String>,
    pub held_items: Vec<String>,
    pub gauntlet_barrier_locked: Vec<i32>,
    pub explored_tiles: Vec<Position>,
    pub seen_entity_kinds: Vec<EntityKind>,
    pub seen_tile_types: Vec<TileType>,
    pub known_rule_ids: Vec<String>,
    pub console_history: Vec<String>,
    pub barrel_room_protected: bool,
    pub maze_shifting_walls: Vec<Position>,
    pub maze_shift_frozen: bool,
}

/// The log lines of the first `k` saved lines, pushed in order onto an
/// empty log.
pub open spec fn saved_log(lines: Seq<SavedLine>, k: int) -> Seq<(Seq<char>, Option<(u8, u8, u8)>)>
    decreases k,
{
    if k <= 0 {
        Seq::empty()
    } else {
        appended(saved_log(lines, k - 1), (lines[k - 1].text@, lines[k - 1].color))
    }
}

/// The line a loaded game starts its log with.
pub open spec fn autoload_notice() -> Seq<char> {
    "Save file detected. Auto-loading. Use (wipe!) to delete the save."@
}

/// An optional text by its characters.
pub open spec fn opt_text(o: Option<String>) -> Option<Seq<char>> {
    match o {
        Some(s) => Some(s@),
        None => None,
    }
}

/// The message a loaded entity of kind `k` carries: a sign gets its saved
/// message (empty when there is none), other kinds none.
pub open spec fn loaded_sign(k: EntityKind, saved: Option<String>) -> Option<Seq<char>> {
    if k == EntityKind::Sign {
        Some(
            match saved {
                Some(m) => m@,
                None => ""@,
            },
        )
    } else {
        None
    }
}

/// The fragment a loaded entity of kind `k` stands for: a memory fragment
/// gets its saved id (`frag-001` when there is none), other kinds none.
pub open spec fn loaded_fragment(k: EntityKind, saved: Option<String>) -> Option<Seq<char>> {
    if k == EntityKind::Fragment {
        Some(
            match saved {
                Some(m) => m@,
                None => "frag-001"@,
            },
        )
    } else {
        None
    }
}

/// A saved entity loaded: id, place, health, life and glyph as saved, the
/// kind from its spelling.
pub open spec fn entity_loaded(e: EntitySnapshot, r: RestoredEntity) -> bool {
    &&& r.id == e.id
    &&& r.pos == (Position { x: e.x, y: e.y })
    &&& r.kind == kind_named(e.kind@)
    &&& r.hp_current == e.hp_current
    &&& r.hp_max == e.hp_max
    &&& r.alive == e.alive
    &&& r.glyph == e.glyph
    &&& opt_text(r.sign_message) == loaded_sign(r.kind, e.sign_message)
    &&& opt_text(r.fragment_id) == loaded_fragment(r.kind, e.fragment_id)
}

/// An entity saved: id, place, health, life, glyph, message and fragment id
/// as held, the kind by its spelling and whether it has enemy AI by its kind.
pub open spec fn entity_saved(r: RestoredEntity, e: EntitySnapshot) -> bool {
    &&& e.id == r.id
    &&& e.kind@ == kind_name(r.kind)
    &&& e.x == r.pos.x
    &&& e.y == r.pos.y
    &&& e.hp_current == r.hp_current
    &&& e.hp_max == r.hp_max
    &&& e.alive == r.alive
    &&& e.has_enemy_ai == kind_has_enemy_ai(r.kind)
    &&& e.glyph == r.glyph
    &&& opt_text(e.sign_message) == opt_text(r.sign_message)
    &&& opt_text(e.fragment_id) == opt_text(r.fragment_id)
}

/// A pair of coordinates as a position.
pub open spec fn pos_of(c: (i32, i32)) -> Position {
    Position { x: c.0, y: c.1 }
}

/// Saved log lines as log lines.
pub open spec fn log_lines(s: Seq<SavedLine>) -> Seq<(Seq<char>, Option<(u8, u8, u8)>)> {
    Seq::new(s.len(), |i: int| (s[i].text@, s[i].color))
}

/// Coordinate pairs as positions.
pub open spec fn positions(s: Seq<(i32, i32)>) -> Seq<Position> {
    Seq::new(s.len(), |i: int| pos_of(s[i]))
}

/// Texts by their characters.
pub open spec fn texts(s: Seq<String>) -> Seq<Seq<char>> {
    Seq::new(s.len(), |i: int| s[i]@)
}

/// The kinds that spellings name.
pub open spec fn kinds_named(s: Seq<String>) -> Seq<EntityKind> {
    Seq::new(s.len(), |i: int| kind_named(s[i]@))
}

/// The tiles that spellings name.
pub open spec fn tiles_named(s: Seq<String>) -> Seq<TileType> {
    Seq::new(s.len(), |i: int| tile_named(s[i]@))
}

/// The spellings of kinds.
pub open spec fn kind_names(s: Seq<EntityKind>) -> Seq<Seq<char>> {
    Seq::new(s.len(), |i: int| kind_name(s[i]))
}

/// The spellings of tiles.
pub open spec fn tile_names(s: Seq<TileType>) -> Seq<Seq<char>> {
    Seq::new(s.len(), |i: int| tile_name(s[i]))
}

/// What loading `d` gives: see `restore_state`.
pub open spec fn loaded_from(d: SaveRecord, s: RestoredState) -> bool {
    &&& s.map.wf()
    &&& s.map.spec_width() == d.map_width
    &&& s.map.spec_height() == d.map_height
    &&& forall|p: Position| #[trigger] s.map.spec_contains(p) ==> s.map.tile_at(p) == decoded_tile(
        d.map_width as int,
        d.map_tiles@,
        p,
    )
    &&& s.depth == d.depth
    &&& s.turn == d.turn
    &&& s.player_id == d.player_id_raw
    &&& s.facing == direction_named(d.player_facing@)
    &&& s.player_can_attack == (d.player_can_attack || d.wizard_taught)
    &&& s.wizard_taught == d.wizard_taught
    &&& s.wizard_id == d.wizard_id_raw
    &&& s.cheat_unlocked == d.cheat_unlocked
    &&& s.blocking == d.blocking
    &&& s.entities@.len() == d.entities@.len()
    &&& forall|k: int| 0 <= k < s.entities@.len() ==> entity_loaded(d.entities@[k], #[trigger] s.entities@[k])
    &&& s.log.wf()
    &&& s.log.lines() == appended(saved_log(d.event_log@, d.event_log@.len() as int), (autoload_notice(), None))
    &&& s.bindings@ == d.bindings@
    &&& s.user_source@ == d.user_source@
    &&& s.fragments.entries() == d.fragments@
    &&& s.ending == d.ending
    &&& s.registry_write_unlocked == d.registry_write_unlocked
    &&& s.held_keys@ == d.held_keys@
    &&& s.held_items@ == d.held_items@
    &&& s.gauntlet_barrier_locked@ == d.gauntlet_barrier_locked@
    &&& s.explored_tiles@ == positions(d.explored_tiles@)
    &&& s.seen_entity_kinds@ == kinds_named(d.seen_entity_kinds@)
    &&& s.seen_tile_types@ == tiles_named(d.seen_tile_types@)
    &&& s.known_rule_ids@ == d.known_rule_ids@
    &&& s.console_history@ == d.console_history@
    &&& s.barrel_room_protected == d.barrel_room_protected
    &&& s.maze_shifting_walls@ == positions(d.maze_shifting_walls@)
    &&& s.maze_shift_frozen == d.maze_shift_frozen
}

/// What saving `s` writes: see `save_record`.
pub open spec fn saved_as(s: RestoredState, d: SaveRecord) -> bool {
    &&& d.version == 1
    &&& d.depth == s.depth
    &&& d.turn == s.turn
    &&& d.player_id_raw == s.player_id
    &&& d.player_facing@ == direction_name(s.facing)
    &&& d.player_can_attack == s.player_can_attack
    &&& d.wizard_taught == s.wizard_taught
    &&& d.wizard_id_raw == s.wizard_id
    &&& d.cheat_unlocked == s.cheat_unlocked
    &&& d.blocking == s.blocking
    &&& d.map_width == s.map.spec_width()
    &&& d.map_height == s.map.spec_height()
    &&& d.map_tiles@ == encoded_tiles(s.map)
    &&& d.entities@.len() == s.entities@.len()
    &&& forall|k: int| 0 <= k < d.entities@.len() ==> entity_saved(s.entities@[k], #[trigger] d.entities@[k])
    &&& log_lines(d.event_log@) == s.log.lines()
    &&& d.bindings@ == s.bindings@
    &&& d.user_source@ == s.user_source@
    &&& d.fragments@ == s.fragments.entries()
    &&& d.ending == s.ending
    &&& d.registry_write_unlocked == s.registry_write_unlocked
    &&& d.held_keys@ == s.held_keys@
    &&& d.held_items@ == s.held_items@
    &&& d.gauntlet_barrier_locked@ == s.gauntlet_barrier_locked@
    &&& positions(d.explored_tiles@) == s.explored_tiles@
    &&& texts(d.seen_entity_kinds@) == kind_names(s.seen_entity_kinds@)
    &&& texts(d.seen_tile_types@) == tile_names(s.seen_tile_types@)
    &&& d.known_rule_ids@ == s.known_rule_ids@
    &&& d.console_history@ == s.console_history@
    &&& d.barrel_room_protected == s.barrel_room_protected
    &&& positions(d.maze_shifting_walls@) == s.maze_shifting_walls@
    &&& d.maze_shift_frozen == s.maze_shift_frozen
}

fn copy_text(s: &String) -> (r: String)
    ensures
        r == *s,
{
    s.clone()
}

fn copy_opt_text(o: &Option<String>) -> (r: Option<String>)
    ensures
        r == *o,
{
    match o {
        Some(s) => Some(copy_text(s)),
        None => None,
    }
}

fn copy_texts(v: &Vec<String>) -> (r: Vec<String>)
    ensures
        r@ == v@,
{
    let mut r: Vec<String> = Vec::new();
    let mut i: usize = 0;
    while i < v.len()
        invariant
            i <= v@.len(),
            r@ == v@.take(i as int),
        decreases v.len() - i,
    {
        r.push(copy_text(&v[i]));
        assert(r@ =~= v@.take(i + 1));
        i = i + 1;
    }
    assert(r@ =~= v@);
    r
}

/// Restores the game state from a save. The map is rebuilt from its stored
/// characters (see `decode_map_tiles`); depth, turn, the player's and the
/// wizard's ids, the wizard's lesson, the cheat and blocking flags, the
/// bindings, the player's own source, the fragments, the ending, the
/// registry's write lock, the held keys and items, the barriers, what was
/// explored and which rules were known, the console history and the
/// level flags come back as saved; the facing, the entity kinds and what
/// was seen from their spellings; the player can attack when the save says
/// so or the wizard taught them (which heals a save whose flag was lost).
/// Each entity keeps its id, place, health, life and glyph; a sign keeps its
/// message (empty when the save has none) and a memory fragment its id
/// (`frag-001` when the save has none). The log comes back line by line
/// with the notice of the load last.
pub fn restore_state(data: SaveRecord) -> (s: RestoredState)
    requires
        0 <= data.map_width,
        0 <= data.map_height,
        data.map_width == 0 ==> data.map_tiles@.len() == 0,
        data.map_width * data.map_height <= i32::MAX,
        data.map_tiles@.len() <= i32::MAX,
    ensures
        loaded_from(data, s),
{
    let map = decode_map_tiles(data.map_width, data.map_height, &data.map_tiles);
    let facing = direction_from_string(data.player_facing.as_str());

    let mut entities: Vec<RestoredEntity> = Vec::new();
    let mut k: usize = 0;
    while k < data.entities.len()
        invariant
            k <= data.entities@.len(),
            entities@.len() == k,
            forall|j: int| 0 <= j < k ==> entity_loaded(data.entities@[j], #[trigger] entities@[j]),
        decreases data.entities.len() - k,
    {
        let ghost old_entities = entities@;
        let e = &data.entities[k];
        let kind = kind_from_string(e.kind.as_str());
        let sign_message = match kind {
            EntityKind::Sign => match &e.sign_message {
                Some(m) => Some(copy_text(m)),
                None => Some(String::new()),
            },
            _ => None,
        };
        let fragment_id = match kind {
            EntityKind::Fragment => match &e.fragment_id {
                Some(f) => Some(copy_text(f)),
                None => Some("frag-001".to_owned()),
            },
            _ => None,
        };
        proof {
            reveal_strlit("frag-001");
            reveal_strlit("");
        }
        let r = RestoredEntity {
            id: e.id,
            pos: Position::new(e.x, e.y),
            kind,
            hp_current: e.hp_current,
            hp_max: e.hp_max,
            alive: e.alive,
            glyph: e.glyph,
            sign_message,
            fragment_id,
        };
        assert(opt_text(r.sign_message) == loaded_sign(r.kind, e.sign_message));
        assert(opt_text(r.fragment_id) == loaded_fragment(r.kind, e.fragment_id));
        assert(entity_loaded(*e, r));
        entities.push(r);
        assert(forall|j: int| 0 <= j < k ==> entities@[j] == old_entities[j]);
        k = k + 1;
    }

    let mut log = EventLog::new();
    let mut i: usize = 0;
    while i < data.event_log.len()
        invariant
            i <= data.event_log@.len(),
            log.wf(),
            log.lines() == saved_log(data.event_log@, i as int),
        decreases data.event_log.len() - i,
    {
        let line = &data.event_log[i];
        let text = string_from_chars(chars_of(line.text.as_str()).as_slice());
        match line.color {
            Some(c) => log.push_colored(text, c),
            None => log.push(text),
        }
        i = i + 1;
    }
    log.push("Save file detected. Auto-loading. Use (wipe!) to delete the save.".to_owned());

    let mut seen_kinds: Vec<EntityKind> = Vec::new();
    let mut j: usize = 0;
    while j < data.seen_entity_kinds.len()
        invariant
            j <= data.seen_entity_kinds@.len(),
            seen_kinds@ == kinds_named(data.seen_entity_kinds@.take(j as int)),
        decreases data.seen_entity_kinds.len() - j,
    {
        seen_kinds.push(kind_from_string(data.seen_entity_kinds[j].as_str()));
        assert(seen_kinds@ =~= kinds_named(data.seen_entity_kinds@.take(j + 1)));
        j = j + 1;
    }
    assert(data.seen_entity_kinds@.take(j as int) =~= data.seen_entity_kinds@);

    let mut seen_tiles: Vec<TileType> = Vec::new();
    let mut t: usize = 0;
    while t < data.seen_tile_types.len()
        invariant
            t <= data.seen_tile_types@.len(),
            seen_tiles@ == tiles_named(data.seen_tile_types@.take(t as int)),
        decreases data.seen_tile_types.len() - t,
    {
        seen_tiles.push(tile_type_from_string(data.seen_tile_types[t].as_str()));
        assert(seen_tiles@ =~= tiles_named(data.seen_tile_types@.take(t + 1)));
        t = t + 1;
    }
    assert(data.seen_tile_types@.take(t as int) =~= data.seen_tile_types@);

    let walls = positions_of(&data.maze_shifting_walls);
    let explored = positions_of(&data.explored_tiles);

    let SaveRecord {
        depth,
        turn,
        player_id_raw,
        player_can_attack,
        wizard_taught,
        wizard_id_raw,
        cheat_unlocked,
        blocking,
        bindings,
        user_source,
        fragments,
        ending,
        registry_write_unlocked,
        held_keys,
        held_items,
        gauntlet_barrier_locked,
        known_rule_ids,
        console_history,
        barrel_room_protected,
        maze_shift_frozen,
        ..
    } = data;
    RestoredState {
        map,
        depth,
        turn,
        player_id: player_id_raw,
        facing,
        player_can_attack: player_can_attack || wizard_taught,
        wizard_taught,
        wizard_id: wizard_id_raw,
        cheat_unlocked,
        blocking,
        entities,
        log,
        bindings,
        user_source,
        fragments: FragmentRegistry::from_fragments(fragments),
        ending,
        registry_write_unlocked,
        held_keys,
        held_items,
        gauntlet_barrier_locked,
        explored_tiles: explored,
        seen_entity_kinds: seen_kinds,
        seen_tile_types: seen_tiles,
        known_rule_ids,
        console_history,
        barrel_room_protected,
        maze_shifting_walls: walls,
        maze_shift_frozen,
    }
}

/// Coordinate pairs as positions.
fn positions_of(v: &Vec<(i32, i32)>) -> (r: Vec<Position>)
    ensures
        r@ == positions(v@),
{
    let mut r: Vec<Position> = Vec::new();
    let mut i: usize = 0;
    while i < v.len()
        invariant
            i <= v@.len(),
            r@ == positions(v@.take(i as int)),
        decreases v.len() - i,
    {
        let (x, y) = v[i];
        r.push(Position::new(x, y));
        assert(r@ =~= positions(v@.take(i + 1)));
        i = i + 1;
    }
    assert(v@.take(i as int) =~= v@);
    r
}

/// What a save file keeps of the game state (version 1): every field as
/// held, the map by its stored characters (see `encode_map_tiles`), the
/// facing, the entity kinds and what was seen by their spellings, each
/// entity with whether its kind has enemy AI, and the log line by line.
pub fn save_record(s: &RestoredState) -> (d: SaveRecord)
    requires
        s.map.wf(),
    ensures
        saved_as(*s, d),
{
    let mut entities: Vec<EntitySnapshot> = Vec::new();
    let mut k: usize = 0;
    while k < s.entities.len()
        invariant
            k <= s.entities@.len(),
            entities@.len() == k,
            forall|j: int| 0 <= j < k ==> entity_saved(s.entities@[j], #[trigger] entities@[j]),
        decreases s.entities.len() - k,
    {
        let ghost before = entities@;
        let e = &s.entities[k];
        let snap = EntitySnapshot {
            id: e.id,
            kind: kind_to_string(e.kind),
            x: e.pos.x,
            y: e.pos.y,
            hp_current: e.hp_current,
            hp_max: e.hp_max,
            alive: e.alive,
            has_enemy_ai: has_enemy_ai(e.kind),
            glyph: e.glyph,
            sign_message: copy_opt_text(&e.sign_message),
            fragment_id: copy_opt_text(&e.fragment_id),
        };
        assert(entity_saved(*e, snap));
        entities.push(snap);
        assert(forall|j: int| 0 <= j < k ==> entities@[j] == before[j]);
        k = k + 1;
    }

    let lines = s.log.entries();
    let mut event_log: Vec<SavedLine> = Vec::new();
    let mut i: usize = 0;
    while i < lines.len()
        invariant
            i <= lines@.len(),
            log_lines(event_log@) == entries_view(lines@.take(i as int)),
        decreases lines.len() - i,
    {
        let ghost before = event_log@;
        event_log.push(SavedLine { text: copy_text(&lines[i].text), color: lines[i].color });
        assert(log_lines(event_log@) =~= log_lines(before).push(entry_view(lines@[i as int])));
        assert(lines@.take(i + 1) =~= lines@.take(i as int).push(lines@[i as int]));
        assert(entries_view(lines@.take(i + 1)) =~= entries_view(lines@.take(i as int)).push(entry_view(lines@[i as int])));
        assert(log_lines(event_log@) =~= entries_view(lines@.take(i + 1)));
        i = i + 1;
    }
    assert(lines@.take(i as int) =~= lines@);

    let mut bindings: Vec<(String, String)> = Vec::new();
    let mut b: usize = 0;
    while b < s.bindings.len()
        invariant
            b <= s.bindings@.len(),
            bindings@ == s.bindings@.take(b as int),
        decreases s.bindings.len() - b,
    {
        let (key, body) = &s.bindings[b];
        bindings.push((copy_text(key), copy_text(body)));
        assert(bindings@ =~= s.bindings@.take(b + 1));
        b = b + 1;
    }
    assert(s.bindings@.take(b as int) =~= s.bindings@);

    let held = s.fragments.all();
    let mut fragments: Vec<Fragment> = Vec::new();
    let mut f: usize = 0;
    while f < held.len()
        invariant
            f <= held@.len(),
            fragments@ == held@.take(f as int),
        decreases held.len() - f,
    {
        let fr = &held[f];
        fragments.push(Fragment { id: copy_text(&fr.id), text: copy_text(&fr.text), weight: fr.weight, status: fr.status });
        assert(fragments@ =~= held@.take(f + 1));
        f = f + 1;
    }
    assert(held@.take(f as int) =~= held@);

    let mut barriers: Vec<i32> = Vec::new();
    let mut g: usize = 0;
    while g < s.gauntlet_barrier_locked.len()
        invariant
            g <= s.gauntlet_barrier_locked@.len(),
            barriers@ == s.gauntlet_barrier_locked@.take(g as int),
        decreases s.gauntlet_barrier_locked.len() - g,
    {
        barriers.push(s.gauntlet_barrier_locked[g]);
        assert(barriers@ =~= s.gauntlet_barrier_locked@.take(g + 1));
        g = g + 1;
    }
    assert(s.gauntlet_barrier_locked@.take(g as int) =~= s.gauntlet_barrier_locked@);

    let mut kinds: Vec<String> = Vec::new();
    let mut q: usize = 0;
    while q < s.seen_entity_kinds.len()
        invariant
            q <= s.seen_entity_kinds@.len(),
            texts(kinds@) == kind_names(s.seen_entity_kinds@.take(q as int)),
        decreases s.seen_entity_kinds.len() - q,
    {
        let ghost before = kinds@;
        kinds.push(kind_to_string(s.seen_entity_kinds[q]));
        assert(texts(kinds@) =~= texts(before).push(kind_name(s.seen_entity_kinds@[q as int])));
        assert(s.seen_entity_kinds@.take(q + 1) =~= s.seen_entity_kinds@.take(q as int).push(s.seen_entity_kinds@[q as int]));
        assert(kind_names(s.seen_entity_kinds@.take(q + 1)) =~= kind_names(s.seen_entity_kinds@.take(q as int)).push(
            kind_name(s.seen_entity_kinds@[q as int]),
        ));
        assert(texts(kinds@) =~= kind_names(s.seen_entity_kinds@.take(q + 1)));
        q = q + 1;
    }
    assert(s.seen_entity_kinds@.take(q as int) =~= s.seen_entity_kinds@);

    let mut tiles: Vec<String> = Vec::new();
    let mut t: usize = 0;
    while t < s.seen_tile_types.len()
        invariant
            t <= s.seen_tile_types@.len(),
            texts(tiles@) == tile_names(s.seen_tile_types@.take(t as int)),
        decreases s.seen_tile_types.len() - t,
    {
        let ghost before = tiles@;
        tiles.push(tile_type_to_string(s.seen_tile_types[t]));
        assert(texts(tiles@) =~= texts(before).push(tile_name(s.seen_tile_types@[t as int])));
        assert(s.seen_tile_types@.take(t + 1) =~= s.seen_tile_types@.take(t as int).push(s.seen_tile_types@[t as int]));
        assert(tile_names(s.seen_tile_types@.take(t + 1)) =~= tile_names(s.seen_tile_types@.take(t as int)).push(
            tile_name(s.seen_tile_types@[t as int]),
        ));
        assert(texts(tiles@) =~= tile_names(s.seen_tile_types@.take(t + 1)));
        t = t + 1;
    }
    assert(s.seen_tile_types@.take(t as int) =~= s.seen_tile_types@);

    SaveRecord {
        version: 1,
        depth: s.depth,
        turn: s.turn,
        player_id_raw: s.player_id,
        player_facing: direction_to_string(s.facing),
        player_can_attack: s.player_can_attack,
        wizard_taught: s.wizard_taught,
        wizard_id_raw: s.wizard_id,
        cheat_unlocked: s.cheat_unlocked,
        blocking: s.blocking,
        map_width: s.map.width(),
        map_height: s.map.height(),
        map_tiles: encode_map_tiles(&s.map),
        entities,
        event_log,
        bindings,
        user_source: copy_texts(&s.user_source),
        fragments,
        ending: copy_opt_text(&s.ending),
        registry_write_unlocked: s.registry_write_unlocked,
        held_keys: copy_texts(&s.held_keys),
        held_items: copy_texts(&s.held_items),
        gauntlet_barrier_locked: barriers,
        explored_tiles: pairs_of(&s.explored_tiles),
        seen_entity_kinds: kinds,
        seen_tile_types: tiles,
        known_rule_ids: copy_texts(&s.known_rule_ids),
        console_history: copy_texts(&s.console_history),
        barrel_room_protected: s.barrel_room_protected,
        maze_shifting_walls: pairs_of(&s.maze_shifting_walls),
        maze_shift_frozen: s.maze_shift_frozen,
    }
}

/// Positions as coordinate pairs.
fn pairs_of(v: &Vec<Position>) -> (r: Vec<(i32, i32)>)
    ensures
        positions(r@) == v@,
{
    let mut r: Vec<(i32, i32)> = Vec::new();
    let mut i: usize = 0;
    while i < v.len()
        invariant
            i <= v@.len(),
            positions(r@) == v@.take(i as int),
        decreases v.len() - i,
    {
        let ghost before = r@;
        r.push((v[i].x, v[i].y));
        assert(r@ == before.push((v@[i as int].x, v@[i as int].y)));
        assert(positions(r@) =~= positions(before).push(v@[i as int]));
        assert(v@.take(i + 1) =~= v@.take(i as int).push(v@[i as int]));
        assert(positions(r@) =~= v@.take(i + 1));
        i = i + 1;
    }
    assert(v@.take(i as int) =~= v@);
    r
}

/// A game entity is well formed when it carries a message exactly when it is
/// a sign and a fragment id exactly when it is a memory fragment.
pub open spec fn entity_wf(e: RestoredEntity) -> bool {
    &&& (e.sign_message is Some <==> e.kind == EntityKind::Sign)
    &&& (e.fragment_id is Some <==> e.kind == EntityKind::Fragment)
}

/// Saving a game state and loading the save gives the state back: every
/// field as it was, the map tile for tile, every entity with its id, place,
/// kind, health, life, glyph, message and fragment id, the fragments with
/// their statuses; the player can attack when they could or the wizard
/// taught them, and the log ends with the notice of the load.
pub proof fn lemma_save_round_trip(s: RestoredState, d: SaveRecord, l: RestoredState)
    requires
        s.map.wf(),
        forall|k: int| 0 <= k < s.entities@.len() ==> entity_wf(#[trigger] s.entities@[k]),
        saved_as(s, d),
        loaded_from(d, l),
    ensures
        l.depth == s.depth,
        l.turn == s.turn,
        l.player_id == s.player_id,
        l.facing == s.facing,
        l.player_can_attack == (s.player_can_attack || s.wizard_taught),
        l.wizard_taught == s.wizard_taught,
        l.wizard_id == s.wizard_id,
        l.cheat_unlocked == s.cheat_unlocked,
        l.blocking == s.blocking,
        l.map.spec_width() == s.map.spec_width(),
        l.map.spec_height() == s.map.spec_height(),
        forall|p: Position| #[trigger] l.map.spec_contains(p) ==> l.map.tile_at(p) == s.map.tile_at(p),
        l.entities@.len() == s.entities@.len(),
        forall|k: int|
            0 <= k < l.entities@.len() ==> {
                let a = #[trigger] l.entities@[k];
                let b = s.entities@[k];
                &&& a.id == b.id
                &&& a.pos == b.pos
                &&& a.kind == b.kind
                &&& a.hp_current == b.hp_current
                &&& a.hp_max == b.hp_max
                &&& a.alive == b.alive
                &&& a.glyph == b.glyph
                &&& opt_text(a.sign_message) == opt_text(b.sign_message)
                &&& opt_text(a.fragment_id) == opt_text(b.fragment_id)
            },
        l.log.lines().last() == (autoload_notice(), None::<(u8, u8, u8)>),
        l.bindings@ == s.bindings@,
        l.user_source@ == s.user_source@,
        l.fragments.entries() == s.fragments.entries(),
        l.ending == s.ending,
        l.registry_write_unlocked == s.registry_write_unlocked,
        l.held_keys@ == s.held_keys@,
        l.held_items@ == s.held_items@,
        l.gauntlet_barrier_locked@ == s.gauntlet_barrier_locked@,
        l.explored_tiles@ == s.explored_tiles@,
        l.seen_entity_kinds@ == s.seen_entity_kinds@,
        l.seen_tile_types@ == s.seen_tile_types@,
        l.known_rule_ids@ == s.known_rule_ids@,
        l.console_history@ == s.console_history@,
        l.barrel_room_protected == s.barrel_room_protected,
        l.maze_shifting_walls@ == s.maze_shifting_walls@,
        l.maze_shift_frozen == s.maze_shift_frozen,
{
    lemma_direction_round_trip(s.facing);
    assert forall|p: Position| #[trigger] l.map.spec_contains(p) implies l.map.tile_at(p) == s.map.tile_at(p) by {
        assert(s.map.spec_contains(p));
        lemma_map_tiles_round_trip(s.map, p);
    }
    assert forall|k: int| 0 <= k < l.entities@.len() implies {
        let a = #[trigger] l.entities@[k];
        let b = s.entities@[k];
        &&& a.kind == b.kind
        &&& opt_text(a.sign_message) == opt_text(b.sign_message)
        &&& opt_text(a.fragment_id) == opt_text(b.fragment_id)
    } by {
        assert(entity_saved(s.entities@[k], d.entities@[k]));
        assert(entity_loaded(d.entities@[k], l.entities@[k]));
        assert(entity_wf(s.entities@[k]));
        lemma_kind_round_trip(s.entities@[k].kind);
    }
    assert(l.seen_entity_kinds@ =~= s.seen_entity_kinds@) by {
        assert(texts(d.seen_entity_kinds@).len() == kind_names(s.seen_entity_kinds@).len());
        assert(l.seen_entity_kinds@.len() == d.seen_entity_kinds@.len());
        assert forall|k: int| 0 <= k < s.seen_entity_kinds@.len() implies l.seen_entity_kinds@[k]
            == s.seen_entity_kinds@[k] by {
            assert(texts(d.seen_entity_kinds@)[k] == kind_names(s.seen_entity_kinds@)[k]);
            assert(l.seen_entity_kinds@[k] == kinds_named(d.seen_entity_kinds@)[k]);
            lemma_kind_round_trip(s.seen_entity_kinds@[k]);
        }
    }
    assert(l.seen_tile_types@ =~= s.seen_tile_types@) by {
        assert(texts(d.seen_tile_types@).len() == tile_names(s.seen_tile_types@).len());
        assert(l.seen_tile_types@.len() == d.seen_tile_types@.len());
        assert forall|k: int| 0 <= k < s.seen_tile_types@.len() implies l.seen_tile_types@[k]
            == s.seen_tile_types@[k] by {
            assert(texts(d.seen_tile_types@)[k] == tile_names(s.seen_tile_types@)[k]);
            assert(l.seen_tile_types@[k] == tiles_named(d.seen_tile_types@)[k]);
            lemma_tile_round_trip(s.seen_tile_types@[k]);
        }
    }
    let lines = saved_log(d.event_log@, d.event_log@.len() as int);
    assert(appended(lines, (autoload_notice(), None::<(u8, u8, u8)>)).last() == (autoload_notice(), None::<(u8, u8, u8)>));
}

} // verus!
