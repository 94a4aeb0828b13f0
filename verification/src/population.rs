//! Who stands where on the hand-built levels: the enemies, the wizard, the
//! signs with their texts, the memory fragments and the barrels.

use vstd::prelude::*;

use crate::entity::{EntityKind, Position};
use crate::cave::{clamped, nearest_open_floor, open_tile};
use crate::entity::manhattan;
use crate::map::{MapGenOutput, TileMap};

verus! {

/// One entity a level places: where, what, a sign's text and a fragment's
/// id.
#[derive(Clone, Copy, Debug, PartialEq, Eq)]
pub struct LevelEntity {
    pub pos: Position,
    pub kind: EntityKind,
    pub sign: Option<&'static str>,
    pub fragment: Option<&'static str>,
}

/// A creature, item or barrel of this kind at `(x, y)`.
pub open spec fn placed(kind: EntityKind, x: i32, y: i32) -> LevelEntity {
    LevelEntity { pos: Position { x, y }, kind, sign: None, fragment: None }
}

/// A sign with this text at `(x, y)`.
pub open spec fn sign_at(x: i32, y: i32, text: &'static str) -> LevelEntity {
    LevelEntity { pos: Position { x, y }, kind: EntityKind::Sign, sign: Some(text), fragment: None }
}

/// The memory fragment with this id at `(x, y)`.
pub open spec fn fragment_at(x: i32, y: i32, id: &'static str) -> LevelEntity {
    LevelEntity { pos: Position { x, y }, kind: EntityKind::Fragment, sign: None, fragment: Some(id) }
}

fn put(es: &mut Vec<LevelEntity>, kind: EntityKind, x: i32, y: i32)
    ensures
        final(es)@ == old(es)@.push(placed(kind, x, y)),
{
    es.push(LevelEntity { pos: Position::new(x, y), kind, sign: None, fragment: None });
}

fn put_sign(es: &mut Vec<LevelEntity>, x: i32, y: i32, text: &'static str)
    ensures
        final(es)@ == old(es)@.push(sign_at(x, y, text)),
{
    es.push(LevelEntity { pos: Position::new(x, y), kind: EntityKind::Sign, sign: Some(text), fragment: None });
}

fn put_fragment(es: &mut Vec<LevelEntity>, x: i32, y: i32, id: &'static str)
    ensures
        final(es)@ == old(es)@.push(fragment_at(x, y, id)),
{
    es.push(LevelEntity { pos: Position::new(x, y), kind: EntityKind::Fragment, sign: None, fragment: Some(id) });
}

// ---------------------------------------------------------------------------
// Depth 0: the foyer

pub const FOYER_SIGN: &'static str = "If you're reading this, you\nfinally woke up.\n\nMove with arrow keys or hjkl.\nDescend when ready.\n\nBeware the slime (the S).\nIt moves toward you (sometimes).";

pub open spec fn foyer_entity_list() -> Seq<LevelEntity> {
    seq![sign_at(21, 15, FOYER_SIGN), placed(EntityKind::Slime, 32, 12)]
}

/// The foyer's sign (boot, controls and a warning) in the middle of the room
/// and the one slime, which the player can only push.
pub fn foyer_entities() -> (es: Vec<LevelEntity>)
    ensures
        es@ == foyer_entity_list(),
{
    let mut es: Vec<LevelEntity> = Vec::new();
    put_sign(&mut es, 21, 15, FOYER_SIGN);
    put(&mut es, EntityKind::Slime, 32, 12);
    assert(es@ =~= foyer_entity_list());
    es
}

// ---------------------------------------------------------------------------
// Depth 1: the wizard's chamber

/// Where the wizard may appear beside the player, in the order tried.
pub open spec fn wizard_offsets() -> Seq<(i32, i32)> {
    seq![(2i32, 0i32), (-2i32, 0i32), (0i32, 2i32), (0i32, -2i32), (3i32, 0i32), (-3i32, 0i32), (0i32, 3i32), (0i32, -3i32)]
}

/// `p` shifted by offset `k`.
pub open spec fn wizard_candidate(p: Position, k: int) -> Position {
    Position { x: (p.x + wizard_offsets()[k].0) as i32, y: (p.y + wizard_offsets()[k].1) as i32 }
}

/// The first of the offsets from the `k`-th on that leads to a walkable tile
/// no entity stands on; two steps east when none does.
pub open spec fn wizard_spot_from(m: TileMap, p: Position, occupied: Seq<Position>, k: int) -> Position
    decreases 8 - k,
{
    if k < 0 || k >= 8 {
        Position { x: (p.x + 2) as i32, y: p.y }
    } else if m.walkable_at(wizard_candidate(p, k)) && !occupied.contains(wizard_candidate(p, k)) {
        wizard_candidate(p, k)
    } else {
        wizard_spot_from(m, p, occupied, k + 1)
    }
}

/// Where the wizard appears beside a player at `player`: two steps east,
/// west, south or north, then three, the first walkable tile that no
/// entity in `occupied` stands on; two steps east when there is none.
pub fn wizard_spot(map: &TileMap, player: Position, occupied: &Vec<Position>) -> (w: Position)
    requires
        map.wf(),
        i32::MIN + 3 <= player.x <= i32::MAX - 3,
        i32::MIN + 3 <= player.y <= i32::MAX - 3,
    ensures
        w == wizard_spot_from(*map, player, occupied@, 0),
{
    let offsets: [(i32, i32); 8] = [(2, 0), (-2, 0), (0, 2), (0, -2), (3, 0), (-3, 0), (0, 3), (0, -3)];
    assert(offsets@ =~= wizard_offsets());
    let mut k: usize = 0;
    while k < 8
        invariant
            k <= 8,
            offsets@ == wizard_offsets(),
            map.wf(),
            i32::MIN + 3 <= player.x <= i32::MAX - 3,
            i32::MIN + 3 <= player.y <= i32::MAX - 3,
            wizard_spot_from(*map, player, occupied@, 0) == wizard_spot_from(*map, player, occupied@, k as int),
        decreases 8 - k,
    {
        let (dx, dy) = offsets[k];
        let c = Position::new(player.x + dx, player.y + dy);
        assert(c == wizard_candidate(player, k as int));
        if map.is_walkable(c) {
            let mut taken = false;
            let mut j: usize = 0;
            while j < occupied.len()
                invariant
                    j <= occupied@.len(),
                    taken <==> exists|i: int| 0 <= i < j && occupied@[i] == c,
                decreases occupied.len() - j,
            {
                if occupied[j] == c {
                    taken = true;
                }
                j = j + 1;
            }
            if !taken {
                return c;
            }
            assert(occupied@.contains(c));
        }
        k = k + 1;
    }
    Position::new(player.x + 2, player.y)
}

pub const WIZARD_CHAMBER_SIGN: &'static str = "There's more parameters (do-attack) can take\nTry this in the console (open with `): (help do-attack)";

pub open spec fn wizard_chamber_entity_list(m: TileMap, player: Position) -> Seq<LevelEntity> {
    seq![
        LevelEntity {
            pos: wizard_spot_from(m, player, Seq::empty(), 0),
            kind: EntityKind::Wizard,
            sign: None,
            fragment: None,
        },
        sign_at(20, 9, WIZARD_CHAMBER_SIGN),
    ]
}

/// The wizard's chamber: the wizard beside the player (see `wizard_spot`)
/// and a hint about what `do-attack` can take.
pub fn wizard_chamber_entities(map: &TileMap, player: Position) -> (es: Vec<LevelEntity>)
    requires
        map.wf(),
        i32::MIN + 3 <= player.x <= i32::MAX - 3,
        i32::MIN + 3 <= player.y <= i32::MAX - 3,
    ensures
        es@ == wizard_chamber_entity_list(*map, player),
{
    let none: Vec<Position> = Vec::new();
    let w = wizard_spot(map, player, &none);
    assert(none@ =~= Seq::<Position>::empty());
    let mut es: Vec<LevelEntity> = Vec::new();
    put(&mut es, EntityKind::Wizard, w.x, w.y);
    put_sign(&mut es, 20, 9, WIZARD_CHAMBER_SIGN);
    assert(es@ =~= wizard_chamber_entity_list(*map, player));
    es
}

// ---------------------------------------------------------------------------
pub const TUTORIAL_INSPECTOR_SIGN: &'static str = "Press i to open the inspector.\nHover over things to learn their names.\n\nKnowledge is power down here.";
pub const TUTORIAL_FRAGMENT_SIGN: &'static str = "Green diamonds hold memory fragments.\nI wonder who left them here...";
pub const TUTORIAL_WAIT_SIGN: &'static str = "Press . to wait.\nTime only moves when you do.\n\nSometimes standing still is the right move.";
pub const TUTORIAL_CONSOLE_SIGN: &'static str = "Press ` for the console.\nThe dungeon runs on code.\n\nTry: (help)\n\nTime fades away as you peer into the console.\nDon't worry about the enemies. Everything is fine.";
pub const TUTORIAL_DENIAL_SIGN: &'static str = "Nothing is wrong.";

pub open spec fn tutorial_grid_rooms_entity_list() -> Seq<LevelEntity> {
    seq![
        placed(EntityKind::Slime, 14, 6),
        placed(EntityKind::Bat, 10, 8),
        sign_at(20, 6, TUTORIAL_INSPECTOR_SIGN),
        placed(EntityKind::Slime, 31, 6),
        placed(EntityKind::Bat, 27, 8),
        sign_at(44, 4, TUTORIAL_FRAGMENT_SIGN),
        placed(EntityKind::Wizard, 38, 6),
        fragment_at(50, 9, "frag-001"),
        sign_at(3, 17, TUTORIAL_WAIT_SIGN),
        placed(EntityKind::Slime, 12, 20),
        placed(EntityKind::Slime, 31, 20),
        placed(EntityKind::Bat, 28, 16),
        placed(EntityKind::Goblin, 24, 18),
        sign_at(37, 17, TUTORIAL_CONSOLE_SIGN),
        placed(EntityKind::Slime, 48, 20),
        placed(EntityKind::Slime, 42, 17),
        placed(EntityKind::Slime, 14, 28),
        sign_at(20, 27, TUTORIAL_DENIAL_SIGN),
        placed(EntityKind::Slime, 31, 28),
        placed(EntityKind::Bat, 26, 25),
    ]
}

/// The signs, enemies, wizard and fragment of the tutorial grid's rooms,
/// room by room, before its barrel room.
fn tutorial_grid_rooms_entities() -> (es: Vec<LevelEntity>)
    ensures
        es@ == tutorial_grid_rooms_entity_list(),
{
    let mut es: Vec<LevelEntity> = Vec::new();
    put(&mut es, EntityKind::Slime, 14, 6);
    put(&mut es, EntityKind::Bat, 10, 8);
    put_sign(&mut es, 20, 6, TUTORIAL_INSPECTOR_SIGN);
    put(&mut es, EntityKind::Slime, 31, 6);
    put(&mut es, EntityKind::Bat, 27, 8);
    put_sign(&mut es, 44, 4, TUTORIAL_FRAGMENT_SIGN);
    put(&mut es, EntityKind::Wizard, 38, 6);
    put_fragment(&mut es, 50, 9, "frag-001");
    put_sign(&mut es, 3, 17, TUTORIAL_WAIT_SIGN);
    put(&mut es, EntityKind::Slime, 12, 20);
    put(&mut es, EntityKind::Slime, 31, 20);
    put(&mut es, EntityKind::Bat, 28, 16);
    put(&mut es, EntityKind::Goblin, 24, 18);
    put_sign(&mut es, 37, 17, TUTORIAL_CONSOLE_SIGN);
    put(&mut es, EntityKind::Slime, 48, 20);
    put(&mut es, EntityKind::Slime, 42, 17);
    put(&mut es, EntityKind::Slime, 14, 28);
    put_sign(&mut es, 20, 27, TUTORIAL_DENIAL_SIGN);
    put(&mut es, EntityKind::Slime, 31, 28);
    put(&mut es, EntityKind::Bat, 26, 25);
    assert(es@ =~= tutorial_grid_rooms_entity_list());
    es
}

// ---------------------------------------------------------------------------
pub const QUIET_HALLS_RITUAL_SIGN: &'static str = "Three little gates. Three chances to turn back. Denial likes rituals.\n\n  — the wizard";
pub const QUIET_HALLS_GATE_SIGN: &'static str = "A gate is just a wall that expects you to argue.";
pub const QUIET_HALLS_LAST_SIGN: &'static str = "The last gate is quieter. That does not make it kinder.";

pub open spec fn quiet_halls_entity_list() -> Seq<LevelEntity> {
    seq![
        placed(EntityKind::Wizard, 7, 7),
        placed(EntityKind::Barrel, 16, 10),
        placed(EntityKind::Barrel, 16, 11),
        placed(EntityKind::Barrel, 16, 12),
        placed(EntityKind::Barrel, 35, 10),
        placed(EntityKind::Barrel, 35, 11),
        placed(EntityKind::Barrel, 35, 12),
        placed(EntityKind::Barrel, 46, 20),
        placed(EntityKind::Barrel, 47, 20),
        placed(EntityKind::Barrel, 48, 20),
        placed(EntityKind::Slime, 19, 12),
        placed(EntityKind::Bat, 28, 6),
        placed(EntityKind::Slime, 32, 16),
        placed(EntityKind::Bat, 42, 12),
        placed(EntityKind::Goblin, 45, 24),
        fragment_at(20, 4, "frag-002"),
        fragment_at(12, 25, "frag-003"),
        fragment_at(31, 25, "frag-004"),
        sign_at(9, 11, QUIET_HALLS_RITUAL_SIGN),
        sign_at(25, 10, QUIET_HALLS_GATE_SIGN),
        sign_at(43, 18, QUIET_HALLS_LAST_SIGN),
    ]
}

/// The quiet halls: the wizard by the entrance, three gates of three barrels,
/// the cave-dwelling enemies between them, the first fragments of denial
/// and the wizard's three signs.
pub fn quiet_halls_entities() -> (es: Vec<LevelEntity>)
    ensures
        es@ == quiet_halls_entity_list(),
{
    let mut es: Vec<LevelEntity> = Vec::new();
    put(&mut es, EntityKind::Wizard, 7, 7);
    put(&mut es, EntityKind::Barrel, 16, 10);
    put(&mut es, EntityKind::Barrel, 16, 11);
    put(&mut es, EntityKind::Barrel, 16, 12);
    put(&mut es, EntityKind::Barrel, 35, 10);
    put(&mut es, EntityKind::Barrel, 35, 11);
    put(&mut es, EntityKind::Barrel, 35, 12);
    put(&mut es, EntityKind::Barrel, 46, 20);
    put(&mut es, EntityKind::Barrel, 47, 20);
    put(&mut es, EntityKind::Barrel, 48, 20);
    put(&mut es, EntityKind::Slime, 19, 12);
    put(&mut es, EntityKind::Bat, 28, 6);
    put(&mut es, EntityKind::Slime, 32, 16);
    put(&mut es, EntityKind::Bat, 42, 12);
    put(&mut es, EntityKind::Goblin, 45, 24);
    put_fragment(&mut es, 20, 4, "frag-002");
    put_fragment(&mut es, 12, 25, "frag-003");
    put_fragment(&mut es, 31, 25, "frag-004");
    put_sign(&mut es, 9, 11, QUIET_HALLS_RITUAL_SIGN);
    put_sign(&mut es, 25, 10, QUIET_HALLS_GATE_SIGN);
    put_sign(&mut es, 43, 18, QUIET_HALLS_LAST_SIGN);
    assert(es@ =~= quiet_halls_entity_list());
    es
}

// ---------------------------------------------------------------------------
pub open spec fn gauntlet_entity_list() -> Seq<LevelEntity> {
    seq![
        placed(EntityKind::Slime, 10, 16),
        placed(EntityKind::Goblin, 22, 16),
        placed(EntityKind::Bat, 28, 16),
        placed(EntityKind::Slime, 34, 16),
        placed(EntityKind::Goblin, 40, 16),
        placed(EntityKind::Ogre, 46, 16),
        fragment_at(16, 16, "frag-001"),
        placed(EntityKind::Wizard, 5, 15),
    ]
}

/// The gauntlet: six enemies spread along the corridor, a fragment in its
/// third segment and the wizard in the alcove at the start.
pub fn gauntlet_entities() -> (es: Vec<LevelEntity>)
    ensures
        es@ == gauntlet_entity_list(),
{
    let mut es: Vec<LevelEntity> = Vec::new();
    put(&mut es, EntityKind::Slime, 10, 16);
    put(&mut es, EntityKind::Goblin, 22, 16);
    put(&mut es, EntityKind::Bat, 28, 16);
    put(&mut es, EntityKind::Slime, 34, 16);
    put(&mut es, EntityKind::Goblin, 40, 16);
    put(&mut es, EntityKind::Ogre, 46, 16);
    put_fragment(&mut es, 16, 16, "frag-001");
    put(&mut es, EntityKind::Wizard, 5, 15);
    assert(es@ =~= gauntlet_entity_list());
    es
}

// ---------------------------------------------------------------------------
pub const COUNTING_ROOM_SIGN: &'static str = "Four doors. Three keys. Key-goblins carry them.\n\nSpend a key by walking into a locked doorway. One door will stay locked. Choose what matters.";

pub open spec fn counting_room_entity_list() -> Seq<LevelEntity> {
    seq![
        placed(EntityKind::Goblin, 16, 13),
        placed(EntityKind::Goblin, 28, 13),
        placed(EntityKind::Goblin, 28, 17),
        placed(EntityKind::Bat, 30, 19),
        placed(EntityKind::Bat, 14, 9),
        fragment_at(10, 7, "frag-003"),
        fragment_at(32, 9, "frag-004"),
        placed(EntityKind::Wizard, 24, 13),
        sign_at(20, 17, COUNTING_ROOM_SIGN),
    ]
}

/// The counting room: three key-goblins by the doors, two bats, two
/// fragments, the wizard at the entrance and the sign of the four doors.
pub fn counting_room_entities() -> (es: Vec<LevelEntity>)
    ensures
        es@ == counting_room_entity_list(),
{
    let mut es: Vec<LevelEntity> = Vec::new();
    put(&mut es, EntityKind::Goblin, 16, 13);
    put(&mut es, EntityKind::Goblin, 28, 13);
    put(&mut es, EntityKind::Goblin, 28, 17);
    put(&mut es, EntityKind::Bat, 30, 19);
    put(&mut es, EntityKind::Bat, 14, 9);
    put_fragment(&mut es, 10, 7, "frag-003");
    put_fragment(&mut es, 32, 9, "frag-004");
    put(&mut es, EntityKind::Wizard, 24, 13);
    put_sign(&mut es, 20, 17, COUNTING_ROOM_SIGN);
    assert(es@ =~= counting_room_entity_list());
    es
}

// ---------------------------------------------------------------------------
pub const SCALE_SIGN: &'static str = "Two scales sit in the center. One pan is empty. The other is you.\n\nYou can pass with nothing, or chase what waits in the side rooms. The dungeon is counting.";

pub open spec fn scale_entity_list() -> Seq<LevelEntity> {
    seq![
        sign_at(27, 14, SCALE_SIGN),
        placed(EntityKind::Ogre, 13, 16),
        placed(EntityKind::Ogre, 43, 16),
        placed(EntityKind::Goblin, 23, 13),
        placed(EntityKind::Goblin, 31, 19),
        placed(EntityKind::Bat, 19, 16),
        placed(EntityKind::Bat, 35, 16),
        fragment_at(28, 16, "frag-005"),
        fragment_at(13, 18, "frag-006"),
        placed(EntityKind::Wizard, 27, 19),
    ]
}

/// The scale: its sign in the centre, an ogre in each side room, goblins
/// and bats between, two fragments and the wizard at the hub's south edge.
pub fn scale_entities() -> (es: Vec<LevelEntity>)
    ensures
        es@ == scale_entity_list(),
{
    let mut es: Vec<LevelEntity> = Vec::new();
    put_sign(&mut es, 27, 14, SCALE_SIGN);
    put(&mut es, EntityKind::Ogre, 13, 16);
    put(&mut es, EntityKind::Ogre, 43, 16);
    put(&mut es, EntityKind::Goblin, 23, 13);
    put(&mut es, EntityKind::Goblin, 31, 19);
    put(&mut es, EntityKind::Bat, 19, 16);
    put(&mut es, EntityKind::Bat, 35, 16);
    put_fragment(&mut es, 28, 16, "frag-005");
    put_fragment(&mut es, 13, 18, "frag-006");
    put(&mut es, EntityKind::Wizard, 27, 19);
    assert(es@ =~= scale_entity_list());
    es
}

// ---------------------------------------------------------------------------
pub open spec fn offer_entity_list() -> Seq<LevelEntity> {
    seq![
        placed(EntityKind::Sentry, 11, 10),
        placed(EntityKind::Sentry, 43, 10),
        placed(EntityKind::Sentry, 11, 22),
        placed(EntityKind::Sentry, 43, 22),
        fragment_at(9, 12, "frag-010"),
        fragment_at(41, 12, "frag-011"),
        fragment_at(41, 24, "frag-012"),
        placed(EntityKind::Wizard, 27, 16),
    ]
}

/// The offer: a sentry in each chamber, three fragments and the wizard in
/// the centre.
pub fn offer_entities() -> (es: Vec<LevelEntity>)
    ensures
        es@ == offer_entity_list(),
{
    let mut es: Vec<LevelEntity> = Vec::new();
    put(&mut es, EntityKind::Sentry, 11, 10);
    put(&mut es, EntityKind::Sentry, 43, 10);
    put(&mut es, EntityKind::Sentry, 11, 22);
    put(&mut es, EntityKind::Sentry, 43, 22);
    put_fragment(&mut es, 9, 12, "frag-010");
    put_fragment(&mut es, 41, 12, "frag-011");
    put_fragment(&mut es, 41, 24, "frag-012");
    put(&mut es, EntityKind::Wizard, 27, 16);
    assert(es@ =~= offer_entity_list());
    es
}

// ---------------------------------------------------------------------------
pub open spec fn descent_entity_list() -> Seq<LevelEntity> {
    seq![
        placed(EntityKind::Shade, 30, 13),
        fragment_at(32, 17, "frag-029"),
        fragment_at(31, 11, "frag-030"),
        fragment_at(21, 20, "frag-031"),
        fragment_at(27, 14, "frag-032"),
        placed(EntityKind::Wizard, 29, 16),
    ]
}

/// The descent: one peaceful shade, four fragments along the way and the
/// wizard beside the player.
pub fn descent_entities() -> (es: Vec<LevelEntity>)
    ensures
        es@ == descent_entity_list(),
{
    let mut es: Vec<LevelEntity> = Vec::new();
    put(&mut es, EntityKind::Shade, 30, 13);
    put_fragment(&mut es, 32, 17, "frag-029");
    put_fragment(&mut es, 31, 11, "frag-030");
    put_fragment(&mut es, 21, 20, "frag-031");
    put_fragment(&mut es, 27, 14, "frag-032");
    put(&mut es, EntityKind::Wizard, 29, 16);
    assert(es@ =~= descent_entity_list());
    es
}

// ---------------------------------------------------------------------------

pub const TUTORIAL_BARREL_HINT_SIGN: &'static str = "So many barrels...\nThe exit is under one of them.\n\nClearing these one by one would take forever.\nThere must be a faster way.";
pub const TUTORIAL_BARREL_SOLUTION_SIGN: &'static str = "Chain commands with (do ...):\n  (do (move! :south) (do-attack))\n\n(repeat N ...) runs N times:\n  (repeat 4 (do-attack :east))\n\nBind it to a key and go wild.";

/// The tile of the barrel room with row-major index `i` (sixteen wide, from
/// `(36, 23)`).
pub open spec fn barrel_room_tile(i: int) -> Position {
    Position { x: (36 + i % 16) as i32, y: (23 + i / 16) as i32 }
}

/// A barrel fills tile `p` of the barrel room: every tile but the stairs
/// down (which get theirs last), the cleared entrance and the tile of the
/// solution sign.
pub open spec fn tutorial_barrel(p: Position) -> bool {
    &&& p != (Position { x: 50, y: 27 })
    &&& !(36 <= p.x <= 40 && 27 <= p.y <= 29)
    &&& p != (Position { x: 40, y: 31 })
}

/// The barrels on the first `n` tiles of the barrel room, row by row.
pub open spec fn barrel_field(n: int) -> Seq<LevelEntity>
    decreases n,
{
    if n <= 0 {
        Seq::empty()
    } else {
        let p = barrel_room_tile(n - 1);
        if tutorial_barrel(p) {
            barrel_field(n - 1).push(placed(EntityKind::Barrel, p.x, p.y))
        } else {
            barrel_field(n - 1)
        }
    }
}

pub open spec fn tutorial_grid_entity_list() -> Seq<LevelEntity> {
    tutorial_grid_rooms_entity_list() + barrel_field(144) + seq![
        placed(EntityKind::Barrel, 50, 27),
        sign_at(37, 29, TUTORIAL_BARREL_HINT_SIGN),
        sign_at(40, 31, TUTORIAL_BARREL_SOLUTION_SIGN),
    ]
}

/// The tutorial grid: room by room its signs, enemies, the wizard and the
/// first fragment; then the barrel room, filled with barrels row by row but
/// for its entrance, a barrel on the hidden stairs down, and the hint and
/// solution signs.
pub fn tutorial_grid_entities() -> (es: Vec<LevelEntity>)
    ensures
        es@ == tutorial_grid_entity_list(),
{
    let mut es = tutorial_grid_rooms_entities();
    let ghost rooms = es@;
    let mut i: i32 = 0;
    while i < 144
        invariant
            0 <= i <= 144,
            rooms == tutorial_grid_rooms_entity_list(),
            es@ == rooms + barrel_field(i as int),
        decreases 144 - i,
    {
        let x = 36 + i % 16;
        let y = 23 + i / 16;
        assert(Position { x, y } == barrel_room_tile(i as int));
        let entrance = 36 <= x && x <= 40 && 27 <= y && y <= 29;
        if !(x == 50 && y == 27) && !entrance && !(x == 40 && y == 31) {
            put(&mut es, EntityKind::Barrel, x, y);
        }
        assert(es@ =~= rooms + barrel_field(i + 1));
        i = i + 1;
    }
    put(&mut es, EntityKind::Barrel, 50, 27);
    put_sign(&mut es, 37, 29, TUTORIAL_BARREL_HINT_SIGN);
    put_sign(&mut es, 40, 31, TUTORIAL_BARREL_SOLUTION_SIGN);
    assert(es@ =~= tutorial_grid_entity_list());
    es
}

// ---------------------------------------------------------------------------

pub const CORE_SIGN: &'static str = "THE CORE\n\nvessel/suppress is here.\n\nOpen the inspector (i) to read the rule.\nOpen the console (`) to modify it.\n\nTry:\n(let r (open-registry :rule-registry)\n  (r :write :vessel/suppress\n     '(set! *threshold* 0)))\n\nThe choice is yours.";

pub open spec fn core_entity_list() -> Seq<LevelEntity> {
    seq![fragment_at(27, 14, "frag-033"), sign_at(27, 16, CORE_SIGN)]
}

/// The core: the last fragment on its pedestal and the sign of the
/// vessel/suppress rule; no enemies, no wizard, no items.
pub fn core_entities() -> (es: Vec<LevelEntity>)
    ensures
        es@ == core_entity_list(),
{
    let mut es: Vec<LevelEntity> = Vec::new();
    put_fragment(&mut es, 27, 14, "frag-033");
    put_sign(&mut es, 27, 16, CORE_SIGN);
    assert(es@ =~= core_entity_list());
    es
}

// ---------------------------------------------------------------------------
// Which level a depth is

/// The level built for a depth.
#[derive(Clone, Copy, Debug, PartialEq, Eq, Structural)]
pub enum LevelPlan {
    Foyer,
    WizardChamber,
    TutorialGrid,
    QuietHalls,
    FirstScar,
    JaggedPassages,
    Gauntlet,
    BoilingHeart,
    CountingRoom,
    Scale,
    MazeOfRegret,
    Offer,
    LongCorridor,
    Archive,
    AshField,
    Clearing,
    Descent,
    Core,
    Procedural,
}

pub open spec fn plan_for(depth: u32) -> LevelPlan {
    if depth == 0 {
        LevelPlan::Foyer
    } else if depth == 1 {
        LevelPlan::WizardChamber
    } else if depth == 2 {
        LevelPlan::TutorialGrid
    } else if depth == 3 {
        LevelPlan::QuietHalls
    } else if depth == 4 {
        LevelPlan::FirstScar
    } else if depth == 5 {
        LevelPlan::JaggedPassages
    } else if depth == 6 {
        LevelPlan::Gauntlet
    } else if depth == 7 {
        LevelPlan::BoilingHeart
    } else if depth == 8 {
        LevelPlan::CountingRoom
    } else if depth == 9 {
        LevelPlan::Scale
    } else if depth == 10 {
        LevelPlan::MazeOfRegret
    } else if depth == 11 {
        LevelPlan::Offer
    } else if depth == 12 {
        LevelPlan::LongCorridor
    } else if depth == 13 {
        LevelPlan::Archive
    } else if depth == 14 {
        LevelPlan::AshField
    } else if depth == 15 {
        LevelPlan::Clearing
    } else if depth == 16 {
        LevelPlan::Descent
    } else if depth == 17 {
        LevelPlan::Core
    } else {
        LevelPlan::Procedural
    }
}

/// The depth of the campaign each hand-built level belongs to (its level
/// module's number); `-1` for the generated levels.
pub open spec fn campaign_depth(p: LevelPlan) -> int {
    match p {
        LevelPlan::Foyer => 0,
        LevelPlan::WizardChamber => 1,
        LevelPlan::TutorialGrid => 2,
        LevelPlan::QuietHalls => 3,
        LevelPlan::FirstScar => 4,
        LevelPlan::JaggedPassages => 5,
        LevelPlan::Gauntlet => 6,
        LevelPlan::BoilingHeart => 7,
        LevelPlan::CountingRoom => 8,
        LevelPlan::Scale => 9,
        LevelPlan::MazeOfRegret => 10,
        LevelPlan::Offer => 11,
        LevelPlan::LongCorridor => 12,
        LevelPlan::Archive => 13,
        LevelPlan::AshField => 14,
        LevelPlan::Clearing => 15,
        LevelPlan::Descent => 16,
        LevelPlan::Core => 17,
        LevelPlan::Procedural => -1,
    }
}

/// Each hand-built depth builds the level that belongs to it, and every
/// depth below the core is generated: the depth a plan is for and the plan
/// a depth gets are inverse, so no two depths share a level.
pub proof fn lemma_plan_matches_depth(depth: u32)
    ensures
        depth <= 17 ==> campaign_depth(plan_for(depth)) == depth,
        depth > 17 ==> plan_for(depth) == LevelPlan::Procedural,
        forall|p: LevelPlan| #![trigger campaign_depth(p)] campaign_depth(p) == depth ==> plan_for(depth) == p,
{
}

/// The level of a depth: the eighteen hand-built depths from the foyer (0)
/// to the core (17), and a generated level below them.
pub fn level_plan(depth: u32) -> (p: LevelPlan)
    ensures
        p == plan_for(depth),
        depth <= 17 ==> campaign_depth(p) == depth,
        depth > 17 ==> p == LevelPlan::Procedural,
{
    proof {
        lemma_plan_matches_depth(depth);
    }
    match depth {
        0 => LevelPlan::Foyer,
        1 => LevelPlan::WizardChamber,
        2 => LevelPlan::TutorialGrid,
        3 => LevelPlan::QuietHalls,
        4 => LevelPlan::FirstScar,
        5 => LevelPlan::JaggedPassages,
        6 => LevelPlan::Gauntlet,
        7 => LevelPlan::BoilingHeart,
        8 => LevelPlan::CountingRoom,
        9 => LevelPlan::Scale,
        10 => LevelPlan::MazeOfRegret,
        11 => LevelPlan::Offer,
        12 => LevelPlan::LongCorridor,
        13 => LevelPlan::Archive,
        14 => LevelPlan::AshField,
        15 => LevelPlan::Clearing,
        16 => LevelPlan::Descent,
        17 => LevelPlan::Core,
        _ => LevelPlan::Procedural,
    }
}

/// The fixed population of a level, where this library holds it: `None`
/// for the levels whose entities are placed from the generated map or from
/// a search for open floor.
pub open spec fn plan_entities(plan: LevelPlan, m: TileMap, player: Position) -> Option<Seq<LevelEntity>> {
    match plan {
        LevelPlan::Foyer => Some(foyer_entity_list()),
        LevelPlan::WizardChamber => Some(wizard_chamber_entity_list(m, player)),
        LevelPlan::TutorialGrid => Some(tutorial_grid_entity_list()),
        LevelPlan::QuietHalls => Some(quiet_halls_entity_list()),
        LevelPlan::Gauntlet => Some(gauntlet_entity_list()),
        LevelPlan::CountingRoom => Some(counting_room_entity_list()),
        LevelPlan::Scale => Some(scale_entity_list()),
        LevelPlan::Offer => Some(offer_entity_list()),
        LevelPlan::Descent => Some(descent_entity_list()),
        LevelPlan::Core => Some(core_entity_list()),
        _ => None,
    }
}

/// The entities a level places on its map, for the levels of
/// `plan_entities`; `player` is where the player starts on `map`.
pub fn level_entities(plan: LevelPlan, map: &TileMap, player: Position) -> (es: Option<Vec<LevelEntity>>)
    requires
        map.wf(),
        i32::MIN + 3 <= player.x <= i32::MAX - 3,
        i32::MIN + 3 <= player.y <= i32::MAX - 3,
    ensures
        match es {
            Some(v) => plan_entities(plan, *map, player) == Some(v@),
            None => plan_entities(plan, *map, player) is None,
        },
{
    match plan {
        LevelPlan::Foyer => Some(foyer_entities()),
        LevelPlan::WizardChamber => Some(wizard_chamber_entities(map, player)),
        LevelPlan::TutorialGrid => Some(tutorial_grid_entities()),
        LevelPlan::QuietHalls => Some(quiet_halls_entities()),
        LevelPlan::Gauntlet => Some(gauntlet_entities()),
        LevelPlan::CountingRoom => Some(counting_room_entities()),
        LevelPlan::Scale => Some(scale_entities()),
        LevelPlan::Offer => Some(offer_entities()),
        LevelPlan::Descent => Some(descent_entities()),
        LevelPlan::Core => Some(core_entities()),
        _ => None,
    }
}

// ---------------------------------------------------------------------------
// The generated levels

pub const FIRST_SCAR_SIGN: &'static str = "The air down here is different. Everything feels sharper.\n\nThe dungeon is starting to notice you.";
pub const JAGGED_PASSAGES_SIGN: &'static str = "The passages twist without reason. Dead ends. Ambush corners.\n\nKeep moving. The dungeon built this to slow you down, not stop you.";
pub const MAZE_SIGN: &'static str = "The walls obey maze/shift. maze/shift is registered.\n\nRegistered things can be unregistered \u{2014} if you have write access to the registry.\n\n  (let r (open-registry :rule-registry)\n    (r :unregister :maze/shift))\n\nEach patch costs HP. Check the inspector (i) to see the rule before you change it.";

/// The roll that picks the kind of an enemy spawned at `p`: its coordinates
/// hashed (31 x + 17 y, wrapped to 32 bits), modulo 100.
pub open spec fn enemy_roll(p: Position) -> int {
    ((31 * p.x + 17 * p.y) % 0x1_0000_0000) % 100
}

/// The kind of an enemy spawned at `p` on `depth`: slimes only down to depth
/// 3; below, a slime, goblin, bat or ogre by the roll (30, 35, 25 and 10 in
/// 100).
pub open spec fn enemy_kind(p: Position, depth: u32) -> EntityKind {
    if depth <= 3 {
        EntityKind::Slime
    } else if enemy_roll(p) < 30 {
        EntityKind::Slime
    } else if enemy_roll(p) < 65 {
        EntityKind::Goblin
    } else if enemy_roll(p) < 90 {
        EntityKind::Bat
    } else {
        EntityKind::Ogre
    }
}

/// The kind of enemy spawned at `p` on `depth` (see `enemy_kind`).
pub fn enemy_kind_at(p: Position, depth: u32) -> (k: EntityKind)
    ensures
        k == enemy_kind(p, depth),
{
    let v: i64 = 31 * (p.x as i64) + 17 * (p.y as i64) + 0x20_0000_0000;
    let hash = (v as u64) % 0x1_0000_0000;
    let roll = hash % 100;
    proof {
        let t = 31 * p.x + 17 * p.y;
        assert((t + 0x20_0000_0000) % 0x1_0000_0000 == t % 0x1_0000_0000) by {
            vstd::arithmetic::div_mod::lemma_mod_add_multiples_vanish(t, 0x1_0000_0000);
            assert(0x20_0000_0000 == 32 * 0x1_0000_0000);
            vstd::arithmetic::div_mod::lemma_mod_multiples_vanish(32, t, 0x1_0000_0000);
        }
        assert(roll == enemy_roll(p));
    }
    if depth <= 3 {
        EntityKind::Slime
    } else if roll < 30 {
        EntityKind::Slime
    } else if roll < 65 {
        EntityKind::Goblin
    } else if roll < 90 {
        EntityKind::Bat
    } else {
        EntityKind::Ogre
    }
}

/// The enemies of a generated level: one at each combat spawn, of the kind
/// `enemy_kind` gives, then an ogre at each boss spawn.
pub open spec fn generated_enemies(combat: Seq<Position>, boss: Seq<Position>, depth: u32) -> Seq<LevelEntity> {
    Seq::new(combat.len(), |i: int| placed(enemy_kind(combat[i], depth), combat[i].x, combat[i].y)) + Seq::new(
        boss.len(),
        |i: int| placed(EntityKind::Ogre, boss[i].x, boss[i].y),
    )
}

/// `at` is where something wanted at `preferred` goes: the open tile
/// `nearest_open_floor` finds (nearest by Manhattan distance to `preferred`
/// moved onto the map, not a wall, no entity of `occupied` on it), or
/// `preferred` itself when there is none.
pub open spec fn placed_near(m: TileMap, occupied: Seq<Position>, preferred: Position, at: Position) -> bool {
    let start = Position {
        x: clamped(preferred.x as int, m.spec_width() - 1) as i32,
        y: clamped(preferred.y as int, m.spec_height() - 1) as i32,
    };
    ||| {
        &&& m.spec_contains(at)
        &&& open_tile(m, occupied, at)
        &&& forall|q: Position| #[trigger] m.spec_contains(q) && open_tile(m, occupied, q) ==> manhattan(start, at)
            <= manhattan(start, q)
    }
    ||| at == preferred && forall|q: Position| #[trigger] m.spec_contains(q) ==> !open_tile(m, occupied, q)
}

fn put_near(
    es: &mut Vec<LevelEntity>,
    occupied: &mut Vec<Position>,
    map: &TileMap,
    preferred: Position,
    kind: EntityKind,
    sign: Option<&'static str>,
    fragment: Option<&'static str>,
) -> (at: Position)
    requires
        map.wf(),
        0 < map.spec_width() < i32::MAX,
        0 < map.spec_height() < i32::MAX,
    ensures
        placed_near(*map, old(occupied)@, preferred, at),
        final(es)@ == old(es)@.push(LevelEntity { pos: at, kind, sign, fragment }),
        final(occupied)@ == old(occupied)@.push(at),
{
    let at = match nearest_open_floor(map, occupied, preferred) {
        Some(p) => p,
        None => preferred,
    };
    es.push(LevelEntity { pos: at, kind, sign, fragment });
    occupied.push(at);
    at
}

/// What the generated levels place besides their map, as `generated_entities`
/// promises: the enemies; on the first scar the wizard near the middle of
/// the map and a sign two steps east of him; on the jagged passages the
/// wizard beside the player and a sign two steps south-east of the start; on
/// the maze three fragments near the start and the stairs, the wizard two
/// steps north-east of the start and the sign of the maze's rule. Things
/// wanted on a wall or on another entity go to the nearest open tile.
pub open spec fn generated_entities(plan: LevelPlan, depth: u32, gen: MapGenOutput, es: Seq<LevelEntity>) -> bool {
    let enemies = generated_enemies(gen.combat_spawns@, gen.boss_spawns@, depth);
    let n = enemies.len() as int;
    let occ0 = seq![gen.player_start] + enemies.map_values(|e: LevelEntity| e.pos);
    let s = gen.player_start;
    let d = gen.stairs_down;
    &&& es.take(n) == enemies
    &&& match plan {
        LevelPlan::FirstScar => {
            &&& es.len() == n + 2
            &&& placed_near(gen.map, occ0, Position { x: 27, y: 16 }, es[n].pos)
            &&& es[n].kind == EntityKind::Wizard && es[n].sign is None && es[n].fragment is None
            &&& placed_near(
                gen.map,
                occ0.push(es[n].pos),
                Position { x: (es[n].pos.x + 2) as i32, y: es[n].pos.y },
                es[n + 1].pos,
            )
            &&& es[n + 1].kind == EntityKind::Sign && es[n + 1].sign == Some(FIRST_SCAR_SIGN)
                && es[n + 1].fragment is None
        },
        LevelPlan::JaggedPassages => {
            &&& es.len() == n + 2
            &&& es[n] == placed(EntityKind::Wizard, wizard_spot_from(gen.map, s, occ0, 0).x, wizard_spot_from(gen.map, s, occ0, 0).y)
            &&& placed_near(gen.map, occ0.push(es[n].pos), Position { x: (s.x + 2) as i32, y: (s.y + 2) as i32 }, es[n + 1].pos)
            &&& es[n + 1].kind == EntityKind::Sign && es[n + 1].sign == Some(JAGGED_PASSAGES_SIGN)
                && es[n + 1].fragment is None
        },
        LevelPlan::MazeOfRegret => {
            &&& es.len() == n + 5
            &&& placed_near(gen.map, occ0, Position { x: (s.x + 5) as i32, y: (s.y + 2) as i32 }, es[n].pos)
            &&& es[n].kind == EntityKind::Fragment && es[n].fragment == Some("frag-007") && es[n].sign is None
            &&& placed_near(gen.map, occ0.push(es[n].pos), Position { x: (d.x - 4) as i32, y: (d.y - 2) as i32 }, es[n + 1].pos)
            &&& es[n + 1].kind == EntityKind::Fragment && es[n + 1].fragment == Some("frag-008") && es[n + 1].sign is None
            &&& placed_near(
                gen.map,
                occ0.push(es[n].pos).push(es[n + 1].pos),
                Position { x: (d.x + 2) as i32, y: (d.y + 4) as i32 },
                es[n + 2].pos,
            )
            &&& es[n + 2].kind == EntityKind::Fragment && es[n + 2].fragment == Some("frag-009") && es[n + 2].sign is None
            &&& es[n + 3] == placed(EntityKind::Wizard, (s.x + 2) as i32, (s.y - 2) as i32)
            &&& placed_near(
                gen.map,
                occ0.push(es[n].pos).push(es[n + 1].pos).push(es[n + 2].pos).push(es[n + 3].pos),
                Position { x: (s.x - 2) as i32, y: (s.y + 2) as i32 },
                es[n + 4].pos,
            )
            &&& es[n + 4].kind == EntityKind::Sign && es[n + 4].sign == Some(MAZE_SIGN) && es[n + 4].fragment is None
        },
        _ => es.len() == n,
    }
}

/// The entities of a generated level (see `generated_entities`); `gen` is
/// the level's map as built for `plan` on `depth`.
pub fn generated_level_entities(plan: LevelPlan, depth: u32, gen: &MapGenOutput) -> (es: Vec<LevelEntity>)
    requires
        gen.map.wf(),
        0 < gen.map.spec_width() <= 10000,
        0 < gen.map.spec_height() <= 10000,
        gen.map.spec_contains(gen.player_start),
        gen.map.spec_contains(gen.stairs_down),
    ensures
        generated_entities(plan, depth, *gen, es@),
{
    let mut es: Vec<LevelEntity> = Vec::new();
    let mut occupied: Vec<Position> = Vec::new();
    occupied.push(gen.player_start);
    let ghost combat = gen.combat_spawns@;
    let ghost boss = gen.boss_spawns@;
    let mut i: usize = 0;
    while i < gen.combat_spawns.len()
        invariant
            i <= combat.len(),
            combat == gen.combat_spawns@,
            es@ == Seq::new(i as nat, |j: int| placed(enemy_kind(combat[j], depth), combat[j].x, combat[j].y)),
            occupied@ == seq![gen.player_start] + es@.map_values(|e: LevelEntity| e.pos),
        decreases gen.combat_spawns.len() - i,
    {
        let p = gen.combat_spawns[i];
        let k = enemy_kind_at(p, depth);
        let ghost before = es@;
        put(&mut es, k, p.x, p.y);
        occupied.push(p);
        assert(es@ =~= Seq::new((i + 1) as nat, |j: int| placed(enemy_kind(combat[j], depth), combat[j].x, combat[j].y)));
        assert(occupied@ =~= seq![gen.player_start] + es@.map_values(|e: LevelEntity| e.pos));
        i = i + 1;
    }
    let mut b: usize = 0;
    while b < gen.boss_spawns.len()
        invariant
            b <= boss.len(),
            boss == gen.boss_spawns@,
            combat == gen.combat_spawns@,
            es@ == Seq::new(combat.len(), |j: int| placed(enemy_kind(combat[j], depth), combat[j].x, combat[j].y)) + Seq::new(
                b as nat,
                |j: int| placed(EntityKind::Ogre, boss[j].x, boss[j].y),
            ),
            occupied@ == seq![gen.player_start] + es@.map_values(|e: LevelEntity| e.pos),
        decreases gen.boss_spawns.len() - b,
    {
        let p = gen.boss_spawns[b];
        put(&mut es, EntityKind::Ogre, p.x, p.y);
        occupied.push(p);
        assert(es@ =~= Seq::new(combat.len(), |j: int| placed(enemy_kind(combat[j], depth), combat[j].x, combat[j].y))
            + Seq::new((b + 1) as nat, |j: int| placed(EntityKind::Ogre, boss[j].x, boss[j].y)));
        assert(occupied@ =~= seq![gen.player_start] + es@.map_values(|e: LevelEntity| e.pos));
        b = b + 1;
    }
    let ghost enemies = es@;
    let ghost occ0 = occupied@;
    assert(enemies == generated_enemies(combat, boss, depth));
    let s = gen.player_start;
    let d = gen.stairs_down;
    match plan {
        LevelPlan::FirstScar => {
            let w = put_near(&mut es, &mut occupied, &gen.map, Position::new(27, 16), EntityKind::Wizard, None, None);
            put_near(&mut es, &mut occupied, &gen.map, Position::new(w.x + 2, w.y), EntityKind::Sign, Some(FIRST_SCAR_SIGN), None);
        },
        LevelPlan::JaggedPassages => {
            let w = wizard_spot(&gen.map, s, &occupied);
            put(&mut es, EntityKind::Wizard, w.x, w.y);
            occupied.push(w);
            put_near(&mut es, &mut occupied, &gen.map, Position::new(s.x + 2, s.y + 2), EntityKind::Sign, Some(JAGGED_PASSAGES_SIGN), None);
        },
        LevelPlan::MazeOfRegret => {
            put_near(&mut es, &mut occupied, &gen.map, Position::new(s.x + 5, s.y + 2), EntityKind::Fragment, None, Some("frag-007"));
            put_near(&mut es, &mut occupied, &gen.map, Position::new(d.x - 4, d.y - 2), EntityKind::Fragment, None, Some("frag-008"));
            put_near(&mut es, &mut occupied, &gen.map, Position::new(d.x + 2, d.y + 4), EntityKind::Fragment, None, Some("frag-009"));
            put(&mut es, EntityKind::Wizard, s.x + 2, s.y - 2);
            occupied.push(Position::new(s.x + 2, s.y - 2));
            put_near(&mut es, &mut occupied, &gen.map, Position::new(s.x - 2, s.y + 2), EntityKind::Sign, Some(MAZE_SIGN), None);
        },
        _ => {},
    }
    proof {
        assert(es@.take(enemies.len() as int) =~= enemies);
    }
    es
}

} // verus!
