//! Level mechanics: the pressure plate of the tutorial grid, the locked
//! doors and memory-keys of the counting room, where a closing gauntlet
//! barrier moves what stands in it, and the shifting walls of the maze.
//! Where the game asks whether an entity stands on a tile, these take the
//! positions of the entities.

use vstd::prelude::*;

use crate::colors::{cyan, green, yellow};
use crate::console::{contains_text, has_infix, trim_text, trimmed};
use crate::entity::{EntityKind, Position};
use crate::event_log::{appended, EventLog};
use crate::map::{lemma_set_tile_reads, TileMap, TileType};
use crate::paths::{decimal, decimal_string};
use crate::text::{chars_of, str_eq, string_from_chars};

verus! {

/// The four locked doors of the counting room.
pub open spec fn locked_door_at(p: Position) -> bool {
    ||| p.x == 16 && p.y == 12
    ||| p.x == 28 && p.y == 12
    ||| p.x == 16 && p.y == 18
    ||| p.x == 28 && p.y == 18
}

/// Whether `pos` is one of the counting room's locked doors.
pub fn counting_room_locked_door(pos: Position) -> (b: bool)
    ensures
        b == locked_door_at(pos),
{
    (pos.x == 16 && pos.y == 12) || (pos.x == 28 && pos.y == 12) || (pos.x == 16 && pos.y == 18) || (pos.x == 28
        && pos.y == 18)
}

/// Whether the map is as before but for the tiles the predicate picks,
/// which hold `t`.
pub open spec fn map_with(old: TileMap, new: TileMap, pick: spec_fn(Position) -> bool, t: TileType) -> bool {
    &&& new.wf()
    &&& new.spec_width() == old.spec_width()
    &&& new.spec_height() == old.spec_height()
    &&& forall|q: Position| #[trigger] new.spec_contains(q) ==> new.tile_at(q) == (if pick(q) {
        t
    } else {
        old.tile_at(q)
    })
}

/// Step on a tile. On the tutorial grid (depth 2), the pressure plate at
/// `(38, 28)` opens the two-tile door at `(35, 28)` when it is walled and
/// walls it when it is open, and says so in green.
pub fn activate_pressure_plate(depth: u32, pos: Position, map: &mut TileMap, log: &mut EventLog)
    requires
        old(map).wf(),
        old(log).wf(),
        depth == 2 && pos == (Position { x: 38i32, y: 28i32 }) ==> old(map).spec_contains(
            Position { x: 35i32, y: 28i32 },
        ),
    ensures
        final(log).wf(),
        depth == 2 && pos == (Position { x: 38i32, y: 28i32 }) ==> {
            let closed = old(map).tile_at(Position { x: 35i32, y: 28i32 }) == TileType::Wall;
            &&& map_with(
                *old(map),
                *final(map),
                |q: Position| q.x == 35 && (q.y == 28 || q.y == 29),
                if closed {
                    TileType::Floor
                } else {
                    TileType::Wall
                },
            )
            &&& final(log).lines() == appended(
                old(log).lines(),
                (
                    if closed {
                        "Click. The door opens."@
                    } else {
                        "Click. The door slides shut behind you."@
                    },
                    Some((0u8, 255u8, 0u8)),
                ),
            )
        },
        !(depth == 2 && pos == (Position { x: 38i32, y: 28i32 })) ==> *final(map) == *old(map) && *final(log) == *old(
            log,
        ),
{
    if depth == 2 && pos.x == 38 && pos.y == 28 {
        let door_pos = Position::new(35, 28);
        let below = Position::new(35, 29);
        let closed = map.tile(door_pos) == TileType::Wall;
        let t = if closed {
            TileType::Floor
        } else {
            TileType::Wall
        };
        let ghost m0 = *map;
        map.set_tile(door_pos, t);
        let ghost m1 = *map;
        map.set_tile(below, t);
        proof {
            assert forall|q: Position| #[trigger] map.spec_contains(q) implies map.tile_at(q) == (if q.x == 35 && (q.y
                == 28 || q.y == 29) {
                t
            } else {
                m0.tile_at(q)
            }) by {
                assert(m0.spec_contains(q));
                lemma_set_tile_reads(m0, m1, door_pos, t, q);
                if m1.spec_contains(below) {
                    lemma_set_tile_reads(m1, *map, below, t, q);
                }
            }
        }
        if closed {
            log.push_colored("Click. The door opens.".to_owned(), green());
        } else {
            log.push_colored("Click. The door slides shut behind you.".to_owned(), green());
        }
    }
}

/// Walk into a tile. On the counting room (depth 8) a locked door is
/// handled: with a memory-key in hand the last key is spent and the door
/// opens (cyan message); without one the door stays shut (yellow message).
/// Returns whether the tile was a locked door of the counting room.
pub fn try_open_counting_room_door(
    depth: u32,
    target: Position,
    held_keys: &mut Vec<String>,
    map: &mut TileMap,
    log: &mut EventLog,
) -> (handled: bool)
    requires
        old(map).wf(),
        old(log).wf(),
    ensures
        handled == (depth == 8 && locked_door_at(target)),
        final(log).wf(),
        handled && old(held_keys)@.len() > 0 ==> {
            &&& final(held_keys)@ == old(held_keys)@.drop_last()
            &&& map_with(*old(map), *final(map), |q: Position| q == target, TileType::Floor)
            &&& final(log).lines() == appended(
                old(log).lines(),
                ("The key dissolves in your hand. The locked door opens."@, Some((0u8, 255u8, 255u8))),
            )
        },
        handled && old(held_keys)@.len() == 0 ==> {
            &&& final(held_keys)@ == old(held_keys)@
            &&& *final(map) == *old(map)
            &&& final(log).lines() == appended(
                old(log).lines(),
                (
                    "The door is locked. Somewhere nearby, a key-goblin is carrying what you need."@,
                    Some((255u8, 255u8, 0u8)),
                ),
            )
        },
        !handled ==> final(held_keys)@ == old(held_keys)@ && *final(map) == *old(map) && *final(log) == *old(log),
{
    if depth != 8 || !counting_room_locked_door(target) {
        return false;
    }
    if held_keys.len() > 0 {
        held_keys.pop();
        let ghost m0 = *map;
        map.set_tile(target, TileType::Floor);
        proof {
            assert forall|q: Position| #[trigger] map.spec_contains(q) implies map.tile_at(q) == (if q == target {
                TileType::Floor
            } else {
                m0.tile_at(q)
            }) by {
                if m0.spec_contains(target) {
                    lemma_set_tile_reads(m0, *map, target, TileType::Floor, q);
                }
            }
        }
        log.push_colored("The key dissolves in your hand. The locked door opens.".to_owned(), cyan());
    } else {
        log.push_colored(
            "The door is locked. Somewhere nearby, a key-goblin is carrying what you need.".to_owned(),
            yellow(),
        );
    }
    true
}

/// The name of the `n`-th memory-key.
pub open spec fn memory_key_name(n: nat) -> Seq<char> {
    "memory-key-"@ + decimal(n)
}

/// A goblin killed on the counting room (depth 8) drops a memory-key while
/// fewer than three are held: the key is added to the held keys and the
/// pick-up is logged in cyan.
pub fn award_counting_room_key(depth: u32, target_kind: EntityKind, held_keys: &mut Vec<String>, log: &mut EventLog)
    requires
        old(log).wf(),
    ensures
        final(log).wf(),
        depth == 8 && target_kind == EntityKind::Goblin && old(held_keys)@.len() < 3 ==> {
            &&& final(held_keys)@.len() == old(held_keys)@.len() + 1
            &&& final(held_keys)@.drop_last() == old(held_keys)@
            &&& final(held_keys)@.last()@ == memory_key_name((old(held_keys)@.len() + 1) as nat)
            &&& final(log).lines() == appended(
                old(log).lines(),
                ("A memory-key clatters to the floor. You pick it up."@, Some((0u8, 255u8, 255u8))),
            )
        },
        !(depth == 8 && target_kind == EntityKind::Goblin && old(held_keys)@.len() < 3) ==> final(held_keys)@ == old(
            held_keys,
        )@ && *final(log) == *old(log),
{
    if depth == 8 && target_kind == EntityKind::Goblin && held_keys.len() < 3 {
        let number = decimal_string((held_keys.len() + 1) as u32);
        let mut name: Vec<char> = chars_of("memory-key-");
        let digits = chars_of(number.as_str());
        let ghost prefix = name@;
        let mut i: usize = 0;
        while i < digits.len()
            invariant
                name@ == prefix + digits@.take(i as int),
                i <= digits@.len(),
            decreases digits@.len() - i,
        {
            name.push(digits[i]);
            assert(name@ =~= prefix + digits@.take(i + 1));
            i = i + 1;
        }
        assert(digits@.take(digits@.len() as int) =~= digits@);
        let key_id = string_from_chars(name.as_slice());
        let ghost before = held_keys@;
        held_keys.push(key_id);
        proof {
            assert(held_keys@.drop_last() =~= before);
        }
        log.push_colored("A memory-key clatters to the floor. You pick it up.".to_owned(), cyan());
    }
}

/// Whether the column is one of the gauntlet's barriers.
pub open spec fn barrier_column(x: int) -> bool {
    x == 7 || x == 13 || x == 19 || x == 25 || x == 31 || x == 37 || x == 43 || x == 49
}

/// The `k`-th column tried when the barrier at `bx` closes: one step west,
/// one east, two west, two east, up to eight.
pub open spec fn evacuation_column(bx: int, k: int) -> int {
    if k % 2 == 0 {
        bx - (k / 2 + 1)
    } else {
        bx + (k / 2 + 1)
    }
}

/// Whether an entity can be moved to `(x, y)`: not a barrier column,
/// walkable, and free of entities.
pub open spec fn evacuation_spot(map: TileMap, occupied: Seq<Position>, x: int, y: int) -> bool {
    &&& !barrier_column(x)
    &&& map.walkable_at(Position { x: x as i32, y: y as i32 })
    &&& !occupied.contains(Position { x: x as i32, y: y as i32 })
}

/// Where to move an entity standing in the gauntlet barrier at column `bx`
/// as it closes: the first suitable tile of the corridor row, trying one
/// step west, one east, two west, and so on up to eight; `None` when none
/// of them suits.
pub fn gauntlet_barrier_evacuation_pos(map: &TileMap, occupied: &Vec<Position>, bx: i32, corridor_y: i32) -> (r:
    Option<Position>)
    requires
        map.wf(),
        i32::MIN + 8 <= bx <= i32::MAX - 8,
    ensures
        match r {
            Some(p) => exists|k: int|
                0 <= k < 16 && p == (Position { x: evacuation_column(bx as int, k) as i32, y: corridor_y })
                    && evacuation_spot(
                    *map, occupied@, evacuation_column(bx as int, k), corridor_y as int) && forall|
                    j: int,
                | 0 <= j < k ==> !#[trigger] evacuation_spot(
                    *map,
                    occupied@,
                    evacuation_column(bx as int, j),
                    corridor_y as int,
                ),
            None => forall|k: int|
                0 <= k < 16 ==> !#[trigger] evacuation_spot(
                    *map,
                    occupied@,
                    evacuation_column(bx as int, k),
                    corridor_y as int,
                ),
        },
{
    let mut k: i32 = 0;
    while k < 16
        invariant
            map.wf(),
            i32::MIN + 8 <= bx <= i32::MAX - 8,
            0 <= k <= 16,
            forall|j: int|
                0 <= j < k ==> !#[trigger] evacuation_spot(
                    *map,
                    occupied@,
                    evacuation_column(bx as int, j),
                    corridor_y as int,
                ),
        decreases 16 - k,
    {
        let distance = k / 2 + 1;
        let x = if k % 2 == 0 {
            bx - distance
        } else {
            bx + distance
        };
        assert(x == evacuation_column(bx as int, k as int));
        let barrier = x == 7 || x == 13 || x == 19 || x == 25 || x == 31 || x == 37 || x == 43 || x == 49;
        if !barrier {
            let candidate = Position::new(x, corridor_y);
            if map.is_walkable(candidate) {
                let mut taken = false;
                let mut i: usize = 0;
                while i < occupied.len()
                    invariant
                        i <= occupied@.len(),
                        taken == exists|t: int| 0 <= t < i && occupied@[t] == candidate,
                    decreases occupied@.len() - i,
                {
                    if occupied[i] == candidate {
                        taken = true;
                    }
                    i = i + 1;
                }
                if !taken {
                    proof {
                        assert(!occupied@.contains(candidate)) by {
                            if occupied@.contains(candidate) {
                                let t = choose|t: int| 0 <= t < occupied@.len() && occupied@[t] == candidate;
                            }
                        }
                        assert(evacuation_spot(
                    *map, occupied@, evacuation_column(bx as int, k as int), corridor_y as int));
                    }
                    return Some(candidate);
                }
            }
        }
        k = k + 1;
    }
    None
}

/// Whether the console text asks the maze to hold still.
pub open spec fn asks_to_hold_still(buffer: Seq<char>) -> bool {
    let b = trimmed(buffer);
    has_infix(b, "(quote :still)"@) || has_infix(b, "':still"@) || b == ":still"@
}

/// One tick of the maze of regret (depth 10), whose listed walls shift.
/// Unless frozen, text in the console asking it to hold still freezes it
/// (with a cyan message). Otherwise, unfrozen, every listed wall tile that
/// no entity stands on becomes wall on even turns and floor on odd ones.
pub fn shift_maze_walls(
    depth: u32,
    turn: u64,
    console_buffer: &str,
    walls: &Vec<Position>,
    occupied: &Vec<Position>,
    frozen: &mut bool,
    map: &mut TileMap,
    log: &mut EventLog,
)
    requires
        old(map).wf(),
        old(log).wf(),
    ensures
        final(map).wf(),
        final(log).wf(),
        depth != 10 || walls@.len() == 0 ==> *final(frozen) == *old(frozen) && *final(map) == *old(map) && *final(log)
            == *old(log),
        depth == 10 && walls@.len() > 0 && !*old(frozen) && asks_to_hold_still(console_buffer@) ==> {
            &&& *final(frozen)
            &&& *final(map) == *old(map)
            &&& final(log).lines() == appended(
                old(log).lines(),
                ("The walls shudder... and stop. The maze holds its breath."@, Some((0u8, 255u8, 255u8))),
            )
        },
        depth == 10 && walls@.len() > 0 && *old(frozen) ==> *final(frozen) && *final(map) == *old(map) && *final(log)
            == *old(log),
        depth == 10 && walls@.len() > 0 && !*old(frozen) && !asks_to_hold_still(console_buffer@) ==> {
            &&& !*final(frozen)
            &&& *final(log) == *old(log)
            &&& map_with(
                *old(map),
                *final(map),
                |q: Position| walls@.contains(q) && !occupied@.contains(q),
                if turn % 2 == 0 {
                    TileType::Wall
                } else {
                    TileType::Floor
                },
            )
        },
{
    if depth != 10 || walls.len() == 0 {
        return;
    }
    if !*frozen {
        let trimmed_text = trim_text(console_buffer);
        let buffer = chars_of(trimmed_text.as_str());
        if contains_text(&buffer, "(quote :still)") || contains_text(&buffer, "':still") || str_eq(
            trimmed_text.as_str(),
            ":still",
        ) {
            *frozen = true;
            log.push_colored("The walls shudder... and stop. The maze holds its breath.".to_owned(), cyan());
            return;
        }
    }
    if *frozen {
        return;
    }
    let new_tile = if turn % 2 == 0 {
        TileType::Wall
    } else {
        TileType::Floor
    };
    let ghost start = *map;
    let mut k: usize = 0;
    while k < walls.len()
        invariant
            map.wf(),
            map.spec_width() == start.spec_width(),
            map.spec_height() == start.spec_height(),
            k <= walls@.len(),
            forall|q: Position| #[trigger] map.spec_contains(q) ==> map.tile_at(q) == (if walls@.take(k as int).contains(q)
                && !occupied@.contains(q) {
                new_tile
            } else {
                start.tile_at(q)
            }),
        decreases walls@.len() - k,
    {
        let pos = walls[k];
        let mut taken = false;
        let mut i: usize = 0;
        while i < occupied.len()
            invariant
                i <= occupied@.len(),
                taken == exists|t: int| 0 <= t < i && occupied@[t] == pos,
            decreases occupied@.len() - i,
        {
            if occupied[i] == pos {
                taken = true;
            }
            i = i + 1;
        }
        let ghost before = *map;
        if !taken {
            map.set_tile(pos, new_tile);
        }
        proof {
            assert forall|q: Position| #[trigger] map.spec_contains(q) implies map.tile_at(q) == (if walls@.take(k + 1).contains(
                q,
            ) && !occupied@.contains(q) {
                new_tile
            } else {
                start.tile_at(q)
            }) by {
                assert(before.spec_contains(q));
                let pre = walls@.take(k as int);
                let post = walls@.take(k + 1);
                assert(post[k as int] == pos);
                if pre.contains(q) {
                    let j = choose|j: int| 0 <= j < pre.len() && pre[j] == q;
                    assert(post[j] == q);
                }
                if post.contains(q) && q != pos {
                    let j = choose|j: int| 0 <= j < post.len() && post[j] == q;
                    assert(pre[j] == q);
                }
                if !taken && before.spec_contains(pos) {
                    lemma_set_tile_reads(before, *map, pos, new_tile, q);
                }
                if taken {
                    let t = choose|t: int| 0 <= t < occupied@.len() && occupied@[t] == pos;
                    assert(occupied@.contains(pos));
                }
                if !taken {
                    assert(!occupied@.contains(pos)) by {
                        if occupied@.contains(pos) {
                            let t = choose|t: int| 0 <= t < occupied@.len() && occupied@[t] == pos;
                        }
                    }
                }
            }
        }
        k = k + 1;
    }
    proof {
        assert(walls@.take(walls@.len() as int) =~= walls@);
    }
}

} // verus!
