//! What a step of the player comes to: the decision of a move, from the map,
//! the entities and the player's state to what happens and what it costs.
//! The game carries the outcome out (the dialogue, the pickup, the blow, the
//! tile's rule).

use vstd::prelude::*;

use crate::entity::{direction_delta, Direction, EntityKind, Position};
use crate::game::ActionCost;
use crate::map::TileMap;
use crate::mechanics::{counting_room_locked_door, locked_door_at};

verus! {

/// What a step of the player comes to.
#[derive(Clone, Copy, Debug, PartialEq, Eq, Structural)]
pub enum StepOutcome {
    /// The target is not walkable: the player bumps into a wall.
    Bump,
    /// A locked door of the counting room, opened with a held key.
    OpenDoor,
    /// A locked door of the counting room, and no key to open it.
    LockedDoor,
    /// The wizard at this index of the entities is spoken to.
    Wizard(usize),
    /// The sign at this index is read.
    Sign(usize),
    /// The memory fragment at this index is picked up.
    Fragment(usize),
    /// The item at this index (a Shade Echo or a Vapor Canteen) is picked up.
    PickUp(usize),
    /// The barrel at this index is broken.
    Barrel(usize),
    /// The creature at this index is shoved back onto this tile.
    Shove(usize, Position),
    /// The creature at this index is shoved but does not budge.
    ShoveBlocked(usize),
    /// The creature at this index is struck.
    Strike(usize),
    /// The player moves onto this tile.
    MoveTo(Position),
}

/// The index of the first entity standing on `p`, from `k` on; `-1` when
/// there is none.
pub open spec fn first_at_from(es: Seq<(Position, EntityKind)>, p: Position, k: int) -> int
    decreases es.len() - k,
{
    if k < 0 || k >= es.len() {
        -1
    } else if es[k].0 == p {
        k
    } else {
        first_at_from(es, p, k + 1)
    }
}

/// The index of the first entity standing on `p`; `-1` when there is none.
pub open spec fn first_at(es: Seq<(Position, EntityKind)>, p: Position) -> int {
    first_at_from(es, p, 0)
}

/// A kind the player fights: anything but the wizard, a sign, a memory
/// fragment, an item and a barrel.
pub open spec fn creature_kind(k: EntityKind) -> bool {
    k != EntityKind::Wizard && k != EntityKind::Sign && k != EntityKind::Fragment && k != EntityKind::ShadeEcho
        && k != EntityKind::VaporCanteen && k != EntityKind::Barrel
}

/// The tile one step from `p` in direction `dir`.
pub open spec fn step_from(p: Position, dir: Direction) -> Position {
    Position { x: (p.x + direction_delta(dir).0) as i32, y: (p.y + direction_delta(dir).1) as i32 }
}

/// What a step in `dir` comes to and costs. A target that is not walkable
/// is a locked counting-room door on depth 8 (opened when a key is held) or
/// a wall to bump; either takes a tick. On a walkable target the first
/// entity there decides: the wizard, a sign and a barrel take a tick, a
/// fragment or an item is picked up for free; any other creature is shoved
/// for free while the player cannot attack (back one tile when that tile is
/// walkable and empty) and struck for a tick once they can. An empty target
/// is moved onto for a tick.
pub open spec fn player_step_spec(
    map: TileMap,
    player: Position,
    es: Seq<(Position, EntityKind)>,
    can_attack: bool,
    depth: u32,
    held_keys: usize,
    dir: Direction,
) -> (StepOutcome, ActionCost) {
    let target = step_from(player, dir);
    if !map.walkable_at(target) {
        if depth == 8 && locked_door_at(target) {
            if held_keys > 0 {
                (StepOutcome::OpenDoor, ActionCost::Tick)
            } else {
                (StepOutcome::LockedDoor, ActionCost::Tick)
            }
        } else {
            (StepOutcome::Bump, ActionCost::Tick)
        }
    } else {
        let i = first_at(es, target);
        if i < 0 {
            (StepOutcome::MoveTo(target), ActionCost::Tick)
        } else {
            match es[i].1 {
                EntityKind::Wizard => (StepOutcome::Wizard(i as usize), ActionCost::Tick),
                EntityKind::Sign => (StepOutcome::Sign(i as usize), ActionCost::Tick),
                EntityKind::Fragment => (StepOutcome::Fragment(i as usize), ActionCost::Free),
                EntityKind::ShadeEcho => (StepOutcome::PickUp(i as usize), ActionCost::Free),
                EntityKind::VaporCanteen => (StepOutcome::PickUp(i as usize), ActionCost::Free),
                EntityKind::Barrel => (StepOutcome::Barrel(i as usize), ActionCost::Tick),
                _ => if !can_attack {
                    let back = step_from(target, dir);
                    if map.walkable_at(back) && first_at(es, back) < 0 {
                        (StepOutcome::Shove(i as usize, back), ActionCost::Free)
                    } else {
                        (StepOutcome::ShoveBlocked(i as usize), ActionCost::Free)
                    }
                } else {
                    (StepOutcome::Strike(i as usize), ActionCost::Tick)
                },
            }
        }
    }
}

/// The first entity found on `p` from `k` on lies within the list, at or
/// after `k`, and stands on `p`.
pub proof fn lemma_first_at_bounds(es: Seq<(Position, EntityKind)>, p: Position, k: int)
    requires
        0 <= k,
    ensures
        -1 <= first_at_from(es, p, k) < es.len(),
        first_at_from(es, p, k) >= 0 ==> first_at_from(es, p, k) >= k && es[first_at_from(es, p, k)].0 == p,
    decreases es.len() - k,
{
    if k < es.len() && es[k].0 != p {
        lemma_first_at_bounds(es, p, k + 1);
    }
}

/// The first entity on `p`.
fn find_first_at(es: &Vec<(Position, EntityKind)>, p: Position) -> (r: Option<usize>)
    ensures
        match r {
            Some(i) => first_at(es@, p) == i as int,
            None => first_at(es@, p) == -1,
        },
{
    let mut k: usize = 0;
    while k < es.len()
        invariant
            k <= es@.len(),
            first_at(es@, p) == first_at_from(es@, p, k as int),
        decreases es.len() - k,
    {
        if es[k].0 == p {
            return Some(k);
        }
        k = k + 1;
    }
    None
}

fn step(p: Position, dir: Direction) -> (q: Position)
    requires
        i32::MIN < p.x < i32::MAX,
        i32::MIN < p.y < i32::MAX,
    ensures
        q == step_from(p, dir),
{
    let (dx, dy) = dir.delta();
    Position::new(p.x + dx, p.y + dy)
}

/// What a step of the player in `dir` comes to and what it costs (see
/// `player_step_spec`); `entities` are where the other entities stand and
/// what they are, `held_keys` how many counting-room keys the player holds.
pub fn player_step(
    map: &TileMap,
    player: Position,
    entities: &Vec<(Position, EntityKind)>,
    player_can_attack: bool,
    depth: u32,
    held_keys: usize,
    dir: Direction,
) -> (r: (StepOutcome, ActionCost))
    requires
        map.wf(),
        i32::MIN + 2 <= player.x <= i32::MAX - 2,
        i32::MIN + 2 <= player.y <= i32::MAX - 2,
    ensures
        r == player_step_spec(*map, player, entities@, player_can_attack, depth, held_keys, dir),
        ({
            let target = step_from(player, dir);
            let i = first_at(entities@, target);
            let back = step_from(target, dir);
            &&& !map.walkable_at(target) ==> r.1 == ActionCost::Tick && (r.0 == StepOutcome::Bump || r.0
                == StepOutcome::OpenDoor || r.0 == StepOutcome::LockedDoor)
            &&& r.0 == StepOutcome::OpenDoor ==> !map.walkable_at(target) && depth == 8 && locked_door_at(target)
                && held_keys > 0
            &&& r.0 == StepOutcome::LockedDoor ==> !map.walkable_at(target) && depth == 8 && locked_door_at(target)
                && held_keys == 0
            &&& r.0 == StepOutcome::Bump ==> !map.walkable_at(target) && !(depth == 8 && locked_door_at(target))
            &&& map.walkable_at(target) && i < 0 ==> r == (StepOutcome::MoveTo(target), ActionCost::Tick)
            &&& map.walkable_at(target) && 0 <= i ==> {
                let k = entities@[i].1;
                &&& k == EntityKind::Wizard ==> r == (StepOutcome::Wizard(i as usize), ActionCost::Tick)
                &&& k == EntityKind::Sign ==> r == (StepOutcome::Sign(i as usize), ActionCost::Tick)
                &&& k == EntityKind::Fragment ==> r == (StepOutcome::Fragment(i as usize), ActionCost::Free)
                &&& (k == EntityKind::ShadeEcho || k == EntityKind::VaporCanteen) ==> r == (
                    StepOutcome::PickUp(i as usize),
                    ActionCost::Free,
                )
                &&& k == EntityKind::Barrel ==> r == (StepOutcome::Barrel(i as usize), ActionCost::Tick)
                &&& creature_kind(k) && player_can_attack ==> r == (StepOutcome::Strike(i as usize), ActionCost::Tick)
                &&& creature_kind(k) && !player_can_attack && map.walkable_at(back) && first_at(entities@, back) < 0
                    ==> r == (StepOutcome::Shove(i as usize, back), ActionCost::Free)
                &&& creature_kind(k) && !player_can_attack && !(map.walkable_at(back) && first_at(entities@, back)
                    < 0) ==> r == (StepOutcome::ShoveBlocked(i as usize), ActionCost::Free)
            }
            &&& (r.0 is Shove || r.0 is ShoveBlocked) ==> !player_can_attack
            &&& r.0 is Strike ==> player_can_attack
        }),
{
    let target = step(player, dir);
    if !map.is_walkable(target) {
        if depth == 8 && counting_room_locked_door(target) {
            if held_keys > 0 {
                return (StepOutcome::OpenDoor, ActionCost::Tick);
            } else {
                return (StepOutcome::LockedDoor, ActionCost::Tick);
            }
        }
        return (StepOutcome::Bump, ActionCost::Tick);
    }
    proof {
        lemma_first_at_bounds(entities@, target, 0);
    }
    match find_first_at(entities, target) {
        None => (StepOutcome::MoveTo(target), ActionCost::Tick),
        Some(i) => {
            let kind = entities[i].1;
            match kind {
                EntityKind::Wizard => (StepOutcome::Wizard(i), ActionCost::Tick),
                EntityKind::Sign => (StepOutcome::Sign(i), ActionCost::Tick),
                EntityKind::Fragment => (StepOutcome::Fragment(i), ActionCost::Free),
                EntityKind::ShadeEcho => (StepOutcome::PickUp(i), ActionCost::Free),
                EntityKind::VaporCanteen => (StepOutcome::PickUp(i), ActionCost::Free),
                EntityKind::Barrel => (StepOutcome::Barrel(i), ActionCost::Tick),
                _ => {
                    if !player_can_attack {
                        let back = step(target, dir);
                        proof {
                            lemma_first_at_bounds(entities@, back, 0);
                        }
                        if map.is_walkable(back) && find_first_at(entities, back).is_none() {
                            (StepOutcome::Shove(i, back), ActionCost::Free)
                        } else {
                            (StepOutcome::ShoveBlocked(i), ActionCost::Free)
                        }
                    } else {
                        (StepOutcome::Strike(i), ActionCost::Tick)
                    }
                },
            }
        },
    }
}

/// A step is free exactly when it picks something up or shoves; every
/// other step (a bump, a door, a word with the wizard, a sign, a barrel, a
/// blow, a move) takes a tick.
pub proof fn lemma_step_cost(
    map: TileMap,
    player: Position,
    es: Seq<(Position, EntityKind)>,
    can_attack: bool,
    depth: u32,
    held_keys: usize,
    dir: Direction,
)
    ensures
        ({
            let r = player_step_spec(map, player, es, can_attack, depth, held_keys, dir);
            r.1 == ActionCost::Free <==> (r.0 is Fragment || r.0 is PickUp || r.0 is Shove || r.0 is ShoveBlocked)
        }),
        player_step_spec(map, player, es, can_attack, depth, held_keys, dir).1 != ActionCost::Quit,
{
}

} // verus!
