//! Grid positions, facing directions and the kinds of things that live in the
//! dungeon.

use vstd::prelude::*;

verus! {

/// A tile coordinate. `x` grows to the east, `y` grows to the south.
#[derive(Clone, Copy, Debug, PartialEq, Eq, Hash, Structural)]
pub struct Position {
    pub x: i32,
    pub y: i32,
}

impl Position {
    pub fn new(x: i32, y: i32) -> (p: Position)
        ensures
            p.x == x,
            p.y == y,
    {
        Position { x, y }
    }

    /// The position shifted by `(dx, dy)`.
    pub fn offset(self, dx: i32, dy: i32) -> (p: Position)
        requires
            i32::MIN <= self.x + dx <= i32::MAX,
            i32::MIN <= self.y + dy <= i32::MAX,
        ensures
            p.x == self.x + dx,
            p.y == self.y + dy,
    {
        Position { x: self.x + dx, y: self.y + dy }
    }

    /// Taxicab distance between two positions.
    pub fn manhattan_distance(self, other: Position) -> (d: i32)
        requires
            manhattan(self, other) <= i32::MAX,
        ensures
            d == manhattan(self, other),
    {
        let dx: i64 = if self.x >= other.x {
            self.x as i64 - other.x as i64
        } else {
            other.x as i64 - self.x as i64
        };
        let dy: i64 = if self.y >= other.y {
            self.y as i64 - other.y as i64
        } else {
            other.y as i64 - self.y as i64
        };
        (dx + dy) as i32
    }
}

pub open spec fn abs_int(v: int) -> int {
    if v < 0 {
        -v
    } else {
        v
    }
}

/// Taxicab distance between two positions.
pub open spec fn manhattan(a: Position, b: Position) -> int {
    abs_int(a.x - b.x) + abs_int(a.y - b.y)
}

/// One of the four directions the player can face or move in.
#[derive(Clone, Copy, Debug, PartialEq, Eq, Hash, Structural)]
pub enum Direction {
    North,
    South,
    West,
    East,
}

/// The unit step of a direction: north is `-y`, south is `+y`.
pub open spec fn direction_delta(d: Direction) -> (int, int) {
    match d {
        Direction::North => (0, -1),
        Direction::South => (0, 1),
        Direction::West => (-1, 0),
        Direction::East => (1, 0),
    }
}

impl Direction {
    /// The unit step `(dx, dy)` of this direction.
    pub fn delta(self) -> (r: (i32, i32))
        ensures
            r.0 == direction_delta(self).0,
            r.1 == direction_delta(self).1,
    {
        match self {
            Direction::North => (0, -1),
            Direction::South => (0, 1),
            Direction::West => (-1, 0),
            Direction::East => (1, 0),
        }
    }
}

/// Every kind of entity that can be spawned in the dungeon.
#[derive(Clone, Copy, Debug, PartialEq, Eq, Hash, Structural)]
pub enum EntityKind {
    Player,
    Slime,
    Goblin,
    Bat,
    Ogre,
    Wizard,
    Barrel,
    Sign,
    Fragment,
    Shade,
    Rage,
    Sentry,
    ShadeEcho,
    VaporCanteen,
}

/// The display name of an entity kind (also its save-file spelling).
pub open spec fn kind_name(k: EntityKind) -> Seq<char> {
    match k {
        EntityKind::Player => "player"@,
        EntityKind::Slime => "slime"@,
        EntityKind::Goblin => "goblin"@,
        EntityKind::Bat => "bat"@,
        EntityKind::Ogre => "ogre"@,
        EntityKind::Wizard => "wizard"@,
        EntityKind::Barrel => "barrel"@,
        EntityKind::Sign => "sign"@,
        EntityKind::Fragment => "memory fragment"@,
        EntityKind::Shade => "shade"@,
        EntityKind::Rage => "rage"@,
        EntityKind::Sentry => "sentry"@,
        EntityKind::ShadeEcho => "shade echo"@,
        EntityKind::VaporCanteen => "vapor canteen"@,
    }
}

/// The id of the enemy-AI rule that drives an entity kind; empty for kinds
/// that no rule drives.
pub open spec fn kind_rule_name(k: EntityKind) -> Seq<char> {
    match k {
        EntityKind::Slime => "slime-hunt"@,
        EntityKind::Goblin => "goblin-patrol"@,
        EntityKind::Bat => "bat-flutter"@,
        EntityKind::Ogre => "ogre-charge"@,
        EntityKind::Shade => "shade-follow"@,
        EntityKind::Rage => "rage-impact"@,
        EntityKind::Sentry => "sentry-patrol"@,
        _ => ""@,
    }
}

impl EntityKind {
    /// The display name of this kind.
    pub fn name(self) -> (s: &'static str)
        ensures
            s@ == kind_name(self),
    {
        match self {
            EntityKind::Player => "player",
            EntityKind::Slime => "slime",
            EntityKind::Goblin => "goblin",
            EntityKind::Bat => "bat",
            EntityKind::Ogre => "ogre",
            EntityKind::Wizard => "wizard",
            EntityKind::Barrel => "barrel",
            EntityKind::Sign => "sign",
            EntityKind::Fragment => "memory fragment",
            EntityKind::Shade => "shade",
            EntityKind::Rage => "rage",
            EntityKind::Sentry => "sentry",
            EntityKind::ShadeEcho => "shade echo",
            EntityKind::VaporCanteen => "vapor canteen",
        }
    }

    /// The id of the rule that drives this kind, or `""`.
    pub fn rule_name(self) -> (s: &'static str)
        ensures
            s@ == kind_rule_name(self),
    {
        match self {
            EntityKind::Slime => "slime-hunt",
            EntityKind::Goblin => "goblin-patrol",
            EntityKind::Bat => "bat-flutter",
            EntityKind::Ogre => "ogre-charge",
            EntityKind::Shade => "shade-follow",
            EntityKind::Rage => "rage-impact",
            EntityKind::Sentry => "sentry-patrol",
            _ => "",
        }
    }
}

} // verus!
